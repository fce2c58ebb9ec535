//! The numbers a TAF names things by.

use vstd::prelude::*;

verus! {

/// The id of a TAF's audio, which is the serial number of its every Ogg page.
#[derive(Debug, Clone, Copy, PartialEq, Eq, Hash, Structural)]
pub struct AudioId(pub u32);

impl AudioId {
    /// The id `value` states.
    pub fn new(value: u32) -> (id: Self)
        ensures
            id.0 == value,
    {
        Self(value)
    }

    /// The number the id is.
    pub fn get(self) -> (value: u32)
        ensures
            value == self.0,
    {
        self.0
    }

    /// The number in decimal, which is what an id is shown as.
    pub fn to_text(self) -> (text: String)
        ensures
            text@ == crate::text::decimal(self.0 as nat),
    {
        let mut text: String = String::new();
        crate::text::put_decimal(&mut text, self.0 as u64);
        assert(text@ =~= crate::text::decimal(self.0 as nat));
        text
    }
}

/// Where a chapter starts: a block of the audio region, counted from the one behind the header. Block
/// `n` begins at file offset `4096 * (n + 1)`.
#[derive(Debug, Clone, Copy, PartialEq, Eq, Hash, Structural)]
pub struct BlockIndex(pub u32);

impl BlockIndex {
    /// The block `value` counts to.
    pub fn new(value: u32) -> (index: Self)
        ensures
            index.0 == value,
    {
        Self(value)
    }

    /// How many blocks lie in front of it.
    pub fn get(self) -> (value: u32)
        ensures
            value == self.0,
    {
        self.0
    }
}

} // verus!
