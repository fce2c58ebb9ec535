//! The Ogg pages a TAF's audio region is made of.
//!
//! An Ogg page is a header of 27 bytes, a lacing table of up to 255 values and the bytes that table
//! describes. A packet is laced as one value of 255 for every 255 bytes of it and one smaller value
//! that ends it, so a value below 255 is where a packet stops.

pub mod builder;
pub mod crc;
pub mod page;

pub use builder::{
    opus_head, opus_tags, packet_cost, BuildError, Draft, PageBuilder, MAX_PACKET_LEN, OPUS_HEAD_LEN,
    OPUS_HEAD_MAGIC, OPUS_PRE_SKIP, OPUS_TAGS_LEN, OPUS_TAGS_MAGIC,
};
pub use page::{Page, PageError, PageView, Packets};

use vstd::prelude::*;

verus! {

/// The bytes a page of a TAF's audio region fills a block with.
pub const PAGE_LEN: usize = 4096;

/// The bytes of a page header in front of its lacing table.
pub const HEADER_LEN: usize = 27;

/// What every page begins with.
pub const MAGIC: [u8; 4] = [0x4f, 0x67, 0x67, 0x53];

/// The one version of Ogg there is.
pub const VERSION: u8 = 0;

/// Where the checksum lies in a page header.
pub const CHECKSUM_AT: usize = 22;

/// The bytes of a checksum.
pub const CHECKSUM_LEN: usize = 4;

/// The flag of a page that carries on a packet from the page in front of it.
pub const FLAG_CONTINUED: u8 = 0x01;

/// The flag of the page a stream begins with.
pub const FLAG_FIRST: u8 = 0x02;

/// The flag of the page a stream ends with.
pub const FLAG_LAST: u8 = 0x04;

/// The lacing value behind which a packet goes on.
pub const CONTINUES: u8 = 255;

/// The bytes of a packet one lacing value counts at the most.
pub const SEGMENT_LEN: usize = 255;

/// The values a lacing table holds at the most.
pub const MAX_SEGMENTS: usize = 255;

} // verus!
