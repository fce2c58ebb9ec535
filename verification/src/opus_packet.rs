//! Padding an Opus packet to a length of one's choosing without touching its frames.
//!
//! An Opus packet is a table-of-contents byte, an optional framing of its frames, and the frames
//! themselves. Only one of the four framings can state padding, so a packet that is to grow is
//! framed anew in that one — with the frames, byte for byte, it had.

use crate::bytes::{put, put_run};
use vstd::prelude::*;
use vstd::slice::slice_subrange;
use vstd::string::StringExecFns;

verus! {

/// Why a packet cannot be padded.
#[derive(Debug, Clone, Copy, PartialEq, Eq, Structural)]
#[non_exhaustive]
pub enum PadError {
    /// There is no packet at all.
    EmptyPacket,
    /// The packet is longer than the length asked for.
    TargetTooSmall,
    /// The length asked for is more than an Ogg page carries.
    TargetTooLarge,
    /// The packet does not divide into the frames it states.
    MalformedToc,
}

impl PadError {
    /// What the error says.
    pub open spec fn said(self) -> Seq<char> {
        match self {
            PadError::EmptyPacket => "an Opus packet is at least one byte"@,
            PadError::TargetTooSmall => {
                "an Opus packet cannot be padded to fewer bytes than it has"@
            },
            PadError::TargetTooLarge => {
                "an Opus packet cannot be padded past the 65024 bytes an Ogg page carries"@
            },
            PadError::MalformedToc => {
                "an Opus packet does not divide into the frames its TOC byte states"@
            },
        }
    }

    /// What went wrong, in words.
    pub fn message(&self) -> (text: String)
        ensures
            text@ == self.said(),
    {
        String::from_str(
            match *self {
                PadError::EmptyPacket => "an Opus packet is at least one byte",
                PadError::TargetTooSmall => {
                    "an Opus packet cannot be padded to fewer bytes than it has"
                },
                PadError::TargetTooLarge => {
                    "an Opus packet cannot be padded past the 65024 bytes an Ogg page carries"
                },
                PadError::MalformedToc => {
                    "an Opus packet does not divide into the frames its TOC byte states"
                },
            },
        )
    }
}

/// The longest packet an Ogg page carries.
pub const MAX_PADDED_LEN: usize = 65_024;

/// The bits of the TOC byte that state the framing.
pub const CODE: u8 = 0x03;

/// The framing that states how many frames there are, and the one that can state padding.
pub const CODE_SIGNALLED: u8 = 3;

/// The bits of the frame count byte that hold the count.
pub const COUNT: u8 = 0x3f;

/// The bit of the frame count byte that says there is padding.
pub const PADDED: u8 = 0x40;

/// The bit of the frame count byte that says every frame but the last states its length.
pub const VBR: u8 = 0x80;

/// The frames a packet holds at the most.
pub const MAX_FRAMES: u8 = 48;

/// The first length byte behind which a second one follows.
pub const TWO_BYTE_LEN: u8 = 252;

/// The padding byte behind which another one follows.
pub const PAD_CONTINUES: u8 = 255;

/// What such a byte counts.
pub const PAD_MAX: usize = 254;

/// How a packet divides into frames: how many there are, the bytes their lengths are stated in —
/// none where they are all as long as each other — and the frames, one behind the other.
#[verifier::ext_equal]
pub struct Framing {
    /// How many frames there are.
    pub count: u8,
    /// The lengths of every frame but the last as they are stated, or nothing.
    pub lengths: Seq<u8>,
    /// The frames.
    pub data: Seq<u8>,
}

/// The frame length stated at `at` in `body` and where it ends, where one is stated there.
pub open spec fn length_at(body: Seq<u8>, at: nat) -> Option<(nat, nat)> {
    if at >= body.len() {
        None
    } else if body[at as int] < TWO_BYTE_LEN {
        Some((body[at as int] as nat, at + 1))
    } else if at + 1 >= body.len() {
        None
    } else {
        Some(((body[at as int + 1] * 4 + body[at as int]) as nat, at + 2))
    }
}

/// The first `count` frame lengths stated in `body` and where the last of them ends.
pub open spec fn lengths_in(body: Seq<u8>, count: nat) -> Option<(Seq<nat>, nat)>
    decreases count,
{
    if count == 0 {
        Some((Seq::empty(), 0))
    } else {
        match lengths_in(body, (count - 1) as nat) {
            None => None,
            Some((lengths, at)) => match length_at(body, at) {
                None => None,
                Some((len, end)) => Some((lengths.push(len), end)),
            },
        }
    }
}

/// Lengths, added up.
pub open spec fn total(lengths: Seq<nat>) -> nat
    decreases lengths.len(),
{
    if lengths.len() == 0 {
        0
    } else {
        total(lengths.drop_last()) + lengths.last()
    }
}

/// Whether every length is the same.
pub open spec fn all_equal(lengths: Seq<nat>) -> bool {
    forall|i: int, j: int| 0 <= i < lengths.len() && 0 <= j < lengths.len() ==> lengths[i] == lengths[j]
}

/// Frames as long as each other.
pub open spec fn equal_frames(count: u8, body: Seq<u8>) -> Option<Framing> {
    if count == 0 || body.len() % count as nat != 0 {
        None
    } else {
        Some(Framing { count, lengths: Seq::empty(), data: body })
    }
}

/// Frames of which every one but the last states its length. Lengths that turn out to be equal are
/// not stated any more.
pub open spec fn stated_frames(count: u8, body: Seq<u8>) -> Option<Framing> {
    match lengths_in(body, (count - 1) as nat) {
        None => None,
        Some((lengths, at)) => {
            let data = body.skip(at as int);
            if data.len() < total(lengths) {
                None
            } else if all_equal(lengths.push((data.len() - total(lengths)) as nat)) {
                Some(Framing { count, lengths: Seq::empty(), data })
            } else {
                Some(Framing { count, lengths: body.take(at as int), data })
            }
        },
    }
}

/// The bytes padding is stated in and the padding they come to, where any byte ends them.
pub open spec fn padding_in(bytes: Seq<u8>) -> Option<(nat, nat)>
    decreases bytes.len(),
{
    if bytes.len() == 0 {
        None
    } else if bytes[0] != PAD_CONTINUES {
        Some((1, bytes[0] as nat))
    } else {
        match padding_in(bytes.skip(1)) {
            None => None,
            Some((values, padding)) => Some((values + 1, padding + 254)),
        }
    }
}

/// What lies between the bytes padding is stated in and the padding itself.
pub open spec fn between_padding(bytes: Seq<u8>) -> Option<Seq<u8>> {
    match padding_in(bytes) {
        None => None,
        Some((values, padding)) => if bytes.len() < values + padding {
            None
        } else {
            Some(bytes.subrange(values as int, bytes.len() - padding))
        },
    }
}

/// The framing behind a frame count byte.
pub open spec fn signalled_frames(payload: Seq<u8>) -> Option<Framing> {
    if payload.len() == 0 {
        None
    } else {
        let count = payload[0] & COUNT;
        let body = if payload[0] & PADDED == 0 {
            Some(payload.skip(1))
        } else {
            between_padding(payload.skip(1))
        };
        if count == 0 || count > MAX_FRAMES || body is None {
            None
        } else if payload[0] & VBR == 0 {
            equal_frames(count, body->0)
        } else {
            stated_frames(count, body->0)
        }
    }
}

/// How `packet` divides into frames, where it does.
pub open spec fn framing(packet: Seq<u8>) -> Option<Framing> {
    if packet.len() == 0 {
        None
    } else if packet[0] & CODE == 0 {
        equal_frames(1, packet.skip(1))
    } else if packet[0] & CODE == 1 {
        equal_frames(2, packet.skip(1))
    } else if packet[0] & CODE == 2 {
        stated_frames(2, packet.skip(1))
    } else {
        signalled_frames(packet.skip(1))
    }
}

/// The bytes that state `padding` bytes of growth, themselves counted in.
pub open spec fn stated_padding(padding: nat) -> Seq<u8> {
    if padding == 0 {
        Seq::empty()
    } else {
        Seq::new(((padding - 1) / 255) as nat, |i: int| PAD_CONTINUES).push(
            ((padding - 1) % 255) as u8,
        )
    }
}

/// A packet of `len` bytes holding `frames`: the framing that states padding, the frames, and zeros.
pub open spec fn padded_packet(toc: u8, frames: Framing, len: nat) -> Seq<u8> {
    let growth = (len - 2 - frames.lengths.len() - frames.data.len()) as nat;
    let stated = stated_padding(growth);
    let count = frames.count | (if frames.lengths.len() == 0 {
        0u8
    } else {
        VBR
    }) | (if growth == 0 {
        0u8
    } else {
        PADDED
    });
    seq![toc | CODE_SIGNALLED, count] + stated + frames.lengths + frames.data + Seq::new(
        (growth - stated.len()) as nat,
        |i: int| 0u8,
    )
}

/// What padding `packet` to `len` bytes comes to.
pub open spec fn pad_result(packet: Seq<u8>, len: nat) -> Result<Seq<u8>, PadError> {
    if packet.len() == 0 {
        Err(PadError::EmptyPacket)
    } else if len < packet.len() {
        Err(PadError::TargetTooSmall)
    } else if len > 65_024 {
        Err(PadError::TargetTooLarge)
    } else if len == packet.len() {
        Ok(packet)
    } else {
        match framing(packet) {
            None => Err(PadError::MalformedToc),
            Some(frames) => Ok(padded_packet(packet[0], frames, len)),
        }
    }
}

proof fn lemma_lengths_end(body: Seq<u8>, count: nat)
    ensures
        lengths_in(body, count) matches Some((lengths, at)) ==> lengths.len() == count && at
            <= body.len() && at >= count,
    decreases count,
{
    if count > 0 {
        lemma_lengths_end(body, (count - 1) as nat);
    }
}

proof fn lemma_padding_end(bytes: Seq<u8>)
    ensures
        padding_in(bytes) matches Some((values, padding)) ==> 0 < values <= bytes.len(),
    decreases bytes.len(),
{
    if bytes.len() > 0 && bytes[0] == PAD_CONTINUES {
        lemma_padding_end(bytes.skip(1));
    }
}

/// A framing never takes up more than the packet it was read from: the frames and their lengths are
/// bytes of it, and at most the frame count byte is new.
proof fn lemma_framing_fits(packet: Seq<u8>)
    ensures
        framing(packet) matches Some(frames) ==> {
            &&& 2 + frames.lengths.len() + frames.data.len() <= packet.len() + 1
            &&& 1 <= frames.count <= 48
            &&& frames.lengths.len() == 0 ==> frames.data.len() % frames.count as nat == 0
            &&& frames.lengths.len() > 0 ==> stated_frames(
                frames.count,
                frames.lengths + frames.data,
            ) == Some(frames)
        },
{
    if framing(packet) is Some {
        let frames = framing(packet)->0;
        let code = packet[0] & CODE;
        if code == 0 || code == 1 {
        } else if code == 2 {
            lemma_stated_fits(2, packet.skip(1));
        } else {
            let payload = packet.skip(1);
            let rest = payload.skip(1);
            lemma_padding_end(rest);
            let body = if payload[0] & PADDED == 0 {
                rest
            } else {
                between_padding(rest)->0
            };
            if payload[0] & VBR != 0 {
                lemma_stated_fits(payload[0] & COUNT, body);
            }
        }
    }
}

proof fn lemma_stated_fits(count: u8, body: Seq<u8>)
    requires
        count > 0,
    ensures
        stated_frames(count, body) matches Some(frames) ==> {
            &&& frames.count == count
            &&& frames.lengths.len() + frames.data.len() <= body.len()
            &&& frames.lengths.len() == 0 ==> frames.data.len() % count as nat == 0
            &&& frames.lengths.len() > 0 ==> stated_frames(count, frames.lengths + frames.data)
                == Some(frames)
        },
{
    lemma_lengths_end(body, (count - 1) as nat);
    if stated_frames(count, body) is Some {
        let frames = stated_frames(count, body)->0;
        let (lengths, at) = lengths_in(body, (count - 1) as nat)->0;
        let data = body.skip(at as int);
        let last = (data.len() - total(lengths)) as nat;
        if all_equal(lengths.push(last)) {
            lemma_total_equal(lengths, last);
            assert(data.len() == last * count) by (nonlinear_arith)
                requires
                    data.len() == total(lengths) + last,
                    total(lengths) == last * lengths.len(),
                    lengths.len() == count - 1,
            ;
            vstd::arithmetic::div_mod::lemma_mod_multiples_basic(last as int, count as int);
            if count == 1 {
            }
        } else {
            assert(frames.lengths + frames.data =~= body);
        }
    }
}

proof fn lemma_total_equal(lengths: Seq<nat>, len: nat)
    requires
        all_equal(lengths.push(len)),
    ensures
        total(lengths) == len * lengths.len(),
    decreases lengths.len(),
{
    if lengths.len() > 0 {
        let all = lengths.push(len);
        let less = lengths.drop_last().push(len);
        assert(all[lengths.len() - 1] == all[lengths.len() as int]);
        assert forall|i: int, j: int| 0 <= i < less.len() && 0 <= j < less.len() implies less[i]
            == less[j] by {
            let a = if i < lengths.len() - 1 {
                i
            } else {
                lengths.len() as int
            };
            let b = if j < lengths.len() - 1 {
                j
            } else {
                lengths.len() as int
            };
            assert(all[a] == all[b]);
        }
        lemma_total_equal(lengths.drop_last(), len);
        assert(len * (lengths.len() - 1) + len == len * lengths.len()) by (nonlinear_arith);
    } else {
        assert(len * 0 == 0) by (nonlinear_arith);
    }
}

proof fn lemma_padding_reads_back(stated: nat, rest: Seq<u8>)
    ensures
        padding_in(stated_padding(stated + 1) + rest) == Some(
            ((stated / 255 + 1) as nat, (stated / 255 * 254 + stated % 255) as nat),
        ),
        stated_padding(stated + 1).len() == stated / 255 + 1,
    decreases stated,
{
    let bytes = stated_padding(stated + 1) + rest;
    if stated >= 255 {
        let less = (stated - 255) as nat;
        assert(less / 255 + 1 == stated / 255 && less % 255 == stated % 255);
        lemma_padding_reads_back(less, rest);
        assert(bytes[0] == 255);
        assert(bytes.skip(1) =~= stated_padding(less + 1) + rest);
    } else {
        assert(bytes[0] == stated);
    }
}

proof fn lemma_count_bits(count: u8, vbr: u8, padded: u8)
    requires
        count <= 48,
        vbr == 0 || vbr == VBR,
        padded == 0 || padded == PADDED,
    ensures
        (count | vbr | padded) & COUNT == count,
        (count | vbr | padded) & VBR == vbr,
        (count | vbr | padded) & PADDED == padded,
{
    assert((count | vbr | padded) & COUNT == count && (count | vbr | padded) & VBR == vbr && (count
        | vbr | padded) & PADDED == padded) by (bit_vector)
        requires
            count <= 48,
            vbr == 0 || vbr == VBR,
            padded == 0 || padded == PADDED,
    ;
}

/// The bytes that state `growth` bytes of padding, and the zeros that make up the rest of it, are
/// taken off again.
proof fn lemma_padding_comes_off(growth: nat, body: Seq<u8>)
    requires
        growth > 0,
    ensures
        stated_padding(growth).len() <= growth,
        between_padding(
            stated_padding(growth) + body + Seq::new(
                (growth - stated_padding(growth).len()) as nat,
                |i: int| 0u8,
            ),
        ) == Some(body),
{
    let stated = stated_padding(growth);
    let less = (growth - 1) as nat;
    let zeros = Seq::new((growth - stated.len()) as nat, |i: int| 0u8);
    lemma_padding_reads_back(less, body + zeros);
    assert(stated + body + zeros =~= stated + (body + zeros));
    assert(less / 255 * 254 + less % 255 == growth - stated.len());
    let whole = stated + body + zeros;
    assert(whole.subrange(stated.len() as int, whole.len() - zeros.len()) =~= body);
}

/// A framing written out behind a frame count byte reads back as the framing.
proof fn lemma_framing_reads_back(frames: Framing, growth: nat, payload: Seq<u8>)
    requires
        1 <= frames.count <= 48,
        frames.lengths.len() == 0 ==> frames.data.len() % frames.count as nat == 0,
        frames.lengths.len() > 0 ==> stated_frames(frames.count, frames.lengths + frames.data)
            == Some(frames),
        payload.len() > 0,
        payload[0] == frames.count | (if frames.lengths.len() == 0 {
            0u8
        } else {
            VBR
        }) | (if growth == 0 {
            0u8
        } else {
            PADDED
        }),
        payload.skip(1) == stated_padding(growth) + (frames.lengths + frames.data) + Seq::new(
            (growth - stated_padding(growth).len()) as nat,
            |i: int| 0u8,
        ),
    ensures
        signalled_frames(payload) == Some(frames),
{
    let vbr = if frames.lengths.len() == 0 {
        0u8
    } else {
        VBR
    };
    let flag = if growth == 0 {
        0u8
    } else {
        PADDED
    };
    lemma_count_bits(frames.count, vbr, flag);
    let body = frames.lengths + frames.data;
    if growth > 0 {
        lemma_padding_comes_off(growth, body);
    } else {
        assert(payload.skip(1) =~= body);
    }
    if frames.lengths.len() == 0 {
        assert(body =~= frames.data);
        assert(frames.lengths =~= Seq::empty());
    }
}

/// Padding leaves the frames alone: the packet that comes out is as long as it was asked to be, says
/// the same about its audio in its TOC byte, and divides into the very frames that went in.
#[verifier::rlimit(30)]
pub proof fn lemma_padding_keeps_the_frames(packet: Seq<u8>, len: nat)
    requires
        pad_result(packet, len) is Ok,
    ensures
        pad_result(packet, len)->Ok_0.len() == len,
        pad_result(packet, len)->Ok_0[0] & 0xfcu8 == packet[0] & 0xfcu8,
        framing(pad_result(packet, len)->Ok_0) == framing(packet),
{
    if len > packet.len() {
        let toc = packet[0];
        let frames = framing(packet)->0;
        let out = padded_packet(toc, frames, len);
        lemma_framing_fits(packet);
        let growth = (len - 2 - frames.lengths.len() - frames.data.len()) as nat;
        if growth > 0 {
            lemma_padding_comes_off(growth, Seq::empty());
        }
        assert((toc | 3u8) & 3u8 == 3u8 && (toc | 3u8) & 0xfcu8 == toc & 0xfcu8) by (bit_vector);
        assert(out[0] == toc | CODE_SIGNALLED);
        let payload = out.skip(1);
        assert(payload.skip(1) =~= stated_padding(growth) + (frames.lengths + frames.data)
            + Seq::new((growth - stated_padding(growth).len()) as nat, |i: int| 0u8));
        lemma_framing_reads_back(frames, growth, payload);
    }
}

/// Padding a packet to the length it has is the packet.
pub proof fn lemma_padding_to_its_own_length_changes_nothing(packet: Seq<u8>)
    requires
        0 < packet.len() <= 65_024,
    ensures
        pad_result(packet, packet.len()) == Ok::<Seq<u8>, PadError>(packet),
{
}

/// When padding is refused: a packet of no bytes, a length below the packet's, a length above 65024, and
/// a packet that does not divide into frames and would have to grow, and nothing else.
pub proof fn lemma_when_padding_is_refused(packet: Seq<u8>, len: nat)
    ensures
        pad_result(packet, len) is Ok <==> 0 < packet.len() <= len <= 65_024 && (len == packet.len()
            || framing(packet) is Some),
        packet.len() == 0 <==> pad_result(packet, len) == Err::<Seq<u8>, PadError>(
            PadError::EmptyPacket,
        ),
        0 < packet.len() && len < packet.len() <==> pad_result(packet, len) == Err::<
            Seq<u8>,
            PadError,
        >(PadError::TargetTooSmall),
        0 < packet.len() <= len && len > 65_024 <==> pad_result(packet, len) == Err::<
            Seq<u8>,
            PadError,
        >(PadError::TargetTooLarge),
{
}

/// What padding adds is zeros, behind the frames: a packet that grew ends with its frames and as many
/// zeros as the bytes in front of the frames leave of its length.
pub proof fn lemma_padding_is_zeros(packet: Seq<u8>, len: nat)
    requires
        pad_result(packet, len) is Ok,
        len > packet.len(),
    ensures
        ({
            let frames = framing(packet)->0;
            let out = pad_result(packet, len)->Ok_0;
            let growth = len - 2 - frames.lengths.len() - frames.data.len();
            let stated = if growth == 0 {
                0
            } else {
                (growth - 1) / 255 + 1
            };
            let at = 2 + stated + frames.lengths.len();
            &&& growth >= 0
            &&& out.subrange(2 + stated, at) == frames.lengths
            &&& out.subrange(at, at + frames.data.len()) == frames.data
            &&& forall|i: int| at + frames.data.len() <= i < len ==> #[trigger] out[i] == 0
            &&& at + frames.data.len() <= len
        }),
{
    lemma_framing_fits(packet);
    lemma_where_the_frames_lie(packet[0], framing(packet)->0, len);
}

proof fn lemma_where_the_frames_lie(toc: u8, frames: Framing, len: nat)
    requires
        len >= 2 + frames.lengths.len() + frames.data.len(),
    ensures
        ({
            let out = padded_packet(toc, frames, len);
            let growth = len - 2 - frames.lengths.len() - frames.data.len();
            let stated = if growth == 0 {
                0
            } else {
                (growth - 1) / 255 + 1
            };
            let at = 2 + stated + frames.lengths.len();
            &&& out.len() == len
            &&& out.subrange(2 + stated, at) == frames.lengths
            &&& out.subrange(at, at + frames.data.len()) == frames.data
            &&& forall|i: int| at + frames.data.len() <= i < len ==> #[trigger] out[i] == 0
            &&& at + frames.data.len() <= len
        }),
{
    let out = padded_packet(toc, frames, len);
    let growth = (len - 2 - frames.lengths.len() - frames.data.len()) as nat;
    let stated = stated_padding(growth);
    let at = 2 + stated.len() + frames.lengths.len();
    if growth > 0 {
        assert(stated.len() == (growth - 1) / 255 + 1);
        assert((growth - 1) / 255 + 1 <= growth);
    }
    assert(out.subrange(2 + stated.len() as int, at as int) =~= frames.lengths);
    assert(out.subrange(at as int, (at + frames.data.len()) as int) =~= frames.data);
}

/// The bytes a frame of `len` bytes states its length in.
pub open spec fn length_of(len: nat) -> Seq<u8> {
    if len < 252 {
        seq![len as u8]
    } else {
        seq![(252 + len % 4) as u8, ((len - 252) / 4) as u8]
    }
}

/// The lengths of `frames`, one behind the other.
pub open spec fn lengths_of(frames: Seq<Seq<u8>>) -> Seq<u8>
    decreases frames.len(),
{
    if frames.len() == 0 {
        Seq::empty()
    } else {
        lengths_of(frames.drop_last()) + length_of(frames.last().len())
    }
}

/// `frames`, one behind the other.
pub open spec fn laid_out(frames: Seq<Seq<u8>>) -> Seq<u8>
    decreases frames.len(),
{
    if frames.len() == 0 {
        Seq::empty()
    } else {
        laid_out(frames.drop_last()) + frames.last()
    }
}

/// Whether no frame is longer than its length can be stated, which is 1275 bytes.
pub open spec fn can_be_stated(frames: Seq<Seq<u8>>) -> bool {
    forall|i: int| 0 <= i < frames.len() ==> #[trigger] frames[i].len() <= 1275
}

/// Whether all frames are as long as each other.
pub open spec fn as_long_as_each_other(frames: Seq<Seq<u8>>) -> bool {
    forall|i: int, j: int|
        0 <= i < frames.len() && 0 <= j < frames.len() ==> frames[i].len() == frames[j].len()
}

proof fn lemma_lengths_are_read(frames: Seq<Seq<u8>>, rest: Seq<u8>)
    requires
        can_be_stated(frames),
    ensures
        lengths_in(lengths_of(frames) + rest, frames.len()) == Some(
            (
                frames.map_values(|frame: Seq<u8>| frame.len()),
                lengths_of(frames).len(),
            ),
        ),
        total(frames.map_values(|frame: Seq<u8>| frame.len())) == laid_out(frames).len(),
    decreases frames.len(),
{
    let lens = frames.map_values(|frame: Seq<u8>| frame.len());
    let body = lengths_of(frames) + rest;
    if frames.len() == 0 {
        assert(lens =~= Seq::empty());
    } else {
        let less = frames.drop_last();
        let last = frames.last().len();
        assert(can_be_stated(less)) by {
            assert forall|i: int| 0 <= i < less.len() implies #[trigger] less[i].len() <= 1275 by {
                assert(less[i] == frames[i]);
            }
        }
        lemma_lengths_are_read(less, length_of(last) + rest);
        assert(lengths_of(less) + (length_of(last) + rest) =~= body);
        let before = less.map_values(|frame: Seq<u8>| frame.len());
        assert(lens =~= before.push(last));
        assert(lens.drop_last() =~= before);
        assert(frames[frames.len() - 1].len() <= 1275);
        let at = lengths_of(less).len() as int;
        assert(body[at] == length_of(last)[0]);
        if last >= 252 {
            assert(body[at + 1] == length_of(last)[1]);
            assert((last - 252) / 4 * 4 + (252 + last % 4) == last);
        }
    }
}

/// Frames of which every one but the last states its length are told apart, however many there are: the
/// lengths are kept as they are stated, or not at all where all frames are as long as each other.
pub proof fn lemma_stated_frames_are_told_apart(frames: Seq<Seq<u8>>)
    requires
        0 < frames.len() <= 48,
        can_be_stated(frames.drop_last()),
    ensures
        stated_frames(frames.len() as u8, lengths_of(frames.drop_last()) + laid_out(frames)) == Some(
            Framing {
                count: frames.len() as u8,
                lengths: if as_long_as_each_other(frames) {
                    Seq::empty()
                } else {
                    lengths_of(frames.drop_last())
                },
                data: laid_out(frames),
            },
        ),
{
    let less = frames.drop_last();
    let last = frames.last().len();
    let data = laid_out(frames);
    let front = lengths_of(less);
    let body = front + data;
    lemma_lengths_are_read(less, data);
    let lens = less.map_values(|frame: Seq<u8>| frame.len());
    let all = lens.push(last);
    assert(body.skip(front.len() as int) =~= data);
    assert(body.take(front.len() as int) =~= front);
    assert(data.len() - total(lens) == last);
    assert(all_equal(all) <==> as_long_as_each_other(frames)) by {
        assert forall|i: int| 0 <= i < frames.len() implies #[trigger] all[i] == frames[i].len() by {
            if i < less.len() {
                assert(less[i] == frames[i]);
            }
        }
        if all_equal(all) {
            assert forall|i: int, j: int|
                0 <= i < frames.len() && 0 <= j < frames.len() implies frames[i].len()
                == frames[j].len() by {
                assert(all[i] == all[j]);
            }
        }
        if as_long_as_each_other(frames) {
            assert forall|i: int, j: int| 0 <= i < all.len() && 0 <= j < all.len() implies all[i]
                == all[j] by {
                assert(frames[i].len() == frames[j].len());
            }
        }
    }
}

/// A packet whose first byte says it holds one frame divides into that.
pub proof fn lemma_one_frame(toc: u8, frame: Seq<u8>)
    requires
        toc & 3u8 == 0,
    ensures
        framing(seq![toc] + frame) == Some(
            Framing { count: 1, lengths: Seq::empty(), data: frame },
        ),
{
    assert((seq![toc] + frame).skip(1) =~= frame);
}

/// One whose first byte says it holds two that are as long as each other divides into those, where it
/// can.
pub proof fn lemma_two_frames(toc: u8, frames: Seq<u8>)
    requires
        toc & 3u8 == 1,
    ensures
        frames.len() % 2 == 0 ==> framing(seq![toc] + frames) == Some(
            Framing { count: 2, lengths: Seq::empty(), data: frames },
        ),
        frames.len() % 2 == 1 ==> framing(seq![toc] + frames) is None,
{
    assert((seq![toc] + frames).skip(1) =~= frames);
}

/// And one whose first byte says it holds two of which the first states its length divides into those.
pub proof fn lemma_two_frames_of_their_own_lengths(toc: u8, first: Seq<u8>, second: Seq<u8>)
    requires
        toc & 3u8 == 2,
        first.len() <= 1275,
    ensures
        framing(seq![toc] + (length_of(first.len()) + (first + second))) == Some(
            Framing {
                count: 2,
                lengths: if first.len() == second.len() {
                    Seq::empty()
                } else {
                    length_of(first.len())
                },
                data: first + second,
            },
        ),
{
    let payload = length_of(first.len()) + (first + second);
    lemma_two_stated_frames(first, second);
    let packet = seq![toc] + payload;
    assert(packet.skip(1) =~= payload);
    assert(packet[0] & CODE == 2);
    assert(framing(packet) == stated_frames(2, packet.skip(1)));
}

proof fn lemma_two_stated_frames(first: Seq<u8>, second: Seq<u8>)
    requires
        first.len() <= 1275,
    ensures
        stated_frames(2, length_of(first.len()) + (first + second)) == Some(
            Framing {
                count: 2,
                lengths: if first.len() == second.len() {
                    Seq::empty()
                } else {
                    length_of(first.len())
                },
                data: first + second,
            },
        ),
{
    let frames = seq![first, second];
    let none = Seq::<Seq<u8>>::empty();
    assert(frames.drop_last() =~= seq![first]);
    assert(seq![first].drop_last() =~= none);
    assert(lengths_of(none) =~= Seq::empty());
    assert(laid_out(none) =~= Seq::empty());
    assert(lengths_of(seq![first]) =~= length_of(first.len()));
    assert(laid_out(seq![first]) =~= first);
    assert(laid_out(frames) =~= first + second);
    lemma_stated_frames_are_told_apart(frames);
    if as_long_as_each_other(frames) {
        assert(frames[0].len() == frames[1].len());
    } else {
        assert(frames[0].len() == first.len() && frames[1].len() == second.len());
    }
}

/// What a packet of many frames divides into, as its second byte says: from one to 48 of them, as long as
/// each other or with their lengths stated. None, or more, are none.
pub proof fn lemma_many_frames(toc: u8, count: u8, frames: Seq<Seq<u8>>)
    requires
        toc & 3u8 == 3,
        count & 0x40u8 == 0,
        frames.len() == count & 0x3fu8,
    ensures
        frames.len() == 0 || frames.len() > 48 ==> framing(
            seq![toc, count] + laid_out(frames),
        ) is None,
        0 < frames.len() <= 48 && count & 0x80u8 == 0 && as_long_as_each_other(frames) ==> framing(
            seq![toc, count] + laid_out(frames),
        ) == Some(
            Framing { count: count & 0x3fu8, lengths: Seq::empty(), data: laid_out(frames) },
        ),
        0 < frames.len() <= 48 && count & 0x80u8 != 0 && can_be_stated(frames.drop_last())
            ==> framing(
            seq![toc, count] + lengths_of(frames.drop_last()) + laid_out(frames),
        ) == Some(
            Framing {
                count: count & 0x3fu8,
                lengths: if as_long_as_each_other(frames) {
                    Seq::empty()
                } else {
                    lengths_of(frames.drop_last())
                },
                data: laid_out(frames),
            },
        ),
{
    let packet = seq![toc, count] + laid_out(frames);
    assert(packet.skip(1).skip(1) =~= laid_out(frames));
    assert(packet.skip(1)[0] == count);
    if 0 < frames.len() <= 48 {
        if as_long_as_each_other(frames) {
            lemma_laid_out_evenly(frames, frames[0].len());
            assert(laid_out(frames).len() % frames.len() == 0) by (nonlinear_arith)
                requires
                    frames.len() > 0,
                    laid_out(frames).len() == frames.len() * frames[0].len(),
            ;
        }
        if count & 0x80u8 != 0 && can_be_stated(frames.drop_last()) {
            lemma_stated_frames_are_told_apart(frames);
            let stated = seq![toc, count] + lengths_of(frames.drop_last()) + laid_out(frames);
            assert(stated.skip(1).skip(1) =~= lengths_of(frames.drop_last()) + laid_out(frames));
            assert(stated.skip(1)[0] == count);
        }
    }
}

proof fn lemma_laid_out_evenly(frames: Seq<Seq<u8>>, len: nat)
    requires
        forall|i: int| 0 <= i < frames.len() ==> #[trigger] frames[i].len() == len,
    ensures
        laid_out(frames).len() == frames.len() * len,
    decreases frames.len(),
{
    if frames.len() > 0 {
        let less = frames.drop_last();
        assert forall|i: int| 0 <= i < less.len() implies #[trigger] less[i].len() == len by {
            assert(less[i] == frames[i]);
        }
        lemma_laid_out_evenly(less, len);
        assert(frames[frames.len() - 1].len() == len);
        assert(frames.len() * len == (frames.len() - 1) * len + len) by (nonlinear_arith)
            requires
                frames.len() > 0,
        ;
    } else {
        assert(0 * len == 0) by (nonlinear_arith);
    }
}

/// What does not divide into frames: nothing at all, frames that cannot be as long as each other, a first
/// frame that reaches past the end, no frame count, and more padding than there are bytes.
pub proof fn lemma_what_does_not_divide_into_frames(toc: u8, count: u8, len: nat, body: Seq<u8>)
    ensures
        framing(Seq::empty()) is None,
        toc & 3u8 == 3 ==> framing(seq![toc]) is None,
        toc & 3u8 == 2 ==> framing(seq![toc]) is None,
        toc & 3u8 == 2 && len <= 1275 && body.len() < len ==> framing(
            seq![toc] + (length_of(len) + body),
        ) is None,
        toc & 3u8 == 3 && count & 0xc0u8 == 0 && count & 0x3fu8 > 0 && body.len() % (count & 0x3fu8) as nat
            != 0 ==> framing(seq![toc, count] + body) is None,
        toc & 3u8 == 3 && count & 0x40u8 != 0 && len < 255 && body.len() < len ==> framing(
            seq![toc, count, len as u8] + body,
        ) is None,
{
    let lone = seq![toc];
    assert(lone.skip(1) =~= Seq::empty());
    if toc & 3u8 == 2 {
        reveal_with_fuel(lengths_in, 2);
        assert(lengths_in(Seq::<u8>::empty(), 1) is None);
        if len <= 1275 && body.len() < len {
            lemma_a_frame_past_the_end(len, body);
            let packet = seq![toc] + (length_of(len) + body);
            assert(packet.skip(1) =~= length_of(len) + body);
        }
    }
    if toc & 3u8 == 3 {
        let packet = seq![toc, count] + body;
        assert(packet.skip(1).skip(1) =~= body);
        assert(packet.skip(1)[0] == count);
        assert(count & 0xc0u8 == 0 ==> count & 0x40u8 == 0 && count & 0x80u8 == 0) by (bit_vector);
        let padded = seq![toc, count, len as u8] + body;
        let rest = padded.skip(1).skip(1);
        assert(padded.skip(1)[0] == count);
        if len < 255 {
            assert(rest[0] == len);
            assert(rest.len() == body.len() + 1);
        }
    }
}

proof fn lemma_a_frame_past_the_end(len: nat, body: Seq<u8>)
    requires
        len <= 1275,
        body.len() < len,
    ensures
        stated_frames(2, length_of(len) + body) is None,
{
    let stated = length_of(len) + body;
    let frame = Seq::new(len, |i: int| 0u8);
    let frames = seq![frame];
    let none = Seq::<Seq<u8>>::empty();
    assert(frames.drop_last() =~= none);
    assert(lengths_of(none) =~= Seq::empty());
    assert(lengths_of(frames) =~= length_of(len));
    lemma_lengths_are_read(frames, body);
    let lens = frames.map_values(|frame: Seq<u8>| frame.len());
    assert(laid_out(none) =~= Seq::empty());
    assert(laid_out(frames) =~= frame);
    assert(stated.skip(length_of(len).len() as int) =~= body);
    assert(total(lens) == len);
}

/// Padding a packet already has comes off: whatever it states it has of it, the rest divides as it would
/// without.
pub proof fn lemma_padding_there_is_comes_off(toc: u8, count: u8, body: Seq<u8>, padding: Seq<u8>)
    requires
        toc & 3u8 == 3,
        count & 0x40u8 != 0,
        padding.len() < 255,
    ensures
        framing(seq![toc, count, padding.len() as u8] + body + padding) == (if count & 0x3fu8 == 0
            || count & 0x3fu8 > 48 {
            None
        } else if count & 0x80u8 == 0 {
            equal_frames(count & 0x3fu8, body)
        } else {
            stated_frames(count & 0x3fu8, body)
        }),
{
    let packet = seq![toc, count, padding.len() as u8] + body + padding;
    let rest = packet.skip(1).skip(1);
    assert(packet.skip(1)[0] == count);
    assert(rest[0] == padding.len());
    assert(rest.subrange(1, rest.len() - padding.len()) =~= body);
}

/// Pads `packet` to `target_len` bytes.
pub fn pad_to(packet: &[u8], target_len: usize) -> (result: Result<Vec<u8>, PadError>)
    ensures
        match result {
            Ok(padded) => pad_result(packet@, target_len as nat) == Ok::<Seq<u8>, PadError>(
                padded@,
            ),
            Err(error) => pad_result(packet@, target_len as nat) == Err::<Seq<u8>, PadError>(error),
        },
{
    if packet.len() == 0 {
        return Err(PadError::EmptyPacket);
    }
    if target_len < packet.len() {
        return Err(PadError::TargetTooSmall);
    }
    if target_len > MAX_PADDED_LEN {
        return Err(PadError::TargetTooLarge);
    }
    if target_len == packet.len() {
        let mut same: Vec<u8> = Vec::new();
        put(&mut same, packet);
        assert(same@ =~= packet@);
        return Ok(same);
    }
    let payload = slice_subrange(packet, 1, packet.len());
    assert(payload@ =~= packet@.skip(1));
    proof {
        lemma_framing_fits(packet@);
        assert(seq![packet@[0]] + payload@ =~= packet@);
    }
    match Frames::parse(packet[0], payload) {
        None => Err(PadError::MalformedToc),
        Some(frames) => Ok(padded(packet[0], &frames, target_len)),
    }
}

/// How a packet divides into frames, in place.
#[derive(Clone, Copy)]
struct Frames<'a> {
    count: u8,
    lengths: &'a [u8],
    data: &'a [u8],
}

impl<'a> View for Frames<'a> {
    type V = Framing;

    closed spec fn view(&self) -> Framing {
        Framing { count: self.count, lengths: self.lengths@, data: self.data@ }
    }
}

/// Whether `frames` is what `framing` says, or nothing where that is nothing.
spec fn agrees(frames: Option<Frames<'_>>, framing: Option<Framing>) -> bool {
    match frames {
        None => framing is None,
        Some(frames) => framing == Some(frames@),
    }
}

impl<'a> Frames<'a> {
    /// The frames of the packet of `toc` and `payload`, where it divides into any.
    fn parse(toc: u8, payload: &'a [u8]) -> (frames: Option<Self>)
        ensures
            agrees(frames, framing(seq![toc] + payload@)),
    {
        assert((seq![toc] + payload@).skip(1) =~= payload@);
        let code: u8 = toc & CODE;
        if code == 0 {
            Self::cbr(1, payload)
        } else if code == 1 {
            Self::cbr(2, payload)
        } else if code == 2 {
            Self::vbr(2, payload)
        } else {
            Self::signalled(payload)
        }
    }

    /// Frames as long as each other.
    fn cbr(count: u8, body: &'a [u8]) -> (frames: Option<Self>)
        ensures
            agrees(frames, equal_frames(count, body@)),
    {
        if count == 0 || body.len() % count as usize != 0 {
            return None;
        }
        let none = slice_subrange(body, 0, 0);
        assert(none@ =~= Seq::empty());
        Some(Frames { count, lengths: none, data: body })
    }

    /// Frames of which every one but the last states its length.
    fn vbr(count: u8, body: &'a [u8]) -> (frames: Option<Self>)
        requires
            0 < count <= 48,
        ensures
            agrees(frames, stated_frames(count, body@)),
    {
        let mut at: usize = 0;
        let mut stated: usize = 0;
        let mut first: Option<usize> = None;
        let mut equal: bool = true;
        let mut read: u8 = 1;
        let ghost mut lengths: Seq<nat> = Seq::empty();
        while read < count
            invariant
                1 <= read <= count <= 48,
                lengths_in(body@, (read - 1) as nat) == Some((lengths, at as nat)),
                lengths.len() == read - 1,
                at <= body@.len(),
                stated == total(lengths),
                stated <= read * 1275,
                first is None <==> read == 1,
                first is Some ==> first->0 == lengths[0],
                equal == all_equal(lengths),
            decreases count - read,
        {
            match frame_len(body, at) {
                None => {
                    proof {
                        lemma_lengths_stop(body@, read as nat, (count - 1) as nat);
                    }
                    return None;
                },
                Some((len, end)) => {
                    let begins: usize = match first {
                        None => len,
                        Some(begins) => begins,
                    };
                    let ghost more = lengths.push(len as nat);
                    proof {
                        assert(more.drop_last() =~= lengths);
                        assert(begins == more[0]);
                        if equal && begins == len {
                            assert forall|i: int, j: int|
                                0 <= i < more.len() && 0 <= j < more.len() implies more[i]
                                == more[j] by {
                                assert(more[i] == more[0]);
                                assert(more[j] == more[0]);
                            }
                        } else if equal {
                            assert(more[0] != more[more.len() - 1]);
                        } else {
                            let (i, j) = choose|i: int, j: int|
                                0 <= i < lengths.len() && 0 <= j < lengths.len() && lengths[i]
                                    != lengths[j];
                            assert(more[i] != more[j]);
                        }
                        lengths = more;
                    }
                    equal = equal && begins == len;
                    first = Some(begins);
                    stated += len;
                    at = end;
                    read += 1;
                },
            }
        }
        let data = slice_subrange(body, at, body.len());
        assert(data@ =~= body@.skip(at as int));
        if data.len() < stated {
            return None;
        }
        let last: usize = data.len() - stated;
        let same: bool = match first {
            None => true,
            Some(begins) => begins == last,
        };
        proof {
            let more = lengths.push(last as nat);
            if equal && same {
                assert forall|i: int, j: int| 0 <= i < more.len() && 0 <= j < more.len() implies more[i]
                    == more[j] by {
                    assert(more[i] == last);
                    assert(more[j] == last);
                }
            } else if equal {
                assert(more[0] != more[more.len() - 1]);
            } else {
                let (i, j) = choose|i: int, j: int|
                    0 <= i < lengths.len() && 0 <= j < lengths.len() && lengths[i] != lengths[j];
                assert(more[i] != more[j]);
            }
        }
        if equal && same {
            let none = slice_subrange(body, 0, 0);
            assert(none@ =~= Seq::empty());
            return Some(Frames { count, lengths: none, data });
        }
        let lengths_stated = slice_subrange(body, 0, at);
        assert(lengths_stated@ =~= body@.take(at as int));
        Some(Frames { count, lengths: lengths_stated, data })
    }

    /// The frames behind a frame count byte.
    fn signalled(payload: &'a [u8]) -> (frames: Option<Self>)
        ensures
            agrees(frames, signalled_frames(payload@)),
    {
        if payload.len() == 0 {
            return None;
        }
        let count_byte: u8 = payload[0];
        let rest = slice_subrange(payload, 1, payload.len());
        assert(rest@ =~= payload@.skip(1));
        let count: u8 = count_byte & COUNT;
        if count == 0 || count > MAX_FRAMES {
            return None;
        }
        let body = if count_byte & PADDED == 0 {
            rest
        } else {
            match unpadded(rest) {
                None => {
                    return None;
                },
                Some(body) => body,
            }
        };
        if count_byte & VBR == 0 {
            Self::cbr(count, body)
        } else {
            Self::vbr(count, body)
        }
    }
}

proof fn lemma_lengths_stop(body: Seq<u8>, stop: nat, count: nat)
    requires
        lengths_in(body, stop) is None,
        stop <= count,
    ensures
        lengths_in(body, count) is None,
    decreases count,
{
    if stop < count {
        lemma_lengths_stop(body, stop, (count - 1) as nat);
    }
}

/// The frame length stated at `at` in `body`, and where it ends.
fn frame_len(body: &[u8], at: usize) -> (stated: Option<(usize, usize)>)
    requires
        at <= body@.len(),
    ensures
        match stated {
            None => length_at(body@, at as nat) is None,
            Some((len, end)) => {
                &&& length_at(body@, at as nat) == Some((len as nat, end as nat))
                &&& len <= 1275
                &&& end <= body@.len()
            },
        },
{
    if at >= body.len() {
        return None;
    }
    let first: u8 = body[at];
    if first < TWO_BYTE_LEN {
        return Some((first as usize, at + 1));
    }
    if body.len() - at < 2 {
        return None;
    }
    let second: u8 = body[at + 1];
    Some((second as usize * 4 + first as usize, at + 2))
}

/// What lies between the bytes padding is stated in and the padding itself.
fn unpadded(payload: &[u8]) -> (frames: Option<&[u8]>)
    ensures
        match frames {
            None => between_padding(payload@) is None,
            Some(frames) => between_padding(payload@) == Some(frames@),
        },
{
    let mut padding: usize = 0;
    let mut values: usize = 0;
    assert(payload@.skip(0) =~= payload@);
    while values < payload.len()
        invariant
            values <= payload@.len(),
            padding <= payload@.len(),
            padding_in(payload@) == (match padding_in(payload@.skip(values as int)) {
                None => None::<(nat, nat)>,
                Some((v, p)) => Some((v + values as nat, p + padding as nat)),
            }),
        decreases payload@.len() - values,
    {
        let stated: u8 = payload[values];
        proof {
            lemma_padding_end(payload@.skip(values as int));
            assert(payload@.skip(values as int)[0] == stated);
            assert(payload@.skip(values as int).skip(1) =~= payload@.skip(values + 1));
        }
        values += 1;
        let counted: usize = if stated == PAD_CONTINUES {
            PAD_MAX
        } else {
            stated as usize
        };
        if payload.len() - padding < counted {
            return None;
        }
        padding += counted;
        if stated != PAD_CONTINUES {
            if payload.len() - values < padding {
                return None;
            }
            return Some(slice_subrange(payload, values, payload.len() - padding));
        }
    }
    None
}

/// The packet of `target_len` bytes that holds `frames`.
fn padded(toc: u8, frames: &Frames<'_>, target_len: usize) -> (packet: Vec<u8>)
    requires
        2 + frames@.lengths.len() + frames@.data.len() <= target_len,
    ensures
        packet@ == padded_packet(toc, frames@, target_len as nat),
{
    let mut packet: Vec<u8> = Vec::new();
    let growth: usize = target_len - 2 - frames.lengths.len() - frames.data.len();
    let states_lengths: u8 = if frames.lengths.len() == 0 {
        0
    } else {
        VBR
    };
    let states_padding: u8 = if growth == 0 {
        0
    } else {
        PADDED
    };
    packet.push(toc | CODE_SIGNALLED);
    packet.push(frames.count | states_lengths | states_padding);
    let mut zeros: usize = 0;
    if growth != 0 {
        let stated: usize = growth - 1;
        put_run(&mut packet, PAD_CONTINUES, stated / 255);
        packet.push((stated % 255) as u8);
        zeros = growth - 1 - stated / 255;
    }
    put(&mut packet, frames.lengths);
    put(&mut packet, frames.data);
    put_run(&mut packet, 0, zeros);
    assert(packet@ =~= padded_packet(toc, frames@, target_len as nat));
    packet
}

} // verus!
