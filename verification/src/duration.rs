//! Lengths of audio: as somebody types them, as they are shown back, and as they are counted.
//!
//! A duration is typed as up to three components separated by colons, with a fraction behind the
//! last of them: `4.4`, `12:34`, `1:02:10.5`. Every component but the first is bounded by the one in
//! front of it, so `1:99` is refused rather than read as something else; the first one has nothing in
//! front of it and counts as far as it likes. A component holds ASCII digits and nothing else.

use crate::text::{characters, put_decimal, split_on};
use vstd::prelude::*;
use vstd::string::StringExecFns;

verus! {

/// The frames of one channel a second of a TAF's audio comes to.
pub const RATE: u32 = 48_000;

/// What a component behind the first one counts up to.
pub const PER_COMPONENT: u64 = 60;

/// The components a duration is typed in at the most: hours, minutes, seconds.
pub const COMPONENTS: usize = 3;

/// A length of time: whole seconds, and the nanoseconds of the one behind them.
#[derive(Debug, Clone, Copy, PartialEq, Eq, Structural)]
pub struct Duration {
    /// The whole seconds.
    pub secs: u64,
    /// The nanoseconds behind them, fewer than a second of them.
    pub nanos: u32,
}

impl Duration {
    /// Whether the nanoseconds are fewer than a second of them.
    pub open spec fn is_normal(self) -> bool {
        self.nanos < 1_000_000_000
    }

    /// The nanoseconds there are in all.
    pub open spec fn in_nanos(self) -> nat {
        self.secs as nat * 1_000_000_000 + self.nanos as nat
    }

    /// `secs` seconds and `nanos` nanoseconds, of which whole seconds go to the seconds.
    pub fn new(secs: u64, nanos: u32) -> (duration: Self)
        requires
            secs + nanos / 1_000_000_000 <= u64::MAX,
        ensures
            duration.secs == secs + nanos / 1_000_000_000,
            duration.nanos == nanos % 1_000_000_000,
            duration.is_normal(),
    {
        Duration { secs: secs + (nanos / 1_000_000_000) as u64, nanos: nanos % 1_000_000_000 }
    }

    /// `secs` seconds.
    pub fn from_secs(secs: u64) -> (duration: Self)
        ensures
            duration == (Duration { secs, nanos: 0 }),
    {
        Duration { secs, nanos: 0 }
    }

    /// `millis` milliseconds.
    pub fn from_millis(millis: u64) -> (duration: Self)
        ensures
            duration.is_normal(),
            duration.in_nanos() == millis * 1_000_000,
    {
        Duration { secs: millis / 1000, nanos: (millis % 1000) as u32 * 1_000_000 }
    }

    /// The whole seconds.
    pub fn as_secs(&self) -> (secs: u64)
        ensures
            secs == self.secs,
    {
        self.secs
    }

    /// The nanoseconds behind them.
    pub fn subsec_nanos(&self) -> (nanos: u32)
        ensures
            nanos == self.nanos,
    {
        self.nanos
    }
}

/// A number below 100 in two digits.
pub open spec fn two_digits(value: nat) -> Seq<char> {
    if value < 10 {
        "0"@ + crate::text::decimal(value)
    } else {
        crate::text::decimal(value)
    }
}

/// How long `played` seconds are, on a clock: the hours only where there are any.
pub open spec fn on_clock(played: nat) -> Seq<char> {
    let hours = played / 3600;
    let minutes = played / 60 % 60;
    let seconds = played % 60;
    if hours > 0 {
        crate::text::decimal(hours) + ":"@ + two_digits(minutes) + ":"@ + two_digits(seconds)
    } else {
        crate::text::decimal(minutes) + ":"@ + two_digits(seconds)
    }
}

fn put_two_digits(out: &mut String, value: u64)
    ensures
        final(out)@ == old(out)@ + two_digits(value as nat),
{
    if value < 10 {
        out.append("0");
    }
    put_decimal(out, value);
    assert(out@ =~= old(out)@ + two_digits(value as nat));
}

/// How long `duration` is, on a clock: `0:10`, `12:34`, `1:02:10` — the second being played not
/// counted until it has been.
pub fn clock(duration: Duration) -> (text: String)
    ensures
        text@ == on_clock(duration.secs as nat),
{
    let played: u64 = duration.as_secs();
    let hours: u64 = played / (PER_COMPONENT * PER_COMPONENT);
    let minutes: u64 = (played / PER_COMPONENT) % PER_COMPONENT;
    let seconds: u64 = played % PER_COMPONENT;
    let mut text: String = String::new();
    if hours > 0 {
        put_decimal(&mut text, hours);
        text.append(":");
        put_two_digits(&mut text, minutes);
    } else {
        put_decimal(&mut text, minutes);
    }
    text.append(":");
    put_two_digits(&mut text, seconds);
    assert(text@ =~= on_clock(duration.secs as nat));
    text
}

/// Whether `c` is an ASCII digit.
pub open spec fn is_digit(c: char) -> bool {
    '0' <= c <= '9'
}

/// Whether `text` is ASCII digits and nothing else, of which there is at least one.
pub open spec fn only_digits(text: Seq<char>) -> bool {
    text.len() > 0 && forall|i: int| 0 <= i < text.len() ==> is_digit(#[trigger] text[i])
}

/// The number the digits of `text` are.
pub open spec fn number(text: Seq<char>) -> nat
    decreases text.len(),
{
    if text.len() == 0 {
        0
    } else {
        number(text.drop_last()) * 10 + (text.last() as nat - '0' as nat) as nat
    }
}

/// The number a component states, where it is digits and there are not more of them than a count of
/// seconds holds.
pub open spec fn component(text: Seq<char>) -> Option<nat> {
    if only_digits(text) && number(text) <= u64::MAX {
        Some(number(text))
    } else {
        None
    }
}

/// The first point in `text`, or its end.
pub open spec fn first_point(text: Seq<char>, from: int) -> int
    decreases text.len() - from,
{
    if from >= text.len() || text[from] == '.' {
        from
    } else {
        first_point(text, from + 1)
    }
}

/// What the last component states: the whole seconds, and the digits of the fraction behind them.
pub open spec fn last_component(text: Seq<char>) -> Option<(nat, Seq<char>)> {
    let point = first_point(text, 0);
    if point >= text.len() {
        match component(text) {
            Some(whole) => Some((whole, Seq::empty())),
            None => None,
        }
    } else if !only_digits(text.skip(point + 1)) {
        None
    } else {
        match component(text.take(point)) {
            Some(whole) => Some((whole, text.skip(point + 1))),
            None => None,
        }
    }
}

/// What the first `count` of `components` come to in the unit of the last of them, where each of them
/// states a number and none behind the first one reaches what it is bounded by.
pub open spec fn counted(components: Seq<Seq<char>>, count: nat) -> Option<nat>
    decreases count,
{
    if count == 0 {
        Some(0)
    } else {
        let last = components[count - 1];
        let value = if count == components.len() {
            match last_component(last) {
                Some((whole, _fraction)) => Some(whole),
                None => None,
            }
        } else {
            component(last)
        };
        match (counted(components, (count - 1) as nat), value) {
            (Some(before), Some(value)) => if count > 1 && value >= 60 || before * 60 + value
                > u64::MAX {
                None
            } else {
                Some(before * 60 + value)
            },
            _ => None,
        }
    }
}

/// What `text` states as a duration: whole seconds, and the digits of the fraction behind them.
pub open spec fn typed(text: Seq<char>) -> Option<(nat, Seq<char>)> {
    let components = crate::text::split(text, ':');
    if components.len() > 3 {
        None
    } else {
        match counted(components, components.len()) {
            None => None,
            Some(whole) => Some((whole, (last_component(components.last())->0).1)),
        }
    }
}

/// Ten to the power of `count`.
pub open spec fn tens(count: nat) -> nat
    decreases count,
{
    if count == 0 {
        1
    } else {
        10 * tens((count - 1) as nat)
    }
}

/// The frames the fraction of a second with the digits `fraction` is nearest to, and the later one
/// where two are.
pub open spec fn nearest_frames(fraction: Seq<char>) -> nat {
    (96_000 * number(fraction) + tens(fraction.len())) / (2 * tens(fraction.len()))
}

/// A length of audio in seconds, as it was typed.
#[derive(Debug, Clone, Copy, PartialEq, Eq, Structural)]
pub struct Seconds {
    whole: u64,
    frames: u32,
}

impl View for Seconds {
    type V = (nat, nat);

    closed spec fn view(&self) -> (nat, nat) {
        (self.whole as nat, self.frames as nat)
    }
}

/// A duration that is no duration.
#[derive(Debug)]
pub struct InvalidDuration(pub String);

impl InvalidDuration {
    /// What went wrong, in words.
    pub fn message(&self) -> (text: String)
        ensures
            text@ == "invalid duration '"@ + self.0@ + "'"@,
    {
        let mut text: String = String::from_str("invalid duration '");
        text.append(self.0.as_str());
        text.append("'");
        text
    }
}

impl Seconds {
    /// Reads the duration `text` states.
    pub fn parse(text: &str) -> (result: Result<Self, InvalidDuration>)
        ensures
            match result {
                Ok(seconds) => typed(text@) is Some && seconds@ == ((typed(text@)->0).0, nearest_frames(
                    (typed(text@)->0).1,
                )),
                Err(error) => typed(text@) is None && error.0@ == text@,
            },
    {
        match seconds(text) {
            Some((whole, frames)) => Ok(Seconds { whole, frames }),
            None => Err(InvalidDuration(String::from_str(text))),
        }
    }

    /// The frames of one channel this comes to at 48 kHz, at the frame nearest to the time that was
    /// typed, as far as a count of them goes.
    pub fn to_samples_48k(self) -> (samples: u64)
        ensures
            samples == (if self@.0 * 48_000 + self@.1 > u64::MAX {
                u64::MAX as nat
            } else {
                self@.0 * 48_000 + self@.1
            }),
    {
        if self.whole > u64::MAX / 48_000 {
            return u64::MAX;
        }
        (self.whole * 48_000).saturating_add(self.frames as u64)
    }
}

impl core::str::FromStr for Seconds {
    type Err = InvalidDuration;

    fn from_str(text: &str) -> (result: Result<Self, InvalidDuration>)
        ensures
            match result {
                Ok(seconds) => typed(text@) is Some && seconds@ == ((typed(text@)->0).0, nearest_frames(
                    (typed(text@)->0).1,
                )),
                Err(error) => typed(text@) is None && error.0@ == text@,
            },
    {
        Seconds::parse(text)
    }
}

/// The whole seconds `text` states and the frames the fraction behind them comes to.
fn seconds(text: &str) -> (read: Option<(u64, u32)>)
    ensures
        match read {
            Some((whole, frames)) => typed(text@) is Some && whole == (typed(text@)->0).0 && frames
                == nearest_frames((typed(text@)->0).1),
            None => typed(text@) is None,
        },
{
    let chars: Vec<char> = characters(text);
    let components: Vec<Vec<char>> = split_on(chars.as_slice(), ':');
    let ghost split = crate::text::split(text@, ':');
    if components.len() > COMPONENTS {
        return None;
    }
    let mut whole: u64 = 0;
    let mut frames: u32 = 0;
    let mut at: usize = 0;
    while at < components.len()
        invariant
            at <= components@.len() <= 3,
            components@.len() > 0,
            split == crate::text::pieces(components@),
            split == crate::text::split(text@, ':'),
            counted(split, at as nat) == Some(whole as nat),
            at == components@.len() ==> last_component(split.last()) is Some && frames
                == nearest_frames((last_component(split.last())->0).1),
        decreases components@.len() - at,
    {
        assert(split[at as int] == components@[at as int]@);
        proof {
            if counted(split, (at + 1) as nat) is None {
                lemma_counted_stops(split, (at + 1) as nat, split.len());
            }
        }
        let value: u64 = if at + 1 == components.len() {
            match fractional(&components[at]) {
                None => {
                    return None;
                },
                Some((value, behind)) => {
                    frames = behind;
                    value
                },
            }
        } else {
            match digits(components[at].as_slice()) {
                None => {
                    return None;
                },
                Some(value) => value,
            }
        };
        if at > 0 && value >= PER_COMPONENT {
            return None;
        }
        whole = match whole.checked_mul(PER_COMPONENT) {
            None => {
                return None;
            },
            Some(whole) => match whole.checked_add(value) {
                None => {
                    return None;
                },
                Some(whole) => whole,
            },
        };
        at += 1;
    }
    Some((whole, frames))
}

proof fn lemma_counted_stops(components: Seq<Seq<char>>, stop: nat, count: nat)
    requires
        counted(components, stop) is None,
        stop <= count,
    ensures
        counted(components, count) is None,
    decreases count,
{
    if stop < count {
        lemma_counted_stops(components, stop, (count - 1) as nat);
    }
}

/// The whole seconds `component` states and the frames the fraction behind its point comes to.
fn fractional(text: &Vec<char>) -> (read: Option<(u64, u32)>)
    ensures
        match read {
            Some((whole, frames)) => last_component(text@) is Some && whole == (last_component(
                text@,
            )->0).0 && frames == nearest_frames((last_component(text@)->0).1),
            None => last_component(text@) is None,
        },
{
    let mut point: usize = 0;
    while point < text.len() && text[point] != '.'
        invariant
            point <= text@.len(),
            first_point(text@, 0) == first_point(text@, point as int),
        decreases text@.len() - point,
    {
        point += 1;
    }
    if point >= text.len() {
        return match digits(text.as_slice()) {
            None => None,
            Some(whole) => {
                proof {
                    lemma_no_fraction();
                }
                Some((whole, 0))
            },
        };
    }
    let behind = vstd::slice::slice_subrange(text.as_slice(), point + 1, text.len());
    let front = vstd::slice::slice_subrange(text.as_slice(), 0, point);
    assert(behind@ =~= text@.skip(point + 1));
    assert(front@ =~= text@.take(point as int));
    if !all_digits(behind) {
        return None;
    }
    match digits(front) {
        None => None,
        Some(whole) => Some((whole, frames_of(behind))),
    }
}

/// The frames the fraction of a second with the digits `fraction` is nearest to. Every digit, from the
/// last one on, is a tenth of what the digits behind it came to, counted in half frames.
fn frames_of(fraction: &[char]) -> (frames: u32)
    requires
        only_digits(fraction@),
    ensures
        frames == nearest_frames(fraction@),
{
    let mut halves: u32 = 0;
    let mut at: usize = fraction.len();
    assert(fraction@.skip(at as int) =~= Seq::empty());
    while at > 0
        invariant
            at <= fraction@.len(),
            only_digits(fraction@),
            halves < 96_000,
            halves == 96_000 * number(fraction@.skip(at as int)) / tens((fraction@.len() - at) as nat),
        decreases at,
    {
        at -= 1;
        let c: char = fraction[at];
        assert(is_digit(fraction@[at as int]));
        let value: u32 = c as u32 - 48;
        proof {
            let rest = fraction@.skip(at + 1);
            lemma_number_front(fraction@.skip(at as int));
            assert(fraction@.skip(at as int).skip(1) =~= rest);
            lemma_halves(value as nat, number(rest), rest.len());
        }
        halves = (96_000 * value + halves) / 10;
    }
    assert(fraction@.skip(0) =~= fraction@);
    proof {
        lemma_tens_positive(fraction@.len());
        lemma_nearest(number(fraction@), tens(fraction@.len()));
    }
    (halves + 1) / 2
}

/// No digits behind the seconds are no frames behind them.
proof fn lemma_no_fraction()
    ensures
        nearest_frames(Seq::empty()) == 0,
{
    let halves = 96_000 * number(Seq::empty()) + tens(0);
    assert(number(Seq::empty()) == 0);
    assert(tens(0) == 1);
    assert(halves == 1);
    assert(halves / 2 == 0);
}

proof fn lemma_tens_positive(count: nat)
    ensures
        tens(count) > 0,
    decreases count,
{
    if count > 0 {
        lemma_tens_positive((count - 1) as nat);
    }
}

/// The first digit of a number counts in the power of ten of the digits behind it.
proof fn lemma_number_front(text: Seq<char>)
    requires
        only_digits(text),
    ensures
        number(text) == (text[0] as nat - '0' as nat) as nat * tens((text.len() - 1) as nat)
            + number(text.skip(1)),
    decreases text.len(),
{
    let first = (text[0] as nat - '0' as nat) as nat;
    if text.len() == 1 {
        assert(text.drop_last() =~= Seq::empty());
        assert(text.skip(1) =~= Seq::empty());
        assert(first * tens(0) == first) by (nonlinear_arith)
            requires
                tens(0) == 1,
        ;
    } else {
        let front = text.drop_last();
        assert forall|i: int| 0 <= i < front.len() implies is_digit(#[trigger] front[i]) by {
            assert(front[i] == text[i]);
        }
        lemma_number_front(front);
        assert(text.skip(1).drop_last() =~= front.skip(1));
        assert(text.skip(1).last() == text.last());
        let t = tens((text.len() - 2) as nat);
        assert(tens((text.len() - 1) as nat) == 10 * t);
        assert((first * t + number(front.skip(1))) * 10 == first * (10 * t) + number(front.skip(1))
            * 10) by (nonlinear_arith);
    }
}

proof fn lemma_halves(value: nat, rest: nat, len: nat)
    requires
        value <= 9,
    ensures
        96_000 * (value * tens(len) + rest) / tens(len + 1) == (96_000 * value + 96_000 * rest
            / tens(len)) / 10,
{
    let t = tens(len) as int;
    lemma_tens_positive(len);
    let v = value as int;
    let r = rest as int;
    assert(tens(len + 1) == 10 * t);
    assert(96_000 * (v * t + r) == (96_000 * v) * t + 96_000 * r) by (nonlinear_arith);
    vstd::arithmetic::div_mod::lemma_hoist_over_denominator(96_000 * r, 96_000 * v, t as nat);
    assert(t * (96_000 * v) == (96_000 * v) * t) by (nonlinear_arith);
    vstd::arithmetic::div_mod::lemma_div_denominator(
        (96_000 * v) * t + 96_000 * r,
        t,
        10,
    );
    assert(t * 10 == 10 * t) by (nonlinear_arith);
    assert(0 <= (96_000 * v) * t) by (nonlinear_arith)
        requires
            v >= 0,
            t > 0,
    ;
}

/// Rounding a count of half frames to whole ones rounds the fraction to the nearest frame.
proof fn lemma_nearest(count: nat, of: nat)
    requires
        of > 0,
    ensures
        (96_000 * count + of) / (2 * of) == (96_000 * count / of + 1) / 2,
{
    let x = 96_000 * count as int;
    let d = of as int;
    let h = x / d;
    let r = x % d;
    vstd::arithmetic::div_mod::lemma_fundamental_div_mod(x, d);
    assert(0 <= r < d) by {
        vstd::arithmetic::div_mod::lemma_mod_bound(x, d);
    }
    let q = (h + 1) / 2;
    let s = (h + 1) % 2;
    assert(x + d == q * (2 * d) + (s * d + r)) by (nonlinear_arith)
        requires
            x == d * h + r,
            h + 1 == 2 * q + s,
    ;
    assert(0 <= s * d + r < 2 * d) by (nonlinear_arith)
        requires
            0 <= s <= 1,
            0 <= r < d,
    ;
    vstd::arithmetic::div_mod::lemma_fundamental_div_mod_converse(x + d, 2 * d, q, s * d + r);
}

/// The number `text` states, where it is digits and there are not more of them than a count of
/// seconds holds.
fn digits(text: &[char]) -> (value: Option<u64>)
    ensures
        match value {
            Some(value) => component(text@) == Some(value as nat),
            None => component(text@) is None,
        },
{
    if !all_digits(text) {
        return None;
    }
    let mut value: u64 = 0;
    let mut at: usize = 0;
    while at < text.len()
        invariant
            at <= text@.len(),
            only_digits(text@),
            value == number(text@.take(at as int)),
        decreases text@.len() - at,
    {
        let c: char = text[at];
        assert(is_digit(text@[at as int]));
        let digit: u64 = (c as u32 - 48) as u64;
        assert(text@.take(at + 1).drop_last() =~= text@.take(at as int));
        at += 1;
        if value > (u64::MAX - digit) / 10 {
            proof {
                lemma_number_grows(text@, at as int);
            }
            return None;
        }
        value = value * 10 + digit;
    }
    assert(text@.take(at as int) =~= text@);
    Some(value)
}

proof fn lemma_number_grows(text: Seq<char>, at: int)
    requires
        0 <= at <= text.len(),
    ensures
        number(text.take(at)) <= number(text),
    decreases text.len() - at,
{
    if at < text.len() {
        lemma_number_grows(text, at + 1);
        assert(text.take(at + 1).drop_last() =~= text.take(at));
    } else {
        assert(text.take(at) =~= text);
    }
}

/// Whether `text` is ASCII digits and nothing else.
fn all_digits(text: &[char]) -> (are: bool)
    ensures
        are == only_digits(text@),
{
    if text.len() == 0 {
        return false;
    }
    let mut at: usize = 0;
    while at < text.len()
        invariant
            at <= text@.len(),
            text@.len() > 0,
            forall|i: int| 0 <= i < at ==> is_digit(#[trigger] text@[i]),
        decreases text@.len() - at,
    {
        let c: char = text[at];
        if c < '0' || c > '9' {
            assert(!is_digit(text@[at as int]));
            return false;
        }
        at += 1;
    }
    true
}

/// A number in decimal is digits that read back as the number, with no zero in front of it but the one
/// it is.
pub proof fn lemma_decimal_is_digits(value: nat)
    ensures
        only_digits(crate::text::decimal(value)),
        number(crate::text::decimal(value)) == value,
        value > 0 ==> crate::text::decimal(value)[0] != '0',
        value == 0 ==> crate::text::decimal(value).len() == 1,
    decreases value,
{
    let text = crate::text::decimal(value);
    assert(text.last() as nat - '0' as nat == value % 10);
    assert(number(text) == number(text.drop_last()) * 10 + value % 10);
    if value >= 10 {
        lemma_decimal_is_digits(value / 10);
        assert(text.drop_last() =~= crate::text::decimal(value / 10));
        assert(text[0] == crate::text::decimal(value / 10)[0]);
        assert forall|i: int| 0 <= i < text.len() implies is_digit(#[trigger] text[i]) by {
            if i < text.len() - 1 {
                assert(text[i] == crate::text::decimal(value / 10)[i]);
            }
        }
    } else {
        assert(text.drop_last() =~= Seq::empty());
    }
}

/// Digits are those from zero to nine and count in tens: a digit behind others adds what it is to ten
/// times what they are.
pub proof fn lemma_digits_count_in_tens(text: Seq<char>, c: char)
    ensures
        is_digit(c) <==> 48 <= c as int <= 57,
        only_digits(text) <==> text.len() > 0 && forall|i: int|
            0 <= i < text.len() ==> 48 <= #[trigger] text[i] as int <= 57,
        number(Seq::empty()) == 0,
        is_digit(c) ==> number(text.push(c)) == number(text) * 10 + (c as int - 48),
        tens(0) == 1,
        forall|k: nat| #[trigger] tens(k + 1) == 10 * tens(k),
{
    assert(text.push(c).drop_last() =~= text);
    assert forall|k: nat| #[trigger] tens(k + 1) == 10 * tens(k) by {}
    if forall|i: int| 0 <= i < text.len() ==> 48 <= #[trigger] text[i] as int <= 57 {
        assert forall|i: int| 0 <= i < text.len() implies is_digit(#[trigger] text[i]) by {
            assert(48 <= text[i] as int <= 57);
        }
    }
    if only_digits(text) {
        assert forall|i: int| 0 <= i < text.len() implies 48 <= #[trigger] text[i] as int <= 57 by {
            assert(is_digit(text[i]));
        }
    }
}

/// The frames of a fraction are the nearest there are: the time they are off by is half a frame at the
/// most, and less than that where they come behind it.
pub proof fn lemma_the_nearest_frame(fraction: Seq<char>)
    ensures
        ({
            let whole = tens(fraction.len());
            let frames = nearest_frames(fraction);
            &&& whole > 0
            &&& 2 * whole * frames - whole <= 96_000 * number(fraction)
            &&& 96_000 * number(fraction) < 2 * whole * frames + whole
        }),
{
    let whole = tens(fraction.len()) as int;
    lemma_tens_positive(fraction.len());
    let x = 96_000 * number(fraction) + whole;
    let d = 2 * whole;
    vstd::arithmetic::div_mod::lemma_fundamental_div_mod(x, d);
    vstd::arithmetic::div_mod::lemma_mod_bound(x, d);
    assert(d * (x / d) == 2 * whole * (nearest_frames(fraction) as int));
}

proof fn lemma_two_digits_are_digits(value: nat)
    requires
        value < 60,
    ensures
        only_digits(two_digits(value)),
        number(two_digits(value)) == value,
{
    lemma_decimal_is_digits(value);
    if value < 10 {
        reveal_strlit("0");
        let text = two_digits(value);
        assert(text =~= seq!['0', crate::text::digit(value)]);
        assert(text.drop_last() =~= seq!['0']);
        assert(text.drop_last().drop_last() =~= Seq::empty());
        reveal_with_fuel(number, 3);
    }
}

proof fn lemma_no_point(text: Seq<char>, from: int)
    requires
        only_digits(text),
        0 <= from <= text.len(),
    ensures
        first_point(text, from) == text.len(),
    decreases text.len() - from,
{
    if from < text.len() {
        assert(is_digit(text[from]));
        lemma_no_point(text, from + 1);
    }
}

proof fn lemma_digits_hold_no_other(text: Seq<char>, c: char)
    requires
        only_digits(text),
        !is_digit(c),
    ensures
        !text.contains(c),
{
    assert forall|i: int| 0 <= i < text.len() implies text[i] != c by {
        assert(is_digit(text[i]));
    }
}

/// What the last component states where it is digits, with a point and digits behind them or not.
proof fn lemma_last_component(whole: Seq<char>, fraction: Seq<char>)
    requires
        only_digits(whole),
        only_digits(fraction),
    ensures
        last_component(whole) == (if number(whole) <= u64::MAX {
            Some((number(whole), Seq::<char>::empty()))
        } else {
            None
        }),
        last_component(whole + seq!['.'] + fraction) == (if number(whole) <= u64::MAX {
            Some((number(whole), fraction))
        } else {
            None
        }),
        !(whole + seq!['.'] + fraction).contains(':'),
        !whole.contains(':'),
{
    lemma_no_point(whole, 0);
    lemma_digits_hold_no_other(whole, ':');
    let text = whole + seq!['.'] + fraction;
    lemma_point_behind(text, whole.len() as int, 0);
    assert(text.take(whole.len() as int) =~= whole);
    assert(text.skip(whole.len() as int + 1) =~= fraction);
    assert forall|i: int| 0 <= i < text.len() implies text[i] != ':' by {
        if i < whole.len() {
            assert(is_digit(whole[i]));
        } else if i > whole.len() {
            assert(is_digit(fraction[i - whole.len() - 1]));
        }
    }
}

proof fn lemma_point_behind(text: Seq<char>, point: int, from: int)
    requires
        0 <= from <= point < text.len(),
        text[point] == '.',
        forall|i: int| 0 <= i < point ==> is_digit(#[trigger] text[i]),
    ensures
        first_point(text, from) == point,
    decreases point - from,
{
    if from < point {
        assert(is_digit(text[from]));
        lemma_point_behind(text, point, from + 1);
    }
}

/// What a text of one component comes to.
proof fn lemma_one_component(last: Seq<char>)
    requires
        !last.contains(':'),
    ensures
        typed(last) == (match last_component(last) {
            Some((value, fraction)) => if value <= u64::MAX {
                Some((value, fraction))
            } else {
                None
            },
            None => None,
        }),
{
    crate::text::lemma_one_piece(last, ':');
    let components = crate::text::split(last, ':');
    assert(counted(components, 0) == Some(0nat));
    reveal_with_fuel(counted, 2);
}

proof fn lemma_digits_are_one_piece(text: Seq<char>)
    requires
        forall|i: int| 0 <= i < text.len() ==> is_digit(#[trigger] text[i]),
    ensures
        crate::text::split(text, ':') == seq![text],
{
    assert forall|i: int| 0 <= i < text.len() implies text[i] != ':' by {
        assert(is_digit(text[i]));
    }
    crate::text::lemma_one_piece(text, ':');
}

proof fn lemma_digits_are_the_last_piece(front: Seq<char>, last: Seq<char>)
    requires
        forall|i: int| 0 <= i < last.len() ==> is_digit(#[trigger] last[i]),
    ensures
        crate::text::split(front + seq![':'] + last, ':') == crate::text::split(front, ':').push(
            last,
        ),
{
    assert forall|i: int| 0 <= i < last.len() implies last[i] != ':' by {
        assert(is_digit(last[i]));
    }
    crate::text::lemma_last_piece(front, last, ':');
}

/// What a component of digits in front of another one comes to.
proof fn lemma_two_components(first: Seq<char>, last: Seq<char>)
    requires
        only_digits(first),
        !last.contains(':'),
    ensures
        typed(first + seq![':'] + last) == (match last_component(last) {
            Some((value, fraction)) => if value < 60 && number(first) * 60 + value <= u64::MAX {
                Some((number(first) * 60 + value, fraction))
            } else {
                None
            },
            None => None,
        }),
{
    lemma_digits_are_one_piece(first);
    crate::text::lemma_last_piece(first, last, ':');
    let components = crate::text::split(first + seq![':'] + last, ':');
    assert(components =~= seq![first, last]);
    assert(counted(components, 0) == Some(0nat));
    assert(counted(components, 1) == component(first));
}

/// What two components of digits in front of another one come to.
proof fn lemma_three_components(first: Seq<char>, second: Seq<char>, last: Seq<char>)
    requires
        only_digits(first),
        only_digits(second),
        !last.contains(':'),
    ensures
        typed(first + seq![':'] + second + seq![':'] + last) == (match last_component(last) {
            Some((value, fraction)) => if value < 60 && number(second) < 60 && (number(first) * 60
                + number(second)) * 60 + value <= u64::MAX {
                Some(((number(first) * 60 + number(second)) * 60 + value, fraction))
            } else {
                None
            },
            None => None,
        }),
{
    lemma_digits_are_one_piece(first);
    lemma_digits_are_the_last_piece(first, second);
    crate::text::lemma_last_piece(first + seq![':'] + second, last, ':');
    let components = crate::text::split(first + seq![':'] + second + seq![':'] + last, ':');
    assert(components =~= seq![first, second, last]);
    assert(counted(components, 0) == Some(0nat));
    assert(counted(components, 1) == component(first));
    assert(component(second) == (if number(second) <= u64::MAX {
        Some(number(second))
    } else {
        None
    }));
    if counted(components, 1) is Some && number(second) < 60 {
        assert(counted(components, 2) == (if number(first) * 60 + number(second) <= u64::MAX {
            Some((number(first) * 60 + number(second)) as nat)
        } else {
            None
        }));
    } else {
        assert(counted(components, 2) is None);
    }
}

/// Times are read in one, two or three components of digits, hours in front of minutes in front of
/// seconds, and a fraction of digits is read behind the last one however many there are. What is behind
/// the first component stays below sixty, and what is more than can be counted is no time.
pub proof fn lemma_times_are_read(
    hours: Seq<char>,
    minutes: Seq<char>,
    seconds: Seq<char>,
    fraction: Seq<char>,
)
    requires
        only_digits(hours),
        only_digits(minutes),
        only_digits(seconds),
        only_digits(fraction),
    ensures
        ({
            let point = seq!['.'];
            let colon = seq![':'];
            let h = number(hours);
            let m = number(minutes);
            let s = number(seconds);
            let none = Seq::<char>::empty();
            &&& typed(seconds) == (if s <= u64::MAX {
                Some((s, none))
            } else {
                None
            })
            &&& typed(seconds + point + fraction) == (if s <= u64::MAX {
                Some((s, fraction))
            } else {
                None
            })
            &&& typed(minutes + colon + seconds) == (if s < 60 && m * 60 + s <= u64::MAX {
                Some((m * 60 + s, none))
            } else {
                None
            })
            &&& typed(minutes + colon + (seconds + point + fraction)) == (if s < 60 && m * 60 + s
                <= u64::MAX {
                Some((m * 60 + s, fraction))
            } else {
                None
            })
            &&& typed(hours + colon + minutes + colon + seconds) == (if s < 60 && m < 60 && h * 3600
                + m * 60 + s <= u64::MAX {
                Some((h * 3600 + m * 60 + s, none))
            } else {
                None
            })
            &&& typed(hours + colon + minutes + colon + (seconds + point + fraction)) == (if s < 60
                && m < 60 && h * 3600 + m * 60 + s <= u64::MAX {
                Some((h * 3600 + m * 60 + s, fraction))
            } else {
                None
            })
        }),
{
    let whole = seconds;
    let part = seconds + seq!['.'] + fraction;
    lemma_last_component(seconds, fraction);
    lemma_one_component(whole);
    lemma_one_component(part);
    lemma_two_components(minutes, whole);
    lemma_two_components(minutes, part);
    lemma_three_components(hours, minutes, whole);
    lemma_three_components(hours, minutes, part);
}

/// Nothing else is a time: what is read holds one to three components, all of them digits and all but
/// the first below sixty, and behind the digits of the last one nothing or a point and digits.
pub proof fn lemma_nothing_else_is_a_time(text: Seq<char>)
    requires
        typed(text) is Some,
    ensures
        ({
            let components = crate::text::split(text, ':');
            let last = components.last();
            let fraction = (typed(text)->0).1;
            &&& 1 <= components.len() <= 3
            &&& forall|i: int| 0 <= i < components.len() - 1 ==> only_digits(#[trigger] components[i])
            &&& forall|i: int|
                0 < i < components.len() - 1 ==> number(#[trigger] components[i]) < 60
            &&& {
                ||| only_digits(last) && fraction.len() == 0 && (components.len() > 1 ==> number(last)
                    < 60)
                ||| exists|whole: Seq<char>|
                    only_digits(whole) && only_digits(fraction) && last == #[trigger] (whole
                        + seq!['.'] + fraction) && (components.len() > 1 ==> number(whole) < 60)
            }
        }),
{
    crate::text::lemma_pieces_make_up_the_text(text, ':');
    let components = crate::text::split(text, ':');
    let last = components.last();
    let n = components.len();
    assert forall|i: int| 0 <= i < n - 1 implies only_digits(#[trigger] components[i]) && (i > 0
        ==> number(components[i]) < 60) by {
        if counted(components, (i + 1) as nat) is None {
            lemma_counted_stops(components, (i + 1) as nat, n);
        }
    }
    assert(last_component(last) is Some);
    let point = first_point(last, 0);
    lemma_point_within(last, 0);
    let fraction = (typed(text)->0).1;
    assert(counted(components, n) is Some);
    assert(n > 1 ==> (last_component(last)->0).0 < 60);
    assert(fraction == (last_component(last)->0).1);
    if point < last.len() {
        let whole = last.take(point);
        assert(last.skip(point + 1) == fraction);
        assert(last =~= whole + seq!['.'] + fraction);
        assert(only_digits(whole));
        assert(n > 1 ==> number(whole) < 60);
    } else {
        assert(only_digits(last));
    }
}

proof fn lemma_point_within(text: Seq<char>, from: int)
    requires
        0 <= from <= text.len(),
    ensures
        from <= first_point(text, from) <= text.len(),
        first_point(text, from) < text.len() ==> text[first_point(text, from)] == '.',
    decreases text.len() - from,
{
    if from < text.len() && text[from] != '.' {
        lemma_point_within(text, from + 1);
    }
}

proof fn lemma_hands(played: nat)
    ensures
        (played / 3600 * 60 + played / 60 % 60) * 60 + played % 60 == played,
        played / 3600 == 0 ==> played / 60 % 60 * 60 + played % 60 == played,
{
}

/// What a clock shows reads back as what it shows: the text of any whole number of seconds is a
/// duration of that many of them, and of nothing behind them.
pub proof fn lemma_a_clock_reads_back(played: nat)
    requires
        played <= u64::MAX,
    ensures
        typed(on_clock(played)) == Some((played, Seq::<char>::empty())),
{
    reveal_strlit(":");
    assert(":"@ =~= seq![':']);
    lemma_hands(played);
    lemma_two_digits_are_digits(played % 60);
    lemma_two_digits_are_digits(played / 60 % 60);
    lemma_decimal_is_digits(played / 3600);
    lemma_decimal_is_digits(played / 60 % 60);
    let minutes = if played / 3600 > 0 {
        two_digits(played / 60 % 60)
    } else {
        crate::text::decimal(played / 60 % 60)
    };
    let seconds = two_digits(played % 60);
    lemma_times_are_read(crate::text::decimal(played / 3600), minutes, seconds, seconds);
}

/// What a clock shows: the hours where there are any, with two digits of minutes behind them, and the
/// minutes in front where there are none, and two digits of seconds either way.
pub proof fn lemma_a_clock_shows(hours: nat, minutes: nat, seconds: nat)
    requires
        minutes < 60,
        seconds < 60,
    ensures
        ({
            let shown = on_clock(hours * 3600 + minutes * 60 + seconds);
            let tail = seq![
                ':',
                ((48 + seconds / 10) as u8) as char,
                ((48 + seconds % 10) as u8) as char,
            ];
            if hours == 0 {
                shown == crate::text::decimal(minutes) + tail
            } else {
                shown == crate::text::decimal(hours) + seq![
                    ':',
                    ((48 + minutes / 10) as u8) as char,
                    ((48 + minutes % 10) as u8) as char,
                ] + tail
            }
        }),
{
    let played = hours * 3600 + minutes * 60 + seconds;
    reveal_strlit(":");
    assert(":"@ =~= seq![':']);
    assert(played / 3600 == hours);
    assert(played / 60 == hours * 60 + minutes);
    assert(played / 60 % 60 == minutes);
    assert(played % 60 == seconds);
    lemma_two_digits(minutes);
    lemma_two_digits(seconds);
    assert(on_clock(played) =~= on_clock(hours * 3600 + minutes * 60 + seconds));
}

proof fn lemma_two_digits(value: nat)
    requires
        value < 60,
    ensures
        two_digits(value) == seq![
            ((48 + value / 10) as u8) as char,
            ((48 + value % 10) as u8) as char,
        ],
{
    reveal_strlit("0");
    reveal_with_fuel(crate::text::decimal, 3);
    assert(two_digits(value) =~= seq![
        ((48 + value / 10) as u8) as char,
        ((48 + value % 10) as u8) as char,
    ]);
}

} // verus!
