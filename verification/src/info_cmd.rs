//! Reading TAF files back at the command line: what is said about each of them, and what a run over
//! all of them comes to.
//!
//! A file that is the one its header describes is reported in the answer, all of it. A file that is not
//! gets no report at all and is said aside instead, in one line naming it and what went wrong. The
//! files behind it are read all the same.

use crate::cli::{Lines, Said};
use crate::duration::clock;
use crate::inspect::{ChapterRead, Found, InspectError, Inspection};
use crate::text::{around, characters, put_decimal};
use vstd::prelude::*;
use vstd::string::StringExecFns;

verus! {

/// The character of a hexadecimal digit.
pub open spec fn hex_digit(value: nat) -> char {
    if value < 10 {
        crate::text::digit(value)
    } else if value == 10 {
        'a'
    } else if value == 11 {
        'b'
    } else if value == 12 {
        'c'
    } else if value == 13 {
        'd'
    } else if value == 14 {
        'e'
    } else {
        'f'
    }
}

/// `bytes` in hexadecimal, two digits to a byte.
pub open spec fn in_hex(bytes: Seq<u8>) -> Seq<char> {
    Seq::new(
        2 * bytes.len(),
        |i: int|
            hex_digit(
                if i % 2 == 0 {
                    bytes[i / 2] as nat / 16
                } else {
                    bytes[i / 2] as nat % 16
                },
            ),
    )
}

/// The character of a hexadecimal digit.
fn hex_char(value: u8) -> (c: char)
    requires
        value < 16,
    ensures
        c == hex_digit(value as nat),
{
    match value {
        0 => '0',
        1 => '1',
        2 => '2',
        3 => '3',
        4 => '4',
        5 => '5',
        6 => '6',
        7 => '7',
        8 => '8',
        9 => '9',
        10 => 'a',
        11 => 'b',
        12 => 'c',
        13 => 'd',
        14 => 'e',
        _ => 'f',
    }
}

/// `bytes` in the hexadecimal a hash is read and quoted in.
pub fn hex(bytes: &[u8; 20]) -> (text: String)
    ensures
        text@ == in_hex(bytes@),
{
    let mut text: String = String::new();
    let mut at: usize = 0;
    while at < 20
        invariant
            at <= 20,
            text@ == in_hex(bytes@.take(at as int)),
        decreases 20 - at,
    {
        let ghost before = text@;
        let byte: u8 = bytes[at];
        text.push(hex_char(byte / 16));
        text.push(hex_char(byte % 16));
        at += 1;
        assert(text@ =~= in_hex(bytes@.take(at as int))) by {
            let taken = bytes@.take(at as int);
            assert forall|i: int| 0 <= i < text@.len() implies text@[i] == in_hex(taken)[i] by {
                if i < before.len() {
                    assert(text@[i] == before[i]);
                    assert(taken[i / 2] == bytes@.take(at - 1)[i / 2]);
                }
            }
        }
    }
    assert(bytes@.take(at as int) =~= bytes@);
    text
}

/// `text` at the right of a column `width` wide. A text that is wider takes the room it needs.
pub open spec fn in_column(text: Seq<char>, width: nat) -> Seq<char> {
    if text.len() < width {
        Seq::new((width - text.len()) as nat, |i: int| ' ') + text
    } else {
        text
    }
}

fn put_in_column(out: &mut String, text: &str, width: usize)
    ensures
        final(out)@ == old(out)@ + in_column(text@, width as nat),
{
    let len: usize = characters(text).len();
    let mut at: usize = len;
    let ghost before = out@;
    let ghost mut spaces: Seq<char> = Seq::empty();
    assert(out@ =~= before + spaces);
    while at < width
        invariant
            len == text@.len(),
            len <= at,
            len < width ==> at <= width,
            len >= width ==> at == len,
            out@ == before + spaces,
            spaces == Seq::new((at - len) as nat, |i: int| ' '),
        decreases width - at,
    {
        out.push(' ');
        at += 1;
        proof {
            spaces = spaces.push(' ');
            assert(spaces =~= Seq::new((at - len) as nat, |i: int| ' '));
            assert(out@ =~= before + spaces);
        }
    }
    out.append(text);
    assert(out@ =~= before + in_column(text@, width as nat));
}

/// A row of the chapter table.
pub open spec fn row(number: Seq<char>, block: Seq<char>, start: Seq<char>) -> Seq<char> {
    "    "@ + in_column(number, 3) + "  "@ + in_column(block, 5) + "  "@ + in_column(start, 5)
}

fn table_row(number: &str, block: &str, start: &str) -> (line: String)
    ensures
        line@ == row(number@, block@, start@),
{
    let mut line: String = String::from_str("    ");
    put_in_column(&mut line, number, 3);
    line.append("  ");
    put_in_column(&mut line, block, 5);
    line.append("  ");
    put_in_column(&mut line, start, 5);
    line
}

/// The row of the `at`-th chapter, counted from nothing.
pub open spec fn chapter_row(at: nat, chapter: ChapterRead) -> Seq<char> {
    row(
        crate::text::decimal(at + 1),
        crate::text::decimal(chapter.block.0 as nat),
        crate::duration::on_clock(chapter.start.secs as nat),
    )
}

/// What is said about the file at `path`, which holds `found`.
pub open spec fn report_of(path: Seq<char>, found: Found) -> Seq<Seq<char>> {
    seq![
        path,
        "  audio id: "@ + crate::text::decimal(found.audio_id.0 as nat),
        "  duration: "@ + crate::duration::on_clock(found.duration.secs as nat),
        "  audio: "@ + crate::text::decimal(found.audio_bytes as nat) + " bytes"@,
        "  chapters: "@ + crate::text::decimal(found.chapters.len()),
        row("#"@, "block"@, "start"@),
    ] + Seq::new(
        found.chapters.len(),
        |at: int| chapter_row(at as nat, found.chapters[at]),
    ) + seq!["  valid"@]
}

/// What is said about the file at `path`, which was found to hold `inspection`.
pub fn report(path: &str, inspection: &Inspection) -> (lines: Vec<String>)
    ensures
        crate::job::texts(lines@) == report_of(path@, inspection@),
{
    let ghost found = inspection@;
    let mut lines: Vec<String> = Vec::new();
    lines.push(String::from_str(path));
    lines.push(around("  audio id: ", inspection.audio_id.get() as u64, ""));
    let mut line: String = String::from_str("  duration: ");
    line.append(clock(inspection.duration).as_str());
    lines.push(line);
    lines.push(around("  audio: ", inspection.audio_bytes as u64, " bytes"));
    lines.push(around("  chapters: ", inspection.chapters.len() as u64, ""));
    lines.push(table_row("#", "block", "start"));
    let ghost head = lines@;
    proof {
        reveal_strlit("");
        assert(report_of(path@, found).take(6) =~= crate::job::texts(head)) by {
            assert(crate::text::decimal(found.audio_id.0 as nat) + ""@ =~= crate::text::decimal(
                found.audio_id.0 as nat,
            ));
            assert(head[1]@ =~= "  audio id: "@ + crate::text::decimal(found.audio_id.0 as nat));
            assert(head[4]@ =~= "  chapters: "@ + crate::text::decimal(found.chapters.len()));
        }
    }
    let mut at: usize = 0;
    while at < inspection.chapters.len()
        invariant
            at <= inspection.chapters@.len(),
            found == inspection@,
            crate::job::texts(lines@) == crate::job::texts(head) + Seq::new(
                at as nat,
                |i: int| chapter_row(i as nat, found.chapters[i]),
            ),
        decreases inspection.chapters@.len() - at,
    {
        let ghost before = lines@;
        let chapter: ChapterRead = inspection.chapters[at];
        let mut number: String = String::new();
        put_decimal(&mut number, at as u64 + 1);
        assert(number@ =~= crate::text::decimal((at + 1) as nat));
        let mut block: String = String::new();
        put_decimal(&mut block, chapter.block.get() as u64);
        assert(block@ =~= crate::text::decimal(chapter.block.0 as nat));
        lines.push(
            table_row(number.as_str(), block.as_str(), clock(chapter.start).as_str()),
        );
        assert(crate::job::texts(lines@) =~= crate::job::texts(before).push(
            chapter_row(at as nat, found.chapters[at as int]),
        ));
        at += 1;
        assert(crate::job::texts(lines@) =~= crate::job::texts(head) + Seq::new(
            at as nat,
            |i: int| chapter_row(i as nat, found.chapters[i]),
        ));
    }
    let ghost before = lines@;
    lines.push(String::from_str("  valid"));
    assert(crate::job::texts(lines@) =~= crate::job::texts(before).push("  valid"@));
    assert(crate::job::texts(lines@) =~= report_of(path@, found));
    lines
}

/// What is wrong with a file, every layer of it on one line. A hash is stated beside the one the
/// header asks for.
pub open spec fn wrong(error: InspectError) -> Seq<char> {
    match error {
        InspectError::Header(why) => error.said() + ": "@ + why@,
        InspectError::Block { at: _, source } => error.said() + ": "@ + source.said(),
        InspectError::Sha1Mismatch { stated, hashed } => error.said() + ": header "@ + in_hex(
            stated@,
        ) + ", audio "@ + in_hex(hashed@),
        _ => error.said(),
    }
}

/// What is wrong with a file, every layer of it on one line.
pub fn why(error: &InspectError) -> (text: String)
    ensures
        text@ == wrong(*error),
{
    let mut text: String = error.message();
    match error {
        InspectError::Header(why) => {
            text.append(": ");
            text.append(why.as_str());
        },
        InspectError::Block { at: _, source } => {
            text.append(": ");
            text.append(source.message().as_str());
        },
        InspectError::Sha1Mismatch { stated, hashed } => {
            text.append(": header ");
            text.append(hex(stated).as_str());
            text.append(", audio ");
            text.append(hex(hashed).as_str());
        },
        _ => {},
    }
    text
}

/// A run over files: how many of them have been refused, as far as a count goes.
#[derive(Debug)]
pub struct Reading {
    refused: usize,
}

impl View for Reading {
    type V = nat;

    closed spec fn view(&self) -> nat {
        self.refused as nat
    }
}

/// What is said about the file at `path`, where reading it came to `result`.
pub open spec fn said_of(path: Seq<char>, result: Result<Inspection, InspectError>) -> Lines {
    match result {
        Ok(inspection) => Lines {
            ahead: Seq::empty(),
            answer: report_of(path, inspection@),
            aside: Seq::empty(),
        },
        Err(error) => Lines {
            ahead: Seq::empty(),
            answer: Seq::empty(),
            aside: seq![path + ": "@ + wrong(error)],
        },
    }
}

/// What a run over files of which `refused` were refused comes to, where that is no success.
pub open spec fn verdict_on(refused: nat) -> Option<Seq<char>> {
    if refused == 0 {
        None
    } else if refused == 1 {
        Some("1 file is not the TAF its header describes"@)
    } else {
        Some(
            ""@ + crate::text::decimal(refused) + " files are not the TAFs their headers describe"@,
        )
    }
}

impl Reading {
    /// A run that has read nothing.
    pub fn new() -> (reading: Self)
        ensures
            reading@ == 0,
    {
        Reading { refused: 0 }
    }

    /// Takes what reading the file at `path` came to, and says what there is to say about it. One that
    /// is refused does not stop the run.
    pub fn file(&mut self, path: &str, result: Result<Inspection, InspectError>) -> (said: Said)
        ensures
            said@ == said_of(path@, result),
            final(self)@ == (if result is Err && old(self)@ < usize::MAX {
                old(self)@ + 1
            } else {
                old(self)@
            }),
    {
        let said = match &result {
            Ok(inspection) => Said {
                ahead: Vec::new(),
                answer: report(path, inspection),
                aside: Vec::new(),
            },
            Err(error) => {
                self.refused = self.refused.saturating_add(1);
                let mut line: String = String::from_str(path);
                line.append(": ");
                line.append(why(error).as_str());
                let mut aside: Vec<String> = Vec::new();
                aside.push(line);
                Said { ahead: Vec::new(), answer: Vec::new(), aside }
            },
        };
        assert(said@.ahead =~= said_of(path@, result).ahead);
        assert(said@.answer =~= said_of(path@, result).answer);
        assert(said@.aside =~= said_of(path@, result).aside);
        said
    }

    /// What the run as a whole came to.
    pub fn verdict(&self) -> (result: Result<(), String>)
        ensures
            match result {
                Ok(()) => verdict_on(self@) is None,
                Err(text) => verdict_on(self@) == Some(text@),
            },
    {
        match self.refused {
            0 => Ok(()),
            1 => Err(String::from_str("1 file is not the TAF its header describes")),
            many => Err(around("", many as u64, " files are not the TAFs their headers describe")),
        }
    }
}

/// What a hexadecimal digit counts.
pub open spec fn hex_value(c: char) -> int {
    if '0' <= c <= '9' {
        c as int - '0' as int
    } else {
        c as int - 'a' as int + 10
    }
}

/// Whether `c` is a hexadecimal digit, a small one.
pub open spec fn is_hex(c: char) -> bool {
    '0' <= c <= '9' || 'a' <= c <= 'f'
}

/// Hexadecimal reads back: two digits to a byte, of which the first counts sixteens.
pub proof fn lemma_hex_reads_back(bytes: Seq<u8>, at: int)
    requires
        0 <= at < bytes.len(),
    ensures
        in_hex(bytes).len() == 2 * bytes.len(),
        is_hex(in_hex(bytes)[2 * at]),
        is_hex(in_hex(bytes)[2 * at + 1]),
        16 * hex_value(in_hex(bytes)[2 * at]) + hex_value(in_hex(bytes)[2 * at + 1]) == bytes[at],
{
    lemma_hex_digit(bytes[at] as nat / 16);
    lemma_hex_digit(bytes[at] as nat % 16);
    assert((2 * at) / 2 == at && (2 * at) % 2 == 0);
    assert((2 * at + 1) / 2 == at && (2 * at + 1) % 2 == 1);
}

proof fn lemma_hex_digit(value: nat)
    requires
        value < 16,
    ensures
        is_hex(hex_digit(value)),
        hex_value(hex_digit(value)) == value,
{
}

/// A column holds its text at the right, with nothing but spaces in front, and is as wide as it is or as
/// wide as the text.
pub proof fn lemma_a_column_holds_its_text(text: Seq<char>, width: nat)
    ensures
        ({
            let column = in_column(text, width);
            let front = column.len() - text.len();
            &&& front >= 0
            &&& column.len() == (if text.len() < width {
                width
            } else {
                text.len()
            })
            &&& column.skip(front) == text
            &&& forall|i: int| 0 <= i < front ==> #[trigger] column[i] == ' '
        }),
{
    let column = in_column(text, width);
    assert(column.skip(column.len() - text.len()) =~= text);
}

/// What is said about a file: its path, its audio id, how long it plays, how long its audio region is, how
/// many chapters it has, and then every one of them, in order: its number, the block it starts at and when
/// it starts.
pub proof fn lemma_what_is_said_about_a_file(path: Seq<char>, found: Found, at: int)
    ensures
        ({
            let lines = report_of(path, found);
            let chapters = found.chapters;
            &&& lines.len() == 7 + chapters.len()
            &&& lines[0] == path
            &&& lines[1] == "  audio id: "@ + crate::text::decimal(found.audio_id.0 as nat)
            &&& lines[2] == "  duration: "@ + crate::duration::on_clock(found.duration.secs as nat)
            &&& lines[3] == "  audio: "@ + crate::text::decimal(found.audio_bytes as nat) + " bytes"@
            &&& lines[4] == "  chapters: "@ + crate::text::decimal(chapters.len())
            &&& lines[5] == "    "@ + in_column("#"@, 3) + "  "@ + in_column("block"@, 5) + "  "@
                + in_column("start"@, 5)
            &&& lines.last() == "  valid"@
            &&& 0 <= at < chapters.len() ==> lines[6 + at] == "    "@ + in_column(
                crate::text::decimal((at + 1) as nat),
                3,
            ) + "  "@ + in_column(crate::text::decimal(chapters[at].block.0 as nat), 5) + "  "@
                + in_column(crate::duration::on_clock(chapters[at].start.secs as nat), 5)
        }),
{
}

/// A file is said either in the answer or aside, and a refused one in a single line that begins with its
/// path.
pub proof fn lemma_where_a_file_is_said(path: Seq<char>, result: Result<Inspection, InspectError>)
    ensures
        ({
            let said = said_of(path, result);
            &&& said.ahead.len() == 0
            &&& result is Ok ==> said.aside.len() == 0 && said.answer.len() >= 7 && said.answer[0]
                == path
            &&& result matches Err(error) ==> {
                &&& said.answer.len() == 0
                &&& said.aside.len() == 1
                &&& said.aside[0].take(path.len() as int) == path
                &&& said.aside[0].skip(path.len() as int) == ": "@ + wrong(error)
            }
        }),
{
    if let Err(error) = result {
        let line = path + ": "@ + wrong(error);
        assert(line.take(path.len() as int) =~= path);
        assert(line.skip(path.len() as int) =~= ": "@ + wrong(error));
    }
}

/// What is wrong with a file is said with what caused it: why the header could not be read, what is wrong
/// with the block, or the two hashes, the one the header states first.
pub proof fn lemma_what_is_wrong_is_said(error: InspectError)
    ensures
        error matches InspectError::Header(why) ==> wrong(error) == "cannot read the header block"@
            + ": "@ + why@,
        error matches InspectError::Block { at, source } ==> wrong(error) == "block "@
            + crate::text::decimal(at as nat) + " of the audio region"@ + ": "@ + source.said(),
        error matches InspectError::Sha1Mismatch { stated, hashed } ==> wrong(error)
            == "the audio does not hash to the sha1 its header states"@ + ": header "@ + in_hex(stated@)
            + ", audio "@ + in_hex(hashed@),
        error matches InspectError::Open(why) ==> wrong(error) == why@,
        error matches InspectError::Read(why) ==> wrong(error) == why@,
        error matches InspectError::Parse(parse) ==> wrong(error) == parse.said(),
        error matches InspectError::Audio(audio) ==> wrong(error) == audio.said(),
{
}

/// A run comes to a success where nothing was refused, and else says how many files were.
pub proof fn lemma_what_a_run_comes_to(refused: nat)
    ensures
        verdict_on(refused) is None <==> refused == 0,
        refused == 1 ==> verdict_on(refused) == Some("1 file is not the TAF its header describes"@),
        refused > 1 ==> verdict_on(refused) == Some(
            crate::text::decimal(refused) + " files are not the TAFs their headers describe"@,
        ),
{
    reveal_strlit("");
    assert(""@ + crate::text::decimal(refused) =~= crate::text::decimal(refused));
}

} // verus!
