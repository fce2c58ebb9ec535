//! Numbers in words' company: the text of a number, digit by digit.

use vstd::prelude::*;
use vstd::string::StringExecFns;

verus! {

/// The character of a decimal digit.
pub open spec fn digit(value: nat) -> char {
    if value == 0 {
        '0'
    } else if value == 1 {
        '1'
    } else if value == 2 {
        '2'
    } else if value == 3 {
        '3'
    } else if value == 4 {
        '4'
    } else if value == 5 {
        '5'
    } else if value == 6 {
        '6'
    } else if value == 7 {
        '7'
    } else if value == 8 {
        '8'
    } else {
        '9'
    }
}

/// A number in decimal, with no zero in front of it but the one it is.
pub open spec fn decimal(value: nat) -> Seq<char>
    decreases value,
{
    if value < 10 {
        seq![digit(value)]
    } else {
        decimal(value / 10).push(digit(value % 10))
    }
}

/// The text of a decimal digit.
fn digit_text(value: u64) -> (text: &'static str)
    requires
        value < 10,
    ensures
        text@ == seq![digit(value as nat)],
{
    proof {
        reveal_strlit("0");
        reveal_strlit("1");
        reveal_strlit("2");
        reveal_strlit("3");
        reveal_strlit("4");
        reveal_strlit("5");
        reveal_strlit("6");
        reveal_strlit("7");
        reveal_strlit("8");
        reveal_strlit("9");
    }
    let text = match value {
        0 => "0",
        1 => "1",
        2 => "2",
        3 => "3",
        4 => "4",
        5 => "5",
        6 => "6",
        7 => "7",
        8 => "8",
        _ => "9",
    };
    assert(text@ =~= seq![digit(value as nat)]);
    text
}

/// Appends `value` in decimal to `out`.
pub fn put_decimal(out: &mut String, value: u64)
    ensures
        final(out)@ == old(out)@ + decimal(value as nat),
    decreases value,
{
    if value >= 10 {
        put_decimal(out, value / 10);
    }
    out.append(digit_text(value % 10));
    assert(out@ =~= old(out)@ + decimal(value as nat));
}

/// The text of a number behind `before` and in front of `after`.
pub fn around(before: &str, value: u64, after: &str) -> (text: String)
    ensures
        text@ == before@ + decimal(value as nat) + after@,
{
    let mut text: String = String::from_str(before);
    put_decimal(&mut text, value);
    text.append(after);
    text
}

/// The characters of `text`.
pub fn characters(text: &str) -> (chars: Vec<char>)
    ensures
        chars@ == text@,
{
    let mut chars: Vec<char> = Vec::new();
    broadcast use vstd::string::group_string_axioms;
    for c in iter: text.chars()
        invariant
            chars@ == iter.seq().take(iter.index() as int),
            iter.seq() == text@,
    {
        chars.push(c);
        assert(iter.seq().take(iter.index() + 1) =~= iter.seq().take(iter.index() as int).push(c));
    }
    chars
}

/// `text` cut at every `separator`: one piece more than there are separators.
pub open spec fn split(text: Seq<char>, separator: char) -> Seq<Seq<char>>
    decreases text.len(),
{
    if text.len() == 0 {
        seq![Seq::empty()]
    } else {
        let front = split(text.drop_last(), separator);
        if text.last() == separator {
            front.push(Seq::empty())
        } else {
            front.drop_last().push(front.last().push(text.last()))
        }
    }
}

/// `pieces` with `separator` between them.
pub open spec fn joined(pieces: Seq<Seq<char>>, separator: char) -> Seq<char>
    decreases pieces.len(),
{
    if pieces.len() == 0 {
        Seq::empty()
    } else if pieces.len() == 1 {
        pieces[0]
    } else {
        joined(pieces.drop_last(), separator).push(separator) + pieces.last()
    }
}

/// Pieces are joined one behind the other.
pub proof fn lemma_joined(pieces: Seq<Seq<char>>, last: Seq<char>, separator: char)
    ensures
        joined(seq![last], separator) == last,
        pieces.len() > 0 ==> joined(pieces.push(last), separator) == joined(pieces, separator)
            + seq![separator] + last,
{
    assert(pieces.push(last).drop_last() =~= pieces);
    assert(joined(pieces, separator).push(separator) =~= joined(pieces, separator)
        + seq![separator]);
}

/// Cutting a text loses nothing of it and leaves no separator: its pieces with the separator between
/// them are the text, and none of them holds the separator.
pub proof fn lemma_pieces_make_up_the_text(text: Seq<char>, separator: char)
    ensures
        split(text, separator).len() > 0,
        joined(split(text, separator), separator) == text,
        forall|i: int|
            0 <= i < split(text, separator).len() ==> !#[trigger] split(
                text,
                separator,
            )[i].contains(separator),
    decreases text.len(),
{
    let all = split(text, separator);
    if text.len() == 0 {
        assert(all =~= seq![Seq::empty()]);
        assert(all[0] =~= text);
    } else {
        let less = text.drop_last();
        let front = split(less, separator);
        lemma_pieces_make_up_the_text(less, separator);
        if text.last() == separator {
            assert(all.drop_last() =~= front);
            assert(joined(all, separator) =~= text);
            assert forall|i: int| 0 <= i < all.len() implies !#[trigger] all[i].contains(separator) by {
                if i < front.len() {
                    assert(all[i] == front[i]);
                }
            }
        } else {
            let last = front.last().push(text.last());
            assert(all.drop_last() =~= front.drop_last());
            assert(joined(all, separator) =~= text) by {
                if front.len() == 1 {
                    assert(joined(all, separator) == last);
                    assert(last =~= less.push(text.last()));
                } else {
                    assert(joined(all, separator) =~= joined(front, separator).push(text.last()));
                }
            }
            assert forall|i: int| 0 <= i < all.len() implies !#[trigger] all[i].contains(separator) by {
                if i < front.len() - 1 {
                    assert(all[i] == front[i]);
                } else {
                    assert(!front[front.len() - 1].contains(separator));
                    assert forall|k: int| 0 <= k < last.len() implies last[k] != separator by {
                        if k < last.len() - 1 {
                            assert(last[k] == front.last()[k]);
                        }
                    }
                }
            }
        }
    }
}

/// A text without the separator is one piece.
pub proof fn lemma_one_piece(text: Seq<char>, separator: char)
    requires
        !text.contains(separator),
    ensures
        split(text, separator) == seq![text],
    decreases text.len(),
{
    if text.len() > 0 {
        let less = text.drop_last();
        assert forall|i: int| 0 <= i < less.len() implies less[i] != separator by {
            assert(less[i] == text[i]);
            assert(text.contains(text[i]));
        }
        lemma_one_piece(less, separator);
        assert(text.contains(text[text.len() - 1]));
        assert(less.push(text.last()) =~= text);
        assert(seq![less].drop_last() =~= Seq::empty());
        assert(split(text, separator) =~= seq![text]);
    } else {
        assert(text =~= Seq::empty());
    }
}

/// What lies behind the last separator is the last piece, behind the pieces of what lies in front of it.
pub proof fn lemma_last_piece(front: Seq<char>, last: Seq<char>, separator: char)
    requires
        !last.contains(separator),
    ensures
        split(front + seq![separator] + last, separator) == split(front, separator).push(last),
    decreases last.len(),
{
    let text = front + seq![separator] + last;
    if last.len() > 0 {
        let less = last.drop_last();
        assert forall|i: int| 0 <= i < less.len() implies less[i] != separator by {
            assert(less[i] == last[i]);
            assert(last.contains(last[i]));
        }
        lemma_last_piece(front, less, separator);
        assert(last.contains(last[last.len() - 1]));
        assert(text.drop_last() =~= front + seq![separator] + less);
        assert(less.push(last.last()) =~= last);
        assert(split(text, separator) =~= split(front, separator).push(last));
    } else {
        assert(text.drop_last() =~= front);
        assert(last =~= Seq::empty());
    }
}

/// Pieces that do not hold the separator are cut apart again where they are joined by it.
pub proof fn lemma_joined_pieces_are_cut_apart(list: Seq<Seq<char>>, separator: char)
    requires
        list.len() > 0,
        forall|i: int| 0 <= i < list.len() ==> !#[trigger] list[i].contains(separator),
    ensures
        split(joined(list, separator), separator) == list,
    decreases list.len(),
{
    assert(!list[list.len() - 1].contains(separator));
    if list.len() == 1 {
        lemma_one_piece(list[0], separator);
        assert(seq![list[0]] =~= list);
    } else {
        let less = list.drop_last();
        assert forall|i: int| 0 <= i < less.len() implies !#[trigger] less[i].contains(separator) by {
            assert(less[i] == list[i]);
        }
        lemma_joined_pieces_are_cut_apart(less, separator);
        lemma_last_piece(joined(less, separator), list.last(), separator);
        assert(joined(less, separator).push(separator) =~= joined(less, separator)
            + seq![separator]);
        assert(less.push(list.last()) =~= list);
    }
}

/// The characters of each piece.
pub open spec fn pieces(list: Seq<Vec<char>>) -> Seq<Seq<char>> {
    list.map_values(|piece: Vec<char>| piece@)
}

/// Cuts `text` at every `separator`.
pub fn split_on(text: &[char], separator: char) -> (list: Vec<Vec<char>>)
    ensures
        pieces(list@) == split(text@, separator),
        list@.len() > 0,
{
    let mut list: Vec<Vec<char>> = Vec::new();
    let mut last: Vec<char> = Vec::new();
    let mut at: usize = 0;
    assert(pieces(list@).push(last@) =~= split(text@.take(0), separator));
    while at < text.len()
        invariant
            at <= text@.len(),
            pieces(list@).push(last@) == split(text@.take(at as int), separator),
        decreases text@.len() - at,
    {
        let ghost before = pieces(list@).push(last@);
        assert(text@.take(at + 1).drop_last() =~= text@.take(at as int));
        assert(before.drop_last() =~= pieces(list@));
        let c: char = text[at];
        if c == separator {
            let ghost listed = list@;
            let ghost piece = last@;
            list.push(last);
            last = Vec::new();
            assert(pieces(list@) =~= pieces(listed).push(piece));
            assert(last@ =~= Seq::empty());
        } else {
            last.push(c);
        }
        at += 1;
        assert(pieces(list@).push(last@) =~= split(text@.take(at as int), separator));
    }
    assert(text@.take(at as int) =~= text@);
    let ghost listed = list@;
    let ghost piece = last@;
    list.push(last);
    assert(pieces(list@) =~= pieces(listed).push(piece));
    list
}

/// Whether two texts are the same.
pub fn same(left: &str, right: &str) -> (is: bool)
    ensures
        is == (left@ == right@),
{
    String::from_str(left) == String::from_str(right)
}

/// The texts of `list`, copied.
pub fn copied(list: &Vec<String>) -> (copy: Vec<String>)
    ensures
        copy@ == list@,
{
    let mut copy: Vec<String> = Vec::new();
    let mut at: usize = 0;
    while at < list.len()
        invariant
            at <= list@.len(),
            copy@ == list@.take(at as int),
        decreases list@.len() - at,
    {
        copy.push(list[at].clone());
        at += 1;
        assert(copy@ =~= list@.take(at as int));
    }
    assert(copy@ =~= list@);
    copy
}

/// Appends `c` to `text`, as `String::push` documents.
pub assume_specification[ String::push ](text: &mut String, c: char)
    ensures
        final(text)@ == old(text)@.push(c),
;

/// The text `chars` are.
pub fn gathered(chars: &Vec<char>) -> (text: String)
    ensures
        text@ == chars@,
{
    let mut text: String = String::new();
    let mut at: usize = 0;
    while at < chars.len()
        invariant
            at <= chars@.len(),
            text@ == chars@.take(at as int),
        decreases chars@.len() - at,
    {
        text.push(chars[at]);
        at += 1;
        assert(text@ =~= chars@.take(at as int));
    }
    assert(text@ =~= chars@);
    text
}

} // verus!
