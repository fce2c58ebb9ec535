//! Paths as text: names with `/` between them, compared as they are typed and never held against a
//! disk.
//!
//! Which character a system writes between names is the system's to say. Where that is another one,
//! [`slashed`] is what a path goes through on its way in, so that it means here what it means there.

use crate::text::{characters, gathered};
use vstd::prelude::*;
use vstd::string::{StrSliceExecFns, StringExecFns};

verus! {

/// Where the name that ends in front of `end` begins: behind the last `/`, or with the text.
pub open spec fn name_start(path: Seq<char>, end: int) -> int
    decreases end,
{
    if end <= 0 {
        0
    } else if path[end - 1] == '/' {
        end
    } else {
        name_start(path, end - 1)
    }
}

/// Where the file name of the first `end` characters of `path` lies, where there is one. Slashes
/// behind it and names that are a single point do not count, and a path that leads to a parent, to
/// where one is or to nowhere has none.
pub open spec fn name_in(path: Seq<char>, end: int) -> Option<(int, int)>
    decreases end,
{
    if end <= 0 {
        None
    } else if path[end - 1] == '/' {
        name_in(path, end - 1)
    } else {
        let start = name_start(path, end);
        if start < 0 || start >= end {
            None
        } else if end - start == 1 && path[start] == '.' {
            if start == 0 {
                None
            } else {
                name_in(path, start)
            }
        } else if end - start == 2 && path[start] == '.' && path[start + 1] == '.' {
            None
        } else {
            Some((start, end))
        }
    }
}

/// Where the stem of the name from `start` to `end` ends: in front of its last point, unless that is
/// what the name begins with or there is none.
pub open spec fn stem_end(path: Seq<char>, start: int, end: int) -> int {
    let point = last_point(path, start, end);
    if point > start {
        point
    } else {
        end
    }
}

/// The last point between `start` and `end`, or `start` where there is none behind it.
pub open spec fn last_point(path: Seq<char>, start: int, end: int) -> int
    decreases end - start,
{
    if end <= start {
        start
    } else if path[end - 1] == '.' {
        end - 1
    } else {
        last_point(path, start, end - 1)
    }
}

/// `path` with `extension` in the place of the extension its file name has, or behind it where it
/// has none. A path without a file name is left as it is.
pub open spec fn extended(path: Seq<char>, extension: Seq<char>) -> Seq<char> {
    match name_in(path, path.len() as int) {
        None => path,
        Some((start, end)) => path.take(stem_end(path, start, end)) + "."@ + extension,
    }
}

/// The file name of `path` without its extension, and nothing where it has none.
pub open spec fn stem(path: Seq<char>) -> Seq<char> {
    match name_in(path, path.len() as int) {
        None => Seq::empty(),
        Some((start, end)) => path.subrange(start, stem_end(path, start, end)),
    }
}

/// `name` in the directory `directory`.
pub open spec fn under(directory: Seq<char>, name: Seq<char>) -> Seq<char> {
    if directory.len() == 0 || directory.last() == '/' {
        directory + name
    } else {
        directory + "/"@ + name
    }
}

/// `path` with `/` in the place of every `separator`.
pub open spec fn with_slashes(path: Seq<char>, separator: char) -> Seq<char> {
    path.map_values(
        |c: char|
            if c == separator {
                '/'
            } else {
                c
            },
    )
}

/// The path a system that writes `separator` between names means by `path`.
pub fn slashed(path: &str, separator: char) -> (slashed: String)
    ensures
        slashed@ == with_slashes(path@, separator),
{
    let chars: Vec<char> = characters(path);
    let mut kept: Vec<char> = Vec::new();
    let mut at: usize = 0;
    assert(kept@ =~= with_slashes(path@.take(0), separator));
    while at < chars.len()
        invariant
            at <= chars@.len(),
            chars@ == path@,
            kept@ == with_slashes(path@.take(at as int), separator),
        decreases chars@.len() - at,
    {
        let c: char = chars[at];
        kept.push(
            if c == separator {
                '/'
            } else {
                c
            },
        );
        at += 1;
        assert(kept@ =~= with_slashes(path@.take(at as int), separator));
    }
    assert(path@.take(at as int) =~= path@);
    gathered(&kept)
}

/// A path of a system that writes `/` between names is the one that is meant.
pub proof fn lemma_a_path_with_slashes_is_itself(path: Seq<char>)
    ensures
        with_slashes(path, '/') == path,
{
    assert(with_slashes(path, '/') =~= path);
}

/// Where the file name of `path` lies, where it has one.
fn name_of(path: &Vec<char>) -> (name: Option<(usize, usize)>)
    ensures
        match name {
            None => name_in(path@, path@.len() as int) is None,
            Some((start, end)) => {
                &&& name_in(path@, path@.len() as int) == Some((start as int, end as int))
                &&& start < end <= path@.len()
            },
        },
{
    let mut end: usize = path.len();
    while end > 0
        invariant
            end <= path@.len(),
            name_in(path@, path@.len() as int) == name_in(path@, end as int),
        decreases end,
    {
        if path[end - 1] == '/' {
            end -= 1;
        } else {
            let mut start: usize = end;
            while start > 0 && path[start - 1] != '/'
                invariant
                    start <= end <= path@.len(),
                    name_start(path@, end as int) == name_start(path@, start as int),
                decreases start,
            {
                start -= 1;
            }
            assert(name_start(path@, end as int) == start);
            if start == end {
                return None;
            }
            if end - start == 1 && path[start] == '.' {
                if start == 0 {
                    return None;
                }
                end = start;
            } else if end - start == 2 && path[start] == '.' && path[start + 1] == '.' {
                return None;
            } else {
                return Some((start, end));
            }
        }
    }
    None
}

/// Where the stem of the name from `start` to `end` ends.
fn stem_end_of(path: &Vec<char>, start: usize, end: usize) -> (stem: usize)
    requires
        start < end <= path@.len(),
    ensures
        stem == stem_end(path@, start as int, end as int),
        start <= stem <= end,
{
    let mut at: usize = end;
    while at > start && path[at - 1] != '.'
        invariant
            start <= at <= end <= path@.len(),
            last_point(path@, start as int, end as int) == last_point(
                path@,
                start as int,
                at as int,
            ),
        decreases at - start,
    {
        at -= 1;
    }
    if at > start + 1 {
        at - 1
    } else {
        end
    }
}

/// `path` with `extension` in the place of its extension.
pub fn with_extension(path: &str, extension: &str) -> (renamed: String)
    ensures
        renamed@ == extended(path@, extension@),
{
    let chars: Vec<char> = characters(path);
    match name_of(&chars) {
        None => String::from_str(path),
        Some((start, end)) => {
            let stop: usize = stem_end_of(&chars, start, end);
            let mut renamed: String = String::from_str(path.substring_char(0, stop));
            assert(renamed@ =~= path@.take(stop as int));
            renamed.append(".");
            renamed.append(extension);
            renamed
        },
    }
}

/// The file name of `path` without its extension, and nothing where it has none.
pub fn file_stem(path: &str) -> (name: String)
    ensures
        name@ == stem(path@),
{
    let chars: Vec<char> = characters(path);
    match name_of(&chars) {
        None => String::new(),
        Some((start, end)) => {
            let stop: usize = stem_end_of(&chars, start, end);
            String::from_str(path.substring_char(start, stop))
        },
    }
}

/// `name` in the directory `directory`.
pub fn joined(directory: &str, name: &str) -> (path: String)
    ensures
        path@ == under(directory@, name@),
{
    let chars: Vec<char> = characters(directory);
    let mut path: String = String::from_str(directory);
    if chars.len() > 0 && chars[chars.len() - 1] != '/' {
        path.append("/");
    }
    path.append(name);
    path
}

/// What a converted file is called: the input's own name with `.taf` in the place of its extension,
/// in the input's own directory.
pub fn default_output_path(first_input: &str) -> (output: String)
    ensures
        output@ == extended(first_input@, "taf"@),
{
    with_extension(first_input, "taf")
}

proof fn lemma_name_start(path: Seq<char>, start: int, end: int)
    requires
        0 <= start <= end <= path.len(),
        start == 0 || path[start - 1] == '/',
        forall|i: int| start <= i < end ==> path[i] != '/',
    ensures
        name_start(path, end) == start,
    decreases end - start,
{
    if start < end {
        assert(path[end - 1] != '/');
        lemma_name_start(path, start, end - 1);
    }
}

proof fn lemma_name_is_last(path: Seq<char>, start: int)
    requires
        0 <= start < path.len(),
        start == 0 || path[start - 1] == '/',
        forall|i: int| start <= i < path.len() ==> path[i] != '/',
        path.skip(start) != seq!['.'],
        path.skip(start) != seq!['.', '.'],
    ensures
        name_in(path, path.len() as int) == Some((start, path.len() as int)),
{
    let end = path.len() as int;
    assert(path[end - 1] != '/');
    lemma_name_start(path, start, end);
    if end - start == 1 && path[start] == '.' {
        assert(path.skip(start) =~= seq!['.']);
    }
    if end - start == 2 && path[start] == '.' && path[start + 1] == '.' {
        assert(path.skip(start) =~= seq!['.', '.']);
    }
}

proof fn lemma_last_point(path: Seq<char>, start: int, point: int, end: int)
    requires
        0 <= start <= point < end <= path.len(),
        path[point] == '.',
        forall|i: int| point < i < end ==> path[i] != '.',
    ensures
        last_point(path, start, end) == point,
    decreases end - point,
{
    if point < end - 1 {
        assert(path[end - 1] != '.');
        lemma_last_point(path, start, point, end - 1);
    }
}

proof fn lemma_no_last_point(path: Seq<char>, start: int, end: int)
    requires
        0 <= start <= end <= path.len(),
        forall|i: int| start < i < end ==> path[i] != '.',
    ensures
        last_point(path, start, end) == start,
    decreases end - start,
{
    if start < end {
        if end - 1 > start {
            assert(path[end - 1] != '.');
        }
        if path[end - 1] != '.' {
            lemma_no_last_point(path, start, end - 1);
        }
    }
}

/// What a file is called stays and what it is stated to be changes: behind the last point of its name,
/// in the directory it is in, and with every point in front of that one kept.
#[verifier::rlimit(60)]
pub proof fn lemma_an_extension_takes_the_place_of_another(
    directory: Seq<char>,
    name: Seq<char>,
    before: Seq<char>,
    after: Seq<char>,
)
    requires
        directory.len() == 0 || directory.last() == '/',
        name.len() > 0,
        !name.contains('/'),
        !before.contains('/'),
        !before.contains('.'),
        before.len() > 0 || name != seq!['.'],
    ensures
        extended(directory + name + seq!['.'] + before, after) == directory + name + seq!['.'] + after,
        stem(directory + name + seq!['.'] + before) == name,
{
    reveal_strlit(".");
    let path = directory + name + seq!['.'] + before;
    let start = directory.len() as int;
    let point = start + name.len();
    assert forall|i: int| start <= i < path.len() implies path[i] != '/' by {
        if i < point {
            assert(name.contains(name[i - start]));
            assert(path[i] == name[i - start]);
        } else if i > point {
            assert(before.contains(before[i - point - 1]));
            assert(path[i] == before[i - point - 1]);
        }
    }
    assert forall|i: int| point < i < path.len() implies path[i] != '.' by {
        assert(before.contains(before[i - point - 1]));
        assert(path[i] == before[i - point - 1]);
    }
    assert(path[point] == '.');
    let named = path.skip(start);
    assert(named.len() == name.len() + 1 + before.len());
    assert(named != seq!['.']);
    if named == seq!['.', '.'] {
        assert(name.len() == 1 && before.len() == 0);
        assert(named[0] == name[0]);
        assert(name =~= seq!['.']);
    }
    lemma_name_is_last(path, start);
    lemma_last_point(path, start, point, path.len() as int);
    assert("."@ =~= seq!['.']);
    assert(path.take(point) =~= directory + name);
    assert(path.subrange(start, point) =~= name);
}

/// A name without an extension keeps all of itself, and so does one whose only point is the one it
/// begins with.
#[verifier::rlimit(60)]
pub proof fn lemma_an_extension_goes_behind_a_name_without_one(
    directory: Seq<char>,
    name: Seq<char>,
    after: Seq<char>,
)
    requires
        directory.len() == 0 || directory.last() == '/',
        name.len() > 0,
        !name.contains('/'),
        !name.skip(1).contains('.'),
        name != seq!['.'],
    ensures
        extended(directory + name, after) == directory + name + seq!['.'] + after,
        stem(directory + name) == name,
{
    reveal_strlit(".");
    let path = directory + name;
    let start = directory.len() as int;
    assert forall|i: int| start <= i < path.len() implies path[i] != '/' by {
        assert(name.contains(name[i - start]));
    }
    assert forall|i: int| start < i < path.len() implies path[i] != '.' by {
        assert(name.skip(1)[i - start - 1] == path[i]);
        assert(name.skip(1).contains(path[i]));
    }
    assert(path.skip(start) =~= name);
    assert(name != seq!['.', '.']) by {
        if name == seq!['.', '.'] {
            assert(name.skip(1)[0] == '.');
        }
    }
    lemma_name_is_last(path, start);
    lemma_no_last_point(path, start, path.len() as int);
    assert("."@ =~= seq!['.']);
    assert(path.take(path.len() as int) =~= path);
    assert(path.subrange(start, path.len() as int) =~= name);
}

/// A path that leads to a parent names no file, and neither does one that leads to the root or nowhere.
pub proof fn lemma_a_path_to_no_file_is_left_alone(directory: Seq<char>, after: Seq<char>)
    requires
        directory.len() == 0 || directory.last() == '/',
    ensures
        extended(directory + seq!['.', '.'], after) == directory + seq!['.', '.'],
        stem(directory + seq!['.', '.']).len() == 0,
        extended(Seq::empty(), after) == Seq::<char>::empty(),
        extended(seq!['/'], after) == seq!['/'],
        stem(Seq::empty()).len() == 0,
        stem(seq!['/']).len() == 0,
{
    let path = directory + seq!['.', '.'];
    lemma_name_start(path, directory.len() as int, path.len() as int);
    reveal_with_fuel(name_in, 2);
}

/// Slashes behind a name do not count, and neither does a name that is a single point.
pub proof fn lemma_what_does_not_count_behind_a_name(path: Seq<char>, after: Seq<char>)
    requires
        name_in(path, path.len() as int) is Some,
    ensures
        extended(path + seq!['/'], after) == extended(path, after),
        stem(path + seq!['/']) == stem(path),
        extended(path + seq!['/', '.'], after) == extended(path, after),
        stem(path + seq!['/', '.']) == stem(path),
{
    let slash = path + seq!['/'];
    let point = path + seq!['/', '.'];
    let len = path.len() as int;
    lemma_name_of_front(path, seq!['/'], len);
    lemma_name_of_front(path, seq!['/', '.'], len);
    assert(name_in(slash, len + 1) == name_in(slash, len));
    lemma_name_start(point, len + 1, len + 2);
    assert(name_in(point, len + 1) == name_in(point, len));
    assert(name_in(point, len + 2) == name_in(point, len + 1));
    lemma_name_lies_within(path, len);
    let (start, end) = name_in(path, len)->0;
    lemma_stem_of_front(path, seq!['/'], start, end);
    lemma_stem_of_front(path, seq!['/', '.'], start, end);
    let stop = stem_end(path, start, end);
    assert(slash.take(stop) =~= path.take(stop));
    assert(point.take(stop) =~= path.take(stop));
    assert(slash.subrange(start, stop) =~= path.subrange(start, stop));
    assert(point.subrange(start, stop) =~= path.subrange(start, stop));
}

proof fn lemma_name_start_of_front(path: Seq<char>, more: Seq<char>, end: int)
    requires
        0 <= end <= path.len(),
    ensures
        name_start(path + more, end) == name_start(path, end),
        0 <= name_start(path, end) <= end,
    decreases end,
{
    if end > 0 {
        assert((path + more)[end - 1] == path[end - 1]);
        lemma_name_start_of_front(path, more, end - 1);
    }
}

proof fn lemma_name_of_front(path: Seq<char>, more: Seq<char>, end: int)
    requires
        0 <= end <= path.len(),
    ensures
        name_in(path + more, end) == name_in(path, end),
    decreases end,
{
    if end > 0 {
        let all = path + more;
        assert(all[end - 1] == path[end - 1]);
        lemma_name_start_of_front(path, more, end);
        let start = name_start(path, end);
        if path[end - 1] == '/' {
            lemma_name_of_front(path, more, end - 1);
        } else if start < end {
            assert(all[start] == path[start]);
            if start + 1 < end {
                assert(all[start + 1] == path[start + 1]);
            }
            if start > 0 {
                lemma_name_of_front(path, more, start);
            }
        }
    }
}

proof fn lemma_name_lies_within(path: Seq<char>, end: int)
    requires
        0 <= end <= path.len(),
    ensures
        name_in(path, end) matches Some((start, stop)) ==> 0 <= start < stop <= end,
    decreases end,
{
    if end > 0 {
        lemma_name_start_of_front(path, Seq::empty(), end);
        assert(path + Seq::empty() =~= path);
        let start = name_start(path, end);
        if path[end - 1] == '/' {
            lemma_name_lies_within(path, end - 1);
        } else if start > 0 && start < end {
            lemma_name_lies_within(path, start);
        }
    }
}

proof fn lemma_stem_of_front(path: Seq<char>, more: Seq<char>, start: int, end: int)
    requires
        0 <= start < end <= path.len(),
    ensures
        stem_end(path + more, start, end) == stem_end(path, start, end),
        start <= stem_end(path, start, end) <= end,
{
    lemma_last_point_of_front(path, more, start, end);
}

proof fn lemma_last_point_of_front(path: Seq<char>, more: Seq<char>, start: int, end: int)
    requires
        0 <= start <= end <= path.len(),
    ensures
        last_point(path + more, start, end) == last_point(path, start, end),
        start <= last_point(path, start, end) <= end,
    decreases end - start,
{
    if start < end {
        assert((path + more)[end - 1] == path[end - 1]);
        lemma_last_point_of_front(path, more, start, end - 1);
    }
}

/// A name under a directory lies behind it, with one separator in between and none where there is no
/// directory.
pub proof fn lemma_a_name_lies_under_its_directory(directory: Seq<char>, name: Seq<char>)
    requires
        name.len() > 0,
        name[0] != '/',
    ensures
        directory.len() == 0 ==> under(directory, name) == name,
        directory.len() > 0 && directory.last() == '/' ==> under(directory, name) == directory + name,
        directory.len() > 0 && directory.last() != '/' ==> under(directory, name) == directory + seq![
            '/',
        ] + name,
{
    reveal_strlit("/");
    assert("/"@ =~= seq!['/']);
    assert(directory.len() == 0 ==> directory + name =~= name);
}

/// Every separator becomes a slash, and nothing else changes.
pub proof fn lemma_every_separator_becomes_a_slash(path: Seq<char>, separator: char, at: int)
    requires
        0 <= at < path.len(),
    ensures
        with_slashes(path, separator).len() == path.len(),
        path[at] == separator ==> with_slashes(path, separator)[at] == '/',
        path[at] != separator ==> with_slashes(path, separator)[at] == path[at],
{
}

} // verus!
