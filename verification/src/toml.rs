//! As much of TOML as it takes to find the entries of a table, line by line.

use crate::manifest::{is_letter, letter};
use crate::text::{
    before_any, chars_of, cut_before, is_one_of, text_of, trim, trimmed, unquote, unquoted,
};
use vstd::prelude::*;
use vstd::slice::slice_subrange;

verus! {

/// The name of the table that a line opens, if it opens one.
pub open spec fn heading(line: Seq<char>) -> Option<Seq<char>> {
    let t = trimmed(line);
    if t.len() > 0 && t[0] == '[' {
        Some(trimmed(before_any(t.skip(1), "]"@)))
    } else {
        None
    }
}

/// The name of the table that line `k` stands in: that of the last heading
/// before it, or nothing where there is none.
pub open spec fn section(pieces: Seq<Seq<char>>, k: int) -> Seq<char>
    decreases k,
{
    if k <= 0 {
        Seq::empty()
    } else {
        match heading(pieces[k - 1]) {
            Some(name) => name,
            None => section(pieces, k - 1),
        }
    }
}

/// What stands before the first equals sign of a line.
pub open spec fn key(line: Seq<char>) -> Seq<char> {
    trimmed(before_any(trimmed(line), "="@))
}

/// What the entry on a line is called: its key, up to the first dot. An entry
/// begins with a letter, and neither a parenthesis nor a brace stands in its key.
pub open spec fn entry(line: Seq<char>) -> Option<Seq<char>> {
    let t = trimmed(line);
    let name = trimmed(before_any(key(line), "."@));
    if t.len() > 0 && is_letter(t[0]) && name.len() > 0 && !key(line).contains('(')
        && !key(line).contains('{') {
        Some(name)
    } else {
        None
    }
}

/// The place of the last dot of `s`; minus one where there is none.
pub open spec fn last_dot(s: Seq<char>) -> int
    decreases s.len(),
{
    if s.len() == 0 {
        -1
    } else if s.last() == '.' {
        s.len() - 1
    } else {
        last_dot(s.drop_last())
    }
}

/// The entry of a table that has a table of its own, called `heading`: what
/// stands behind the last dot, where the part before it is a name that `is_table`
/// accepts.
pub open spec fn entry_with_table(
    heading: Seq<char>,
    is_table: spec_fn(Seq<char>) -> bool,
) -> Option<Seq<char>> {
    let p = last_dot(heading);
    let name = unquoted(trimmed(heading.skip(p + 1)));
    if p >= 0 && is_table(heading.take(p)) && name.len() > 0 {
        Some(name)
    } else {
        None
    }
}

/// The name of the table that a line opens, if it opens one.
pub fn heading_of(line: &[char]) -> (r: Option<&[char]>)
    ensures
        match r {
            Some(name) => heading(line@) == Some(name@),
            None => heading(line@) is None,
        },
{
    let t: &[char] = trim(line);
    if t.len() > 0 && t[0] == '[' {
        assert(t@.subrange(1, t@.len() as int) =~= t@.skip(1));
        Some(trim(cut_before(slice_subrange(t, 1, t.len()), chars_of("]").as_slice())))
    } else {
        None
    }
}

/// What stands before the first equals sign of a line.
pub fn key_of(line: &[char]) -> (r: &[char])
    ensures
        r@ == key(line@),
{
    trim(cut_before(trim(line), chars_of("=").as_slice()))
}

/// What the entry on a line is called, if there is one.
pub fn entry_of(line: &[char]) -> (r: Option<String>)
    ensures
        match r {
            Some(name) => entry(line@) == Some(name@),
            None => entry(line@) is None,
        },
{
    let t: &[char] = trim(line);
    let key: &[char] = key_of(line);
    let name: &[char] = trim(cut_before(key, chars_of(".").as_slice()));
    if t.len() > 0 && letter(t[0]) && name.len() > 0 && !is_one_of(key, '(') && !is_one_of(
        key,
        '{',
    ) {
        Some(text_of(name))
    } else {
        None
    }
}

/// The entry that has a table of its own, called `heading`, if it is one of a
/// table that `accepts` accepts.
pub fn entry_with_table_of<F: Fn(&[char]) -> bool>(
    heading: &[char],
    accepts: F,
    Ghost(is_table): Ghost<spec_fn(Seq<char>) -> bool>,
) -> (r: Option<String>)
    requires
        forall|name: &[char]| call_requires(accepts, (name,)),
        forall|name: &[char], b: bool| #[trigger]
            call_ensures(accepts, (name,), b) ==> b == is_table(name@),
    ensures
        match r {
            Some(name) => entry_with_table(heading@, is_table) == Some(name@),
            None => entry_with_table(heading@, is_table) is None,
        },
{
    let mut end: usize = heading.len();
    assert(heading@.take(end as int) =~= heading@);
    while end > 0 && heading[end - 1] != '.'
        invariant
            end <= heading@.len(),
            last_dot(heading@) == last_dot(heading@.take(end as int)),
        decreases end,
    {
        assert(heading@.take(end as int).drop_last() =~= heading@.take(end - 1));
        end -= 1;
    }
    if end == 0 {
        return None;
    }
    assert(last_dot(heading@) == end - 1);
    assert(heading@.subrange(0, end - 1) =~= heading@.take(end - 1));
    assert(heading@.subrange(end as int, heading@.len() as int) =~= heading@.skip(end as int));
    let table: &[char] = slice_subrange(heading, 0, end - 1);
    let name: &[char] = unquote(trim(slice_subrange(heading, end, heading.len())));
    if accepts(table) && name.len() > 0 {
        Some(text_of(name))
    } else {
        None
    }
}

} // verus!
