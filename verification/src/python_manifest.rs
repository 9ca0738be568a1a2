//! Dependencies in `requirements.txt` and `pyproject.toml`.

use crate::manifest::{add_name, add_names};
use crate::text::{
    before_any, begins_with, chars_of, cut_before, ends_with, finishes_with, is_word, lines,
    split_lines, starts_with, text_of, texts, trim, trimmed,
};
use crate::toml::{
    entry, entry_of, entry_with_table, entry_with_table_of, heading, heading_of, key, key_of,
};
use vstd::prelude::*;
use vstd::slice::slice_subrange;

verus! {

/// The name in a requirement: what stands before the first mark of a version, an
/// option, an address or a condition.
pub open spec fn required_name(s: Seq<char>) -> Seq<char> {
    before_any(s, "=<>!;~ [(@,\t"@)
}

/// The dependency that a line of `requirements.txt` names, where it is neither a
/// comment nor an option nor a heading.
pub open spec fn requirement(line: Seq<char>) -> Option<Seq<char>> {
    let t = trimmed(line);
    let name = required_name(t);
    if t.len() > 0 && t[0] != '#' && t[0] != '-' && t[0] != '[' && name.len() > 0 {
        Some(name)
    } else {
        None
    }
}

/// Whether some line of the `requirements.txt` that reads `text` names `name`.
pub open spec fn requirements_name(text: Seq<char>, name: Seq<char>) -> bool {
    exists|k: int|
        0 <= k < lines(text).len() && requirement(#[trigger] lines(text)[k]) == Some(name)
}

/// The number of characters at the start of `s` that are skipped as one: a string
/// with its quotes or a table with its braces, all of `s` where these do not end,
/// and one character otherwise.
pub open spec fn skipped(s: Seq<char>) -> int {
    let close = closing(s[0]);
    let inner = before_any(s.skip(1), seq![close]).len() as int;
    if close == ' ' {
        1
    } else if inner + 1 >= s.len() {
        s.len() as int
    } else {
        inner + 2
    }
}

/// The character that closes what `c` opens; a space where it opens nothing.
pub open spec fn closing(c: char) -> char {
    if c == '"' || c == '\'' {
        c
    } else if c == '{' {
        '}'
    } else {
        ' '
    }
}

/// The name in the string that `s` begins with, if it begins with one that ends.
pub open spec fn quoted_name(s: Seq<char>) -> Seq<Seq<char>> {
    let name = required_name(trimmed(before_any(s.skip(1), seq![s[0]])));
    if (s[0] == '"' || s[0] == '\'') && s.skip(1).contains(s[0]) && name.len() > 0 {
        seq![name]
    } else {
        Seq::empty()
    }
}

/// The names in the strings of a list, on one line, up to its end or a comment.
/// `s` is what follows the bracket that opens the list, or a later line of it.
pub open spec fn listed_names(s: Seq<char>) -> Seq<Seq<char>>
    decreases s.len(),
{
    if s.len() == 0 || s[0] == '#' || s[0] == ']' {
        Seq::empty()
    } else {
        quoted_name(s) + listed_names(s.skip(skipped(s)))
    }
}

/// Whether a list ends on the line of which `s` is what `listed_names` reads.
pub open spec fn ends_list(s: Seq<char>) -> bool
    decreases s.len(),
{
    if s.len() == 0 || s[0] == '#' {
        false
    } else if s[0] == ']' {
        true
    } else {
        ends_list(s.skip(skipped(s)))
    }
}

/// Whether the list under `path` (a table, a dot and a key) lists dependencies:
/// those of the project, of its options, of its groups or of its build.
pub open spec fn is_dependency_list(path: Seq<char>) -> bool {
    ||| path == "project.dependencies"@
    ||| path == "build-system.requires"@
    ||| begins_with(path, "project.optional-dependencies."@)
    ||| begins_with(path, "dependency-groups."@)
}

/// Whether a table has an entry for each dependency.
pub open spec fn is_poetry_table(name: Seq<char>) -> bool {
    ||| name == "tool.poetry.dependencies"@
    ||| name == "tool.poetry.dev-dependencies"@
    ||| begins_with(name, "tool.poetry.group."@) && finishes_with(name, ".dependencies"@)
}

/// The dependency that a line in a table with an entry for each names. The entry
/// `python` is for the language itself.
pub open spec fn poetry_entry(line: Seq<char>) -> Option<Seq<char>> {
    if entry(line) == Some("python"@) {
        None
    } else {
        entry(line)
    }
}

/// The path of the key on a line in the table `table`.
pub open spec fn path_of(table: Seq<char>, line: Seq<char>) -> Seq<char> {
    if table.len() == 0 {
        key(line)
    } else {
        table + "."@ + key(line)
    }
}

/// What follows the opening bracket of the list of dependencies that a line in
/// the table `table` starts, if it starts one.
pub open spec fn list_start(table: Seq<char>, line: Seq<char>) -> Option<Seq<char>> {
    let t = trimmed(line);
    let p = before_any(t, "="@).len() as int;
    let value = trimmed(t.skip(p + 1));
    if p < t.len() && is_dependency_list(path_of(table, line)) && value.len() > 0 && value[0]
        == '[' {
        Some(value.skip(1))
    } else {
        None
    }
}

/// Where a line of `pyproject.toml` stands: in which table, and whether inside a
/// list of dependencies.
pub struct Place {
    pub table: Seq<char>,
    pub listing: bool,
}

/// Where line `k` stands.
pub open spec fn place(pieces: Seq<Seq<char>>, k: int) -> Place
    decreases k,
{
    if k <= 0 {
        Place { table: Seq::empty(), listing: false }
    } else {
        let before = place(pieces, k - 1);
        let line = pieces[k - 1];
        if before.listing {
            Place { table: before.table, listing: !ends_list(trimmed(line)) }
        } else {
            match heading(line) {
                Some(name) => Place { table: name, listing: false },
                None => Place {
                    table: before.table,
                    listing: list_start(before.table, line) is Some && !ends_list(
                        list_start(before.table, line)->0,
                    ),
                },
            }
        }
    }
}

/// One name or none.
pub open spec fn at_most_one(name: Option<Seq<char>>) -> Seq<Seq<char>> {
    match name {
        Some(name) => seq![name],
        None => Seq::empty(),
    }
}

/// The dependencies that line `k` of `pyproject.toml` names: in a list of them,
/// as an entry of a table of them, or as the heading of a table for one such entry.
pub open spec fn project_dependencies(pieces: Seq<Seq<char>>, k: int) -> Seq<Seq<char>> {
    let at = place(pieces, k);
    let line = pieces[k];
    if at.listing {
        listed_names(trimmed(line))
    } else if heading(line) is Some {
        at_most_one(entry_with_table(heading(line)->0, |t: Seq<char>| is_poetry_table(t)))
    } else if list_start(at.table, line) is Some {
        listed_names(list_start(at.table, line)->0)
    } else if is_poetry_table(at.table) {
        at_most_one(poetry_entry(line))
    } else {
        Seq::empty()
    }
}

/// Whether some line of the `pyproject.toml` that reads `text` names `name`.
pub open spec fn project_names(text: Seq<char>, name: Seq<char>) -> bool {
    exists|k: int|
        0 <= k < lines(text).len() && (#[trigger] project_dependencies(lines(text), k)).contains(
            name,
        )
}

/// The name in a requirement.
fn required_name_of(s: &[char]) -> (r: &[char])
    ensures
        r@ == required_name(s@),
{
    cut_before(s, chars_of("=<>!;~ [(@,\t").as_slice())
}

/// The dependency that a line of `requirements.txt` names.
fn requirement_of(line: &[char]) -> (r: Option<String>)
    ensures
        match r {
            Some(name) => requirement(line@) == Some(name@),
            None => requirement(line@) is None,
        },
{
    let t: &[char] = trim(line);
    if t.len() == 0 || t[0] == '#' || t[0] == '-' || t[0] == '[' {
        return None;
    }
    let name: &[char] = required_name_of(t);
    if name.len() > 0 {
        Some(text_of(name))
    } else {
        None
    }
}

/// Adds the dependencies that the `requirements.txt` that reads `text` names to
/// `found`.
pub fn read_requirements(text: &str, found: &mut Vec<String>)
    ensures
        forall|name: Seq<char>|
            #![trigger texts(final(found)@).contains(name)]
            texts(final(found)@).contains(name) <==> texts(old(found)@).contains(name)
                || requirements_name(text@, name),
{
    let chars: Vec<char> = chars_of(text);
    let all: Vec<&[char]> = split_lines(chars.as_slice());
    let ghost pieces = lines(text@);
    let ghost start = texts(found@);
    let mut k: usize = 0;
    while k < all.len()
        invariant
            k <= all@.len(),
            pieces == lines(text@),
            pieces.len() == all@.len(),
            forall|m: int| 0 <= m < all@.len() ==> (#[trigger] all@[m])@ == pieces[m],
            forall|name: Seq<char>|
                #![trigger texts(found@).contains(name)]
                texts(found@).contains(name) <==> start.contains(name) || exists|m: int|
                    0 <= m < k && requirement(#[trigger] pieces[m]) == Some(name),
        decreases all@.len() - k,
    {
        let line: &[char] = all[k];
        assert(line@ == pieces[k as int]);
        if let Some(name) = requirement_of(line) {
            add_name(found, name);
        }
        k += 1;
    }
}

/// A cut text ends before the first mark.
proof fn lemma_before_any(s: Seq<char>, c: char)
    ensures
        before_any(s, seq![c]).len() <= s.len(),
        before_any(s, seq![c]).len() < s.len() <==> s.contains(c),
    decreases s.len(),
{
    if s.len() > 0 {
        assert(seq![c][0] == c);
        if s[0] != c {
            lemma_before_any(s.drop_first(), c);
            if s.contains(c) {
                let i = choose|i: int| 0 <= i < s.len() && s[i] == c;
                assert(s.drop_first()[i - 1] == c);
            }
            if s.drop_first().contains(c) {
                let i = choose|i: int| 0 <= i < s.drop_first().len() && s.drop_first()[i] == c;
                assert(s[i + 1] == c);
            }
        }
    }
}

/// The names in the strings of a list, on one line, and whether the list ends.
fn read_list(s: &[char]) -> (r: (Vec<String>, bool))
    ensures
        texts(r.0@) == listed_names(s@),
        r.1 == ends_list(s@),
{
    let mut names: Vec<String> = Vec::new();
    let mut i: usize = 0;
    assert(s@.skip(0) =~= s@);
    assert(texts(names@) + listed_names(s@) =~= listed_names(s@));
    while i < s.len()
        invariant
            i <= s@.len(),
            listed_names(s@) == texts(names@) + listed_names(s@.skip(i as int)),
            ends_list(s@) == ends_list(s@.skip(i as int)),
        decreases s@.len() - i,
    {
        let ghost rest = s@.skip(i as int);
        let ghost before = texts(names@);
        let c: char = s[i];
        assert(rest[0] == c);
        if c == '#' || c == ']' {
            assert(before + listed_names(rest) =~= before);
            return (names, c == ']');
        }
        if c == '"' || c == '\'' || c == '{' {
            let close: char = if c == '{' {
                '}'
            } else {
                c
            };
            let behind: &[char] = slice_subrange(s, i + 1, s.len());
            assert(behind@ =~= rest.skip(1));
            let marks: Vec<char> = vec![close];
            assert(marks@ =~= seq![close]);
            let inner: &[char] = cut_before(behind, marks.as_slice());
            proof {
                lemma_before_any(rest.skip(1), close);
            }
            let ends: bool = inner.len() < behind.len();
            if c != '{' && ends {
                let name: &[char] = required_name_of(trim(inner));
                if name.len() > 0 {
                    let name: String = text_of(name);
                    names.push(name);
                    assert(texts(names@) =~= before.push(name@));
                }
            }
            assert(texts(names@) =~= before + quoted_name(rest));
            if ends {
                assert(rest.skip(skipped(rest)) =~= s@.skip(i + inner@.len() + 2));
                i += inner.len() + 2;
            } else {
                assert(rest.skip(skipped(rest)) =~= s@.skip(s@.len() as int));
                i = s.len();
            }
        } else {
            assert(quoted_name(rest) =~= Seq::empty());
            assert(before =~= before + quoted_name(rest));
            assert(rest.skip(1) =~= s@.skip(i + 1));
            i += 1;
        }
        assert(listed_names(s@) =~= texts(names@) + listed_names(s@.skip(i as int)));
    }
    assert(texts(names@) + listed_names(s@.skip(i as int)) =~= texts(names@));
    (names, false)
}

/// Whether the list under `path` lists dependencies.
fn dependency_list(path: &[char]) -> (r: bool)
    ensures
        r == is_dependency_list(path@),
{
    is_word(path, "project.dependencies") || is_word(path, "build-system.requires") || starts_with(
        path,
        chars_of("project.optional-dependencies.").as_slice(),
    ) || starts_with(path, chars_of("dependency-groups.").as_slice())
}

/// Whether a table has an entry for each dependency.
fn poetry_table(name: &[char]) -> (r: bool)
    ensures
        r == is_poetry_table(name@),
{
    is_word(name, "tool.poetry.dependencies") || is_word(name, "tool.poetry.dev-dependencies") || (
    starts_with(name, chars_of("tool.poetry.group.").as_slice()) && ends_with(
        name,
        chars_of(".dependencies").as_slice(),
    ))
}

/// The dependency that a line in a table with an entry for each names.
fn poetry_entry_of(line: &[char]) -> (r: Option<String>)
    ensures
        match r {
            Some(name) => poetry_entry(line@) == Some(name@),
            None => poetry_entry(line@) is None,
        },
{
    match entry_of(line) {
        Some(name) => {
            if is_word(chars_of(name.as_str()).as_slice(), "python") {
                None
            } else {
                Some(name)
            }
        },
        None => None,
    }
}

/// The path of the key on a line in the table `table`.
fn path_of_key(table: &[char], line: &[char]) -> (r: String)
    ensures
        r@ == path_of(table@, line@),
{
    let name: String = text_of(key_of(line));
    if table.len() == 0 {
        name
    } else {
        let mut r: String = text_of(table);
        r.append(".");
        r.append(name.as_str());
        r
    }
}

/// What follows the opening bracket of the list of dependencies that a line in
/// the table `table` starts, if it starts one.
fn list_start_of<'a>(table: &[char], line: &'a [char]) -> (r: Option<&'a [char]>)
    ensures
        match r {
            Some(rest) => list_start(table@, line@) == Some(rest@),
            None => list_start(table@, line@) is None,
        },
{
    let t: &[char] = trim(line);
    let p: usize = cut_before(t, chars_of("=").as_slice()).len();
    if p >= t.len() {
        return None;
    }
    assert(t@.subrange(p + 1, t@.len() as int) =~= t@.skip(p + 1));
    let value: &[char] = trim(slice_subrange(t, p + 1, t.len()));
    let path: Vec<char> = chars_of(path_of_key(table, line).as_str());
    if dependency_list(path.as_slice()) && value.len() > 0 && value[0] == '[' {
        assert(value@.subrange(1, value@.len() as int) =~= value@.skip(1));
        Some(slice_subrange(value, 1, value.len()))
    } else {
        None
    }
}

/// One name or none.
fn one_or_none(name: Option<String>) -> (r: Vec<String>)
    ensures
        texts(r@) == at_most_one(
            match name {
                Some(name) => Some(name@),
                None => None,
            },
        ),
{
    let mut r: Vec<String> = Vec::new();
    if let Some(name) = name {
        r.push(name);
        assert(texts(r@) =~= seq![name@]);
    } else {
        assert(texts(r@) =~= Seq::<Seq<char>>::empty());
    }
    r
}

/// Adds the dependencies that the `pyproject.toml` that reads `text` names to
/// `found`.
pub fn read_project(text: &str, found: &mut Vec<String>)
    ensures
        forall|name: Seq<char>|
            #![trigger texts(final(found)@).contains(name)]
            texts(final(found)@).contains(name) <==> texts(old(found)@).contains(name)
                || project_names(text@, name),
{
    let chars: Vec<char> = chars_of(text);
    let all: Vec<&[char]> = split_lines(chars.as_slice());
    let nothing: Vec<char> = Vec::new();
    let ghost pieces = lines(text@);
    let ghost start = texts(found@);
    let mut table: &[char] = nothing.as_slice();
    let mut listing: bool = false;
    assert(table@ =~= Seq::<char>::empty());
    let mut k: usize = 0;
    while k < all.len()
        invariant
            k <= all@.len(),
            pieces == lines(text@),
            pieces.len() == all@.len(),
            forall|m: int| 0 <= m < all@.len() ==> (#[trigger] all@[m])@ == pieces[m],
            table@ == place(pieces, k as int).table,
            listing == place(pieces, k as int).listing,
            forall|name: Seq<char>|
                #![trigger texts(found@).contains(name)]
                texts(found@).contains(name) <==> start.contains(name) || exists|m: int|
                    0 <= m < k && (#[trigger] project_dependencies(pieces, m)).contains(name),
        decreases all@.len() - k,
    {
        let line: &[char] = all[k];
        assert(line@ == pieces[k as int]);
        let ghost named = project_dependencies(pieces, k as int);
        let names: Vec<String> = if listing {
            let (names, ends) = read_list(trim(line));
            listing = !ends;
            names
        } else {
            match heading_of(line) {
                Some(name) => {
                    table = name;
                    one_or_none(
                        entry_with_table_of(
                            name,
                            poetry_table,
                            Ghost(|t: Seq<char>| is_poetry_table(t)),
                        ),
                    )
                },
                None => match list_start_of(table, line) {
                    Some(rest) => {
                        let (names, ends) = read_list(rest);
                        listing = !ends;
                        names
                    },
                    None => {
                        if poetry_table(table) {
                            one_or_none(poetry_entry_of(line))
                        } else {
                            one_or_none(None)
                        }
                    },
                },
            }
        };
        assert(texts(names@) =~= named);
        add_names(found, names);
        k += 1;
    }
}

} // verus!
