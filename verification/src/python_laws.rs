//! What `pyproject.toml` names, told by its text.

use crate::manifest::{is_dependency, Manifests};
use crate::manifest_laws::{
    ends_name, is_plain_name, is_required_name, lemma_entry, lemma_heading, lemma_name_char,
    lemma_no_dot_part, lemma_required_name, lemma_simple_key,
};
use crate::python_manifest::{
    ends_list, is_dependency_list, is_poetry_table, list_start, listed_names, place,
    project_dependencies, project_names, quoted_name, skipped,
};
use crate::text::{begins_with, finishes_with, is_white, joined, lines, trimmed};
use crate::text_laws::{
    law_cutting, law_joining, law_lines_of_joined_lines, law_trimming, law_unquoting, lemma_kept,
};
use crate::toml::{heading, key};
use vstd::prelude::*;

verus! {

/// A string in a list names what it begins with up to the mark of a version, an
/// option, an address or a condition, and the rest of the list is read on behind
/// it.
pub proof fn law_string_in_a_list_names_it(
    q: char,
    name: Seq<char>,
    rest: Seq<char>,
    more: Seq<char>,
)
    requires
        q == '"' || q == '\'',
        is_required_name(name),
        !name.contains(q),
        !rest.contains(q),
        rest.len() > 0 ==> ends_name(rest[0]),
    ensures
        listed_names(seq![q] + (name + rest) + seq![q] + more) == seq![name] + listed_names(more),
        ends_list(seq![q] + (name + rest) + seq![q] + more) == ends_list(more),
{
    let none = Seq::<char>::empty();
    let body = name + rest;
    let s = seq![q] + body + seq![q] + more;
    assert(s[0] == q);
    let tail = s.skip(1);
    assert(tail =~= body + (seq![q] + more));
    assert(seq![q][0] == q);
    assert forall|i: int| 0 <= i < body.len() implies !seq![q].contains(#[trigger] body[i]) by {
        if i < name.len() {
            assert(name.contains(name[i]));
            assert(body[i] == name[i]);
        } else {
            assert(body[i] == rest[i - name.len()]);
            assert(rest.contains(rest[i - name.len()]));
        }
    }
    law_cutting(body, seq![q] + more, seq![q]);
    assert(tail[body.len() as int] == q);
    let r = lemma_kept(none, name, rest);
    assert(none + name + rest =~= body);
    lemma_required_name(name, r.0, rest, r.1);
    assert(quoted_name(s) == seq![name]);
    assert(skipped(s) == body.len() + 2);
    assert(s.skip(skipped(s)) =~= more);
}

/// What parts the strings of a list names nothing; a closing bracket ends the list,
/// and a comment the line.
pub proof fn law_between_the_strings_of_a_list(c: char, more: Seq<char>)
    requires
        c != '"',
        c != '\'',
        c != '{',
    ensures
        c == ']' ==> listed_names(seq![c] + more).len() == 0 && ends_list(seq![c] + more),
        c == '#' ==> listed_names(seq![c] + more).len() == 0 && !ends_list(seq![c] + more),
        c != ']' && c != '#' ==> listed_names(seq![c] + more) == listed_names(more) && ends_list(
            seq![c] + more,
        ) == ends_list(more),
        listed_names(Seq::empty()).len() == 0,
        !ends_list(Seq::empty()),
{
    let s = seq![c] + more;
    assert(s[0] == c);
    if c != ']' && c != '#' {
        assert(skipped(s) == 1);
        assert(s.skip(1) =~= more);
        assert(quoted_name(s) + listed_names(more) =~= listed_names(more));
    }
}

/// A table between braces in a list names nothing, and the rest of the list is read
/// on behind it. A string or a table that does not end takes up the rest of the line.
pub proof fn law_table_in_a_list_names_nothing(
    mark: char,
    inner: Seq<char>,
    more: Seq<char>,
)
    requires
        mark == '{' || mark == '"' || mark == '\'',
        mark == '{' ==> !inner.contains('}'),
        mark != '{' ==> !inner.contains(mark),
    ensures
        mark == '{' ==> listed_names(seq!['{'] + inner + seq!['}'] + more) == listed_names(more),
        mark == '{' ==> ends_list(seq!['{'] + inner + seq!['}'] + more) == ends_list(more),
        listed_names(seq![mark] + inner).len() == 0,
        !ends_list(seq![mark] + inner),
{
    let none = Seq::<char>::empty();
    let close = if mark == '{' {
        '}'
    } else {
        mark
    };
    assert forall|i: int| 0 <= i < inner.len() implies !seq![close].contains(
        #[trigger] inner[i],
    ) by {
        assert(inner.contains(inner[i]));
    }
    let s = seq!['{'] + inner + seq!['}'] + more;
    if mark == '{' {
        assert(s[0] == '{');
        assert(s.skip(1) =~= inner + (seq!['}'] + more));
        assert(seq![close][0] == '}');
        law_cutting(inner, seq!['}'] + more, seq![close]);
        assert(skipped(s) == inner.len() + 2);
        assert(s.skip(skipped(s)) =~= more);
        assert(quoted_name(s) + listed_names(more) =~= listed_names(more));
    }
    let t = seq![mark] + inner;
    assert(t[0] == mark);
    assert(t.skip(1) =~= inner + none);
    law_cutting(inner, none, seq![close]);
    assert(inner + none =~= inner);
    assert(skipped(t) == t.len());
    assert(t.skip(t.len() as int) =~= none);
    assert(quoted_name(t) =~= Seq::<Seq<char>>::empty());
    assert(listed_names(none) =~= Seq::<Seq<char>>::empty());
    assert(!ends_list(none));
    assert(ends_list(t) == ends_list(t.skip(skipped(t))));
}

/// The lists of dependencies, by table and key.
pub open spec fn is_list_of_dependencies(table: Seq<char>, key: Seq<char>) -> bool {
    ||| table == "project"@ && key == "dependencies"@
    ||| table == "build-system"@ && key == "requires"@
    ||| table == "project.optional-dependencies"@
    ||| table == "dependency-groups"@
}

/// These are lists of dependencies.
proof fn lemma_lists(table: Seq<char>, key: Seq<char>)
    requires
        is_list_of_dependencies(table, key),
    ensures
        is_dependency_list(table + "."@ + key),
        table.len() > 0,
        !is_white(table[0]),
        !is_white(table.last()),
        !table.contains(']'),
        !table.contains('\n'),
{
    reveal_strlit("project");
    reveal_strlit("dependencies");
    reveal_strlit("build-system");
    reveal_strlit("requires");
    reveal_strlit("project.optional-dependencies");
    reveal_strlit("dependency-groups");
    reveal_strlit(".");
    reveal_strlit("project.dependencies");
    reveal_strlit("build-system.requires");
    reveal_strlit("project.optional-dependencies.");
    reveal_strlit("dependency-groups.");
    let path = table + "."@ + key;
    if table == "project"@ && key == "dependencies"@ {
        assert(path =~= "project.dependencies"@);
    } else if table == "build-system"@ && key == "requires"@ {
        assert(path =~= "build-system.requires"@);
    } else {
        let head = table + "."@;
        assert(path.subrange(0, head.len() as int) =~= head);
        if table == "project.optional-dependencies"@ {
            assert(head =~= "project.optional-dependencies."@);
        } else {
            assert(head =~= "dependency-groups."@);
        }
    }
}

/// The lines of a text of two.
proof fn lemma_two_lines(a: Seq<char>, b: Seq<char>)
    requires
        !a.contains('\n'),
        !b.contains('\n'),
    ensures
        lines(a + seq!['\n'] + b) == seq![a, b],
{
    let sep = seq!['\n'];
    let parts = seq![a, b];
    law_joining(seq![a], b, sep);
    law_joining(Seq::empty(), a, sep);
    assert(Seq::<Seq<char>>::empty().push(a) =~= seq![a]);
    assert(seq![a].push(b) =~= parts);
    law_lines_of_joined_lines(parts);
}

/// A heading without line feeds.
proof fn lemma_heading_line(table: Seq<char>)
    requires
        table.len() > 0,
        !is_white(table[0]),
        !is_white(table.last()),
        !table.contains(']'),
        !table.contains('\n'),
    ensures
        heading(seq!['['] + table + seq![']']) == Some(table),
        !(seq!['['] + table + seq![']']).contains('\n'),
{
    let none = Seq::<char>::empty();
    let first = seq!['['] + table + seq![']'];
    lemma_heading(none, table, none);
    assert(none + first + none =~= first);
    if first.contains('\n') {
        let i = choose|i: int| 0 <= i < first.len() && first[i] == '\n';
        assert(table[i - 1] == '\n');
    }
}

/// A table of `pyproject.toml` with one list of dependencies names the strings of
/// the list and nothing else, where the table has no entry for each.
pub proof fn law_list_of_dependencies_names_its_strings(
    m: Manifests,
    table: Seq<char>,
    key: Seq<char>,
    items: Seq<char>,
    x: Seq<char>,
)
    requires
        is_list_of_dependencies(table, key),
        is_plain_name(key),
        !items.contains('\n'),
        items.len() > 0,
        !is_white(items.last()),
        m.pyproject_toml is Some,
        m.pyproject_toml->0@ == seq!['['] + table + seq![']'] + seq!['\n'] + (key + " = ["@
            + items),
        m.cargo_toml is None,
        m.package_json is None,
        m.requirements_txt is None,
    ensures
        is_dependency(m, x) <==> listed_names(items).contains(x),
{
    reveal_strlit(" = [");
    let none = Seq::<char>::empty();
    let first = seq!['['] + table + seq![']'];
    let second = key + " = ["@ + items;
    let text = m.pyproject_toml->0@;
    lemma_lists(table, key);
    lemma_heading_line(table);
    assert(!second.contains('\n')) by {
        if second.contains('\n') {
            let i = choose|i: int| 0 <= i < second.len() && second[i] == '\n';
            if i < key.len() {
                assert(key[i] == '\n');
                lemma_name_char(key[i]);
            } else if i >= key.len() + 4 {
                assert(items[i - key.len() - 4] == '\n');
            } else {
                assert(second[i] == " = ["@[i - key.len()]);
            }
        }
    }
    lemma_two_lines(first, second);
    let parts = seq![first, second];
    assert(lines(text) == parts);
    // The second line.
    lemma_simple_key(key, seq![' '], seq![' ', '['] + items);
    assert(second =~= key + (seq![' '] + seq!['='] + (seq![' ', '['] + items)));
    lemma_name_char(key[0]);
    assert(second.last() == items.last());
    law_trimming(none, second, none);
    assert(none + second + none =~= second);
    assert(second[0] == key[0]);
    let value = seq!['['] + items;
    assert(second.skip(key.len() as int + 2) =~= seq![' '] + value + none);
    assert(value.last() == items.last());
    law_trimming(seq![' '], value, none);
    assert(value.skip(1) =~= items);
    assert(place(parts, 0) == (crate::python_manifest::Place { table: none, listing: false }));
    assert(parts[0] == first && parts[1] == second);
    assert(place(parts, 1).table == table);
    assert(!place(parts, 1).listing);
    assert(list_start(table, second) == Some(items));
    assert(project_dependencies(parts, 1) == listed_names(items));
    lemma_no_poetry_parent(table);
    assert(project_dependencies(parts, 0) =~= Seq::<Seq<char>>::empty());
    if listed_names(items).contains(x) {
        assert(project_dependencies(lines(text), 1).contains(x));
    }
}

/// None of these tables is one for an entry of a table with an entry for each.
proof fn lemma_no_poetry_parent(table: Seq<char>)
    requires
        table == "project"@ || table == "build-system"@ || table
            == "project.optional-dependencies"@ || table == "dependency-groups"@,
    ensures
        crate::toml::entry_with_table(table, |t: Seq<char>| is_poetry_table(t)) is None,
{
    reveal_strlit("project");
    reveal_strlit("build-system");
    reveal_strlit("project.optional-dependencies");
    reveal_strlit("dependency-groups");
    reveal_strlit("tool.poetry.dependencies");
    reveal_strlit("tool.poetry.dev-dependencies");
    reveal_strlit("tool.poetry.group.");
    if table == "project.optional-dependencies"@ {
        let a = "project"@;
        let b = table.skip(8);
        lemma_no_dot_part(a, b);
        assert(table =~= a + seq!['.'] + b);
        assert(table.take(7) =~= a);
        assert("tool.poetry.dependencies"@.len() != 7);
        assert("tool.poetry.dev-dependencies"@.len() != 7);
        assert(!is_poetry_table(a));
    } else {
        crate::manifest_laws::lemma_no_dot(table);
    }
}

/// The tables of `pyproject.toml` with an entry for each dependency; `group` is the
/// name of a group for those that have one.
pub open spec fn is_table_of_entries(table: Seq<char>, group: Seq<char>) -> bool {
    ||| table == "tool.poetry.dependencies"@
    ||| table == "tool.poetry.dev-dependencies"@
    ||| is_plain_name(group) && group != "dependencies"@ && table == "tool.poetry.group."@ + group
        + ".dependencies"@
}

/// A table of `pyproject.toml` with an entry for each dependency names its entry
/// and nothing else; `python` is none.
pub proof fn law_entry_of_a_poetry_table_names_it(
    m: Manifests,
    table: Seq<char>,
    group: Seq<char>,
    name: Seq<char>,
    value: Seq<char>,
    x: Seq<char>,
)
    requires
        is_table_of_entries(table, group),
        is_plain_name(name),
        !value.contains('\n'),
        m.pyproject_toml is Some,
        m.pyproject_toml->0@ == seq!['['] + table + seq![']'] + seq!['\n'] + (name + " = "@
            + value),
        m.cargo_toml is None,
        m.package_json is None,
        m.requirements_txt is None,
    ensures
        is_dependency(m, x) <==> x == name && name != "python"@,
{
    reveal_strlit(" = ");
    reveal_strlit("tool.poetry.dependencies");
    reveal_strlit("tool.poetry.dev-dependencies");
    let none = Seq::<char>::empty();
    let first = seq!['['] + table + seq![']'];
    let second = name + " = "@ + value;
    let text = m.pyproject_toml->0@;
    lemma_table_of_entries(table, group);
    lemma_heading_line(table);
    assert(!second.contains('\n')) by {
        if second.contains('\n') {
            let i = choose|i: int| 0 <= i < second.len() && second[i] == '\n';
            if i < name.len() {
                assert(name[i] == '\n');
                lemma_name_char(name[i]);
            } else if i >= name.len() + 3 {
                assert(value[i - name.len() - 3] == '\n');
            } else {
                assert(second[i] == " = "@[i - name.len()]);
            }
        }
    }
    lemma_two_lines(first, second);
    let parts = seq![first, second];
    assert(lines(text) == parts);
    lemma_entry(none, name, seq![' '], '=', seq![' '] + value);
    assert(second =~= none + name + (seq![' '] + seq!['='] + (seq![' '] + value)));
    lemma_simple_key(name, seq![' '], seq![' '] + value);
    assert(second =~= name + (seq![' '] + seq!['='] + (seq![' '] + value)));
    assert(parts[0] == first && parts[1] == second);
    assert(place(parts, 0).table == none && !place(parts, 0).listing);
    assert(place(parts, 1).table == table);
    assert(!place(parts, 1).listing);
    lemma_poetry_paths(table, name);
    assert(list_start(table, second) is None);
    lemma_poetry_heading(table, group);
    assert(project_dependencies(parts, 0) =~= Seq::<Seq<char>>::empty());
    if name != "python"@ {
        assert(project_dependencies(parts, 1) == seq![name]);
        assert(seq![name][0] == name);
        if x == name {
            assert(project_dependencies(lines(text), 1).contains(x));
        }
    } else {
        assert(project_dependencies(parts, 1) =~= Seq::<Seq<char>>::empty());
    }
}

/// Such a table is accepted, and its name is that of a heading.
proof fn lemma_table_of_entries(table: Seq<char>, group: Seq<char>)
    requires
        is_table_of_entries(table, group),
    ensures
        is_poetry_table(table),
        table.len() > 0,
        table[0] == 't',
        !is_white(table[0]),
        !is_white(table.last()),
        !table.contains(']'),
        !table.contains('\n'),
{
    reveal_strlit("tool.poetry.dependencies");
    reveal_strlit("tool.poetry.dev-dependencies");
    reveal_strlit("tool.poetry.group.");
    reveal_strlit(".dependencies");
    let a = "tool.poetry.group."@;
    let d = ".dependencies"@;
    if table == a + group + d {
        assert(table.subrange(0, a.len() as int) =~= a);
        assert(table.subrange(table.len() - d.len(), table.len() as int) =~= d);
        assert(table.last() == d[12]);
        assert forall|i: int| 0 <= i < table.len() implies #[trigger] table[i] != ']' && table[i]
            != '\n' by {
            if i < a.len() {
                assert(table[i] == a[i]);
            } else if i < a.len() + group.len() {
                assert(table[i] == group[i - a.len()]);
                lemma_name_char(group[i - a.len()]);
            } else {
                assert(table[i] == d[i - a.len() - group.len()]);
            }
        }
    }
}

/// An entry of such a table is no list of dependencies.
proof fn lemma_poetry_paths(table: Seq<char>, name: Seq<char>)
    requires
        table.len() > 0,
        table[0] == 't',
    ensures
        !is_dependency_list(table + "."@ + name),
{
    reveal_strlit("project.dependencies");
    reveal_strlit("build-system.requires");
    reveal_strlit("project.optional-dependencies.");
    reveal_strlit("dependency-groups.");
    let path = table + "."@ + name;
    assert(path[0] == 't');
    assert("project.dependencies"@[0] == 'p');
    assert("build-system.requires"@[0] == 'b');
    if begins_with(path, "project.optional-dependencies."@) {
        let n = "project.optional-dependencies."@.len() as int;
        assert(path.subrange(0, n)[0] == 'p');
    }
    if begins_with(path, "dependency-groups."@) {
        let n = "dependency-groups."@.len() as int;
        assert(path.subrange(0, n)[0] == 'd');
    }
}

/// The heading of such a table names nothing.
proof fn lemma_poetry_heading(table: Seq<char>, group: Seq<char>)
    requires
        is_table_of_entries(table, group),
    ensures
        crate::toml::entry_with_table(table, |t: Seq<char>| is_poetry_table(t)) is None,
{
    reveal_strlit("tool.poetry.dependencies");
    reveal_strlit("tool.poetry.dev-dependencies");
    reveal_strlit("tool.poetry.group.");
    reveal_strlit(".dependencies");
    reveal_strlit("dependencies");
    let front = "tool.poetry.group."@;
    let d = ".dependencies"@;
    if table == "tool.poetry.dependencies"@ || table == "tool.poetry.dev-dependencies"@ {
        let a = table.take(11);
        let b = table.skip(12);
        lemma_no_dot_part(a, b);
        assert(table =~= a + seq!['.'] + b);
        assert("tool.poetry.dependencies"@.len() != 11);
        assert("tool.poetry.dev-dependencies"@.len() != 11);
        assert(a.len() == 11);
        assert(!is_poetry_table(a));
    } else {
        let a = front + group;
        let b = "dependencies"@;
        lemma_no_dot_part(a, b);
        assert(d =~= seq!['.'] + b);
        assert(table =~= a + seq!['.'] + b);
        assert(table.take(a.len() as int) =~= a);
        assert(a[12] == 'g');
        assert("tool.poetry.dependencies"@[12] == 'd');
        assert("tool.poetry.dev-dependencies"@[12] == 'd');
        if finishes_with(a, d) {
            let at = a.len() - 13;
            assert(a.subrange(at, a.len() as int) =~= d);
            assert(a.subrange(at, a.len() as int)[0] == '.');
            assert(a[at] == '.');
            if at >= front.len() {
                assert(a[at] == group[at - front.len()]);
                lemma_name_char(group[at - front.len()]);
            } else {
                assert(front[at] == '.');
                assert(at == 4 || at == 11 || at == 17);
                if at == 4 {
                    assert(a.subrange(at, a.len() as int)[1] == 'p');
                } else if at == 11 {
                    assert(a.subrange(at, a.len() as int)[1] == 'g');
                } else {
                    assert(group =~= b) by {
                        assert forall|i: int| 0 <= i < group.len() implies group[i] == b[i] by {
                            assert(a.subrange(at, a.len() as int)[i + 1] == group[i]);
                            assert(d[i + 1] == b[i]);
                        }
                    }
                }
            }
        }
        assert(!is_poetry_table(a));
    }
}

/// Another table of `pyproject.toml`, or another key, names nothing.
pub proof fn law_entry_elsewhere_names_nothing(
    m: Manifests,
    table: Seq<char>,
    name: Seq<char>,
    value: Seq<char>,
    x: Seq<char>,
)
    requires
        is_plain_name(table),
        table != "dependency-groups"@,
        !is_list_of_dependencies(table, name),
        is_plain_name(name),
        !value.contains('\n'),
        m.pyproject_toml is Some,
        m.pyproject_toml->0@ == seq!['['] + table + seq![']'] + seq!['\n'] + (name + " = "@
            + value),
        m.cargo_toml is None,
        m.package_json is None,
        m.requirements_txt is None,
    ensures
        !is_dependency(m, x),
{
    reveal_strlit(" = ");
    let none = Seq::<char>::empty();
    let first = seq!['['] + table + seq![']'];
    let second = name + " = "@ + value;
    let text = m.pyproject_toml->0@;
    lemma_name_char(table[0]);
    lemma_name_char(table[table.len() - 1]);
    assert(table.last() == table[table.len() - 1]);
    assert forall|i: int| 0 <= i < table.len() implies #[trigger] table[i] != ']' && table[i]
        != '\n' && table[i] != '.' by {
        lemma_name_char(table[i]);
    }
    lemma_heading_line(table);
    assert(!second.contains('\n')) by {
        if second.contains('\n') {
            let i = choose|i: int| 0 <= i < second.len() && second[i] == '\n';
            if i < name.len() {
                assert(name[i] == '\n');
                lemma_name_char(name[i]);
            } else if i >= name.len() + 3 {
                assert(value[i - name.len() - 3] == '\n');
            } else {
                assert(second[i] == " = "@[i - name.len()]);
            }
        }
    }
    lemma_two_lines(first, second);
    let parts = seq![first, second];
    assert(lines(text) == parts);
    lemma_entry(none, name, seq![' '], '=', seq![' '] + value);
    assert(second =~= none + name + (seq![' '] + seq!['='] + (seq![' '] + value)));
    lemma_simple_key(name, seq![' '], seq![' '] + value);
    assert(second =~= name + (seq![' '] + seq!['='] + (seq![' '] + value)));
    assert(parts[0] == first && parts[1] == second);
    assert(place(parts, 0).table == none && !place(parts, 0).listing);
    assert(place(parts, 1).table == table);
    assert(!place(parts, 1).listing);
    lemma_other_paths(table, name);
    assert(list_start(table, second) is None);
    crate::manifest_laws::lemma_no_dot(table);
    assert(project_dependencies(parts, 0) =~= Seq::<Seq<char>>::empty());
    assert(project_dependencies(parts, 1) =~= Seq::<Seq<char>>::empty());
}

/// A table whose name has no dots, and a key that is not for it, are no list of
/// dependencies, and such a table has no entry for each.
proof fn lemma_other_paths(table: Seq<char>, name: Seq<char>)
    requires
        is_plain_name(table),
        is_plain_name(name),
        table != "dependency-groups"@,
        !is_list_of_dependencies(table, name),
    ensures
        !is_dependency_list(table + "."@ + name),
        !is_poetry_table(table),
{
    reveal_strlit(".");
    reveal_strlit("project");
    reveal_strlit("dependencies");
    reveal_strlit("build-system");
    reveal_strlit("requires");
    reveal_strlit("dependency-groups");
    reveal_strlit("project.dependencies");
    reveal_strlit("build-system.requires");
    reveal_strlit("project.optional-dependencies.");
    reveal_strlit("dependency-groups.");
    reveal_strlit("tool.poetry.dependencies");
    reveal_strlit("tool.poetry.dev-dependencies");
    reveal_strlit("tool.poetry.group.");
    let path = table + "."@ + name;
    let n = table.len() as int;
    assert(path[n] == '.');
    assert forall|i: int| 0 <= i < path.len() && #[trigger] path[i] == '.' implies i == n by {
        if i < n {
            lemma_name_char(table[i]);
        } else if i > n {
            lemma_name_char(name[i - n - 1]);
            assert(path[i] == name[i - n - 1]);
        }
    }
    if path == "project.dependencies"@ {
        assert(path[7] == '.');
        assert forall|i: int| 0 <= i < 7 implies table[i] == "project"@[i] by {
            assert(path[i] == table[i]);
            assert("project.dependencies"@[i] == "project"@[i]);
        }
        assert(table =~= "project"@);
        assert(name =~= path.skip(8));
        assert(name =~= "dependencies"@);
    }
    if path == "build-system.requires"@ {
        assert(path[12] == '.');
        assert forall|i: int| 0 <= i < 12 implies table[i] == "build-system"@[i] by {
            assert(path[i] == table[i]);
            assert("build-system.requires"@[i] == "build-system"@[i]);
        }
        assert(table =~= "build-system"@);
        assert(name =~= path.skip(13));
        assert(name =~= "requires"@);
    }
    if begins_with(path, "project.optional-dependencies."@) {
        let p = "project.optional-dependencies."@;
        assert(path.subrange(0, p.len() as int)[7] == '.');
        assert(path.subrange(0, p.len() as int)[29] == '.');
        assert(path[7] == '.' && path[29] == '.');
    }
    if begins_with(path, "dependency-groups."@) {
        let p = "dependency-groups."@;
        let s = path.subrange(0, p.len() as int);
        assert(s[17] == '.');
        assert(path[17] == '.');
        assert(table =~= "dependency-groups"@) by {
            assert forall|i: int| 0 <= i < 17 implies table[i] == p[i] by {
                assert(s[i] == p[i]);
            }
        }
    }
    assert forall|i: int| 0 <= i < table.len() implies #[trigger] table[i] != '.' by {
        lemma_name_char(table[i]);
    }
    if is_poetry_table(table) {
        if begins_with(table, "tool.poetry.group."@) {
            let p = "tool.poetry.group."@;
            assert(table.subrange(0, p.len() as int)[4] == '.');
        }
        assert(table[4] == '.');
    }
}

/// A list of dependencies goes on over the lines up to the one that ends it, and
/// each of them names its strings.
pub proof fn law_list_goes_on_over_lines(
    pieces: Seq<Seq<char>>,
    table: Seq<char>,
    key: Seq<char>,
    k: int,
)
    requires
        is_list_of_dependencies(table, key),
        is_plain_name(key),
        2 <= k < pieces.len(),
        pieces[0] == seq!['['] + table + seq![']'],
        pieces[1] == key + " = ["@,
        forall|m: int| 2 <= m < k ==> !ends_list(trimmed(#[trigger] pieces[m])),
    ensures
        project_dependencies(pieces, k) == listed_names(trimmed(pieces[k])),
{
    lemma_listing(pieces, table, key, k);
}

proof fn lemma_listing(pieces: Seq<Seq<char>>, table: Seq<char>, key: Seq<char>, k: int)
    requires
        is_list_of_dependencies(table, key),
        is_plain_name(key),
        2 <= k < pieces.len(),
        pieces[0] == seq!['['] + table + seq![']'],
        pieces[1] == key + " = ["@,
        forall|m: int| 2 <= m < k ==> !ends_list(trimmed(#[trigger] pieces[m])),
    ensures
        place(pieces, k).listing,
    decreases k,
{
    if k > 2 {
        lemma_listing(pieces, table, key, k - 1);
        assert(!ends_list(trimmed(pieces[k - 1])));
    } else {
        reveal_strlit(" = [");
        let none = Seq::<char>::empty();
        let second = pieces[1];
        lemma_lists(table, key);
        lemma_heading_line(table);
        lemma_simple_key(key, seq![' '], seq![' ', '[']);
        assert(second =~= key + (seq![' '] + seq!['='] + seq![' ', '[']));
        lemma_name_char(key[0]);
        assert(second.last() == '[');
        law_trimming(none, second, none);
        assert(none + second + none =~= second);
        assert(second.skip(key.len() as int + 2) =~= seq![' '] + seq!['['] + none);
        law_trimming(seq![' '], seq!['['], none);
        assert(seq!['['].skip(1) =~= none);
        assert(place(pieces, 0).table == none && !place(pieces, 0).listing);
        assert(place(pieces, 1).table == table && !place(pieces, 1).listing);
        assert(list_start(table, second) == Some(none));
        assert(!ends_list(none));
        assert(place(pieces, 2).listing);
    }
}

/// `pyproject.toml` names what its lines name.
pub proof fn law_project_line_by_line(parts: Seq<Seq<char>>, name: Seq<char>)
    requires
        parts.len() >= 1,
        forall|k: int| 0 <= k < parts.len() ==> !(#[trigger] parts[k]).contains('\n'),
    ensures
        project_names(joined(parts, seq!['\n']), name) <==> exists|k: int|
            0 <= k < parts.len() && (#[trigger] project_dependencies(parts, k)).contains(name),
{
    law_lines_of_joined_lines(parts);
}

/// The heading of a table for one entry of such a table names it.
pub proof fn law_table_of_a_poetry_entry_names_it(
    pieces: Seq<Seq<char>>,
    k: int,
    table: Seq<char>,
    group: Seq<char>,
    name: Seq<char>,
)
    requires
        0 <= k < pieces.len(),
        !place(pieces, k).listing,
        is_table_of_entries(table, group),
        is_plain_name(name),
        pieces[k] == seq!['['] + (table + seq!['.'] + name) + seq![']'],
    ensures
        project_dependencies(pieces, k) == seq![name],
{
    let none = Seq::<char>::empty();
    let whole = table + seq!['.'] + name;
    lemma_table_of_entries(table, group);
    lemma_name_char(name[0]);
    lemma_name_char(name[name.len() - 1]);
    assert(name.last() == name[name.len() - 1]);
    assert(whole[0] == table[0] && whole.last() == name.last());
    assert forall|i: int| 0 <= i < whole.len() implies #[trigger] whole[i] != ']' && whole[i]
        != '\n' by {
        if i < table.len() {
            assert(table.contains(table[i]));
            assert(whole[i] == table[i]);
        } else if i > table.len() {
            assert(whole[i] == name[i - table.len() - 1]);
            lemma_name_char(name[i - table.len() - 1]);
        }
    }
    lemma_heading_line(whole);
    assert(!name.contains('.')) by {
        if name.contains('.') {
            let i = choose|i: int| 0 <= i < name.len() && name[i] == '.';
            lemma_name_char(name[i]);
        }
    }
    lemma_no_dot_part(table, name);
    assert(whole.take(table.len() as int) =~= table);
    assert(whole.skip(table.len() as int + 1) =~= name);
    law_trimming(none, name, none);
    assert(none + name + none =~= name);
    law_unquoting(none, name, none);
}

/// A list of dependencies whose key has the name of the table in it names its
/// strings, before the first heading.
pub proof fn law_list_under_a_dotted_key_names_its_strings(
    pieces: Seq<Seq<char>>,
    path: Seq<char>,
    items: Seq<char>,
)
    requires
        pieces.len() >= 1,
        path == "project.dependencies"@ || path == "build-system.requires"@,
        items.len() > 0,
        !is_white(items.last()),
        pieces[0] == path + " = ["@ + items,
    ensures
        project_dependencies(pieces, 0) == listed_names(items),
{
    reveal_strlit("project.dependencies");
    reveal_strlit("build-system.requires");
    reveal_strlit(" = [");
    reveal_strlit("=");
    let none = Seq::<char>::empty();
    let line = pieces[0];
    let front = path + seq![' '];
    let value = seq!['['] + items;
    assert(line[0] == path[0] && line.last() == items.last());
    law_trimming(none, line, none);
    assert(none + line + none =~= line);
    assert(!is_white(path[0]) && !is_white(path.last()));
    assert forall|i: int| 0 <= i < front.len() implies !"="@.contains(#[trigger] front[i]) by {
        if i < path.len() {
            assert(front[i] == path[i]);
        }
    }
    assert("="@[0] == '=');
    assert(line =~= front + (seq!['=', ' '] + value));
    law_cutting(front, seq!['=', ' '] + value, "="@);
    law_trimming(none, path, seq![' ']);
    assert(none + path + seq![' '] =~= front);
    assert(key(line) == path);
    assert(line.skip(front.len() as int + 1) =~= seq![' '] + value + none);
    assert(value[0] == '[' && value.last() == items.last());
    law_trimming(seq![' '], value, none);
    assert(value.skip(1) =~= items);
    assert(list_start(none, line) == Some(items));
}

} // verus!
