//! What the lines of manifests name, told by the text of the lines.

use crate::cargo_manifest::{cargo_dependency, cargo_names, is_cargo_table};
use crate::manifest::{is_dependency, is_letter, Manifests};
use crate::npm_manifest::npm_names;
use crate::python_manifest::{project_names, required_name, requirement, requirements_name};
use crate::text::{
    before_any, begins_with, finishes_with, has_part, is_white, joined, lines, stands_at, trimmed,
};
use crate::text_laws::{
    law_cutting, law_cutting_behind, law_joining, law_lines_of_joined_lines, law_trimming,
    law_unquoting, lemma_kept, lemma_part_of_trimmed,
};
use crate::toml::{entry, heading, key, last_dot, section};
use vstd::prelude::*;

verus! {

/// Whether `c` may stand in the name of a dependency: a letter of ASCII, a digit, a
/// dash or an underscore.
pub open spec fn is_name_char(c: char) -> bool {
    'a' <= c <= 'z' || 'A' <= c <= 'Z' || '0' <= c <= '9' || c == '-' || c == '_'
}

/// Whether `name` is made of such characters and begins with a letter.
pub open spec fn is_plain_name(name: Seq<char>) -> bool {
    &&& name.len() > 0
    &&& 'a' <= name[0] <= 'z' || 'A' <= name[0] <= 'Z'
    &&& forall|i: int| 0 <= i < name.len() ==> is_name_char(#[trigger] name[i])
}

/// Whether `s` is white space throughout.
pub open spec fn is_blank(s: Seq<char>) -> bool {
    forall|i: int| 0 <= i < s.len() ==> is_white(#[trigger] s[i])
}

/// Whether a line looks like code: a path, a function or something public.
pub open spec fn looks_like_code(line: Seq<char>) -> bool {
    has_part(line, "::"@) || has_part(line, "fn "@) || has_part(line, "pub "@)
}

/// The characters of a name are neither white space nor marks.
pub proof fn lemma_name_char(c: char)
    requires
        is_name_char(c),
    ensures
        !is_white(c),
        c != '=',
        c != '.',
        c != '(',
        c != '{',
        c != '[',
        c != ']',
        c != '"',
        c != '\n',
        c != '\'',
{
}

/// What a line of a name, then a mark or white space and a mark, and then anything
/// is an entry for.
pub proof fn lemma_entry(
    indent: Seq<char>,
    name: Seq<char>,
    gap: Seq<char>,
    mark: char,
    rest: Seq<char>,
)
    requires
        is_plain_name(name),
        is_blank(indent),
        is_blank(gap),
        mark == '=' || mark == '.',
        mark == '.' ==> !before_any(rest, "="@).contains('(') && !before_any(
            rest,
            "="@,
        ).contains('{'),
    ensures
        entry(indent + name + (gap + seq![mark] + rest)) == Some(name),
        heading(indent + name + (gap + seq![mark] + rest)) is None,
{
    reveal_strlit("=");
    reveal_strlit(".");
    let none = Seq::<char>::empty();
    let core = name + gap + seq![mark];
    let line = indent + name + (gap + seq![mark] + rest);
    lemma_name_char(name[0]);
    lemma_name_char(name[name.len() - 1]);
    assert forall|i: int| 0 <= i < name.len() implies {
        &&& !is_white(#[trigger] name[i])
        &&& name[i] != '='
        &&& name[i] != '.'
        &&& name[i] != '('
        &&& name[i] != '{'
    } by {
        lemma_name_char(name[i]);
    }
    assert forall|i: int| 0 <= i < gap.len() implies {
        &&& #[trigger] gap[i] != '='
        &&& gap[i] != '.'
        &&& gap[i] != '('
        &&& gap[i] != '{'
    } by {
        assert(is_white(gap[i]));
    }
    assert(core[0] == name[0]);
    assert(core.last() == mark);
    assert(line =~= indent + core + rest);
    let r = lemma_kept(indent, core, rest);
    let t = trimmed(line);
    assert(t == core + r.0);
    assert(t[0] == name[0]);
    let front = name + gap;
    assert forall|c: char| "="@.contains(c) <==> c == '=' by {
        assert("="@[0] == '=');
    }
    assert forall|c: char| "."@.contains(c) <==> c == '.' by {
        assert("."@[0] == '.');
    }
    assert forall|i: int| 0 <= i < front.len() implies #[trigger] front[i] != '=' && front[i] != '.'
        && front[i] != '(' && front[i] != '{' by {
        if i < name.len() {
            assert(front[i] == name[i]);
        } else {
            assert(front[i] == gap[i - name.len()]);
        }
    }
    law_trimming(none, name, gap);
    assert(none + name + gap =~= front);
    assert(name.last() == name[name.len() - 1]);
    law_trimming(none, name, none);
    assert(none + name + none =~= name);
    if mark == '=' {
        law_cutting(front, seq![mark] + r.0, "="@);
        assert(t =~= front + (seq![mark] + r.0));
        law_cutting(name, none, "."@);
        assert(name + none =~= name);
        assert(key(line) == name);
    } else {
        lemma_dotted_key(front, r.0, rest, r.1);
        assert(t =~= front + seq!['.'] + r.0);
        let k = key(line);
        let behind = choose|b: Seq<char>|
            k == #[trigger] (front + seq!['.'] + b) && !b.contains('(') && !b.contains('{');
        law_cutting(front, seq!['.'] + behind, "."@);
        assert(k =~= front + (seq!['.'] + behind));
        if k.contains('(') {
            let i = choose|i: int| 0 <= i < k.len() && k[i] == '(';
            if i > front.len() {
                assert(behind[i - front.len() - 1] == '(');
            } else if i < front.len() {
                assert(front[i] == '(');
            }
        }
        if k.contains('{') {
            let i = choose|i: int| 0 <= i < k.len() && k[i] == '{';
            if i > front.len() {
                assert(behind[i - front.len() - 1] == '{');
            } else if i < front.len() {
                assert(front[i] == '{');
            }
        }
    }
}

/// The key of a dotted entry begins with what stands before the dot.
proof fn lemma_dotted_key(front: Seq<char>, r: Seq<char>, rest: Seq<char>, w: Seq<char>)
    requires
        forall|i: int| 0 <= i < front.len() ==> #[trigger] front[i] != '=',
        front.len() > 0,
        !is_white(front[0]),
        rest == r + w,
        is_blank(w),
        !before_any(rest, "="@).contains('('),
        !before_any(rest, "="@).contains('{'),
    ensures
        exists|b: Seq<char>|
            trimmed(before_any(front + seq!['.'] + r, "="@)) == #[trigger] (front + seq!['.'] + b)
                && !b.contains('(') && !b.contains('{'),
{
    reveal_strlit("=");
    let none = Seq::<char>::empty();
    assert forall|c: char| "="@.contains(c) <==> c == '=' by {
        assert("="@[0] == '=');
    }
    let head = front + seq!['.'];
    assert forall|i: int| 0 <= i < head.len() implies !"="@.contains(#[trigger] head[i]) by {
        if i < front.len() {
            assert(head[i] == front[i]);
        }
    }
    lemma_before_concat(head, r, "="@);
    let cut = before_any(r, "="@);
    let kept = lemma_kept(none, head, cut);
    assert(none + head + cut =~= head + cut);
    assert(head[0] == front[0]);
    assert(head.last() == '.');
    // What was cut off `r` is a beginning of what is cut off `rest`.
    lemma_before_prefix(r, w, "="@);
    let b = kept.0;
    let whole = before_any(rest, "="@);
    assert(trimmed(head + cut) == head + b);
    if b.contains('(') {
        let i = choose|i: int| 0 <= i < b.len() && b[i] == '(';
        assert(cut[i] == '(');
        assert(whole[i] == '(');
    }
    if b.contains('{') {
        let i = choose|i: int| 0 <= i < b.len() && b[i] == '{';
        assert(cut[i] == '{');
        assert(whole[i] == '{');
    }
    assert(head + b == front + seq!['.'] + b);
}

/// Cutting a text whose beginning has no marks.
proof fn lemma_before_concat(a: Seq<char>, b: Seq<char>, marks: Seq<char>)
    requires
        forall|i: int| 0 <= i < a.len() ==> !marks.contains(#[trigger] a[i]),
    ensures
        before_any(a + b, marks) == a + before_any(b, marks),
    decreases a.len(),
{
    if a.len() == 0 {
        assert(a + b =~= b);
        assert(a + before_any(b, marks) =~= before_any(b, marks));
    } else {
        let f = a.drop_first();
        assert((a + b)[0] == a[0]);
        assert((a + b).drop_first() =~= f + b);
        assert forall|i: int| 0 <= i < f.len() implies !marks.contains(#[trigger] f[i]) by {
            assert(f[i] == a[i + 1]);
        }
        lemma_before_concat(f, b, marks);
        assert(a + before_any(b, marks) =~= seq![a[0]] + (f + before_any(b, marks)));
    }
}

/// What is cut off a beginning of a text is a beginning of what is cut off the
/// text.
proof fn lemma_before_prefix(a: Seq<char>, b: Seq<char>, marks: Seq<char>)
    ensures
        before_any(a, marks).len() <= before_any(a + b, marks).len(),
        forall|i: int|
            0 <= i < before_any(a, marks).len() ==> #[trigger] before_any(a, marks)[i]
                == before_any(a + b, marks)[i],
    decreases a.len(),
{
    if a.len() > 0 && !marks.contains(a[0]) {
        let f = a.drop_first();
        lemma_before_prefix(f, b, marks);
        assert((a + b)[0] == a[0]);
        assert((a + b).drop_first() =~= f + b);
        let x = before_any(a, marks);
        let y = before_any(a + b, marks);
        assert forall|i: int| 0 <= i < x.len() implies #[trigger] x[i] == y[i] by {
            if i > 0 {
                assert(x[i] == before_any(f, marks)[i - 1]);
                assert(y[i] == before_any(f + b, marks)[i - 1]);
            }
        }
    }
}

/// The name of the table that a heading opens, whatever stands behind the bracket.
pub proof fn lemma_heading(indent: Seq<char>, name: Seq<char>, rest: Seq<char>)
    requires
        is_blank(indent),
        name.len() > 0,
        !is_white(name[0]),
        !is_white(name.last()),
        !name.contains(']'),
    ensures
        heading(indent + (seq!['['] + name + seq![']']) + rest) == Some(name),
{
    reveal_strlit("]");
    let none = Seq::<char>::empty();
    let core = seq!['['] + name + seq![']'];
    let line = indent + core + rest;
    assert(core[0] == '[');
    assert(core.last() == ']');
    let r = lemma_kept(indent, core, rest);
    let t = trimmed(line);
    assert(t[0] == '[');
    assert(t.skip(1) =~= name + (seq![']'] + r.0));
    assert forall|c: char| "]"@.contains(c) <==> c == ']' by {
        assert("]"@[0] == ']');
    }
    assert forall|i: int| 0 <= i < name.len() implies !"]"@.contains(#[trigger] name[i]) by {
        assert(name.contains(name[i]));
    }
    law_cutting(name, seq![']'] + r.0, "]"@);
    law_trimming(none, name, none);
    assert(none + name + none =~= name);
}

/// The last heading before a line says in which table it stands.
proof fn lemma_section(pieces: Seq<Seq<char>>, h: int, k: int, name: Seq<char>)
    requires
        0 <= h < k <= pieces.len(),
        heading(pieces[h]) == Some(name),
        forall|m: int| h < m < k ==> heading(#[trigger] pieces[m]) is None,
    ensures
        section(pieces, k) == name,
    decreases k - h,
{
    if h < k - 1 {
        assert(heading(pieces[k - 1]) is None);
        lemma_section(pieces, h, k - 1, name);
    }
}

/// Where no line before has a heading, a line stands in no table.
proof fn lemma_no_section(pieces: Seq<Seq<char>>, k: int)
    requires
        0 <= k <= pieces.len(),
        forall|m: int| 0 <= m < k ==> heading(#[trigger] pieces[m]) is None,
    ensures
        section(pieces, k).len() == 0,
    decreases k,
{
    if k > 0 {
        assert(heading(pieces[k - 1]) is None);
        lemma_no_section(pieces, k - 1);
    }
}

/// Whether `line` is the heading of the table `name`.
pub open spec fn is_heading_of(
    line: Seq<char>,
    indent: Seq<char>,
    name: Seq<char>,
    rest: Seq<char>,
) -> bool {
    &&& is_blank(indent)
    &&& name.len() > 0
    &&& !is_white(name[0])
    &&& !is_white(name.last())
    &&& !name.contains(']')
    &&& line == indent + (seq!['['] + name + seq![']']) + rest
}

/// Whether a line opens no table: its first character that is not white space is
/// no bracket.
pub open spec fn opens_no_table(line: Seq<char>) -> bool {
    trimmed(line).len() == 0 || trimmed(line)[0] != '['
}

/// The tables of dependencies in `Cargo.toml`, written out; `target` is the name of
/// a target for those that have one.
pub open spec fn is_table_of_dependencies(name: Seq<char>, target: Seq<char>) -> bool {
    ||| name == "dependencies"@
    ||| name == "dev-dependencies"@
    ||| name == "build-dependencies"@
    ||| name == "workspace.dependencies"@
    ||| name == "target."@ + target + ".dependencies"@
    ||| name == "target."@ + target + ".dev-dependencies"@
    ||| name == "target."@ + target + ".build-dependencies"@
}

/// These are tables of dependencies.
proof fn lemma_tables(name: Seq<char>, target: Seq<char>)
    requires
        is_table_of_dependencies(name, target),
    ensures
        is_cargo_table(name),
{
    let a = "target."@;
    let b = ".dependencies"@;
    let c = ".dev-dependencies"@;
    let d = ".build-dependencies"@;
    if name == a + target + b {
        assert(name.subrange(0, a.len() as int) =~= a);
        assert(name.subrange(name.len() - b.len(), name.len() as int) =~= b);
    }
    if name == a + target + c {
        assert(name.subrange(0, a.len() as int) =~= a);
        assert(name.subrange(name.len() - c.len(), name.len() as int) =~= c);
    }
    if name == a + target + d {
        assert(name.subrange(0, a.len() as int) =~= a);
        assert(name.subrange(name.len() - d.len(), name.len() as int) =~= d);
    }
}

/// In a table of dependencies, a line that begins with a name and an equals sign
/// names that name, whole and alone, where it does not look like code. So does one
/// with a dot and anything else before the equals sign.
pub proof fn law_entry_of_a_dependency_table_names_it(
    pieces: Seq<Seq<char>>,
    h: int,
    k: int,
    table: Seq<char>,
    target: Seq<char>,
    indents: (Seq<char>, Seq<char>),
    behind: Seq<char>,
    name: Seq<char>,
    gap: Seq<char>,
    mark: char,
    rest: Seq<char>,
)
    requires
        0 <= h < k < pieces.len(),
        is_heading_of(pieces[h], indents.0, table, behind),
        is_table_of_dependencies(table, target),
        forall|m: int| h < m < k ==> opens_no_table(#[trigger] pieces[m]),
        is_plain_name(name),
        is_blank(indents.1),
        is_blank(gap),
        mark == '=' || mark == '.' && !before_any(rest, "="@).contains('(') && !before_any(
            rest,
            "="@,
        ).contains('{'),
        pieces[k] == indents.1 + name + (gap + seq![mark] + rest),
        !looks_like_code(pieces[k]),
    ensures
        cargo_dependency(pieces, k) == Some(name),
{
    lemma_heading(indents.0, table, behind);
    lemma_tables(table, target);
    lemma_section(pieces, h, k, table);
    lemma_entry(indents.1, name, gap, mark, rest);
    lemma_not_code(pieces[k]);
}

/// A line that does not look like code does not when it is trimmed.
proof fn lemma_not_code(line: Seq<char>)
    requires
        !looks_like_code(line),
    ensures
        !looks_like_code(trimmed(line)),
{
    if has_part(trimmed(line), "::"@) {
        lemma_part_of_trimmed(line, "::"@);
    }
    if has_part(trimmed(line), "fn "@) {
        lemma_part_of_trimmed(line, "fn "@);
    }
    if has_part(trimmed(line), "pub "@) {
        lemma_part_of_trimmed(line, "pub "@);
    }
}

/// In another table, and before the first, no line but a heading names anything.
pub proof fn law_entry_of_another_table_names_nothing(
    pieces: Seq<Seq<char>>,
    h: int,
    k: int,
    table: Seq<char>,
    indent: Seq<char>,
    behind: Seq<char>,
)
    requires
        -1 <= h < k < pieces.len(),
        h >= 0 ==> is_heading_of(pieces[h], indent, table, behind),
        h >= 0 ==> forall|target: Seq<char>| !#[trigger] is_table_of_dependencies(table, target),
        h >= 0 ==> table != "target.dependencies"@ && table != "target.dev-dependencies"@ && table
            != "target.build-dependencies"@,
        forall|m: int| h < m <= k ==> opens_no_table(#[trigger] pieces[m]),
    ensures
        cargo_dependency(pieces, k) is None,
{
    reveal_strlit("dependencies");
    reveal_strlit("dev-dependencies");
    reveal_strlit("build-dependencies");
    reveal_strlit("workspace.dependencies");
    reveal_strlit("target.");
    reveal_strlit("target.dependencies");
    reveal_strlit("target.dev-dependencies");
    reveal_strlit("target.build-dependencies");
    reveal_strlit(".dependencies");
    reveal_strlit(".dev-dependencies");
    reveal_strlit(".build-dependencies");
    assert(opens_no_table(pieces[k]));
    if h >= 0 {
        lemma_heading(indent, table, behind);
        lemma_section(pieces, h, k, table);
        assert(!is_table_of_dependencies(table, Seq::empty()));
        if begins_with(table, "target."@) {
            let a = "target."@;
            assert("target.dependencies"@ =~= a + ".dependencies"@.skip(1));
            assert("target.dev-dependencies"@ =~= a + ".dev-dependencies"@.skip(1));
            assert("target.build-dependencies"@ =~= a + ".build-dependencies"@.skip(1));
            lemma_target_table(table, a, ".dependencies"@, "target.dependencies"@);
            lemma_target_table(table, a, ".dev-dependencies"@, "target.dev-dependencies"@);
            lemma_target_table(table, a, ".build-dependencies"@, "target.build-dependencies"@);
        }
    } else {
        lemma_no_section(pieces, k);
        let none = section(pieces, k);
        assert("dependencies"@.len() > 0 && "dev-dependencies"@.len() > 0);
        assert("build-dependencies"@.len() > 0 && "workspace.dependencies"@.len() > 0);
        assert("target."@.len() > 0);
    }
}

/// What begins with `a` and ends with `b`, which share a dot, is the two with
/// something between them, or the two with the dot shared.
proof fn lemma_target_table(table: Seq<char>, a: Seq<char>, b: Seq<char>, shared: Seq<char>)
    requires
        begins_with(table, a),
        a == "target."@,
        b == ".dependencies"@ || b == ".dev-dependencies"@ || b == ".build-dependencies"@,
        shared == a + b.skip(1),
        table != shared,
    ensures
        finishes_with(table, b) ==> exists|target: Seq<char>| #[trigger]
            is_table_of_dependencies(table, target),
{
    reveal_strlit("target.");
    reveal_strlit(".dependencies");
    reveal_strlit(".dev-dependencies");
    reveal_strlit(".build-dependencies");
    if finishes_with(table, b) {
        let p = table.len() - b.len();
        assert(table.subrange(0, a.len() as int) == a);
        assert(table.subrange(p, p + b.len()) == b);
        assert forall|i: int| 0 <= i < a.len() implies table[i] == a[i] by {
            assert(table.subrange(0, a.len() as int)[i] == a[i]);
        }
        assert forall|i: int| 0 <= i < b.len() implies table[p + i] == b[i] by {
            assert(table.subrange(p, p + b.len())[i] == b[i]);
        }
        if p >= a.len() {
            let target = table.subrange(a.len() as int, p);
            assert(table =~= a + target + b);
            assert(is_table_of_dependencies(table, target));
        } else {
            // The dot of `b` can only fall on the dot of `a`.
            assert(b[0] == '.');
            assert(a[p] == '.');
            assert(p == 6);
            assert(table =~= shared);
        }
    }
}

/// The manifest `[dependencies]`, a line feed, a name, an equals sign with spaces
/// around it and a value names that name and nothing else.
pub proof fn law_dependency_is_named_whole_and_alone(
    m: Manifests,
    name: Seq<char>,
    value: Seq<char>,
    x: Seq<char>,
)
    requires
        is_plain_name(name),
        !value.contains('\n'),
        !looks_like_code(name + " = "@ + value),
        m.cargo_toml is Some,
        m.cargo_toml->0@ == "[dependencies]"@ + seq!['\n'] + (name + " = "@ + value),
        m.package_json is None,
        m.requirements_txt is None,
        m.pyproject_toml is None,
    ensures
        is_dependency(m, x) <==> x == name,
{
    reveal_strlit("[dependencies]");
    reveal_strlit("dependencies");
    reveal_strlit(" = ");
    let none = Seq::<char>::empty();
    let sep = seq!['\n'];
    let first = "[dependencies]"@;
    let second = name + " = "@ + value;
    let parts = seq![first, second];
    let text = m.cargo_toml->0@;
    assert(!second.contains('\n')) by {
        if second.contains('\n') {
            let i = choose|i: int| 0 <= i < second.len() && second[i] == '\n';
            if i < name.len() {
                assert(name[i] == '\n');
                lemma_name_char(name[i]);
            } else if i >= name.len() + 3 {
                assert(value[i - name.len() - 3] == '\n');
            } else {
                assert(second[i] == " = "@[i - name.len()]);
            }
        }
    }
    law_joining(seq![first], second, sep);
    law_joining(Seq::empty(), first, sep);
    assert(Seq::<Seq<char>>::empty().push(first) =~= seq![first]);
    assert(seq![first].push(second) =~= parts);
    assert(text == joined(parts, sep));
    assert(!first.contains('\n'));
    law_lines_of_joined_lines(parts);
    assert(lines(text) == parts);
    let table = "dependencies"@;
    assert(first =~= none + (seq!['['] + table + seq![']']) + none);
    assert(second =~= none + name + (seq![' '] + seq!['='] + (seq![' '] + value)));
    assert(is_heading_of(first, none, table, none));
    law_entry_of_a_dependency_table_names_it(
        parts,
        0,
        1,
        table,
        none,
        (none, none),
        none,
        name,
        seq![' '],
        '=',
        seq![' '] + value,
    );
    lemma_heading(none, table, none);
    lemma_no_dot(table);
    assert(cargo_dependency(parts, 0) is None);
    assert(cargo_dependency(parts, 1) == Some(name));
    if x == name {
        assert(cargo_dependency(lines(text), 1) == Some(x));
    }
}

/// A text without dots has no last one.
pub proof fn lemma_no_dot(s: Seq<char>)
    requires
        !s.contains('.'),
    ensures
        last_dot(s) == -1,
    decreases s.len(),
{
    if s.len() > 0 {
        let f = s.drop_last();
        assert(s.contains(s[s.len() - 1]));
        assert(!f.contains('.')) by {
            if f.contains('.') {
                let i = choose|i: int| 0 <= i < f.len() && f[i] == '.';
                assert(s[i] == '.');
            }
        }
        lemma_no_dot(f);
    }
}

/// The last dot of a text with one before a part without dots.
proof fn lemma_last_dot(a: Seq<char>, b: Seq<char>)
    requires
        !b.contains('.'),
    ensures
        last_dot(a + seq!['.'] + b) == a.len(),
    decreases b.len(),
{
    let s = a + seq!['.'] + b;
    if b.len() == 0 {
        assert(s.last() == '.');
    } else {
        let f = b.drop_last();
        assert(b.contains(b[b.len() - 1]));
        assert(!f.contains('.')) by {
            if f.contains('.') {
                let i = choose|i: int| 0 <= i < f.len() && f[i] == '.';
                assert(b[i] == '.');
            }
        }
        lemma_last_dot(a, f);
        assert(s.last() == b.last());
        assert(s.drop_last() =~= a + seq!['.'] + f);
    }
}

/// The heading of a table for one dependency names it, with or without quotes.
pub proof fn law_table_of_a_dependency_names_it(
    pieces: Seq<Seq<char>>,
    k: int,
    indent: Seq<char>,
    table: Seq<char>,
    target: Seq<char>,
    name: Seq<char>,
    quotes: Seq<char>,
    behind: Seq<char>,
)
    requires
        0 <= k < pieces.len(),
        is_table_of_dependencies(table, target),
        is_plain_name(name),
        quotes.len() == 0 || quotes == seq!['"'],
        is_heading_of(
            pieces[k],
            indent,
            table + seq!['.'] + (quotes + name + quotes),
            behind,
        ),
    ensures
        cargo_dependency(pieces, k) == Some(name),
{
    let none = Seq::<char>::empty();
    let last = quotes + name + quotes;
    let whole = table + seq!['.'] + last;
    lemma_name_char(name[0]);
    lemma_name_char(name[name.len() - 1]);
    assert(name.last() == name[name.len() - 1]);
    lemma_heading(indent, whole, behind);
    lemma_tables(table, target);
    assert(!last.contains('.')) by {
        if last.contains('.') {
            let i = choose|i: int| 0 <= i < last.len() && last[i] == '.';
            if quotes.len() <= i < quotes.len() + name.len() {
                assert(name[i - quotes.len()] == '.');
                lemma_name_char(name[i - quotes.len()]);
            }
        }
    }
    lemma_last_dot(table, last);
    assert(whole.take(table.len() as int) =~= table);
    assert(whole.skip(table.len() as int + 1) =~= last);
    law_trimming(none, last, none);
    assert(none + last + none =~= last);
    law_unquoting(quotes, name, quotes);
}

/// Whether `c` ends the name in a requirement: a mark of a version, an option, an
/// address or a condition.
pub open spec fn ends_name(c: char) -> bool {
    ||| c == '='
    ||| c == '<'
    ||| c == '>'
    ||| c == '!'
    ||| c == ';'
    ||| c == '~'
    ||| c == ' '
    ||| c == '['
    ||| c == '('
    ||| c == '@'
    ||| c == ','
    ||| c == '\t'
}

/// Those are the marks.
proof fn lemma_marks(c: char)
    ensures
        "=<>!;~ [(@,\t"@.contains(c) <==> ends_name(c),
{
    reveal_strlit("=<>!;~ [(@,\t");
    let marks = "=<>!;~ [(@,\t"@;
    assert(marks[0] == '=' && marks[1] == '<' && marks[2] == '>' && marks[3] == '!');
    assert(marks[4] == ';' && marks[5] == '~' && marks[6] == ' ' && marks[7] == '[');
    assert(marks[8] == '(' && marks[9] == '@' && marks[10] == ',' && marks[11] == '\t');
}

/// Whether `name` can be the name in a requirement: no mark is in it, and no white
/// space around it.
pub open spec fn is_required_name(name: Seq<char>) -> bool {
    &&& name.len() > 0
    &&& !is_white(name[0])
    &&& !is_white(name.last())
    &&& forall|i: int| 0 <= i < name.len() ==> !ends_name(#[trigger] name[i])
}

/// A line of `requirements.txt` that begins with a name names it up to the first
/// mark of a version, an option, an address or a condition, whatever follows.
pub proof fn law_requirement_names_it(
    indent: Seq<char>,
    name: Seq<char>,
    rest: Seq<char>,
)
    requires
        is_blank(indent),
        is_required_name(name),
        name[0] != '#',
        name[0] != '-',
        rest.len() > 0 ==> ends_name(rest[0]),
    ensures
        requirement(indent + name + rest) == Some(name),
{
    let r = lemma_kept(indent, name, rest);
    lemma_required_name(name, r.0, rest, r.1);
    assert(trimmed(indent + name + rest)[0] == name[0]);
    assert(!ends_name(name[0]));
}

/// The marks that end the name in a requirement.
pub proof fn lemma_required_name(name: Seq<char>, r: Seq<char>, rest: Seq<char>, w: Seq<char>)
    requires
        is_required_name(name),
        rest == r + w,
        rest.len() > 0 ==> ends_name(rest[0]),
    ensures
        required_name(name + r) == name,
{
    let marks = "=<>!;~ [(@,\t"@;
    assert forall|i: int| 0 <= i < name.len() implies !marks.contains(#[trigger] name[i]) by {
        lemma_marks(name[i]);
    }
    if r.len() > 0 {
        assert(rest[0] == r[0]);
        lemma_marks(r[0]);
    }
    law_cutting(name, r, marks);
}

/// A line of `requirements.txt` that is blank, a comment, an option or a heading
/// names nothing.
pub proof fn law_no_requirement(indent: Seq<char>, c: char, rest: Seq<char>)
    requires
        is_blank(indent),
        c == '#' || c == '-' || c == '[',
    ensures
        requirement(indent) is None,
        requirement(indent + seq![c] + rest) is None,
{
    let none = Seq::<char>::empty();
    law_trimming(indent, none, none);
    assert(indent + none + none =~= indent);
    let r = lemma_kept(indent, seq![c], rest);
}

/// `requirements.txt` names what its lines name.
pub proof fn law_requirements_line_by_line(parts: Seq<Seq<char>>, name: Seq<char>)
    requires
        parts.len() >= 1,
        forall|k: int| 0 <= k < parts.len() ==> !(#[trigger] parts[k]).contains('\n'),
    ensures
        requirements_name(joined(parts, seq!['\n']), name) <==> exists|k: int|
            0 <= k < parts.len() && requirement(#[trigger] parts[k]) == Some(name),
{
    law_lines_of_joined_lines(parts);
}

/// `Cargo.toml` names what its lines name.
pub proof fn law_cargo_line_by_line(parts: Seq<Seq<char>>, name: Seq<char>)
    requires
        parts.len() >= 1,
        forall|k: int| 0 <= k < parts.len() ==> !(#[trigger] parts[k]).contains('\n'),
    ensures
        cargo_names(joined(parts, seq!['\n']), name) <==> exists|k: int|
            0 <= k < parts.len() && #[trigger] cargo_dependency(parts, k) == Some(name),
{
    law_lines_of_joined_lines(parts);
}

/// The dependencies of a repository are those of its manifests taken one by one.
pub proof fn law_manifests_add_up(m: Manifests, name: Seq<char>)
    ensures
        is_dependency(m, name) <==> {
            let none = Manifests {
                cargo_toml: None,
                package_json: None,
                requirements_txt: None,
                pyproject_toml: None,
            };
            ||| is_dependency(Manifests { cargo_toml: m.cargo_toml, ..none }, name)
            ||| is_dependency(Manifests { package_json: m.package_json, ..none }, name)
            ||| is_dependency(Manifests { requirements_txt: m.requirements_txt, ..none }, name)
            ||| is_dependency(Manifests { pyproject_toml: m.pyproject_toml, ..none }, name)
        },
{
}

/// The last dot of a text of two parts, the second of which has none.
pub proof fn lemma_no_dot_part(a: Seq<char>, b: Seq<char>)
    requires
        !b.contains('.'),
    ensures
        last_dot(a + seq!['.'] + b) == a.len(),
{
    lemma_last_dot(a, b);
}

/// The key of a line that begins with a name and an equals sign.
pub proof fn lemma_simple_key(name: Seq<char>, gap: Seq<char>, rest: Seq<char>)
    requires
        is_plain_name(name),
        is_blank(gap),
    ensures
        key(name + (gap + seq!['='] + rest)) == name,
        trimmed(name + (gap + seq!['='] + rest)).len() > 0,
        trimmed(name + (gap + seq!['='] + rest))[0] == name[0],
        before_any(trimmed(name + (gap + seq!['='] + rest)), "="@).len() == name.len() + gap.len(),
{
    reveal_strlit("=");
    let none = Seq::<char>::empty();
    let core = name + gap + seq!['='];
    let line = name + (gap + seq!['='] + rest);
    let front = name + gap;
    lemma_name_char(name[0]);
    lemma_name_char(name[name.len() - 1]);
    assert(name.last() == name[name.len() - 1]);
    assert(core[0] == name[0] && core.last() == '=');
    let r = lemma_kept(none, core, rest);
    assert(line =~= none + core + rest);
    assert forall|i: int| 0 <= i < front.len() implies !"="@.contains(#[trigger] front[i]) by {
        if i < name.len() {
            lemma_name_char(name[i]);
            assert(front[i] == name[i]);
        } else {
            assert(front[i] == gap[i - name.len()]);
            assert(is_white(gap[i - name.len()]));
        }
    }
    assert("="@[0] == '=');
    law_cutting(front, seq!['='] + r.0, "="@);
    assert(trimmed(line) =~= front + (seq!['='] + r.0));
    law_trimming(none, name, gap);
    assert(none + name + gap =~= front);
}

/// Of the ASCII characters, the letters are those of the alphabet.
pub proof fn law_letters(c: char)
    requires
        c as u32 <= 127,
    ensures
        is_letter(c) <==> 65 <= c as u32 <= 90 || 97 <= c as u32 <= 122,
{
}

/// A line of `Cargo.toml` that is blank, or begins with an ASCII character that is
/// neither a letter nor the bracket of a heading, names nothing.
pub proof fn law_entry_begins_with_a_letter(
    pieces: Seq<Seq<char>>,
    k: int,
    indent: Seq<char>,
    c: char,
    rest: Seq<char>,
)
    requires
        is_blank(indent),
        c as u32 <= 127,
        !('a' <= c <= 'z') && !('A' <= c <= 'Z'),
        c != '[',
        !is_white(c),
        pieces[k] == indent || pieces[k] == indent + seq![c] + rest,
    ensures
        cargo_dependency(pieces, k) is None,
{
    let none = Seq::<char>::empty();
    law_trimming(indent, none, none);
    assert(indent + none + none =~= indent);
    let r = lemma_kept(indent, seq![c], rest);
    if pieces[k] != indent {
        assert(trimmed(pieces[k])[0] == c);
    }
}

/// A line of `Cargo.toml` with a path, a function or something public in it names
/// nothing.
pub proof fn law_code_names_nothing(
    pieces: Seq<Seq<char>>,
    k: int,
    a: Seq<char>,
    code: Seq<char>,
    b: Seq<char>,
)
    requires
        code == "::"@ || code == "fn "@ || code == "pub "@,
        a.len() > 0,
        !is_white(a[0]),
        a[0] != '[',
        b.len() > 0,
        !is_white(b.last()),
        pieces[k] == a + code + b,
    ensures
        cargo_dependency(pieces, k) is None,
{
    let none = Seq::<char>::empty();
    let line = a + code + b;
    assert(line[0] == a[0] && line.last() == b.last());
    law_trimming(none, line, none);
    assert(none + line + none =~= line);
    assert(line.subrange(a.len() as int, (a.len() + code.len()) as int) =~= code);
    assert(stands_at(line, code, a.len() as int));
}

/// A line of `Cargo.toml` with a parenthesis or a brace before its equals sign names
/// nothing.
pub proof fn law_call_names_nothing(
    pieces: Seq<Seq<char>>,
    k: int,
    a: Seq<char>,
    c: char,
    rest: Seq<char>,
)
    requires
        c == '(' || c == '{',
        a.len() > 0,
        !is_white(a[0]),
        a[0] != '[',
        !a.contains('='),
        pieces[k] == a + seq![c] + rest,
    ensures
        cargo_dependency(pieces, k) is None,
{
    reveal_strlit("=");
    let none = Seq::<char>::empty();
    let line = pieces[k];
    let core = a + seq![c];
    assert(core[0] == a[0] && core.last() == c);
    let r = lemma_kept(none, core, rest);
    assert(none + core + rest =~= line);
    assert forall|i: int| 0 <= i < core.len() implies !"="@.contains(#[trigger] core[i]) by {
        if i < a.len() {
            assert(a.contains(a[i]));
            assert(core[i] == a[i]);
        }
    }
    law_cutting_behind(core, r.0, "="@);
    let q = lemma_kept(none, core, before_any(r.0, "="@));
    assert(none + core + before_any(r.0, "="@) =~= core + before_any(r.0, "="@));
    assert(key(line) == core + q.0);
    assert(key(line)[a.len() as int] == c);
    assert(trimmed(line)[0] == a[0]);
}

/// Each manifest is read on its own.
pub proof fn law_a_manifest_alone(m: Manifests, name: Seq<char>)
    ensures
        m.package_json is None && m.requirements_txt is None && m.pyproject_toml is None ==> (
        is_dependency(m, name) <==> m.cargo_toml is Some && cargo_names(m.cargo_toml->0@, name)),
        m.cargo_toml is None && m.requirements_txt is None && m.pyproject_toml is None ==> (
        is_dependency(m, name) <==> m.package_json is Some && npm_names(m.package_json->0@, name)),
        m.cargo_toml is None && m.package_json is None && m.pyproject_toml is None ==> (
        is_dependency(m, name) <==> m.requirements_txt is Some && requirements_name(
            m.requirements_txt->0@,
            name,
        )),
        m.cargo_toml is None && m.package_json is None && m.requirements_txt is None ==> (
        is_dependency(m, name) <==> m.pyproject_toml is Some && project_names(
            m.pyproject_toml->0@,
            name,
        )),
{
}

/// A `requirements.txt` of one requirement names it whole and nothing else.
pub proof fn law_requirement_is_named_alone(
    m: Manifests,
    name: Seq<char>,
    rest: Seq<char>,
    x: Seq<char>,
)
    requires
        is_required_name(name),
        name[0] != '#',
        name[0] != '-',
        rest.len() > 0 ==> ends_name(rest[0]),
        !(name + rest).contains('\n'),
        m.requirements_txt is Some,
        m.requirements_txt->0@ == name + rest,
        m.cargo_toml is None,
        m.package_json is None,
        m.pyproject_toml is None,
    ensures
        is_dependency(m, x) <==> x == name,
{
    let none = Seq::<char>::empty();
    let line = name + rest;
    let parts = seq![line];
    law_joining(Seq::empty(), line, seq!['\n']);
    assert(Seq::<Seq<char>>::empty().push(line) =~= parts);
    law_requirements_line_by_line(parts, x);
    law_requirement_names_it(none, name, rest);
    assert(none + name + rest =~= line);
    assert(parts[0] == line);
}

} // verus!
