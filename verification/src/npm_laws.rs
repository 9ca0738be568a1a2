//! What `package.json` names, told by its text.

use crate::manifest::{is_dependency, Manifests};
use crate::npm_manifest::{
    depth, group_of, is_npm_group, key_at, npm_dependency, string_length, tokens, TokenView,
};
use vstd::prelude::*;
use vstd::utf8::encode_utf8;

verus! {

/// Whether a text stands between quotes as it is: neither a quote nor a backslash
/// is in it.
pub open spec fn is_plain(s: Seq<char>) -> bool {
    !s.contains('"') && !s.contains('\\')
}

/// A text between quotes.
pub open spec fn quoted(s: Seq<char>) -> Seq<char> {
    seq!['"'] + s + seq!['"']
}

/// A string goes on up to its quote.
proof fn lemma_string_length(s: Seq<char>, rest: Seq<char>)
    requires
        is_plain(s),
    ensures
        string_length(s + seq!['"'] + rest) == s.len(),
    decreases s.len(),
{
    let t = s + seq!['"'] + rest;
    if s.len() == 0 {
        assert(t[0] == '"');
    } else {
        let f = s.drop_first();
        assert(s.contains(s[0]));
        assert(t[0] == s[0]);
        assert(t.skip(1) =~= f + seq!['"'] + rest);
        assert(is_plain(f)) by {
            if f.contains('"') {
                let i = choose|i: int| 0 <= i < f.len() && f[i] == '"';
                assert(s[i + 1] == '"');
            }
            if f.contains('\\') {
                let i = choose|i: int| 0 <= i < f.len() && f[i] == '\\';
                assert(s[i + 1] == '\\');
            }
        }
        lemma_string_length(f, rest);
    }
}

/// A text between quotes is one token, and reading goes on behind it.
pub proof fn law_string_is_a_token(s: Seq<char>, rest: Seq<char>)
    requires
        is_plain(s),
    ensures
        tokens(quoted(s) + rest) == seq![TokenView::Text(s)] + tokens(rest),
{
    let t = quoted(s) + rest;
    lemma_string_length(s, rest);
    assert(t[0] == '"');
    assert(t.skip(1) =~= s + seq!['"'] + rest);
    assert(t.subrange(1, s.len() as int + 1) =~= s);
    assert(t.skip(s.len() as int + 2) =~= rest);
}

/// A quote behind a backslash does not end a string.
pub proof fn law_escaped_quote_is_in_the_string(a: Seq<char>, b: Seq<char>, rest: Seq<char>)
    requires
        is_plain(a),
        is_plain(b),
    ensures
        tokens(quoted(a + seq!['\\', '"'] + b) + rest) == seq![
            TokenView::Text(a + seq!['\\', '"'] + b),
        ] + tokens(rest),
{
    let s = a + seq!['\\', '"'] + b;
    let t = quoted(s) + rest;
    lemma_escaped_length(a, b, rest);
    assert(t[0] == '"');
    assert(t.skip(1) =~= s + seq!['"'] + rest);
    assert(t.subrange(1, s.len() as int + 1) =~= s);
    assert(t.skip(s.len() as int + 2) =~= rest);
}

proof fn lemma_escaped_length(a: Seq<char>, b: Seq<char>, rest: Seq<char>)
    requires
        is_plain(a),
        is_plain(b),
    ensures
        string_length(a + seq!['\\', '"'] + b + seq!['"'] + rest) == a.len() + 2 + b.len(),
    decreases a.len(),
{
    let t = a + seq!['\\', '"'] + b + seq!['"'] + rest;
    if a.len() == 0 {
        assert(t[0] == '\\');
        assert(t.skip(2) =~= b + seq!['"'] + rest);
        lemma_string_length(b, rest);
    } else {
        let f = a.drop_first();
        assert(a.contains(a[0]));
        assert(t[0] == a[0]);
        assert(t.skip(1) =~= f + seq!['\\', '"'] + b + seq!['"'] + rest);
        assert(is_plain(f)) by {
            if f.contains('"') {
                let i = choose|i: int| 0 <= i < f.len() && f[i] == '"';
                assert(a[i + 1] == '"');
            }
            if f.contains('\\') {
                let i = choose|i: int| 0 <= i < f.len() && f[i] == '\\';
                assert(a[i + 1] == '\\');
            }
        }
        lemma_escaped_length(f, b, rest);
    }
}

/// Outside strings, braces, brackets, colons and commas are tokens, and nothing
/// else is.
pub proof fn law_marks_are_tokens(c: char, rest: Seq<char>)
    requires
        c != '"',
    ensures
        tokens(seq![c] + rest) == if c == '{' || c == '}' || c == '[' || c == ']' || c == ':' || c
            == ',' {
            seq![TokenView::Mark(c)] + tokens(rest)
        } else {
            tokens(rest)
        },
{
    let t = seq![c] + rest;
    assert(t[0] == c);
    assert(t.skip(1) =~= rest);
}

/// The entries from number `i` on, each a key and a value, with commas between
/// them, and the end of two objects.
pub open spec fn entries_from(names: Seq<Seq<char>>, values: Seq<Seq<char>>, i: int) -> Seq<char>
    decreases names.len() - i,
{
    if i >= names.len() {
        seq!['}', '}']
    } else {
        quoted(names[i]) + seq![':'] + quoted(values[i]) + (if i + 1 < names.len() {
            seq![',']
        } else {
            Seq::empty()
        }) + entries_from(names, values, i + 1)
    }
}

/// Their tokens.
spec fn entry_tokens(names: Seq<Seq<char>>, values: Seq<Seq<char>>, i: int) -> Seq<TokenView>
    decreases names.len() - i,
{
    if i >= names.len() {
        seq![TokenView::Mark('}'), TokenView::Mark('}')]
    } else {
        seq![
            TokenView::Text(names[i]),
            TokenView::Mark(':'),
            TokenView::Text(values[i]),
        ] + (if i + 1 < names.len() {
            seq![TokenView::Mark(',')]
        } else {
            Seq::empty()
        }) + entry_tokens(names, values, i + 1)
    }
}

proof fn lemma_entry_tokens(names: Seq<Seq<char>>, values: Seq<Seq<char>>, i: int)
    requires
        0 <= i <= names.len(),
        names.len() == values.len(),
        forall|k: int| 0 <= k < names.len() ==> is_plain(#[trigger] names[k]),
        forall|k: int| 0 <= k < values.len() ==> is_plain(#[trigger] values[k]),
    ensures
        tokens(entries_from(names, values, i)) == entry_tokens(names, values, i),
    decreases names.len() - i,
{
    if i == names.len() {
        let none = Seq::<char>::empty();
        law_marks_are_tokens('}', none);
        law_marks_are_tokens('}', seq!['}']);
        assert(seq!['}'] + none =~= seq!['}']);
        assert(seq!['}'] + seq!['}'] =~= seq!['}', '}']);
        assert(tokens(none) =~= Seq::<TokenView>::empty());
        assert(tokens(seq!['}', '}']) =~= seq![TokenView::Mark('}'), TokenView::Mark('}')]);
    } else {
        lemma_entry_tokens(names, values, i + 1);
        let rest = entries_from(names, values, i + 1);
        let comma: Seq<char> = if i + 1 < names.len() {
            seq![',']
        } else {
            Seq::empty()
        };
        let after = comma + rest;
        if i + 1 < names.len() {
            law_marks_are_tokens(',', rest);
        } else {
            assert(after =~= rest);
        }
        law_string_is_a_token(values[i], after);
        law_marks_are_tokens(':', quoted(values[i]) + after);
        law_string_is_a_token(names[i], seq![':'] + (quoted(values[i]) + after));
        assert(entries_from(names, values, i) =~= quoted(names[i]) + (seq![':'] + (quoted(
            values[i],
        ) + after)));
        assert(tokens(entries_from(names, values, i)) =~= entry_tokens(names, values, i));
    }
}

/// Where the tokens of the entries stand.
proof fn lemma_entry_places(names: Seq<Seq<char>>, values: Seq<Seq<char>>, i: int, j: int)
    requires
        0 <= i <= j < names.len(),
    ensures
        ({
            let ts = entry_tokens(names, values, i);
            let at = 4 * (j - i);
            &&& ts.len() == 4 * (names.len() - i) + 1
            &&& ts[at] == TokenView::Text(names[j])
            &&& ts[at + 1] == TokenView::Mark(':')
            &&& ts[at + 2] == TokenView::Text(values[j])
            &&& ts[at + 3] == if j + 1 < names.len() {
                TokenView::Mark(',')
            } else {
                TokenView::Mark('}')
            }
            &&& ts[ts.len() - 1] == TokenView::Mark('}')
        }),
    decreases names.len() - i,
{
    let ts = entry_tokens(names, values, i);
    let rest = entry_tokens(names, values, i + 1);
    if i + 1 < names.len() {
        if i < j {
            lemma_entry_places(names, values, i + 1, j);
            let at = 4 * (j - i);
            assert(ts[at] == rest[at - 4]);
            assert(ts[at + 1] == rest[at - 3]);
            assert(ts[at + 2] == rest[at - 2]);
            assert(ts[at + 3] == rest[at - 1]);
        } else {
            lemma_entry_places(names, values, i + 1, i + 1);
        }
        assert(ts[ts.len() - 1] == rest[rest.len() - 1]);
    } else {
        assert(rest == seq![TokenView::Mark('}'), TokenView::Mark('}')]);
    }
}

/// The entries stand two objects deep, under the key of the outer one.
proof fn lemma_entry_depth(
    ts: Seq<TokenView>,
    group: Seq<char>,
    names: Seq<Seq<char>>,
    values: Seq<Seq<char>>,
    k: int,
)
    requires
        names.len() >= 1,
        names.len() == values.len(),
        ts == seq![
            TokenView::Mark('{'),
            TokenView::Text(group),
            TokenView::Mark(':'),
            TokenView::Mark('{'),
        ] + entry_tokens(names, values, 0),
        4 <= k < 4 * names.len() + 4,
    ensures
        depth(ts, k) == 2,
        group_of(ts, k) == group,
    decreases k,
{
    if k == 4 {
        reveal_with_fuel(depth, 5);
        reveal_with_fuel(group_of, 5);
        assert(ts[0] == TokenView::Mark('{'));
        assert(ts[1] == TokenView::Text(group));
        assert(ts[2] == TokenView::Mark(':'));
        assert(ts[3] == TokenView::Mark('{'));
        lemma_entry_places(names, values, 0, 0);
    } else {
        lemma_entry_depth(ts, group, names, values, k - 1);
        let j = (k - 5) / 4;
        lemma_entry_places(names, values, 0, j);
        let at = 4 * j;
        let inner = entry_tokens(names, values, 0);
        assert(ts[k - 1] == inner[k - 5]);
        assert(k - 5 == at || k - 5 == at + 1 || k - 5 == at + 2 || k - 5 == at + 3);
        if k - 5 == at + 3 {
            assert(j + 1 < names.len());
        }
    }
}

/// An object of dependencies in the outermost object names its keys, those that are
/// longer than a byte, and nothing else; another object names nothing.
pub proof fn law_keys_of_a_dependency_object_are_named(
    m: Manifests,
    group: Seq<char>,
    names: Seq<Seq<char>>,
    values: Seq<Seq<char>>,
    x: Seq<char>,
)
    requires
        is_plain(group),
        names.len() >= 1,
        names.len() == values.len(),
        forall|k: int| 0 <= k < names.len() ==> is_plain(#[trigger] names[k]),
        forall|k: int| 0 <= k < values.len() ==> is_plain(#[trigger] values[k]),
        m.package_json is Some,
        m.package_json->0@ == seq!['{'] + quoted(group) + seq![':', '{'] + entries_from(
            names,
            values,
            0,
        ),
        m.cargo_toml is None,
        m.requirements_txt is None,
        m.pyproject_toml is None,
    ensures
        is_dependency(m, x) <==> {
            &&& {
                ||| group == "dependencies"@
                ||| group == "devDependencies"@
                ||| group == "peerDependencies"@
                ||| group == "optionalDependencies"@
            }
            &&& encode_utf8(x).len() > 1
            &&& exists|i: int| 0 <= i < names.len() && #[trigger] names[i] == x
        },
{
    let text = m.package_json->0@;
    let inner = entry_tokens(names, values, 0);
    let body = entries_from(names, values, 0);
    let ts = seq![
        TokenView::Mark('{'),
        TokenView::Text(group),
        TokenView::Mark(':'),
        TokenView::Mark('{'),
    ] + inner;
    lemma_entry_tokens(names, values, 0);
    law_marks_are_tokens('{', body);
    law_marks_are_tokens(':', seq!['{'] + body);
    law_string_is_a_token(group, seq![':'] + (seq!['{'] + body));
    law_marks_are_tokens('{', quoted(group) + (seq![':'] + (seq!['{'] + body)));
    assert(text =~= seq!['{'] + (quoted(group) + (seq![':'] + (seq!['{'] + body))));
    assert(tokens(text) =~= ts);
    let n = names.len() as int;
    lemma_entry_places(names, values, 0, 0);
    assert forall|k: int| 0 <= k < ts.len() implies #[trigger] npm_dependency(ts, k) == (if 4 <= k
        && (k - 4) % 4 == 0 && (k - 4) / 4 < n && is_npm_group(group) && encode_utf8(
        names[(k - 4) / 4],
    ).len() > 1 {
        Some(names[(k - 4) / 4])
    } else {
        None
    }) by {
        if k < 4 {
            assert(ts[0] == TokenView::Mark('{'));
            assert(ts[2] == TokenView::Mark(':'));
            assert(ts[3] == TokenView::Mark('{'));
            if k == 1 {
                reveal_with_fuel(depth, 2);
                assert(depth(ts, 1) == 1);
            }
        } else if k < 4 * n + 4 {
            let j = (k - 4) / 4;
            let at = 4 * j;
            lemma_entry_depth(ts, group, names, values, k);
            lemma_entry_places(names, values, 0, j);
            assert(ts[k] == inner[k - 4]);
            if k + 1 < ts.len() {
                assert(ts[k + 1] == inner[k - 3]);
            }
        } else {
            assert(k == 4 * n + 4);
            assert(ts[k] == inner[inner.len() - 1]);
        }
    }
    if exists|i: int| 0 <= i < names.len() && #[trigger] names[i] == x {
        let i = choose|i: int| 0 <= i < names.len() && #[trigger] names[i] == x;
        let k = 4 * i + 4;
        assert(npm_dependency(tokens(text), k) == npm_dependency(ts, k));
        assert((k - 4) / 4 == i);
    }
    if is_dependency(m, x) {
        let k = choose|k: int|
            0 <= k < tokens(text).len() && #[trigger] npm_dependency(tokens(text), k) == Some(x);
        assert(npm_dependency(ts, k) == Some(x));
        assert(names[(k - 4) / 4] == x);
    }
}

/// How many of the first `k` tokens open something and how many close something.
pub open spec fn opened(ts: Seq<TokenView>, k: int) -> int {
    ts.take(k).filter(
        |t: TokenView| t == TokenView::Mark('{') || t == TokenView::Mark('['),
    ).len() - ts.take(k).filter(
        |t: TokenView| t == TokenView::Mark('}') || t == TokenView::Mark(']'),
    ).len()
}

/// Whether token `k` is the key `name`: the string, with a colon behind it.
pub open spec fn is_key(ts: Seq<TokenView>, k: int, name: Seq<char>) -> bool {
    ts[k] == TokenView::Text(name) && k + 1 < ts.len() && ts[k + 1] == TokenView::Mark(':')
}

/// Whether the last key of the outermost object before token `k` is token `j`.
pub open spec fn stands_under(ts: Seq<TokenView>, k: int, j: int, group: Seq<char>) -> bool {
    &&& 0 <= j < k
    &&& is_key(ts, j, group)
    &&& opened(ts, j) == 1
    &&& forall|i: int, other: Seq<char>|
        j < i < k && opened(ts, i) == 1 ==> !#[trigger] is_key(ts, i, other)
}

/// Whether that key is one of those for dependencies.
pub open spec fn stands_under_dependencies(ts: Seq<TokenView>, k: int, j: int) -> bool {
    ||| stands_under(ts, k, j, "dependencies"@)
    ||| stands_under(ts, k, j, "devDependencies"@)
    ||| stands_under(ts, k, j, "peerDependencies"@)
    ||| stands_under(ts, k, j, "optionalDependencies"@)
}

proof fn lemma_opened(ts: Seq<TokenView>, k: int)
    requires
        0 <= k <= ts.len(),
    ensures
        opened(ts, k) == depth(ts, k),
    decreases k,
{
    reveal(Seq::filter);
    if k > 0 {
        lemma_opened(ts, k - 1);
        assert(ts.take(k).drop_last() =~= ts.take(k - 1));
        assert(ts.take(k).last() == ts[k - 1]);
    } else {
        assert(ts.take(0) =~= Seq::empty());
    }
}

proof fn lemma_stands_under(ts: Seq<TokenView>, k: int, j: int, group: Seq<char>)
    requires
        0 <= k <= ts.len(),
        stands_under(ts, k, j, group),
    ensures
        group_of(ts, k) == group,
    decreases k,
{
    lemma_opened(ts, k - 1);
    if j < k - 1 {
        if depth(ts, k - 1) == 1 && key_at(ts, k - 1) is Some {
            assert(is_key(ts, k - 1, key_at(ts, k - 1)->0));
        }
        lemma_stands_under(ts, k - 1, j, group);
    }
}

proof fn lemma_group_stands(ts: Seq<TokenView>, k: int) -> (j: int)
    requires
        0 <= k <= ts.len(),
        group_of(ts, k).len() > 0,
    ensures
        stands_under(ts, k, j, group_of(ts, k)),
    decreases k,
{
    lemma_opened(ts, k - 1);
    if depth(ts, k - 1) == 1 && key_at(ts, k - 1) is Some {
        k - 1
    } else {
        let j = lemma_group_stands(ts, k - 1);
        assert forall|i: int, other: Seq<char>| j < i < k && opened(ts, i) == 1 implies !#[trigger]
            is_key(ts, i, other) by {
            if i == k - 1 && is_key(ts, i, other) {
                assert(key_at(ts, k - 1) == Some(other));
            }
        }
        j
    }
}

/// A dependency is a key, longer than a byte, two objects or lists deep, where the
/// last key of the outermost object before it is that of an object of dependencies.
pub proof fn law_dependency_is_a_key_of_an_object(ts: Seq<TokenView>, k: int, name: Seq<char>)
    requires
        0 <= k < ts.len(),
    ensures
        npm_dependency(ts, k) == Some(name) <==> {
            &&& is_key(ts, k, name)
            &&& encode_utf8(name).len() > 1
            &&& opened(ts, k) == 2
            &&& exists|j: int| stands_under_dependencies(ts, k, j)
        },
{
    reveal_strlit("dependencies");
    reveal_strlit("devDependencies");
    reveal_strlit("peerDependencies");
    reveal_strlit("optionalDependencies");
    lemma_opened(ts, k);
    if npm_dependency(ts, k) == Some(name) {
        let j = lemma_group_stands(ts, k);
        assert(stands_under_dependencies(ts, k, j));
    }
    if exists|j: int| stands_under_dependencies(ts, k, j) {
        let j = choose|j: int| stands_under_dependencies(ts, k, j);
        if stands_under(ts, k, j, "dependencies"@) {
            lemma_stands_under(ts, k, j, "dependencies"@);
        } else if stands_under(ts, k, j, "devDependencies"@) {
            lemma_stands_under(ts, k, j, "devDependencies"@);
        } else if stands_under(ts, k, j, "peerDependencies"@) {
            lemma_stands_under(ts, k, j, "peerDependencies"@);
        } else {
            lemma_stands_under(ts, k, j, "optionalDependencies"@);
        }
    }
}

} // verus!
