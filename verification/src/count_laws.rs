//! What counts for a test and what for a number of commits, told by the text.

use crate::counts::{
    awaits_function, digits, has_test_attribute, marks_test, names_function, starts_other_test,
    stated_commits, tests_in, tests_in_lines, value,
};
use crate::names::{is_digit, is_number};
use crate::text::{begins_with, decimal, has_part, is_white, joined, stands_at, trimmed};
use crate::text_laws::{
    law_lines_of_joined_lines, law_trimming, law_trimming_again, lemma_kept,
    lemma_part_of_beginning, lemma_part_of_trimmed,
};
use vstd::prelude::*;

verus! {

/// White space around lines makes no difference to the number of tests.
pub proof fn law_white_space_makes_no_difference(p: Seq<Seq<char>>, q: Seq<Seq<char>>, n: int)
    requires
        p.len() == q.len(),
        0 <= n <= p.len(),
        forall|k: int| 0 <= k < p.len() ==> trimmed(#[trigger] p[k]) == trimmed(q[k]),
    ensures
        tests_in_lines(p, n) == tests_in_lines(q, n),
        awaits_function(p, n) == awaits_function(q, n),
    decreases n,
{
    if n > 0 {
        law_white_space_makes_no_difference(p, q, n - 1);
        assert(trimmed(p[n - 1]) == trimmed(q[n - 1]));
    }
}

/// Neither does white space that is put around one line.
pub proof fn law_indenting_makes_no_difference(
    p: Seq<Seq<char>>,
    k: int,
    indent: Seq<char>,
    trail: Seq<char>,
)
    requires
        0 <= k < p.len(),
        forall|i: int| 0 <= i < indent.len() ==> is_white(#[trigger] indent[i]),
        forall|i: int| 0 <= i < trail.len() ==> is_white(#[trigger] trail[i]),
    ensures
        tests_in_lines(p.update(k, indent + p[k] + trail), p.len() as int) == tests_in_lines(
            p,
            p.len() as int,
        ),
{
    law_trimming_again(indent, p[k], trail);
    law_white_space_makes_no_difference(
        p.update(k, indent + p[k] + trail),
        p,
        p.len() as int,
    );
}

/// The tests in a text are those in its lines, parted by line feeds.
pub proof fn law_tests_of_lines(parts: Seq<Seq<char>>)
    requires
        parts.len() >= 1,
        forall|k: int| 0 <= k < parts.len() ==> !(#[trigger] parts[k]).contains('\n'),
    ensures
        tests_in(joined(parts, seq!['\n'])) == tests_in_lines(parts, parts.len() as int),
        tests_in_lines(parts, 0) == 0,
{
    law_lines_of_joined_lines(parts);
}

/// The four words that start a test outside Rust.
proof fn lemma_words(word: Seq<char>)
    requires
        word == "test("@ || word == "it("@ || word == "def test_"@ || word == "func Test"@ || word
            == "fn test_"@ || word == "async fn test_"@ || word == "#[test]"@ || word
            == "#[tokio::test]"@,
    ensures
        word.len() > 0,
        !is_white(word[0]),
        !is_white(word.last()),
        word[0] != '/',
{
    reveal_strlit("test(");
    reveal_strlit("it(");
    reveal_strlit("def test_");
    reveal_strlit("func Test");
    reveal_strlit("fn test_");
    reveal_strlit("async fn test_");
    reveal_strlit("#[test]");
    reveal_strlit("#[tokio::test]");
}

/// What a trimmed line begins with.
proof fn lemma_begins(indent: Seq<char>, core: Seq<char>, rest: Seq<char>)
    requires
        forall|i: int| 0 <= i < indent.len() ==> is_white(#[trigger] indent[i]),
        core.len() > 0,
        !is_white(core[0]),
        !is_white(core.last()),
    ensures
        begins_with(trimmed(indent + core + rest), core),
        trimmed(indent + core + rest)[0] == core[0],
{
    let r = lemma_kept(indent, core, rest);
    assert((core + r.0).subrange(0, core.len() as int) =~= core);
}

/// A line that begins, behind white space, with `test(`, `it(`, `def test_` or
/// `func Test` adds one to the number of tests, whatever stands before it and
/// whatever follows.
pub proof fn law_test_line_adds_one(
    p: Seq<Seq<char>>,
    k: int,
    indent: Seq<char>,
    word: Seq<char>,
    rest: Seq<char>,
)
    requires
        0 <= k < p.len(),
        word == "test("@ || word == "it("@ || word == "def test_"@ || word == "func Test"@,
        forall|i: int| 0 <= i < indent.len() ==> is_white(#[trigger] indent[i]),
        p[k] == indent + word + rest,
    ensures
        tests_in_lines(p, k + 1) == tests_in_lines(p, k) + 1,
{
    lemma_words(word);
    lemma_begins(indent, word, rest);
}

/// Where no line before has a test attribute, none is awaited.
proof fn lemma_nothing_awaited(p: Seq<Seq<char>>, n: int)
    requires
        0 <= n <= p.len(),
        forall|m: int|
            0 <= m < n ==> !has_part(#[trigger] p[m], "#[test]"@) && !has_part(
                p[m],
                "#[tokio::test]"@,
            ),
    ensures
        !awaits_function(p, n),
    decreases n,
{
    if n > 0 {
        lemma_nothing_awaited(p, n - 1);
        lemma_no_attribute(p[n - 1]);
    }
}

/// A line without a test attribute has none when it is trimmed.
proof fn lemma_no_attribute(line: Seq<char>)
    requires
        !has_part(line, "#[test]"@),
        !has_part(line, "#[tokio::test]"@),
    ensures
        !has_test_attribute(trimmed(line)),
{
    if has_part(trimmed(line), "#[test]"@) {
        lemma_part_of_trimmed(line, "#[test]"@);
    }
    if has_part(trimmed(line), "#[tokio::test]"@) {
        lemma_part_of_trimmed(line, "#[tokio::test]"@);
    }
}

/// A line that begins, behind white space, with `fn test_` or `async fn test_` adds
/// one where no line before it has the attribute `#[test]` or `#[tokio::test]`.
pub proof fn law_named_test_adds_one(
    p: Seq<Seq<char>>,
    k: int,
    indent: Seq<char>,
    word: Seq<char>,
    rest: Seq<char>,
)
    requires
        0 <= k < p.len(),
        word == "fn test_"@ || word == "async fn test_"@,
        forall|i: int| 0 <= i < indent.len() ==> is_white(#[trigger] indent[i]),
        p[k] == indent + word + rest,
        forall|m: int|
            0 <= m < k ==> !has_part(#[trigger] p[m], "#[test]"@) && !has_part(
                p[m],
                "#[tokio::test]"@,
            ),
    ensures
        tests_in_lines(p, k + 1) == tests_in_lines(p, k) + 1,
{
    lemma_words(word);
    lemma_begins(indent, word, rest);
    lemma_nothing_awaited(p, k);
}

/// A line with neither a test attribute nor one of the words that start a test at
/// its beginning adds nothing.
pub proof fn law_other_line_adds_nothing(p: Seq<Seq<char>>, k: int)
    requires
        0 <= k < p.len(),
        !has_part(p[k], "#[test]"@),
        !has_part(p[k], "#[tokio::test]"@),
        ({
            let t = trimmed(p[k]);
            &&& !begins_with(t, "test("@)
            &&& !begins_with(t, "it("@)
            &&& !begins_with(t, "def test_"@)
            &&& !begins_with(t, "func Test"@)
            &&& !begins_with(t, "fn test_"@)
            &&& !begins_with(t, "async fn test_"@)
        }),
    ensures
        tests_in_lines(p, k + 1) == tests_in_lines(p, k),
{
    lemma_no_attribute(p[k]);
}

/// Whether `line` begins, behind white space, with a Rust function called `name`.
pub open spec fn starts_function(
    line: Seq<char>,
    indent: Seq<char>,
    head: Seq<char>,
    name: Seq<char>,
    rest: Seq<char>,
) -> bool {
    &&& head == "fn "@ || head == "async fn "@ || head == "pub fn "@
    &&& name.len() > 0
    &&& !is_white(name.last())
    &&& forall|i: int| 0 <= i < indent.len() ==> is_white(#[trigger] indent[i])
    &&& line == indent + (head + name) + rest
}

/// Such a line names a function, and starts no test in another language.
proof fn lemma_function_line(
    line: Seq<char>,
    indent: Seq<char>,
    head: Seq<char>,
    name: Seq<char>,
    rest: Seq<char>,
)
    requires
        starts_function(line, indent, head, name, rest),
    ensures
        names_function(trimmed(line)),
        !starts_other_test(trimmed(line)),
{
    reveal_strlit("fn ");
    reveal_strlit("async fn ");
    reveal_strlit("pub fn ");
    reveal_strlit("//");
    reveal_strlit("test(");
    reveal_strlit("it(");
    reveal_strlit("def test_");
    reveal_strlit("func Test");
    let core = head + name;
    let t = trimmed(line);
    assert(core[0] == head[0]);
    assert(core.last() == name.last());
    let r = lemma_kept(indent, core, rest);
    lemma_begins(indent, core, rest);
    let at = head.len() - 3;
    assert(core.subrange(at, at + 3) =~= "fn "@);
    assert(stands_at(core, "fn "@, at));
    lemma_part_of_beginning(core, r.0, "fn "@);
    assert(t.subrange(0, core.len() as int) == core);
    assert(t[1] == core[1] && core[1] == head[1]);
    if begins_with(t, "//"@) {
        assert(t.subrange(0, 2)[0] == '/');
    }
    if begins_with(t, "test("@) {
        assert(t.subrange(0, 5)[0] == 't');
    }
    if begins_with(t, "it("@) {
        assert(t.subrange(0, 3)[0] == 'i');
    }
    if begins_with(t, "def test_"@) {
        assert(t.subrange(0, 9)[0] == 'd');
    }
    if begins_with(t, "func Test"@) {
        assert(t.subrange(0, 9)[1] == 'u');
    }
}

/// A line that holds nothing but a test attribute.
pub open spec fn is_attribute_line(line: Seq<char>, indent: Seq<char>, trail: Seq<char>) -> bool {
    &&& forall|i: int| 0 <= i < indent.len() ==> is_white(#[trigger] indent[i])
    &&& forall|i: int| 0 <= i < trail.len() ==> is_white(#[trigger] trail[i])
    &&& line == indent + "#[test]"@ + trail || line == indent + "#[tokio::test]"@ + trail
}

/// Such a line has the attribute, and names no function.
proof fn lemma_attribute_line(line: Seq<char>, indent: Seq<char>, trail: Seq<char>)
    requires
        is_attribute_line(line, indent, trail),
    ensures
        has_test_attribute(trimmed(line)),
        !names_function(trimmed(line)),
        !starts_other_test(trimmed(line)),
{
    reveal_strlit("#[test]");
    reveal_strlit("#[tokio::test]");
    reveal_strlit("fn ");
    reveal_strlit("test(");
    reveal_strlit("it(");
    reveal_strlit("def test_");
    reveal_strlit("func Test");
    let t = if line == indent + "#[test]"@ + trail {
        "#[test]"@
    } else {
        "#[tokio::test]"@
    };
    law_trimming(indent, t, trail);
    assert(t.subrange(0, t.len() as int) =~= t);
    assert(stands_at(t, t, 0));
    if has_part(t, "fn "@) {
        let at = choose|at: int| stands_at(t, "fn "@, at);
        assert(t.subrange(at, at + 3)[0] == 'f');
        assert(t[at] == 'f');
    }
    if begins_with(t, "test("@) {
        assert(t.subrange(0, 5)[0] == 't');
    }
    if begins_with(t, "it("@) {
        assert(t.subrange(0, 3)[0] == 'i');
    }
    if begins_with(t, "def test_"@) {
        assert(t.subrange(0, 9)[0] == 'd');
    }
    if begins_with(t, "func Test"@) {
        assert(t.subrange(0, 9)[0] == 'f');
    }
}

/// An attribute on a line of its own and the function on the next are one test,
/// however the function is called, where no attribute stands before them. A
/// function on the line behind whose name says that it is a test is another.
pub proof fn law_attribute_and_function_are_one_test(
    p: Seq<Seq<char>>,
    k: int,
    indents: (Seq<char>, Seq<char>, Seq<char>),
    trail: Seq<char>,
    head: Seq<char>,
    name: Seq<char>,
    rest: Seq<char>,
    more: Seq<char>,
)
    requires
        0 <= k,
        k + 2 < p.len(),
        forall|m: int|
            0 <= m < k ==> !has_part(#[trigger] p[m], "#[test]"@) && !has_part(
                p[m],
                "#[tokio::test]"@,
            ),
        is_attribute_line(p[k], indents.0, trail),
        starts_function(p[k + 1], indents.1, head, name, rest),
        forall|i: int| 0 <= i < indents.2.len() ==> is_white(#[trigger] indents.2[i]),
        p[k + 2] == indents.2 + "fn test_"@ + more,
    ensures
        tests_in_lines(p, k + 1) == tests_in_lines(p, k) + 1,
        tests_in_lines(p, k + 2) == tests_in_lines(p, k) + 1,
        tests_in_lines(p, k + 3) == tests_in_lines(p, k) + 2,
{
    lemma_nothing_awaited(p, k);
    lemma_attribute_line(p[k], indents.0, trail);
    lemma_function_line(p[k + 1], indents.1, head, name, rest);
    assert(awaits_function(p, k + 1));
    assert(tests_in_lines(p, k + 1) == tests_in_lines(p, k) + 1);
    assert(!marks_test(p, k + 1));
    assert(tests_in_lines(p, k + 2) == tests_in_lines(p, k + 1));
    assert(!awaits_function(p, k + 2));
    lemma_words("fn test_"@);
    lemma_begins(indents.2, "fn test_"@, more);
    assert(marks_test(p, k + 2));
}

/// Whether line `k` is a test attribute and the line behind it starts function `i`.
pub open spec fn is_test_at(
    p: Seq<Seq<char>>,
    indents: Seq<Seq<char>>,
    trails: Seq<Seq<char>>,
    heads: Seq<Seq<char>>,
    names: Seq<Seq<char>>,
    k: int,
    i: int,
) -> bool {
    &&& is_attribute_line(p[k], indents[k], trails[k])
    &&& starts_function(p[k + 1], indents[k + 1], heads[i], names[i], trails[k + 1])
}

/// As many tests as attributes: where every other line is a test attribute and
/// the line behind it starts its function, half of the lines count.
pub proof fn law_each_attributed_function_is_one_test(
    p: Seq<Seq<char>>,
    indents: Seq<Seq<char>>,
    trails: Seq<Seq<char>>,
    heads: Seq<Seq<char>>,
    names: Seq<Seq<char>>,
    n: int,
)
    requires
        0 <= n,
        p.len() == 2 * n,
        forall|i: int|
            0 <= i < n ==> #[trigger] is_test_at(p, indents, trails, heads, names, 2 * i, i),
    ensures
        tests_in_lines(p, 2 * n) == n,
{
    lemma_attributed(p, indents, trails, heads, names, n, n);
}

proof fn lemma_attributed(
    p: Seq<Seq<char>>,
    indents: Seq<Seq<char>>,
    trails: Seq<Seq<char>>,
    heads: Seq<Seq<char>>,
    names: Seq<Seq<char>>,
    n: int,
    m: int,
)
    requires
        0 <= m <= n,
        p.len() == 2 * n,
        forall|i: int|
            0 <= i < n ==> #[trigger] is_test_at(p, indents, trails, heads, names, 2 * i, i),
    ensures
        tests_in_lines(p, 2 * m) == m,
        !awaits_function(p, 2 * m),
    decreases m,
{
    if m > 0 {
        let i = m - 1;
        lemma_attributed(p, indents, trails, heads, names, n, i);
        assert(is_test_at(p, indents, trails, heads, names, 2 * i, i));
        lemma_attribute_line(p[2 * i], indents[2 * i], trails[2 * i]);
        lemma_function_line(
            p[2 * i + 1],
            indents[2 * i + 1],
            heads[i],
            names[i],
            trails[2 * i + 1],
        );
        assert(awaits_function(p, 2 * i + 1));
        assert(tests_in_lines(p, 2 * i + 1) == i + 1);
        assert(tests_in_lines(p, 2 * i + 2) == i + 1);
    }
}

/// Whether a line has the attribute of a Rust test.
pub open spec fn is_attributed(line: Seq<char>) -> bool {
    has_part(trimmed(line), "#[test]"@) || has_part(trimmed(line), "#[tokio::test]"@)
}

/// Whether a line that is no comment names a Rust function.
pub open spec fn is_function_line(line: Seq<char>) -> bool {
    has_part(trimmed(line), "fn "@) && !begins_with(trimmed(line), "//"@)
}

/// Whether the attribute on line `j` is for a function that no line before line `k`
/// names.
pub open spec fn is_awaiting(p: Seq<Seq<char>>, j: int, k: int) -> bool {
    &&& 0 <= j < k
    &&& is_attributed(p[j])
    &&& forall|m: int| j <= m < k ==> !is_function_line(#[trigger] p[m])
}

proof fn lemma_awaiting(p: Seq<Seq<char>>, k: int)
    requires
        0 <= k <= p.len(),
    ensures
        awaits_function(p, k) <==> exists|j: int| is_awaiting(p, j, k),
    decreases k,
{
    if k > 0 {
        lemma_awaiting(p, k - 1);
        let line = p[k - 1];
        if awaits_function(p, k) {
            if is_attributed(line) {
                assert(is_awaiting(p, k - 1, k));
            } else {
                let before = k - 1;
                let j = choose|j: int| is_awaiting(p, j, before);
                assert(is_awaiting(p, j, k));
            }
        }
        if exists|j: int| is_awaiting(p, j, k) {
            let j = choose|j: int| is_awaiting(p, j, k);
            assert(!is_function_line(p[k - 1]));
            if j < k - 1 {
                assert(is_awaiting(p, j, k - 1));
            }
        }
    }
}

/// A line counts for a test where it begins one in JavaScript, TypeScript, Python or
/// Go, and where it has the attribute of a Rust test or begins a Rust function that
/// is called a test, unless an attribute before it still waits for its function.
/// Other attributes and comments in between make no difference.
pub proof fn law_which_lines_count(p: Seq<Seq<char>>, k: int)
    requires
        0 <= k < p.len(),
    ensures
        tests_in_lines(p, k + 1) == tests_in_lines(p, k) + if {
            let t = trimmed(p[k]);
            ||| begins_with(t, "test("@)
            ||| begins_with(t, "it("@)
            ||| begins_with(t, "def test_"@)
            ||| begins_with(t, "func Test"@)
            ||| {
                &&& is_attributed(p[k]) || begins_with(t, "fn test_"@) || begins_with(
                    t,
                    "async fn test_"@,
                )
                &&& !exists|j: int| is_awaiting(p, j, k)
            }
        } {
            1int
        } else {
            0int
        },
{
    lemma_awaiting(p, k);
}

/// A number in decimal is made of digits, and they have its value.
proof fn lemma_decimal_value(n: nat)
    ensures
        is_number(decimal(n)),
        value(decimal(n)) == n,
    decreases n,
{
    if n < 10 {
        assert(decimal(n).drop_last() =~= Seq::empty());
        reveal_with_fuel(value, 2);
    } else {
        let f = decimal(n / 10);
        lemma_decimal_value(n / 10);
        let s = decimal(n);
        assert(s.drop_last() =~= f);
        assert forall|i: int| 0 <= i < s.len() implies is_digit(#[trigger] s[i]) by {
            if i < f.len() {
                assert(s[i] == f[i]);
            }
        }
    }
}

/// A number of commits is read off its decimal form, with or without a plus sign
/// before it and white space around it; one that is too great is none.
pub proof fn law_commits_are_read_off(n: nat, a: Seq<char>, b: Seq<char>)
    requires
        forall|i: int| 0 <= i < a.len() ==> is_white(#[trigger] a[i]),
        forall|i: int| 0 <= i < b.len() ==> is_white(#[trigger] b[i]),
    ensures
        stated_commits(a + decimal(n) + b) == if n <= 0xffff_ffff {
            n as int
        } else {
            0
        },
        stated_commits(a + (seq!['+'] + decimal(n)) + b) == if n <= 0xffff_ffff {
            n as int
        } else {
            0
        },
{
    let s = decimal(n);
    lemma_decimal_value(n);
    assert(is_digit(s[0]) && is_digit(s[s.len() - 1]));
    law_trimming(a, s, b);
    let q = seq!['+'] + s;
    assert(q.last() == s.last());
    law_trimming(a, q, b);
    assert(q.skip(1) =~= s);
}

/// What is no number states no commits: nothing, or something with another
/// character than digits in it, behind a plus sign if there is one.
pub proof fn law_no_number_no_commits(a: Seq<char>, s: Seq<char>, b: Seq<char>, i: int)
    requires
        forall|i: int| 0 <= i < a.len() ==> is_white(#[trigger] a[i]),
        forall|i: int| 0 <= i < b.len() ==> is_white(#[trigger] b[i]),
        s.len() > 0 ==> !is_white(s[0]) && !is_white(s.last()),
        s.len() == 0 || {
            &&& 0 <= i < s.len()
            &&& !('0' <= s[i] <= '9')
            &&& i > 0 || s[0] != '+' || s.len() == 1
        },
    ensures
        stated_commits(a + s + b) == 0,
{
    law_trimming(a, s, b);
    let d = digits(s);
    if s.len() > 0 {
        if s[0] == '+' {
            if s.len() > 1 {
                assert(d[i - 1] == s[i]);
                assert(!is_digit(d[i - 1]));
            }
        } else {
            assert(!is_digit(d[i]));
        }
    }
}

/// Zeros before a number make no difference.
pub proof fn law_leading_zeros_make_no_difference(s: Seq<char>)
    requires
        s.len() > 0,
        forall|i: int| 0 <= i < s.len() ==> '0' <= #[trigger] s[i] <= '9',
    ensures
        stated_commits(seq!['0'] + s) == stated_commits(s),
{
    let z = seq!['0'] + s;
    let none = Seq::<char>::empty();
    assert(z.last() == s.last());
    assert(s[0] >= '0' && s[s.len() - 1] >= '0');
    law_trimming(none, s, none);
    law_trimming(none, z, none);
    assert(none + s + none =~= s);
    assert(none + z + none =~= z);
    lemma_value_of_zero_and(s);
    assert forall|i: int| 0 <= i < z.len() implies is_digit(#[trigger] z[i]) by {
        if i > 0 {
            assert(z[i] == s[i - 1]);
        }
    }
    assert forall|i: int| 0 <= i < s.len() implies is_digit(#[trigger] s[i]) by {
        assert('0' <= s[i] <= '9');
    }
}

proof fn lemma_value_of_zero_and(s: Seq<char>)
    ensures
        value(seq!['0'] + s) == value(s),
    decreases s.len(),
{
    let z = seq!['0'] + s;
    if s.len() == 0 {
        assert(z.drop_last() =~= Seq::empty());
        reveal_with_fuel(value, 2);
    } else {
        lemma_value_of_zero_and(s.drop_last());
        assert(z.drop_last() =~= seq!['0'] + s.drop_last());
        assert(z.last() == s.last());
    }
}

} // verus!
