//! Numbers of tests and of commits.

use crate::names::{is_digit, is_number};
use crate::text::{
    begins_with, chars_of, contains, has_part, lines, split_lines, starts_with, trim, trimmed,
};
use crate::utf8::{shown, utf8_lossy_text, utf8_text};
use crate::walk::{on_test_walk, reached_by_test_walk, WalkEntry};
use vstd::prelude::*;
use vstd::slice::slice_subrange;
use vstd::utf8::{decode_utf8, valid_utf8};

verus! {

/// Whether a trimmed line holds the attribute of a Rust test.
pub open spec fn has_test_attribute(t: Seq<char>) -> bool {
    has_part(t, "#[test]"@) || has_part(t, "#[tokio::test]"@)
}

/// Whether a trimmed line names a Rust function, outside a comment.
pub open spec fn names_function(t: Seq<char>) -> bool {
    has_part(t, "fn "@) && !begins_with(t, "//"@)
}

/// Whether a trimmed line starts a Rust function whose name says that it is a
/// test.
pub open spec fn starts_test_function(t: Seq<char>) -> bool {
    begins_with(t, "fn test_"@) || begins_with(t, "async fn test_"@)
}

/// Whether a trimmed line starts a test in another language: in JavaScript or
/// TypeScript, in Python or in Go.
pub open spec fn starts_other_test(t: Seq<char>) -> bool {
    ||| begins_with(t, "test("@)
    ||| begins_with(t, "it("@)
    ||| begins_with(t, "def test_"@)
    ||| begins_with(t, "func Test"@)
}

/// Whether one of the first `n` of `pieces` has the attribute of a Rust test and
/// its function has not come yet.
pub open spec fn awaits_function(pieces: Seq<Seq<char>>, n: int) -> bool
    decreases n,
{
    if n <= 0 {
        false
    } else {
        let t = trimmed(pieces[n - 1]);
        !names_function(t) && (has_test_attribute(t) || awaits_function(pieces, n - 1))
    }
}

/// Whether line `k` of `pieces` counts for a test. A Rust test counts where its
/// first attribute stands or, if it has none, where its name says that it is one.
pub open spec fn marks_test(pieces: Seq<Seq<char>>, k: int) -> bool {
    let t = trimmed(pieces[k]);
    ||| (has_test_attribute(t) || starts_test_function(t)) && !awaits_function(pieces, k)
    ||| starts_other_test(t)
}

/// The tests in the first `n` of `pieces`.
pub open spec fn tests_in_lines(pieces: Seq<Seq<char>>, n: int) -> nat
    decreases n,
{
    if n <= 0 {
        0
    } else {
        tests_in_lines(pieces, n - 1) + if marks_test(pieces, n - 1) {
            1nat
        } else {
            0nat
        }
    }
}

/// The tests in `text`, line by line.
pub open spec fn tests_in(text: Seq<char>) -> nat {
    tests_in_lines(lines(text), lines(text).len() as int)
}

/// The text that is read for tests of the entry `e` of the repository called
/// `root`, if any is: it is a file that the walk for tests comes to, could be read,
/// and is text.
pub open spec fn test_text(root: Seq<char>, e: WalkEntry) -> Option<Seq<char>> {
    if on_test_walk(root, e.components@) && e.is_file && e.content is Some && valid_utf8(
        e.content->0@,
    ) {
        Some(decode_utf8(e.content->0@))
    } else {
        None
    }
}

/// The tests in what is read of `entries` for tests.
pub open spec fn tests_in_all(root: Seq<char>, entries: Seq<WalkEntry>) -> nat
    decreases entries.len(),
{
    if entries.len() == 0 {
        0
    } else {
        tests_in_all(root, entries.drop_last()) + match test_text(root, entries.last()) {
            Some(text) => tests_in(text),
            None => 0,
        }
    }
}

/// The tests in two collections of entries are those in the one and those in the
/// other.
pub proof fn law_tests_add_up(root: Seq<char>, a: Seq<WalkEntry>, b: Seq<WalkEntry>)
    ensures
        tests_in_all(root, a + b) == tests_in_all(root, a) + tests_in_all(root, b),
    decreases b.len(),
{
    if b.len() == 0 {
        assert(a + b =~= a);
    } else {
        law_tests_add_up(root, a, b.drop_last());
        assert((a + b).drop_last() =~= a + b.drop_last());
        assert((a + b).last() == b.last());
    }
}

/// From the first attribute of a Rust test to the line of its function, one test
/// is counted, whatever the name of the function is and whatever attributes and
/// comments stand between.
pub proof fn law_rust_test_counts_once(pieces: Seq<Seq<char>>, first: int, last: int)
    requires
        0 <= first <= last < pieces.len(),
        has_test_attribute(trimmed(pieces[first])),
        !awaits_function(pieces, first),
        names_function(trimmed(pieces[last])),
        forall|k: int| first <= k < last ==> !names_function(trimmed(#[trigger] pieces[k])),
        forall|k: int| first < k <= last ==> !starts_other_test(trimmed(#[trigger] pieces[k])),
    ensures
        tests_in_lines(pieces, last + 1) == tests_in_lines(pieces, first) + 1,
        !awaits_function(pieces, last + 1),
{
    assert(tests_in_lines(pieces, first + 1) == tests_in_lines(pieces, first) + 1);
    if first < last {
        lemma_awaited(pieces, first, last);
    }
}

/// Where the function of a test is awaited, neither further attributes nor the
/// function count.
proof fn lemma_awaited(pieces: Seq<Seq<char>>, first: int, n: int)
    requires
        0 <= first < n < pieces.len(),
        has_test_attribute(trimmed(pieces[first])),
        forall|k: int| first <= k < n ==> !names_function(trimmed(#[trigger] pieces[k])),
        forall|k: int| first < k <= n ==> !starts_other_test(trimmed(#[trigger] pieces[k])),
    ensures
        awaits_function(pieces, n),
        tests_in_lines(pieces, n + 1) == tests_in_lines(pieces, first + 1),
    decreases n - first,
{
    assert(!names_function(trimmed(pieces[n - 1])));
    if first + 1 < n {
        lemma_awaited(pieces, first, n - 1);
    } else {
        assert(awaits_function(pieces, first + 1));
    }
    assert(!starts_other_test(trimmed(pieces[n])));
}

/// More lines have no fewer tests.
proof fn lemma_tests_grow(pieces: Seq<Seq<char>>, m: int, n: int)
    requires
        m <= n,
    ensures
        tests_in_lines(pieces, m) <= tests_in_lines(pieces, n),
    decreases n - m,
{
    if m < n {
        lemma_tests_grow(pieces, m, n - 1);
    }
}

/// More entries have no fewer tests.
proof fn lemma_all_tests_grow(root: Seq<char>, entries: Seq<WalkEntry>, n: int)
    requires
        0 <= n <= entries.len(),
    ensures
        tests_in_all(root, entries.take(n)) <= tests_in_all(root, entries),
{
    assert(entries =~= entries.take(n) + entries.skip(n));
    law_tests_add_up(root, entries.take(n), entries.skip(n));
}

/// Whether `t` begins with the text `word`.
fn begins(t: &[char], word: &str) -> (r: bool)
    ensures
        r == begins_with(t@, word@),
{
    starts_with(t, chars_of(word).as_slice())
}

/// Whether `part` stands somewhere in `t`.
fn has(t: &[char], part: &str) -> (r: bool)
    ensures
        r == has_part(t@, part@),
{
    contains(t, chars_of(part).as_slice())
}

/// Whether line `k` of `pieces` counts for a test, and whether the function of
/// one is awaited behind it. `awaits` says whether it is before.
fn read_line(
    pieces: &[&[char]],
    k: usize,
    awaits: bool,
    Ghost(views): Ghost<Seq<Seq<char>>>,
) -> (r: (bool, bool))
    requires
        k < pieces@.len(),
        pieces@.len() == views.len(),
        pieces@[k as int]@ == views[k as int],
        awaits == awaits_function(views, k as int),
    ensures
        r.0 == marks_test(views, k as int),
        r.1 == awaits_function(views, k + 1),
{
    let t: &[char] = trim(pieces[k]);
    let attribute: bool = has(t, "#[test]") || has(t, "#[tokio::test]");
    let function: bool = has(t, "fn ") && !begins(t, "//");
    let named: bool = begins(t, "fn test_") || begins(t, "async fn test_");
    let other: bool = begins(t, "test(") || begins(t, "it(") || begins(t, "def test_") || begins(
        t,
        "func Test",
    );
    (((attribute || named) && !awaits) || other, !function && (attribute || awaits))
}

/// The text that is read for tests of the entry `e`, if any is.
fn read_text(root: &str, e: &WalkEntry) -> (r: Option<String>)
    ensures
        match r {
            Some(text) => test_text(root@, *e) == Some(text@),
            None => test_text(root@, *e) is None,
        },
{
    if !e.is_file || !reached_by_test_walk(root, e.components.as_slice()) {
        return None;
    }
    match &e.content {
        Some(content) => utf8_text(content.as_slice()),
        None => None,
    }
}

/// The number of tests in what is read for tests of the entries of the repository
/// called `root`; `None` where it is too great for its type.
pub fn count_tests(root: &str, entries: &[WalkEntry]) -> (r: Option<u32>)
    ensures
        r == if tests_in_all(root@, entries@) <= u32::MAX {
            Some(tests_in_all(root@, entries@) as u32)
        } else {
            None
        },
{
    let ghost all = entries@;
    let ghost name = root@;
    let mut count: u32 = 0;
    let mut i: usize = 0;
    assert(all.take(0).len() == 0);
    while i < entries.len()
        invariant
            i <= entries@.len(),
            all == entries@,
            name == root@,
            count == tests_in_all(name, all.take(i as int)),
        decreases entries@.len() - i,
    {
        proof {
            assert(all.take(i + 1).drop_last() =~= all.take(i as int));
            assert(all.take(i + 1).last() == all[i as int]);
            lemma_all_tests_grow(name, all, i + 1);
        }
        if let Some(text) = read_text(root, &entries[i]) {
            let chars: Vec<char> = chars_of(text.as_str());
            let pieces: Vec<&[char]> = split_lines(chars.as_slice());
            let ghost views = lines(text@);
            let ghost before = count;
            let mut awaits: bool = false;
            let mut k: usize = 0;
            while k < pieces.len()
                invariant
                    k <= pieces@.len(),
                    pieces@.len() == views.len(),
                    all == entries@,
                    name == root@,
                    forall|m: int| 0 <= m < pieces@.len() ==> (#[trigger] pieces@[m])@ == views[m],
                    awaits == awaits_function(views, k as int),
                    count == before + tests_in_lines(views, k as int),
                    before + tests_in_lines(views, views.len() as int) <= tests_in_all(name, all),
                decreases pieces@.len() - k,
            {
                proof {
                    lemma_tests_grow(views, k + 1, views.len() as int);
                }
                let (marks, next) = read_line(pieces.as_slice(), k, awaits, Ghost(views));
                if marks {
                    if count == u32::MAX {
                        return None;
                    }
                    count += 1;
                }
                awaits = next;
                k += 1;
            }
        }
        i += 1;
    }
    assert(all.take(all.len() as int) =~= all);
    Some(count)
}

/// The value of the digit `c`.
pub open spec fn digit_value(c: char) -> int {
    c as int - '0' as int
}

/// The value of the digits `s`.
pub open spec fn value(s: Seq<char>) -> int
    decreases s.len(),
{
    if s.len() == 0 {
        0
    } else {
        value(s.drop_last()) * 10 + digit_value(s.last())
    }
}

/// The digits of a number: what follows the plus sign, if there is one.
pub open spec fn digits(s: Seq<char>) -> Seq<char> {
    if s.len() > 0 && s[0] == '+' {
        s.skip(1)
    } else {
        s
    }
}

/// The number of commits that `text` states; zero where it states none or one
/// that is too great.
pub open spec fn stated_commits(text: Seq<char>) -> int {
    let d = digits(trimmed(text));
    if is_number(d) && value(d) <= u32::MAX {
        value(d)
    } else {
        0
    }
}

/// The number of commits from what the version control printed; zero where it
/// failed or printed something else.
pub fn count_commits(output: Option<&[u8]>) -> (r: u32)
    ensures
        r == match output {
            Some(bytes) => stated_commits(shown(bytes@)),
            None => 0,
        },
{
    match output {
        Some(bytes) => commits_in(utf8_lossy_text(bytes).as_str()),
        None => 0,
    }
}

/// The number of commits that `text` states; zero where it states none or one
/// that is too great.
pub fn commits_in(text: &str) -> (r: u32)
    ensures
        r == stated_commits(text@),
{
    let chars: Vec<char> = chars_of(text);
    let t: &[char] = trim(chars.as_slice());
    let d: &[char] = if t.len() > 0 && t[0] == '+' {
        assert(t@.subrange(1, t@.len() as int) =~= t@.skip(1));
        slice_subrange(t, 1, t.len())
    } else {
        t
    };
    if d.len() == 0 {
        return 0;
    }
    let mut sum: u32 = 0;
    let mut fits: bool = true;
    let mut i: usize = 0;
    assert(d@.take(0).len() == 0);
    while i < d.len()
        invariant
            i <= d@.len(),
            d@ == digits(trimmed(text@)),
            forall|k: int| 0 <= k < i ==> is_digit(#[trigger] d@[k]),
            fits ==> sum == value(d@.take(i as int)),
            !fits ==> value(d@.take(i as int)) > u32::MAX,
        decreases d@.len() - i,
    {
        let c: char = d[i];
        if !('0' <= c && c <= '9') {
            assert(!is_digit(d@[i as int]));
            return 0;
        }
        proof {
            assert(d@.take(i + 1).drop_last() =~= d@.take(i as int));
            assert(d@.take(i + 1).last() == c);
        }
        let next: u64 = sum as u64 * 10 + (c as u32 - '0' as u32) as u64;
        if next > u32::MAX as u64 {
            fits = false;
        } else {
            sum = next as u32;
        }
        i += 1;
    }
    assert(d@.take(d@.len() as int) =~= d@);
    if fits {
        sum
    } else {
        0
    }
}

} // verus!
