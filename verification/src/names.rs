//! The base name that versions and copies of a repository share.

use crate::text::{chars_of, is_word, text_of};
use vstd::prelude::*;
use vstd::slice::slice_subrange;

verus! {

/// Whether `c` is a decimal digit.
pub open spec fn is_digit(c: char) -> bool {
    '0' <= c <= '9'
}

/// Whether `s` is a number: one digit or more, and nothing else.
pub open spec fn is_number(s: Seq<char>) -> bool {
    s.len() > 0 && forall|i: int| 0 <= i < s.len() ==> is_digit(#[trigger] s[i])
}

/// Whether `s` is a suffix that marks a version or a copy: `-copy`, `-backup`,
/// `-old`, `-bak`, a dash and a number, or `-v` and a number.
pub open spec fn is_version_suffix(s: Seq<char>) -> bool {
    ||| s == "-copy"@
    ||| s == "-backup"@
    ||| s == "-old"@
    ||| s == "-bak"@
    ||| s.len() > 0 && s[0] == '-' && is_number(s.skip(1))
    ||| s.len() > 1 && s[0] == '-' && s[1] == 'v' && is_number(s.skip(2))
}

/// The first place at or behind `from` from which the rest of `s` is a version
/// suffix; the length of `s` when there is none.
pub open spec fn suffix_start(s: Seq<char>, from: int) -> int
    decreases s.len() - from,
{
    if from >= s.len() {
        s.len() as int
    } else if is_version_suffix(s.skip(from)) {
        from
    } else {
        suffix_start(s, from + 1)
    }
}

/// `s` without the version suffix at its end, if it has one.
pub open spec fn base_of(s: Seq<char>) -> Seq<char> {
    s.take(suffix_start(s, 0))
}

/// Whether `s` is a number.
fn number(s: &[char]) -> (r: bool)
    ensures
        r == is_number(s@),
{
    let mut i: usize = 0;
    while i < s.len()
        invariant
            i <= s@.len(),
            forall|k: int| 0 <= k < i ==> is_digit(#[trigger] s@[k]),
        decreases s@.len() - i,
    {
        if !('0' <= s[i] && s[i] <= '9') {
            assert(!is_digit(s@[i as int]));
            return false;
        }
        i += 1;
    }
    s.len() > 0
}

/// Whether `s` is a suffix that marks a version or a copy.
fn version_suffix(s: &[char]) -> (r: bool)
    ensures
        r == is_version_suffix(s@),
{
    if s.len() == 0 || s[0] != '-' {
        proof {
            reveal_strlit("-copy");
            reveal_strlit("-backup");
            reveal_strlit("-old");
            reveal_strlit("-bak");
        }
        return false;
    }
    is_word(s, "-copy") || is_word(s, "-backup") || is_word(s, "-old") || is_word(s, "-bak")
        || number(slice_subrange(s, 1, s.len())) || (s.len() > 1 && s[1] == 'v' && number(
        slice_subrange(s, 2, s.len()),
    ))
}

/// `name` without the version suffix at its end, if it has one.
pub fn base_name(name: &str) -> (r: String)
    ensures
        r@ == base_of(name@),
{
    let s: Vec<char> = chars_of(name);
    let mut i: usize = 0;
    while i < s.len() && !version_suffix(slice_subrange(s.as_slice(), i, s.len()))
        invariant
            i <= s@.len(),
            s@ == name@,
            suffix_start(s@, 0) == suffix_start(s@, i as int),
        decreases s@.len() - i,
    {
        assert(s@.subrange(i as int, s@.len() as int) =~= s@.skip(i as int));
        i += 1;
    }
    proof {
        if i < s@.len() {
            assert(s@.subrange(i as int, s@.len() as int) =~= s@.skip(i as int));
        }
        assert(s@.subrange(0, i as int) =~= s@.take(i as int));
    }
    text_of(slice_subrange(s.as_slice(), 0, i))
}

/// Where the rest of `s` first is a version suffix, `suffix_start` finds it.
proof fn lemma_suffix_start(s: Seq<char>, from: int, p: int)
    requires
        from <= p <= s.len(),
        p < s.len() ==> is_version_suffix(s.skip(p)),
        forall|q: int| from <= q < p ==> !is_version_suffix(#[trigger] s.skip(q)),
    ensures
        suffix_start(s, from) == p,
    decreases p - from,
{
    if from < p {
        lemma_suffix_start(s, from + 1, p);
    }
}

/// A name with a version suffix behind it has that name as its base.
pub proof fn law_suffix_is_stripped(name: Seq<char>, suffix: Seq<char>)
    requires
        is_version_suffix(suffix),
    ensures
        base_of(name + suffix) == name,
{
    reveal_strlit("-copy");
    reveal_strlit("-backup");
    reveal_strlit("-old");
    reveal_strlit("-bak");
    let s = name + suffix;
    let p = name.len() as int;
    assert(s.skip(p) =~= suffix);
    assert forall|q: int| 0 <= q < p implies !is_version_suffix(#[trigger] s.skip(q)) by {
        let t = s.skip(q);
        let at = p - q;
        assert(t[at] == '-');
        if is_number(t.skip(1)) {
            assert(is_digit(t.skip(1)[at - 1]));
        }
        if t[1] == 'v' && is_number(t.skip(2)) {
            assert(is_digit(t.skip(2)[at - 2]));
        }
    }
    lemma_suffix_start(s, 0, p);
    assert(s.take(p) =~= name);
}

/// A name that ends in no version suffix is its own base.
pub proof fn law_plain_name_is_its_base(name: Seq<char>)
    requires
        forall|q: int| 0 <= q < name.len() ==> !is_version_suffix(#[trigger] name.skip(q)),
    ensures
        base_of(name) == name,
{
    lemma_suffix_start(name, 0, name.len() as int);
    assert(name.take(name.len() as int) =~= name);
}

/// `-copy`, `-backup`, `-old` and `-bak` behind any name are stripped, and so are
/// a number behind a dash and a number behind `-v`.
pub proof fn law_these_suffixes_are_stripped(name: Seq<char>, digits: Seq<char>)
    requires
        digits.len() > 0,
        forall|i: int| 0 <= i < digits.len() ==> '0' <= #[trigger] digits[i] <= '9',
    ensures
        base_of(name + "-copy"@) == name,
        base_of(name + "-backup"@) == name,
        base_of(name + "-old"@) == name,
        base_of(name + "-bak"@) == name,
        base_of(name + seq!['-'] + digits) == name,
        base_of(name + seq!['-', 'v'] + digits) == name,
{
    law_suffix_is_stripped(name, "-copy"@);
    law_suffix_is_stripped(name, "-backup"@);
    law_suffix_is_stripped(name, "-old"@);
    law_suffix_is_stripped(name, "-bak"@);
    let n = seq!['-'] + digits;
    let v = seq!['-', 'v'] + digits;
    assert(n.skip(1) =~= digits);
    assert(v.skip(2) =~= digits);
    law_suffix_is_stripped(name, n);
    law_suffix_is_stripped(name, v);
    assert(name + seq!['-'] + digits =~= name + n);
    assert(name + seq!['-', 'v'] + digits =~= name + v);
}

/// No other end of a name is stripped: what is gone from a name is one of these
/// suffixes, or nothing.
pub proof fn law_no_other_suffix_is_stripped(name: Seq<char>)
    ensures
        base_of(name) == name || {
            let digits = |s: Seq<char>|
                s.len() > 0 && forall|i: int| 0 <= i < s.len() ==> '0' <= #[trigger] s[i] <= '9';
            let gone = name.skip(base_of(name).len() as int);
            &&& name == base_of(name) + gone
            &&& {
                ||| gone == "-copy"@
                ||| gone == "-backup"@
                ||| gone == "-old"@
                ||| gone == "-bak"@
                ||| gone.len() > 0 && gone[0] == '-' && digits(gone.skip(1))
                ||| gone.len() > 1 && gone[0] == '-' && gone[1] == 'v' && digits(gone.skip(2))
            }
        },
{
    lemma_suffix_found(name, 0);
    let p = suffix_start(name, 0);
    if p == name.len() {
        assert(name.take(p) =~= name);
    } else {
        assert(name =~= name.take(p) + name.skip(p));
    }
}

/// From the place that `suffix_start` finds, the rest is a version suffix or
/// nothing.
proof fn lemma_suffix_found(s: Seq<char>, from: int)
    requires
        0 <= from <= s.len(),
    ensures
        from <= suffix_start(s, from) <= s.len(),
        suffix_start(s, from) < s.len() ==> is_version_suffix(s.skip(suffix_start(s, from))),
    decreases s.len() - from,
{
    if from < s.len() && !is_version_suffix(s.skip(from)) {
        lemma_suffix_found(s, from + 1);
    }
}

} // verus!
