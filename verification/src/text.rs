//! Text, seen as a sequence of characters.
//!
//! Manifests and sources are read line by line. The functions here work on
//! slices of characters, so that a line, its trimmed form and the name in it
//! are all views of one buffer.

use vstd::prelude::*;
use vstd::slice::slice_subrange;

verus! {

/// `String::push` puts one character behind the text that is there.
pub assume_specification[ String::push ](s: &mut String, c: char)
    ensures
        final(s)@ == old(s)@.push(c),
;

/// The characters with the Unicode property White_Space.
pub open spec fn is_white(c: char) -> bool {
    let n = c as u32;
    ||| 0x09 <= n <= 0x0d
    ||| n == 0x20
    ||| n == 0x85
    ||| n == 0xa0
    ||| n == 0x1680
    ||| 0x2000 <= n <= 0x200a
    ||| n == 0x2028
    ||| n == 0x2029
    ||| n == 0x202f
    ||| n == 0x205f
    ||| n == 0x3000
}

/// Whether `c` is white space.
pub fn white(c: char) -> (r: bool)
    ensures
        r == is_white(c),
{
    let n: u32 = c as u32;
    (0x09 <= n && n <= 0x0d) || n == 0x20 || n == 0x85 || n == 0xa0 || n == 0x1680 || (0x2000 <= n
        && n <= 0x200a) || n == 0x2028 || n == 0x2029 || n == 0x202f || n == 0x205f || n == 0x3000
}

/// Whether `c` is a double quote.
fn quote(c: char) -> (r: bool)
    ensures
        r == (c == '"'),
{
    c == '"'
}

/// `s` without the characters at its start that satisfy `p`.
pub open spec fn strip_start(s: Seq<char>, p: spec_fn(char) -> bool) -> Seq<char>
    decreases s.len(),
{
    if s.len() > 0 && p(s[0]) {
        strip_start(s.drop_first(), p)
    } else {
        s
    }
}

/// `s` without the characters at its end that satisfy `p`.
pub open spec fn strip_end(s: Seq<char>, p: spec_fn(char) -> bool) -> Seq<char>
    decreases s.len(),
{
    if s.len() > 0 && p(s.last()) {
        strip_end(s.drop_last(), p)
    } else {
        s
    }
}

/// `s` without the characters at either end that satisfy `p`.
pub open spec fn strip(s: Seq<char>, p: spec_fn(char) -> bool) -> Seq<char> {
    strip_end(strip_start(s, p), p)
}

/// `s` without white space at its ends.
pub open spec fn trimmed(s: Seq<char>) -> Seq<char> {
    strip(s, |c: char| is_white(c))
}

/// `s` without double quotes at its ends.
pub open spec fn unquoted(s: Seq<char>) -> Seq<char> {
    strip(s, |c: char| c == '"')
}

/// The slice of `s` that is left when `drop` has taken characters off both ends.
fn strip_with<F: Fn(char) -> bool>(
    s: &[char],
    drop: F,
    Ghost(p): Ghost<spec_fn(char) -> bool>,
) -> (r: &[char])
    requires
        forall|c: char| call_requires(drop, (c,)),
        forall|c: char, b: bool| call_ensures(drop, (c,), b) ==> b == p(c),
    ensures
        r@ == strip(s@, p),
{
    let mut from: usize = 0;
    proof {
        assert(s@.subrange(0, s@.len() as int) =~= s@);
    }
    while from < s.len() && drop(s[from])
        invariant
            from <= s@.len(),
            forall|c: char| call_requires(drop, (c,)),
            forall|c: char, b: bool| call_ensures(drop, (c,), b) ==> b == p(c),
            strip_start(s@, p) == strip_start(s@.subrange(from as int, s@.len() as int), p),
        decreases s@.len() - from,
    {
        proof {
            let rest = s@.subrange(from as int, s@.len() as int);
            assert(rest.drop_first() =~= s@.subrange(from + 1, s@.len() as int));
        }
        from += 1;
    }
    let ghost kept = s@.subrange(from as int, s@.len() as int);
    let mut to: usize = s.len();
    while to > from && drop(s[to - 1])
        invariant
            from <= to <= s@.len(),
            forall|c: char| call_requires(drop, (c,)),
            forall|c: char, b: bool| call_ensures(drop, (c,), b) ==> b == p(c),
            strip_end(kept, p) == strip_end(s@.subrange(from as int, to as int), p),
        decreases to,
    {
        proof {
            let rest = s@.subrange(from as int, to as int);
            assert(rest.drop_last() =~= s@.subrange(from as int, to - 1));
        }
        to -= 1;
    }
    slice_subrange(s, from, to)
}

/// `s` without white space at its ends.
pub fn trim(s: &[char]) -> (r: &[char])
    ensures
        r@ == trimmed(s@),
{
    strip_with(s, white, Ghost(|c: char| is_white(c)))
}

/// `s` without double quotes at its ends.
pub fn unquote(s: &[char]) -> (r: &[char])
    ensures
        r@ == unquoted(s@),
{
    strip_with(s, quote, Ghost(|c: char| c == '"'))
}

/// The characters of `s`.
pub fn chars_of(s: &str) -> (r: Vec<char>)
    ensures
        r@ == s@,
{
    let mut r: Vec<char> = Vec::new();
    for c in it: s.chars()
        invariant
            it.seq() == s@,
            r@ == s@.take(it.index() as int),
    {
        r.push(c);
    }
    assert(s@.take(s@.len() as int) =~= s@);
    r
}

/// The text made of the characters `s`.
pub fn text_of(s: &[char]) -> (r: String)
    ensures
        r@ == s@,
{
    let mut r: String = String::new();
    let mut i: usize = 0;
    while i < s.len()
        invariant
            i <= s@.len(),
            r@ == s@.take(i as int),
        decreases s@.len() - i,
    {
        r.push(s[i]);
        i += 1;
        assert(s@.take(i as int) =~= s@.take(i - 1).push(s@[i - 1]));
    }
    assert(s@.take(s@.len() as int) =~= s@);
    r
}

/// The pieces of `s` between its line feeds; there is always at least one.
/// A carriage return before a line feed stays in its piece, where trimming
/// takes it off.
pub open spec fn lines(s: Seq<char>) -> Seq<Seq<char>>
    decreases s.len(),
{
    if s.len() == 0 {
        seq![Seq::empty()]
    } else {
        let before = lines(s.drop_last());
        if s.last() == '\n' {
            before.push(Seq::empty())
        } else {
            before.update(before.len() - 1, before.last().push(s.last()))
        }
    }
}

/// The lines of `s`, as slices of it.
pub fn split_lines(s: &[char]) -> (r: Vec<&[char]>)
    ensures
        r@.len() == lines(s@).len(),
        forall|k: int| 0 <= k < r@.len() ==> (#[trigger] r@[k])@ == lines(s@)[k],
{
    let mut r: Vec<&[char]> = Vec::new();
    let mut start: usize = 0;
    let mut i: usize = 0;
    assert(s@.take(0) =~= Seq::<char>::empty());
    assert(s@.subrange(0, 0) =~= Seq::<char>::empty());
    while i < s.len()
        invariant
            start <= i <= s@.len(),
            lines(s@.take(i as int)).len() == r@.len() + 1,
            lines(s@.take(i as int)).last() == s@.subrange(start as int, i as int),
            forall|k: int|
                0 <= k < r@.len() ==> (#[trigger] r@[k])@ == lines(s@.take(i as int))[k],
        decreases s@.len() - i,
    {
        proof {
            assert(s@.take(i + 1).drop_last() =~= s@.take(i as int));
            assert(s@.take(i + 1).last() == s@[i as int]);
            assert(s@.subrange(start as int, i + 1) =~= s@.subrange(start as int, i as int).push(
                s@[i as int],
            ));
        }
        if s[i] == '\n' {
            r.push(slice_subrange(s, start, i));
            start = i + 1;
            assert(s@.subrange(i + 1, i + 1) =~= Seq::<char>::empty());
        }
        i += 1;
    }
    assert(s@.take(s@.len() as int) =~= s@);
    r.push(slice_subrange(s, start, s.len()));
    r
}

/// The part of `s` before the first character that is one of `marks`; all of
/// `s` when there is none.
pub open spec fn before_any(s: Seq<char>, marks: Seq<char>) -> Seq<char>
    decreases s.len(),
{
    if s.len() == 0 || marks.contains(s[0]) {
        Seq::empty()
    } else {
        seq![s[0]] + before_any(s.drop_first(), marks)
    }
}

/// Whether `c` is among `marks`.
pub fn is_one_of(marks: &[char], c: char) -> (r: bool)
    ensures
        r == marks@.contains(c),
{
    let mut k: usize = 0;
    while k < marks.len()
        invariant
            k <= marks@.len(),
            forall|m: int| 0 <= m < k ==> marks@[m] != c,
        decreases marks@.len() - k,
    {
        if marks[k] == c {
            return true;
        }
        k += 1;
    }
    false
}

/// The part of `s` before the first character that is one of `marks`.
pub fn cut_before<'a>(s: &'a [char], marks: &[char]) -> (r: &'a [char])
    ensures
        r@ == before_any(s@, marks@),
{
    let mut i: usize = 0;
    assert(s@.take(0) + before_any(s@.skip(0), marks@) =~= before_any(s@, marks@)) by {
        assert(s@.skip(0) =~= s@);
    }
    while i < s.len() && !is_one_of(marks, s[i])
        invariant
            i <= s@.len(),
            before_any(s@, marks@) == s@.take(i as int) + before_any(s@.skip(i as int), marks@),
        decreases s@.len() - i,
    {
        proof {
            assert(s@.skip(i as int).drop_first() =~= s@.skip(i + 1));
            assert(s@.take(i + 1) =~= s@.take(i as int) + seq![s@[i as int]]);
        }
        i += 1;
        assert(before_any(s@, marks@) =~= s@.take(i as int) + before_any(
            s@.skip(i as int),
            marks@,
        ));
    }
    assert(before_any(s@, marks@) =~= s@.take(i as int));
    slice_subrange(s, 0, i)
}

/// Whether `part` stands in `s` at position `at`.
pub open spec fn stands_at(s: Seq<char>, part: Seq<char>, at: int) -> bool {
    0 <= at && at + part.len() <= s.len() && s.subrange(at, at + part.len()) == part
}

/// Whether `s` begins with `part`.
pub open spec fn begins_with(s: Seq<char>, part: Seq<char>) -> bool {
    stands_at(s, part, 0)
}

/// Whether `s` ends with `part`.
pub open spec fn finishes_with(s: Seq<char>, part: Seq<char>) -> bool {
    stands_at(s, part, s.len() - part.len())
}

/// Whether `part` stands somewhere in `s`.
pub open spec fn has_part(s: Seq<char>, part: Seq<char>) -> bool {
    exists|at: int| stands_at(s, part, at)
}

/// Whether `part` stands in `s` at position `at`.
fn check_at(s: &[char], part: &[char], at: usize) -> (r: bool)
    requires
        at <= s@.len(),
    ensures
        r == stands_at(s@, part@, at as int),
{
    if part.len() > s.len() - at {
        return false;
    }
    let mut k: usize = 0;
    while k < part.len()
        invariant
            k <= part@.len(),
            at + part@.len() <= s.len(),
            forall|m: int| 0 <= m < k ==> s@[at + m] == part@[m],
        decreases part@.len() - k,
    {
        if s[at + k] != part[k] {
            assert(s@.subrange(at as int, at + part@.len())[k as int] != part@[k as int]);
            return false;
        }
        k += 1;
    }
    assert(s@.subrange(at as int, at + part@.len()) =~= part@);
    true
}

/// Whether `s` begins with `part`.
pub fn starts_with(s: &[char], part: &[char]) -> (r: bool)
    ensures
        r == begins_with(s@, part@),
{
    check_at(s, part, 0)
}

/// Whether `s` ends with `part`.
pub fn ends_with(s: &[char], part: &[char]) -> (r: bool)
    ensures
        r == finishes_with(s@, part@),
{
    part.len() <= s.len() && check_at(s, part, s.len() - part.len())
}

/// Whether `s` is the text `word`.
pub fn is_word(s: &[char], word: &str) -> (r: bool)
    ensures
        r == (s@ == word@),
{
    let chars: Vec<char> = chars_of(word);
    if s.len() != chars.len() {
        return false;
    }
    let r: bool = starts_with(s, chars.as_slice());
    assert(s@.subrange(0, s@.len() as int) =~= s@);
    r
}

/// Whether `part` stands somewhere in `s`.
pub fn contains(s: &[char], part: &[char]) -> (r: bool)
    ensures
        r == has_part(s@, part@),
{
    let mut at: usize = 0;
    loop
        invariant
            at <= s@.len(),
            forall|m: int| 0 <= m < at ==> !stands_at(s@, part@, m),
        decreases s@.len() - at,
    {
        if check_at(s, part, at) {
            return true;
        }
        if at == s.len() {
            return false;
        }
        at += 1;
    }
}

/// The digit of `d`.
pub open spec fn digit(d: int) -> char {
    if d == 0 {
        '0'
    } else if d == 1 {
        '1'
    } else if d == 2 {
        '2'
    } else if d == 3 {
        '3'
    } else if d == 4 {
        '4'
    } else if d == 5 {
        '5'
    } else if d == 6 {
        '6'
    } else if d == 7 {
        '7'
    } else if d == 8 {
        '8'
    } else {
        '9'
    }
}

/// `n` in decimal, without leading zeros.
pub open spec fn decimal(n: nat) -> Seq<char>
    decreases n,
{
    if n < 10 {
        seq![digit(n as int)]
    } else {
        decimal(n / 10).push(digit((n % 10) as int))
    }
}

/// The digit of `d`.
fn digit_of(d: u64) -> (r: char)
    requires
        d < 10,
    ensures
        r == digit(d as int),
{
    match d {
        0 => '0',
        1 => '1',
        2 => '2',
        3 => '3',
        4 => '4',
        5 => '5',
        6 => '6',
        7 => '7',
        8 => '8',
        _ => '9',
    }
}

/// `n` in decimal.
pub fn decimal_of(n: u64) -> (r: String)
    ensures
        r@ == decimal(n as nat),
    decreases n,
{
    let mut r: String = if n < 10 {
        String::new()
    } else {
        decimal_of(n / 10)
    };
    r.push(digit_of(n % 10));
    proof {
        if n < 10 {
            assert(r@ =~= seq![digit(n as int)]);
        }
    }
    r
}

/// `parts` one behind the other, with `sep` between neighbours.
pub open spec fn joined(parts: Seq<Seq<char>>, sep: Seq<char>) -> Seq<char>
    decreases parts.len(),
{
    if parts.len() == 0 {
        Seq::empty()
    } else if parts.len() == 1 {
        parts[0]
    } else {
        joined(parts.drop_last(), sep) + (sep + parts.last())
    }
}

/// The texts of `v`.
pub open spec fn texts(v: Seq<String>) -> Seq<Seq<char>> {
    v.map_values(|s: String| s@)
}

/// `parts` one behind the other, with `sep` between neighbours.
pub fn join(parts: &[String], sep: &str) -> (r: String)
    ensures
        r@ == joined(texts(parts@), sep@),
{
    let mut r: String = String::new();
    let mut i: usize = 0;
    let ghost all = texts(parts@);
    assert(all.take(0) =~= Seq::empty());
    while i < parts.len()
        invariant
            i <= parts@.len(),
            all == texts(parts@),
            r@ == joined(all.take(i as int), sep@),
        decreases parts@.len() - i,
    {
        let ghost before = r@;
        if i > 0 {
            r.append(sep);
        }
        r.append(parts[i].as_str());
        proof {
            assert(all.take(i + 1).drop_last() =~= all.take(i as int));
            assert(all.take(i + 1).last() == parts@[i as int]@);
            if i > 0 {
                assert(r@ =~= before + (sep@ + parts@[i as int]@));
            } else {
                assert(r@ =~= parts@[0]@);
            }
        }
        i += 1;
    }
    assert(all.take(parts@.len() as int) =~= all);
    r
}

/// Whether `a` and `b` are the same text.
pub fn same(a: &str, b: &str) -> (r: bool)
    ensures
        r == (a@ == b@),
{
    a.to_owned() == b.to_owned()
}

} // verus!
