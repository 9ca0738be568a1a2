//! Total orders, and a stable sort that is proved to be one.

use crate::text::chars_of;
use vstd::prelude::*;

verus! {

/// `less` is a strict total order.
pub open spec fn strict_total<A>(less: spec_fn(A, A) -> bool) -> bool {
    &&& forall|x: A, y: A| #[trigger] less(x, y) ==> x != y && !less(y, x)
    &&& forall|x: A, y: A| x != y ==> #[trigger] less(x, y) || less(y, x)
    &&& forall|x: A, y: A, z: A| #[trigger] less(x, y) && #[trigger] less(y, z) ==> less(x, z)
}

/// The lexicographic order: `a` is at most `b` when the first place in which
/// they differ has the lesser item in `a`, or when `a` is a prefix of `b`.
pub open spec fn lex_leq<A>(a: Seq<A>, b: Seq<A>, less: spec_fn(A, A) -> bool) -> bool
    decreases a.len(),
{
    if a.len() == 0 {
        true
    } else if b.len() == 0 {
        false
    } else if a[0] == b[0] {
        lex_leq(a.drop_first(), b.drop_first(), less)
    } else {
        less(a[0], b[0])
    }
}

/// The lexicographic order is total.
pub proof fn lemma_lex_total<A>(a: Seq<A>, b: Seq<A>, less: spec_fn(A, A) -> bool)
    requires
        strict_total(less),
    ensures
        lex_leq(a, b, less) || lex_leq(b, a, less),
    decreases a.len(),
{
    if a.len() > 0 && b.len() > 0 {
        if a[0] == b[0] {
            lemma_lex_total(a.drop_first(), b.drop_first(), less);
        } else {
            assert(less(a[0], b[0]) || less(b[0], a[0]));
        }
    }
}

/// The lexicographic order is transitive.
pub proof fn lemma_lex_transitive<A>(
    a: Seq<A>,
    b: Seq<A>,
    c: Seq<A>,
    less: spec_fn(A, A) -> bool,
)
    requires
        strict_total(less),
        lex_leq(a, b, less),
        lex_leq(b, c, less),
    ensures
        lex_leq(a, c, less),
    decreases a.len(),
{
    if a.len() > 0 {
        if a[0] == b[0] && b[0] == c[0] {
            lemma_lex_transitive(a.drop_first(), b.drop_first(), c.drop_first(), less);
        } else if a[0] != b[0] && b[0] != c[0] {
            assert(less(a[0], b[0]) && less(b[0], c[0]));
        }
    }
}

/// Two sequences that are each at most the other are the same.
pub proof fn lemma_lex_antisymmetric<A>(a: Seq<A>, b: Seq<A>, less: spec_fn(A, A) -> bool)
    requires
        strict_total(less),
        lex_leq(a, b, less),
        lex_leq(b, a, less),
    ensures
        a == b,
    decreases a.len(),
{
    if a.len() > 0 {
        if a[0] == b[0] {
            lemma_lex_antisymmetric(a.drop_first(), b.drop_first(), less);
            assert(a =~= seq![a[0]] + a.drop_first());
            assert(b =~= seq![b[0]] + b.drop_first());
        }
    } else {
        assert(a =~= b);
    }
}

/// Characters by code point.
pub open spec fn char_less() -> spec_fn(char, char) -> bool {
    |x: char, y: char| x < y
}

/// Bytes by value.
pub open spec fn byte_less() -> spec_fn(u8, u8) -> bool {
    |x: u8, y: u8| x < y
}

/// Byte strings, lexicographically.
pub open spec fn bytes_less() -> spec_fn(Seq<u8>, Seq<u8>) -> bool {
    |x: Seq<u8>, y: Seq<u8>| x != y && lex_leq(x, y, byte_less())
}

/// Texts, lexicographically by code point.
pub open spec fn text_leq(a: Seq<char>, b: Seq<char>) -> bool {
    lex_leq(a, b, char_less())
}

/// Paths, component by component.
pub open spec fn path_leq(a: Seq<Seq<u8>>, b: Seq<Seq<u8>>) -> bool {
    lex_leq(a, b, bytes_less())
}

/// Characters are totally ordered by code point.
pub proof fn lemma_char_less()
    ensures
        strict_total(char_less()),
{
}

/// Byte strings are totally ordered.
pub proof fn lemma_bytes_less()
    ensures
        strict_total(byte_less()),
        strict_total(bytes_less()),
{
    let less = bytes_less();
    assert forall|x: Seq<u8>, y: Seq<u8>| #[trigger] less(x, y) implies x != y && !less(y, x) by {
        if less(y, x) {
            lemma_lex_antisymmetric(x, y, byte_less());
        }
    }
    assert forall|x: Seq<u8>, y: Seq<u8>| x != y implies #[trigger] less(x, y) || less(y, x) by {
        lemma_lex_total(x, y, byte_less());
    }
    assert forall|x: Seq<u8>, y: Seq<u8>, z: Seq<u8>| #[trigger]
        less(x, y) && #[trigger] less(y, z) implies less(x, z) by {
        lemma_lex_transitive(x, y, z, byte_less());
        if x == z {
            lemma_lex_antisymmetric(x, y, byte_less());
        }
    }
}

/// Whether `a` is at most `b`.
pub fn text_at_most(a: &str, b: &str) -> (r: bool)
    ensures
        r == text_leq(a@, b@),
{
    let x: Vec<char> = chars_of(a);
    let y: Vec<char> = chars_of(b);
    let mut i: usize = 0;
    assert(x@.skip(0) =~= x@ && y@.skip(0) =~= y@);
    while i < x.len() && i < y.len()
        invariant
            i <= x@.len(),
            i <= y@.len(),
            x@ == a@,
            y@ == b@,
            text_leq(x@, y@) == text_leq(x@.skip(i as int), y@.skip(i as int)),
        decreases x@.len() - i,
    {
        if x[i] != y[i] {
            return x[i] < y[i];
        }
        assert(x@.skip(i as int).drop_first() =~= x@.skip(i + 1));
        assert(y@.skip(i as int).drop_first() =~= y@.skip(i + 1));
        i += 1;
    }
    x.len() == i
}

/// Whether `a` is at most `b`, and whether they are equal.
fn bytes_at_most(a: &[u8], b: &[u8]) -> (r: (bool, bool))
    ensures
        r.0 == lex_leq(a@, b@, byte_less()),
        r.1 == (a@ == b@),
{
    let mut i: usize = 0;
    assert(a@.skip(0) =~= a@ && b@.skip(0) =~= b@);
    while i < a.len() && i < b.len()
        invariant
            i <= a@.len(),
            i <= b@.len(),
            forall|k: int| 0 <= k < i ==> a@[k] == b@[k],
            lex_leq(a@, b@, byte_less()) == lex_leq(
                a@.skip(i as int),
                b@.skip(i as int),
                byte_less(),
            ),
        decreases a@.len() - i,
    {
        if a[i] != b[i] {
            return (a[i] < b[i], false);
        }
        assert(a@.skip(i as int).drop_first() =~= a@.skip(i + 1));
        assert(b@.skip(i as int).drop_first() =~= b@.skip(i + 1));
        i += 1;
    }
    proof {
        if a@.len() == b@.len() {
            assert(a@ =~= b@);
        }
    }
    (a.len() == i, a.len() == b.len())
}

/// The components of a path.
pub open spec fn components(v: Seq<Vec<u8>>) -> Seq<Seq<u8>> {
    v.map_values(|c: Vec<u8>| c@)
}

/// Whether `a` is at most `b`.
pub fn path_at_most(a: &[Vec<u8>], b: &[Vec<u8>]) -> (r: bool)
    ensures
        r == path_leq(components(a@), components(b@)),
{
    let ghost x = components(a@);
    let ghost y = components(b@);
    let mut i: usize = 0;
    assert(x.skip(0) =~= x && y.skip(0) =~= y);
    while i < a.len() && i < b.len()
        invariant
            i <= a@.len(),
            i <= b@.len(),
            x == components(a@),
            y == components(b@),
            path_leq(x, y) == path_leq(x.skip(i as int), y.skip(i as int)),
        decreases a@.len() - i,
    {
        let (at_most, equal) = bytes_at_most(a[i].as_slice(), b[i].as_slice());
        if !equal {
            return at_most;
        }
        assert(x.skip(i as int).drop_first() =~= x.skip(i + 1));
        assert(y.skip(i as int).drop_first() =~= y.skip(i + 1));
        i += 1;
    }
    a.len() == i
}

/// A type whose values are totally ordered by some rank.
pub trait Ranked: Sized {
    /// Whether the rank of `self` is at most that of `other`.
    spec fn leq(&self, other: &Self) -> bool;

    /// Any two values can be compared.
    proof fn total(x: &Self, y: &Self)
        ensures
            x.leq(y) || y.leq(x),
    ;

    /// The order is transitive.
    proof fn transitive(x: &Self, y: &Self, z: &Self)
        requires
            x.leq(y),
            y.leq(z),
        ensures
            x.leq(z),
    ;

    /// Whether the rank of `self` is at most that of `other`.
    fn at_most(&self, other: &Self) -> (r: bool)
        ensures
            r == self.leq(other),
    ;
}

impl Ranked for String {
    open spec fn leq(&self, other: &Self) -> bool {
        text_leq(self@, other@)
    }

    proof fn total(x: &Self, y: &Self) {
        lemma_char_less();
        lemma_lex_total(x@, y@, char_less());
    }

    proof fn transitive(x: &Self, y: &Self, z: &Self) {
        lemma_char_less();
        lemma_lex_transitive(x@, y@, z@, char_less());
    }

    fn at_most(&self, other: &Self) -> (r: bool) {
        text_at_most(self.as_str(), other.as_str())
    }
}

/// No item stands before one of lesser rank.
pub open spec fn sorted<T: Ranked>(s: Seq<T>) -> bool {
    forall|i: int, j: int| #![trigger s[i], s[j]] 0 <= i < j < s.len() ==> s[i].leq(&s[j])
}

/// `s` with `x` put in behind the last item whose rank is at most that of `x`.
pub open spec fn put_in<T: Ranked>(s: Seq<T>, x: T) -> Seq<T>
    decreases s.len(),
{
    if s.len() == 0 || s.last().leq(&x) {
        s.push(x)
    } else {
        put_in(s.drop_last(), x).push(s.last())
    }
}

/// `s` in order of rank; items of one rank keep the order they have in `s`.
pub open spec fn stable_sorted<T: Ranked>(s: Seq<T>) -> Seq<T>
    decreases s.len(),
{
    if s.len() == 0 {
        s
    } else {
        put_in(stable_sorted(s.drop_last()), s.last())
    }
}

/// In a sorted sequence, `put_in` inserts at the place that parts the items of
/// at most the rank of `x` from the others.
proof fn lemma_put_in_at<T: Ranked>(s: Seq<T>, x: T, p: int)
    requires
        sorted(s),
        0 <= p <= s.len(),
        p > 0 ==> s[p - 1].leq(&x),
        p < s.len() ==> !s[p].leq(&x),
    ensures
        put_in(s, x) == s.insert(p, x),
        sorted(s.insert(p, x)),
    decreases s.len(),
{
    let r = s.insert(p, x);
    assert forall|i: int, j: int| #![trigger r[i], r[j]] 0 <= i < j < r.len() implies r[i].leq(
        &r[j],
    ) by {
        if i == p {
            T::total(&x, &s[p]);
            if j > p + 1 {
                T::transitive(&x, &s[p], &s[j - 1]);
            }
        } else if j == p {
            if i < p - 1 {
                T::transitive(&s[i], &s[p - 1], &x);
            }
        }
    }
    if p == s.len() {
        assert(s.insert(p, x) =~= s.push(x));
    } else {
        let l = s.last();
        if l.leq(&x) {
            if p < s.len() - 1 {
                T::transitive(&s[p], &l, &x);
            }
            assert(false);
        }
        let f = s.drop_last();
        lemma_put_in_at(f, x, p);
        assert(s.insert(p, x) =~= f.insert(p, x).push(l));
    }
}

/// The place where `x` goes in the sorted vector `v`.
fn place_for<T: Ranked>(v: &Vec<T>, x: &T) -> (p: usize)
    requires
        sorted(v@),
    ensures
        p <= v@.len(),
        p > 0 ==> v@[p - 1].leq(x),
        p < v@.len() ==> !v@[p as int].leq(x),
{
    let mut low: usize = 0;
    let mut high: usize = v.len();
    while low < high
        invariant
            low <= high <= v@.len(),
            low > 0 ==> v@[low - 1].leq(x),
            high < v@.len() ==> !v@[high as int].leq(x),
        decreases high - low,
    {
        let mid: usize = low + (high - low) / 2;
        if v[mid].at_most(x) {
            low = mid + 1;
        } else {
            high = mid;
        }
    }
    low
}

/// `v` in order of rank; items of one rank keep the order they have in `v`.
pub fn sort_stable<T: Ranked>(v: Vec<T>) -> (r: Vec<T>)
    ensures
        r@ == stable_sorted(v@),
        sorted(r@),
{
    let mut r: Vec<T> = Vec::new();
    let ghost all = v@;
    for x in it: v
        invariant
            it.seq() == all,
            r@ == stable_sorted(all.take(it.index() as int)),
            sorted(r@),
    {
        proof {
            let k = it.index() as int;
            assert(all.take(k + 1).drop_last() =~= all.take(k));
        }
        let p: usize = place_for(&r, &x);
        proof {
            lemma_put_in_at(r@, x, p as int);
        }
        r.insert(p, x);
    }
    assert(all.take(all.len() as int) =~= all);
    r
}

/// Putting an item in adds that item and nothing else.
proof fn lemma_put_in_multiset<T: Ranked>(s: Seq<T>, x: T)
    ensures
        put_in(s, x).to_multiset() == s.to_multiset().insert(x),
    decreases s.len(),
{
    broadcast use vstd::seq_lib::group_to_multiset_ensures;

    if s.len() > 0 && !s.last().leq(&x) {
        let f = s.drop_last();
        lemma_put_in_multiset(f, x);
        assert(s =~= f.push(s.last()));
        assert(put_in(s, x).to_multiset() =~= s.to_multiset().insert(x));
    }
}

/// Sorting keeps every item as often as it occurs.
pub proof fn law_sorting_keeps_items<T: Ranked>(s: Seq<T>)
    ensures
        stable_sorted(s).to_multiset() == s.to_multiset(),
        stable_sorted(s).len() == s.len(),
    decreases s.len(),
{
    broadcast use vstd::seq_lib::group_to_multiset_ensures;

    if s.len() > 0 {
        let f = s.drop_last();
        law_sorting_keeps_items(f);
        lemma_put_in_multiset(stable_sorted(f), s.last());
        assert(s =~= f.push(s.last()));
        assert(stable_sorted(s).to_multiset().len() == s.to_multiset().len());
    }
}

/// Sorting puts the items in order.
pub proof fn law_sorting_sorts<T: Ranked>(s: Seq<T>)
    ensures
        sorted(stable_sorted(s)),
    decreases s.len(),
{
    if s.len() > 0 {
        law_sorting_sorts(s.drop_last());
        lemma_put_in_sorted(stable_sorted(s.drop_last()), s.last());
    }
}

/// Putting an item into a sorted sequence leaves it sorted, and the ranks of
/// its items among the old ones.
proof fn lemma_put_in_sorted<T: Ranked>(s: Seq<T>, x: T)
    requires
        sorted(s),
    ensures
        sorted(put_in(s, x)),
        forall|y: T|
            #![trigger put_in(s, x).contains(y)]
            put_in(s, x).contains(y) ==> s.contains(y) || y == x,
    decreases s.len(),
{
    if s.len() == 0 || s.last().leq(&x) {
        assert forall|i: int, j: int|
            #![trigger s.push(x)[i], s.push(x)[j]]
            0 <= i < j < s.push(x).len() implies s.push(x)[i].leq(&s.push(x)[j]) by {
            if j == s.len() && i < s.len() - 1 {
                T::transitive(&s[i], &s.last(), &x);
            }
        }
    } else {
        let f = s.drop_last();
        let l = s.last();
        lemma_put_in_sorted(f, x);
        T::total(&l, &x);
        let r = put_in(f, x);
        let all = r.push(l);
        assert forall|i: int, j: int|
            #![trigger all[i], all[j]]
            0 <= i < j < all.len() implies all[i].leq(&all[j]) by {
            if j == r.len() {
                assert(r.contains(r[i]));
                if f.contains(r[i]) {
                    let k = choose|k: int| 0 <= k < f.len() && f[k] == r[i];
                    assert(s[k].leq(&s[s.len() - 1]));
                }
            } else {
                assert(r[i].leq(&r[j]));
            }
        }
        assert forall|y: T|
            #![trigger put_in(s, x).contains(y)]
            put_in(s, x).contains(y) implies s.contains(y) || y == x by {
            let k = choose|k: int| 0 <= k < all.len() && all[k] == y;
            if k < r.len() {
                assert(r.contains(y));
                if f.contains(y) {
                    let m = choose|m: int| 0 <= m < f.len() && f[m] == y;
                    assert(s[m] == y);
                }
            } else {
                assert(s[s.len() - 1] == y);
            }
        }
    }
}

/// Whether `x` and `y` are of one rank.
pub open spec fn same_rank<T: Ranked>(x: T) -> spec_fn(T) -> bool {
    |y: T| x.leq(&y) && y.leq(&x)
}

/// Sorting keeps the order of items of one rank.
pub proof fn law_sorting_is_stable<T: Ranked>(s: Seq<T>, x: T)
    ensures
        stable_sorted(s).filter(same_rank(x)) == s.filter(same_rank(x)),
    decreases s.len(),
{
    reveal(Seq::filter);
    if s.len() > 0 {
        let f = s.drop_last();
        law_sorting_is_stable(f, x);
        law_sorting_sorts(f);
        lemma_put_in_stable(stable_sorted(f), s.last(), x);
        assert(stable_sorted(f).push(s.last()).drop_last() =~= stable_sorted(f));
    }
}

/// In a sorted sequence an item is put in behind all items of its rank.
proof fn lemma_put_in_stable<T: Ranked>(s: Seq<T>, y: T, x: T)
    requires
        sorted(s),
    ensures
        put_in(s, y).filter(same_rank(x)) == s.push(y).filter(same_rank(x)),
    decreases s.len(),
{
    reveal(Seq::filter);
    let p = same_rank(x);
    if s.len() > 0 && !s.last().leq(&y) {
        let f = s.drop_last();
        let l = s.last();
        lemma_put_in_stable(f, y, x);
        assert(put_in(s, y).drop_last() =~= put_in(f, y));
        assert(s.push(y).drop_last() =~= s);
        assert(f.push(y).drop_last() =~= f);
        if p(l) && p(y) {
            T::transitive(&l, &x, &y);
        }
        let kept = f.filter(p);
        assert(s.filter(p) == if p(l) {
            kept.push(l)
        } else {
            kept
        });
        assert(f.push(y).filter(p) == if p(y) {
            kept.push(y)
        } else {
            kept
        });
    }
}

/// Two sorted sequences of the same items, no two of which share a rank, are
/// the same sequence.
pub proof fn lemma_sorted_unique<T: Ranked>(a: Seq<T>, b: Seq<T>)
    requires
        sorted(a),
        sorted(b),
        a.to_multiset() == b.to_multiset(),
        forall|x: T, y: T|
            #![trigger a.contains(x), a.contains(y)]
            a.contains(x) && a.contains(y) && x.leq(&y) && y.leq(&x) ==> x == y,
    ensures
        a == b,
    decreases a.len(),
{
    broadcast use vstd::seq_lib::group_to_multiset_ensures;

    vstd::seq_lib::to_multiset_len(a);
    vstd::seq_lib::to_multiset_len(b);
    if a.len() == 0 {
        assert(a =~= b);
    } else {
        let x = a.last();
        let y = b.last();
        assert(a[a.len() - 1] == x && b[b.len() - 1] == y);
        assert(a.contains(x) && b.contains(y));
        assert(b.to_multiset().count(x) > 0 && a.to_multiset().count(y) > 0);
        assert(b.contains(x) && a.contains(y));
        let i = choose|i: int| 0 <= i < b.len() && b[i] == x;
        let j = choose|j: int| 0 <= j < a.len() && a[j] == y;
        T::total(&x, &x);
        T::total(&y, &y);
        assert(b[i].leq(&b[b.len() - 1]));
        assert(a[j].leq(&a[a.len() - 1]));
        assert(x == y);
        let fa = a.drop_last();
        let fb = b.drop_last();
        assert(a =~= fa.push(x));
        assert(b =~= fb.push(x));
        assert(fa.to_multiset() =~= a.to_multiset().remove(x));
        assert(fb.to_multiset() =~= b.to_multiset().remove(x));
        assert forall|u: T, v: T|
            #![trigger fa.contains(u), fa.contains(v)]
            fa.contains(u) && fa.contains(v) && u.leq(&v) && v.leq(&u) implies u == v by {
            let p = choose|p: int| 0 <= p < fa.len() && fa[p] == u;
            let q = choose|q: int| 0 <= q < fa.len() && fa[q] == v;
            assert(a[p] == u && a[q] == v);
            assert(a.contains(u) && a.contains(v));
        }
        lemma_sorted_unique(fa, fb);
    }
}

} // verus!
