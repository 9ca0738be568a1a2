//! The number of bits in which two byte strings differ.

use vstd::prelude::*;

verus! {

/// The number of bits of `x` that are set.
pub open spec fn ones(x: u8) -> nat
    decreases x,
{
    if x == 0 {
        0
    } else {
        (x % 2) as nat + ones(x / 2)
    }
}

/// The number of bits in which the first `n` bytes of `a` and `b` differ.
pub open spec fn differing(a: Seq<u8>, b: Seq<u8>, n: int) -> nat
    decreases n,
{
    if n <= 0 {
        0
    } else {
        differing(a, b, n - 1) + ones(a[n - 1] ^ b[n - 1])
    }
}

/// The number of bits in which `a` and `b` differ. Where one is longer, its
/// further bytes do not count.
pub open spec fn hamming(a: Seq<u8>, b: Seq<u8>) -> nat {
    differing(
        a,
        b,
        if a.len() <= b.len() {
            a.len() as int
        } else {
            b.len() as int
        },
    )
}

/// A byte has at most eight bits set.
pub proof fn lemma_ones_bound(x: u8)
    ensures
        ones(x) <= 8,
{
    reveal_with_fuel(ones, 9);
}

/// Bits only add up as the compared part grows.
proof fn lemma_differing_grows(a: Seq<u8>, b: Seq<u8>, m: int, n: int)
    requires
        m <= n,
    ensures
        differing(a, b, m) <= differing(a, b, n),
    decreases n - m,
{
    if m < n {
        lemma_differing_grows(a, b, m, n - 1);
    }
}

/// The number of bits of `x` that are set.
fn count_ones(x: u8) -> (r: u32)
    ensures
        r == ones(x),
        r <= 8,
{
    let mut rest: u8 = x;
    let mut r: u32 = 0;
    proof {
        lemma_ones_bound(x);
    }
    while rest > 0
        invariant
            ones(x) == r + ones(rest),
            ones(x) <= 8,
        decreases rest,
    {
        r += (rest % 2) as u32;
        rest = rest / 2;
    }
    r
}

/// The number of bits in which `a` and `b` differ. Where one is longer, its
/// further bytes do not count.
pub fn hamming_distance(a: &[u8], b: &[u8]) -> (r: u32)
    requires
        hamming(a@, b@) <= u32::MAX,
    ensures
        r == hamming(a@, b@),
{
    let n: usize = if a.len() <= b.len() {
        a.len()
    } else {
        b.len()
    };
    let mut r: u32 = 0;
    let mut i: usize = 0;
    while i < n
        invariant
            i <= n,
            n <= a@.len(),
            n <= b@.len(),
            r == differing(a@, b@, i as int),
            differing(a@, b@, n as int) <= u32::MAX,
        decreases n - i,
    {
        proof {
            lemma_differing_grows(a@, b@, i + 1, n as int);
        }
        r += count_ones(a[i] ^ b[i]);
        i += 1;
    }
    r
}

/// The distance is at most eight times the length that is compared.
pub proof fn law_distance_bound(a: Seq<u8>, b: Seq<u8>)
    ensures
        hamming(a, b) <= 8 * a.len(),
        hamming(a, b) <= 8 * b.len(),
{
    lemma_differing_bound(a, b, a.len() as int);
    lemma_differing_bound(a, b, b.len() as int);
}

proof fn lemma_differing_bound(a: Seq<u8>, b: Seq<u8>, n: int)
    requires
        0 <= n,
    ensures
        differing(a, b, n) <= 8 * n,
    decreases n,
{
    if n > 0 {
        lemma_differing_bound(a, b, n - 1);
        lemma_ones_bound(a[n - 1] ^ b[n - 1]);
    }
}

/// The distance does not depend on which of the two is named first.
pub proof fn law_distance_symmetric(a: Seq<u8>, b: Seq<u8>)
    ensures
        hamming(a, b) == hamming(b, a),
{
    lemma_differing_symmetric(
        a,
        b,
        if a.len() <= b.len() {
            a.len() as int
        } else {
            b.len() as int
        },
    );
}

proof fn lemma_differing_symmetric(a: Seq<u8>, b: Seq<u8>, n: int)
    ensures
        differing(a, b, n) == differing(b, a, n),
    decreases n,
{
    if n > 0 {
        lemma_differing_symmetric(a, b, n - 1);
        let x = a[n - 1];
        let y = b[n - 1];
        assert(x ^ y == y ^ x) by (bit_vector);
    }
}

/// Byte strings of one length are at distance zero exactly when they are equal.
pub proof fn law_distance_zero(a: Seq<u8>, b: Seq<u8>)
    requires
        a.len() == b.len(),
    ensures
        hamming(a, b) == 0 <==> a == b,
{
    lemma_differing_zero(a, b, a.len() as int);
    if hamming(a, b) == 0 {
        assert(a =~= b);
    }
}

proof fn lemma_differing_zero(a: Seq<u8>, b: Seq<u8>, n: int)
    ensures
        differing(a, b, n) == 0 <==> forall|i: int| #![trigger a[i]] 0 <= i < n ==> a[i] == b[i],
    decreases n,
{
    if n > 0 {
        lemma_differing_zero(a, b, n - 1);
        let x = a[n - 1];
        let y = b[n - 1];
        assert(x ^ y == 0 <==> x == y) by (bit_vector);
        lemma_ones_zero(x ^ y);
    }
}

proof fn lemma_ones_zero(x: u8)
    ensures
        ones(x) == 0 <==> x == 0,
    decreases x,
{
    if x > 0 {
        lemma_ones_zero(x / 2);
    }
}

/// The distances along two sides of a triangle add up to at least the third.
pub proof fn law_distance_triangle(a: Seq<u8>, b: Seq<u8>, c: Seq<u8>)
    requires
        a.len() == b.len(),
        b.len() == c.len(),
    ensures
        hamming(a, c) <= hamming(a, b) + hamming(b, c),
{
    lemma_differing_triangle(a, b, c, a.len() as int);
}

proof fn lemma_differing_triangle(a: Seq<u8>, b: Seq<u8>, c: Seq<u8>, n: int)
    ensures
        differing(a, c, n) <= differing(a, b, n) + differing(b, c, n),
    decreases n,
{
    if n > 0 {
        lemma_differing_triangle(a, b, c, n - 1);
        let x = a[n - 1];
        let y = b[n - 1];
        let z = c[n - 1];
        assert(x ^ z == (x ^ y) ^ (y ^ z)) by (bit_vector);
        lemma_ones_xor(x ^ y, y ^ z);
    }
}

proof fn lemma_ones_xor(x: u8, y: u8)
    ensures
        ones(x ^ y) <= ones(x) + ones(y),
    decreases x + y,
{
    assert((x ^ y) / 2 == (x / 2) ^ (y / 2)) by (bit_vector);
    assert((x ^ y) % 2 <= (x % 2) + (y % 2)) by (bit_vector);
    if x == 0 {
        assert(0u8 ^ y == y) by (bit_vector);
    } else if y == 0 {
        assert(x ^ 0u8 == x) by (bit_vector);
    } else {
        lemma_ones_xor(x / 2, y / 2);
    }
}

/// Bit `b` of `x`, the lowest first.
pub open spec fn bit(x: u8, b: int) -> u8 {
    (x >> (b as u8)) & 1u8
}

/// The number of bits that are set is the sum of the bits.
proof fn lemma_ones_are_bits(x: u8)
    ensures
        ones(x) == bit(x, 0) + bit(x, 1) + bit(x, 2) + bit(x, 3) + bit(x, 4) + bit(x, 5) + bit(x, 6)
            + bit(x, 7),
{
    reveal_with_fuel(ones, 9);
    assert((x >> 0u8) & 1u8 == x % 2) by (bit_vector);
    assert((x >> 1u8) & 1u8 == x / 2 % 2) by (bit_vector);
    assert((x >> 2u8) & 1u8 == x / 2 / 2 % 2) by (bit_vector);
    assert((x >> 3u8) & 1u8 == x / 2 / 2 / 2 % 2) by (bit_vector);
    assert((x >> 4u8) & 1u8 == x / 2 / 2 / 2 / 2 % 2) by (bit_vector);
    assert((x >> 5u8) & 1u8 == x / 2 / 2 / 2 / 2 / 2 % 2) by (bit_vector);
    assert((x >> 6u8) & 1u8 == x / 2 / 2 / 2 / 2 / 2 / 2 % 2) by (bit_vector);
    assert((x >> 7u8) & 1u8 == x / 2 / 2 / 2 / 2 / 2 / 2 / 2 % 2) by (bit_vector);
}

/// A bit of `x ^ y` is set where the bits of `x` and `y` differ.
proof fn lemma_bit_xor(x: u8, y: u8, b: int)
    requires
        0 <= b < 8,
    ensures
        bit(x ^ y, b) == if (x >> (b as u8)) & 1u8 != (y >> (b as u8)) & 1u8 {
            1u8
        } else {
            0u8
        },
{
    let c = b as u8;
    assert(((x ^ y) >> c) & 1u8 == if (x >> c) & 1u8 != (y >> c) & 1u8 {
        1u8
    } else {
        0u8
    }) by (bit_vector)
        requires
            c < 8u8,
    ;
}

/// The places, byte by byte and bit by bit, before bit `k` of byte `n` at which
/// `a` and `b` differ.
spec fn places_before(a: Seq<u8>, b: Seq<u8>, n: int, k: int) -> Set<(int, int)> {
    Set::new(
        |p: (int, int)|
            0 <= p.0 && 0 <= p.1 < 8 && (p.0 < n || (p.0 == n && p.1 < k)) && (a[p.0] >> (
            p.1 as u8)) & 1u8 != (b[p.0] >> (p.1 as u8)) & 1u8,
    )
}

/// One more bit adds a place where it differs.
proof fn lemma_places_step(a: Seq<u8>, b: Seq<u8>, n: int, k: int)
    requires
        0 <= n,
        0 <= k < 8,
        places_before(a, b, n, k).finite(),
    ensures
        places_before(a, b, n, k + 1).finite(),
        places_before(a, b, n, k + 1).len() == places_before(a, b, n, k).len() + bit(
            a[n] ^ b[n],
            k,
        ),
{
    let before = places_before(a, b, n, k);
    let after = places_before(a, b, n, k + 1);
    lemma_bit_xor(a[n], b[n], k);
    if (a[n] >> (k as u8)) & 1u8 != (b[n] >> (k as u8)) & 1u8 {
        assert(after =~= before.insert((n, k)));
        assert(!before.contains((n, k)));
    } else {
        assert(after =~= before);
    }
}

/// As many places differ in the first `n` bytes as `differing` says.
proof fn lemma_places_count(a: Seq<u8>, b: Seq<u8>, n: int)
    requires
        0 <= n,
    ensures
        places_before(a, b, n, 0).finite(),
        places_before(a, b, n, 0).len() == differing(a, b, n),
    decreases n,
{
    if n == 0 {
        assert(places_before(a, b, 0, 0) =~= Set::empty());
    } else {
        let m = n - 1;
        lemma_places_count(a, b, m);
        lemma_places_step(a, b, m, 0);
        lemma_places_step(a, b, m, 1);
        lemma_places_step(a, b, m, 2);
        lemma_places_step(a, b, m, 3);
        lemma_places_step(a, b, m, 4);
        lemma_places_step(a, b, m, 5);
        lemma_places_step(a, b, m, 6);
        lemma_places_step(a, b, m, 7);
        lemma_ones_are_bits(a[m] ^ b[m]);
        assert(places_before(a, b, n, 0) =~= places_before(a, b, m, 8));
    }
}

/// The distance of byte strings of one length is the number of places, given by
/// a byte and a bit of it, at which they differ.
pub proof fn law_distance_counts_differing_bits(a: Seq<u8>, b: Seq<u8>)
    requires
        a.len() == b.len(),
    ensures
        ({
            let places = Set::new(
                |p: (int, int)|
                    0 <= p.0 < a.len() && 0 <= p.1 < 8 && (a[p.0] >> (p.1 as u8)) & 1u8 != (b[p.0]
                        >> (p.1 as u8)) & 1u8,
            );
            places.finite() && hamming(a, b) == places.len()
        }),
{
    let places = Set::new(
        |p: (int, int)|
            0 <= p.0 < a.len() && 0 <= p.1 < 8 && (a[p.0] >> (p.1 as u8)) & 1u8 != (b[p.0] >> (
            p.1 as u8)) & 1u8,
    );
    lemma_places_count(a, b, a.len() as int);
    assert(places =~= places_before(a, b, a.len() as int, 0));
}

/// Turning one bit over takes a byte string one step further off another where
/// the two agreed in that bit, and one step nearer where they differed. What is
/// turned over in a string is at distance one from it.
pub proof fn law_turning_a_bit_over_is_one_step(a: Seq<u8>, b: Seq<u8>, i: int, k: int)
    requires
        a.len() == b.len(),
        0 <= i < b.len(),
        0 <= k < 8,
    ensures
        hamming(a, b.update(i, b[i] ^ (1u8 << (k as u8)))) == hamming(a, b) + if (a[i] >> (
        k as u8)) & 1u8 == (b[i] >> (k as u8)) & 1u8 {
            1int
        } else {
            -1int
        },
        hamming(b, b.update(i, b[i] ^ (1u8 << (k as u8)))) == 1,
{
    let c = b.update(i, b[i] ^ (1u8 << (k as u8)));
    lemma_differing_update(a, b, i, k, a.len() as int);
    lemma_differing_update(b, b, i, k, b.len() as int);
    law_distance_zero(b, b);
}

/// Turning a bit of byte `i` over changes the count of the first `n` bytes by one
/// if byte `i` is among them.
proof fn lemma_differing_update(a: Seq<u8>, b: Seq<u8>, i: int, k: int, n: int)
    requires
        a.len() == b.len(),
        0 <= i < b.len(),
        0 <= k < 8,
        0 <= n <= b.len(),
    ensures
        differing(a, b.update(i, b[i] ^ (1u8 << (k as u8))), n) == differing(a, b, n) + if i >= n {
            0int
        } else if (a[i] >> (k as u8)) & 1u8 == (b[i] >> (k as u8)) & 1u8 {
            1int
        } else {
            -1int
        },
    decreases n,
{
    if n > 0 {
        lemma_differing_update(a, b, i, k, n - 1);
        if i == n - 1 {
            lemma_ones_turned(a[i], b[i], k);
        }
    }
}

/// Turning a bit over changes the number of differing bits by one.
proof fn lemma_ones_turned(x: u8, y: u8, k: int)
    requires
        0 <= k < 8,
    ensures
        ones(x ^ (y ^ (1u8 << (k as u8)))) == ones(x ^ y) + if (x >> (k as u8)) & 1u8 == (y >> (
        k as u8)) & 1u8 {
            1int
        } else {
            -1int
        },
{
    let c = k as u8;
    let z = x ^ y;
    let w = x ^ (y ^ (1u8 << c));
    lemma_ones_are_bits(z);
    lemma_ones_are_bits(w);
    lemma_bit_xor(x, y, k);
    assert(w == z ^ (1u8 << c)) by (bit_vector)
        requires
            z == x ^ y,
            w == x ^ (y ^ (1u8 << c)),
    ;
    assert forall|b: int| 0 <= b < 8 implies #[trigger] bit(w, b) == if b == k {
        (1 - bit(z, b)) as u8
    } else {
        bit(z, b)
    } by {
        let d = b as u8;
        assert((w >> d) & 1u8 == if d == c {
            (1 - ((z >> d) & 1u8)) as u8
        } else {
            (z >> d) & 1u8
        }) by (bit_vector)
            requires
                w == z ^ (1u8 << c),
                c < 8u8,
                d < 8u8,
        ;
    }
    assert((z >> c) & 1u8 <= 1u8) by (bit_vector);
    let sum = bit(w, 0) + bit(w, 1) + bit(w, 2) + bit(w, 3) + bit(w, 4) + bit(w, 5) + bit(w, 6)
        + bit(w, 7);
    assert(ones(w) == sum);
}

/// Where one byte string is longer, its further bytes do not count.
pub proof fn law_distance_is_of_the_common_part(a: Seq<u8>, b: Seq<u8>, rest: Seq<u8>)
    requires
        a.len() == b.len(),
    ensures
        hamming(a + rest, b) == hamming(a, b),
        hamming(a, b + rest) == hamming(a, b),
{
    lemma_differing_extended(a, b, rest, a.len() as int);
}

proof fn lemma_differing_extended(a: Seq<u8>, b: Seq<u8>, rest: Seq<u8>, n: int)
    requires
        a.len() == b.len(),
        0 <= n <= a.len(),
    ensures
        differing(a + rest, b, n) == differing(a, b, n),
        differing(a, b + rest, n) == differing(a, b, n),
    decreases n,
{
    if n > 0 {
        lemma_differing_extended(a, b, rest, n - 1);
    }
}

} // verus!
