//! What holds of every grouping.

use crate::fingerprint::{feature_bits, FingerprintView};
use crate::group::{
    agreeing, agreeing_with, all_bits, all_named, average, best, comparable, exact_group,
    exact_groups, first_near, fork_group, fork_groups, forks, grouped, is_fork, is_leader,
    lemma_agreeing_bound, lemma_forks_range, lemma_same_hash_range, lemma_taken_push, near_group,
    near_groups, pair_count, same_hash, score, taken, GroupKind, Grouping, SimilarityView,
};
use crate::hamming::{hamming, law_distance_bound, law_distance_symmetric, law_distance_zero};
use crate::names::base_of;
use vstd::prelude::*;
use vstd::utf8::encode_utf8;

verus! {

/// A group has two members or more, in the order of their places; its primary
/// is one of them, and none of them has a higher score; its similarity is a
/// share between nothing and all.
pub open spec fn is_group(fps: Seq<FingerprintView>, g: Grouping) -> bool {
    &&& g.members.len() >= 2
    &&& forall|k: int| 0 <= k < g.members.len() ==> 0 <= #[trigger] g.members[k] < fps.len()
    &&& forall|a: int, b: int|
        #![trigger g.members[a], g.members[b]]
        0 <= a < b < g.members.len() ==> g.members[a] < g.members[b]
    &&& g.members.contains(g.primary)
    &&& forall|k: int|
        0 <= k < g.members.len() ==> score(fps[#[trigger] g.members[k]]) <= score(fps[g.primary])
    &&& 1 <= g.similarity.pairs
    &&& g.similarity.total <= 256 * g.similarity.pairs
}

/// The members behind the primary have lower scores.
pub open spec fn later_ones_score_less(fps: Seq<FingerprintView>, g: Grouping) -> bool {
    forall|k: int|
        0 <= k < g.members.len() && g.primary < #[trigger] g.members[k] ==> score(
            fps[g.members[k]],
        ) < score(fps[g.primary])
}

/// What the kind of a group says of its members is true of them. Of members with
/// the same score, the first is the primary of near duplicates, and the last that
/// of others.
pub open spec fn is_justified(
    fps: Seq<FingerprintView>,
    bits: Seq<Seq<u8>>,
    max: int,
    g: Grouping,
) -> bool {
    let first = g.members[0];
    match g.kind {
        GroupKind::ExactDuplicate => {
            &&& forall|j: int|
                0 <= j < fps.len() ==> ((#[trigger] fps[j]).content_hash == fps[first].content_hash
                    <==> g.members.contains(j))
            &&& g.similarity == (SimilarityView { total: 256, pairs: 1 })
            &&& later_ones_score_less(fps, g)
        },
        GroupKind::NearDuplicate => {
            &&& g.members.len() == 2
            &&& hamming(bits[first], bits[g.members[1]]) <= max
            &&& g.similarity == (SimilarityView {
                total: 256 - hamming(bits[first], bits[g.members[1]]),
                pairs: 1,
            })
            &&& g.primary != first ==> score(fps[first]) < score(fps[g.primary])
        },
        GroupKind::Fork => {
            &&& encode_utf8(base_of(fps[first].repo_name)).len() >= 3
            &&& forall|k: int|
                0 < k < g.members.len() ==> base_of(fps[#[trigger] g.members[k]].repo_name)
                    == base_of(fps[first].repo_name) && hamming(bits[first], bits[g.members[k]])
                    <= max * 3
            &&& g.similarity == average(bits, g.members)
            &&& later_ones_score_less(fps, g)
        },
    }
}

/// The place of a kind in the list of groups.
pub open spec fn rank(kind: GroupKind) -> int {
    match kind {
        GroupKind::ExactDuplicate => 0,
        GroupKind::NearDuplicate => 1,
        GroupKind::Fork => 2,
    }
}

/// No place is in two groups.
pub open spec fn disjoint(gs: Seq<Grouping>) -> bool {
    forall|a: int, b: int, k: int, l: int|
        #![trigger gs[a].members[k], gs[b].members[l]]
        0 <= a < b < gs.len() && 0 <= k < gs[a].members.len() && 0 <= l < gs[b].members.len()
            ==> gs[a].members[k] != gs[b].members[l]
}

/// Exact duplicates come first, then near duplicates, then forks.
pub open spec fn in_order(gs: Seq<Grouping>) -> bool {
    forall|a: int, b: int|
        #![trigger gs[a], gs[b]]
        0 <= a < b < gs.len() ==> rank(gs[a].kind) <= rank(gs[b].kind)
}

/// All that is said of single groups, of pairs of groups, and of how far the
/// passes have come.
spec fn holds(
    fps: Seq<FingerprintView>,
    bits: Seq<Seq<u8>>,
    max: int,
    gs: Seq<Grouping>,
    stage: int,
) -> bool {
    &&& forall|a: int|
        0 <= a < gs.len() ==> is_group(fps, #[trigger] gs[a]) && is_justified(fps, bits, max, gs[a])
            && rank(gs[a].kind) <= stage
    &&& disjoint(gs)
    &&& in_order(gs)
}

/// The best of some members is one of them, and none has a higher score.
proof fn lemma_best(fps: Seq<FingerprintView>, members: Seq<int>)
    requires
        members.len() >= 1,
    ensures
        members.contains(best(fps, members)),
        forall|k: int|
            0 <= k < members.len() ==> score(fps[#[trigger] members[k]]) <= score(
                fps[best(fps, members)],
            ),
        (forall|a: int, b: int|
            #![trigger members[a], members[b]]
            0 <= a < b < members.len() ==> members[a] < members[b]) ==> forall|k: int|
            0 <= k < members.len() && best(fps, members) < #[trigger] members[k] ==> score(
                fps[members[k]],
            ) < score(fps[best(fps, members)]),
    decreases members.len(),
{
    if members.len() == 1 {
        assert(members[0] == best(fps, members));
    } else {
        let f = members.drop_last();
        lemma_best(fps, f);
        let b = best(fps, f);
        let i = choose|i: int| 0 <= i < f.len() && f[i] == b;
        assert(members[i] == b);
        assert(members[members.len() - 1] == members.last());
        assert forall|k: int| 0 <= k < members.len() implies score(fps[#[trigger] members[k]])
            <= score(fps[best(fps, members)]) by {
            if k < f.len() {
                assert(f[k] == members[k]);
            }
        }
        if forall|a: int, b: int|
            #![trigger members[a], members[b]]
            0 <= a < b < members.len() ==> members[a] < members[b] {
            assert forall|a: int, c: int| #![trigger f[a], f[c]] 0 <= a < c < f.len() implies f[a]
                < f[c] by {
                assert(f[a] == members[a] && f[c] == members[c]);
            }
            assert forall|k: int|
                0 <= k < members.len() && best(fps, members) < #[trigger] members[k] implies score(
                fps[members[k]],
            ) < score(fps[best(fps, members)]) by {
                assert(members[k] <= members[members.len() - 1]);
                if k < f.len() {
                    assert(f[k] == members[k]);
                }
            }
        }
    }
}

/// `same_hash` lists, in order, all places with the content hash of place `i`
/// and no other.
proof fn lemma_same_hash(fps: Seq<FingerprintView>, i: int, n: int)
    requires
        0 <= n <= fps.len(),
    ensures
        ({
            let s = same_hash(fps, i, n);
            &&& forall|j: int|
                0 <= j < n ==> ((#[trigger] fps[j]).content_hash == fps[i].content_hash
                    <==> s.contains(j))
            &&& forall|a: int, b: int|
                #![trigger s[a], s[b]]
                0 <= a < b < s.len() ==> s[a] < s[b]
        }),
    decreases n,
{
    if n > 0 {
        let before = same_hash(fps, i, n - 1);
        let s = same_hash(fps, i, n);
        lemma_same_hash(fps, i, n - 1);
        lemma_same_hash_range(fps, i, n - 1);
        assert forall|j: int| 0 <= j < n implies ((#[trigger] fps[j]).content_hash
            == fps[i].content_hash <==> s.contains(j)) by {
            if j < n - 1 {
                if before.contains(j) {
                    let k = choose|k: int| 0 <= k < before.len() && before[k] == j;
                    assert(s[k] == j);
                }
                if s.contains(j) {
                    let k = choose|k: int| 0 <= k < s.len() && s[k] == j;
                    assert(k < before.len() ==> before[k] == j);
                }
            } else if fps[j].content_hash == fps[i].content_hash {
                assert(s[before.len() as int] == j);
            } else if s.contains(j) {
                let k = choose|k: int| 0 <= k < s.len() && s[k] == j;
                assert(before[k] == j);
            }
        }
        assert forall|a: int, b: int| #![trigger s[a], s[b]] 0 <= a < b < s.len() implies s[a]
            < s[b] by {
            if b < before.len() {
                assert(before[a] < before[b]);
            } else {
                assert(before[a] == s[a]);
            }
        }
    }
}

/// A group of exact duplicates is a group, and justified.
proof fn lemma_exact_group(fps: Seq<FingerprintView>, bits: Seq<Seq<u8>>, max: int, i: int)
    requires
        0 <= i < fps.len(),
        same_hash(fps, i, fps.len() as int).len() >= 2,
    ensures
        is_group(fps, exact_group(fps, i)),
        is_justified(fps, bits, max, exact_group(fps, i)),
        fps[exact_group(fps, i).members[0]].content_hash == fps[i].content_hash,
{
    let n = fps.len() as int;
    let s = same_hash(fps, i, n);
    lemma_same_hash(fps, i, n);
    lemma_same_hash_range(fps, i, n);
    lemma_best(fps, s);
    assert(s.contains(s[0]));
    assert(fps[s[0]].content_hash == fps[i].content_hash);
}

/// Each group of the first pass is that of some leader.
proof fn lemma_exact_leaders(fps: Seq<FingerprintView>, n: int)
    requires
        0 <= n <= fps.len(),
    ensures
        forall|a: int|
            0 <= a < exact_groups(fps, n).len() ==> exists|l: int|
                0 <= l < n && #[trigger] exact_group(fps, l) == #[trigger] exact_groups(fps, n)[a]
                    && same_hash(fps, l, fps.len() as int).len() >= 2,
    decreases n,
{
    if n > 0 {
        lemma_exact_leaders(fps, n - 1);
        let before = exact_groups(fps, n - 1);
        let gs = exact_groups(fps, n);
        assert forall|a: int| 0 <= a < gs.len() implies exists|l: int|
            0 <= l < n && #[trigger] exact_group(fps, l) == #[trigger] gs[a] && same_hash(
                fps,
                l,
                fps.len() as int,
            ).len() >= 2 by {
            if a < before.len() {
                assert(gs[a] == before[a]);
                let l = choose|l: int|
                    0 <= l < n - 1 && #[trigger] exact_group(fps, l) == before[a] && same_hash(
                        fps,
                        l,
                        fps.len() as int,
                    ).len() >= 2;
                assert(exact_group(fps, l) == gs[a]);
            } else {
                assert(exact_group(fps, n - 1) == gs[a]);
            }
        }
    }
}

proof fn lemma_exact_holds(fps: Seq<FingerprintView>, bits: Seq<Seq<u8>>, max: int, n: int)
    requires
        0 <= n <= fps.len(),
    ensures
        holds(fps, bits, max, exact_groups(fps, n), 0),
    decreases n,
{
    if n > 0 {
        lemma_exact_holds(fps, bits, max, n - 1);
        let before = exact_groups(fps, n - 1);
        let gs = exact_groups(fps, n);
        if gs.len() > before.len() {
            let g = exact_group(fps, n - 1);
            lemma_exact_group(fps, bits, max, n - 1);
            lemma_exact_leaders(fps, n - 1);
            assert forall|a: int, b: int, k: int, l: int|
                #![trigger gs[a].members[k], gs[b].members[l]]
                0 <= a < b < gs.len() && 0 <= k < gs[a].members.len() && 0 <= l
                    < gs[b].members.len() implies gs[a].members[k] != gs[b].members[l] by {
                if b < before.len() {
                    assert(before[a].members[k] != before[b].members[l]);
                } else {
                    assert(gs[a] == before[a]);
                    let q = choose|q: int|
                        0 <= q < n - 1 && #[trigger] exact_group(fps, q) == before[a] && same_hash(
                            fps,
                            q,
                            fps.len() as int,
                        ).len() >= 2;
                    lemma_exact_group(fps, bits, max, q);
                    let x = gs[a].members[k];
                    let y = gs[b].members[l];
                    assert(gs[a].members.contains(x));
                    assert(gs[b].members.contains(y));
                    assert(fps[x].content_hash == fps[q].content_hash);
                    assert(fps[y].content_hash == fps[n - 1].content_hash);
                    assert(fps[q].content_hash != fps[n - 1].content_hash);
                }
            }
            assert(holds(fps, bits, max, gs, 0));
        }
    }
}

/// Adding a group of free places keeps what holds.
proof fn lemma_holds_push(
    fps: Seq<FingerprintView>,
    bits: Seq<Seq<u8>>,
    max: int,
    gs: Seq<Grouping>,
    g: Grouping,
    stage: int,
)
    requires
        holds(fps, bits, max, gs, stage),
        is_group(fps, g),
        is_justified(fps, bits, max, g),
        rank(g.kind) == stage,
        forall|k: int| 0 <= k < g.members.len() ==> !taken(fps, gs, #[trigger] g.members[k]),
    ensures
        holds(fps, bits, max, gs.push(g), stage),
{
    let after = gs.push(g);
    assert forall|a: int, b: int, k: int, l: int|
        #![trigger after[a].members[k], after[b].members[l]]
        0 <= a < b < after.len() && 0 <= k < after[a].members.len() && 0 <= l
            < after[b].members.len() implies after[a].members[k] != after[b].members[l] by {
        if b < gs.len() {
            assert(gs[a].members[k] != gs[b].members[l]);
        } else {
            assert(!taken(fps, gs, g.members[l]));
            assert(gs[a].members[k] == after[a].members[k]);
        }
    }
}

/// What `first_near` finds is free, near and behind; what it passes over is not.
proof fn lemma_first_near(
    fps: Seq<FingerprintView>,
    bits: Seq<Seq<u8>>,
    max: int,
    gs: Seq<Grouping>,
    i: int,
    j: int,
)
    requires
        0 <= j,
    ensures
        match first_near(fps, bits, max, gs, i, j) {
            Some(k) => {
                &&& j <= k < fps.len()
                &&& !taken(fps, gs, k)
                &&& hamming(bits[i], bits[k]) <= max
                &&& forall|m: int|
                    j <= m < k ==> taken(fps, gs, m) || #[trigger] hamming(bits[i], bits[m]) > max
            },
            None => forall|k: int|
                j <= k < fps.len() ==> taken(fps, gs, k) || #[trigger] hamming(bits[i], bits[k])
                    > max,
        },
    decreases fps.len() - j,
{
    if j < fps.len() {
        lemma_first_near(fps, bits, max, gs, i, j + 1);
    }
}

proof fn lemma_near_holds(fps: Seq<FingerprintView>, bits: Seq<Seq<u8>>, max: int, n: int)
    requires
        comparable(fps, bits),
        0 <= n <= fps.len(),
    ensures
        holds(fps, bits, max, near_groups(fps, bits, max, n), 1),
    decreases n,
{
    if n == 0 {
        lemma_exact_holds(fps, bits, max, fps.len() as int);
    } else {
        lemma_near_holds(fps, bits, max, n - 1);
        let before = near_groups(fps, bits, max, n - 1);
        if !taken(fps, before, n - 1) {
            lemma_first_near(fps, bits, max, before, n - 1, n);
            if let Some(j) = first_near(fps, bits, max, before, n - 1, n) {
                let g = near_group(fps, bits, n - 1, j);
                law_distance_bound(bits[n - 1], bits[j]);
                assert(g.members[0] == n - 1 && g.members[1] == j);
                assert(g.members.contains(g.primary));
                lemma_holds_push(fps, bits, max, before, g, 1);
            }
        }
    }
}

/// The forks of place `i` are listed in order, and behind the first each of
/// them is one.
proof fn lemma_forks(
    fps: Seq<FingerprintView>,
    bits: Seq<Seq<u8>>,
    max: int,
    gs: Seq<Grouping>,
    i: int,
    n: int,
)
    requires
        0 <= i < n,
    ensures
        ({
            let s = forks(fps, bits, max, gs, i, n);
            &&& s.len() >= 1
            &&& s[0] == i
            &&& forall|k: int|
                0 < k < s.len() ==> is_fork(fps, bits, max, gs, i, #[trigger] s[k])
            &&& forall|a: int, b: int|
                #![trigger s[a], s[b]]
                0 <= a < b < s.len() ==> s[a] < s[b]
            &&& forall|j: int|
                i < j < n && #[trigger] is_fork(fps, bits, max, gs, i, j) ==> s.contains(j)
        }),
    decreases n - i,
{
    if n > i + 1 {
        let before = forks(fps, bits, max, gs, i, n - 1);
        let s = forks(fps, bits, max, gs, i, n);
        lemma_forks(fps, bits, max, gs, i, n - 1);
        lemma_forks_range(fps, bits, max, gs, i, n - 1);
        assert forall|k: int| 0 < k < s.len() implies is_fork(
            fps,
            bits,
            max,
            gs,
            i,
            #[trigger] s[k],
        ) by {
            if k < before.len() {
                assert(before[k] == s[k]);
            }
        }
        assert forall|a: int, b: int| #![trigger s[a], s[b]] 0 <= a < b < s.len() implies s[a]
            < s[b] by {
            assert(s[a] == before[a]);
            if b < before.len() {
                assert(s[b] == before[b]);
            }
        }
        assert forall|j: int|
            i < j < n && #[trigger] is_fork(fps, bits, max, gs, i, j) implies s.contains(j) by {
            if j < n - 1 {
                let k = choose|k: int| 0 <= k < before.len() && before[k] == j;
                assert(s[k] == j);
            } else {
                assert(s[before.len() as int] == j);
            }
        }
    }
}

proof fn lemma_fork_holds(fps: Seq<FingerprintView>, bits: Seq<Seq<u8>>, max: int, n: int)
    requires
        comparable(fps, bits),
        0 <= n <= fps.len(),
    ensures
        holds(fps, bits, max, fork_groups(fps, bits, max, n), 2),
    decreases n,
{
    if n == 0 {
        lemma_near_holds(fps, bits, max, fps.len() as int);
    } else {
        lemma_fork_holds(fps, bits, max, n - 1);
        let before = fork_groups(fps, bits, max, n - 1);
        let s = forks(fps, bits, max, before, n - 1, fps.len() as int);
        if !taken(fps, before, n - 1) && s.len() >= 2 {
            let g = fork_group(fps, bits, s);
            lemma_forks(fps, bits, max, before, n - 1, fps.len() as int);
            lemma_forks_range(fps, bits, max, before, n - 1, fps.len() as int);
            lemma_best(fps, s);
            lemma_agreeing_bound(bits, s);
            lemma_some_pair(s.len());
            assert(is_fork(fps, bits, max, before, n - 1, s[1]));
            lemma_holds_push(fps, bits, max, before, g, 2);
        }
    }
}

/// Every group has at least two members, a primary among them that no member
/// outscores, and a similarity between nothing and all.
pub proof fn law_groups_are_groups(
    fps: Seq<FingerprintView>,
    bits: Seq<Seq<u8>>,
    max: int,
    a: int,
)
    requires
        comparable(fps, bits),
        0 <= a < grouped(fps, bits, max).len(),
    ensures
        is_group(fps, grouped(fps, bits, max)[a]),
{
    lemma_fork_holds(fps, bits, max, fps.len() as int);
}

/// Every group is of its kind: exact duplicates are all the repositories of one
/// content hash, near duplicates are two within the distance, forks share a
/// base name and are within three times the distance of the first.
pub proof fn law_groups_are_justified(
    fps: Seq<FingerprintView>,
    bits: Seq<Seq<u8>>,
    max: int,
    a: int,
)
    requires
        comparable(fps, bits),
        0 <= a < grouped(fps, bits, max).len(),
    ensures
        is_justified(fps, bits, max, grouped(fps, bits, max)[a]),
{
    lemma_fork_holds(fps, bits, max, fps.len() as int);
}

/// A repository is in at most one group.
pub proof fn law_groups_disjoint(fps: Seq<FingerprintView>, bits: Seq<Seq<u8>>, max: int)
    requires
        comparable(fps, bits),
    ensures
        disjoint(grouped(fps, bits, max)),
{
    lemma_fork_holds(fps, bits, max, fps.len() as int);
}

/// Exact duplicates are listed first, then near duplicates, then forks.
pub proof fn law_groups_in_order(fps: Seq<FingerprintView>, bits: Seq<Seq<u8>>, max: int)
    requires
        comparable(fps, bits),
    ensures
        in_order(grouped(fps, bits, max)),
{
    lemma_fork_holds(fps, bits, max, fps.len() as int);
}

/// What the groups `gs` have taken, any longer list of groups has taken.
proof fn lemma_taken_longer(fps: Seq<FingerprintView>, gs: Seq<Grouping>, hs: Seq<Grouping>, i: int)
    requires
        gs.is_prefix_of(hs),
        taken(fps, gs, i),
    ensures
        taken(fps, hs, i),
{
    let (a, k) = choose|a: int, k: int|
        #![trigger gs[a].members[k]]
        0 <= a < gs.len() && 0 <= k < gs[a].members.len() && fps[gs[a].members[k]].repo_name
            == fps[i].repo_name;
    assert(hs[a] == gs[a]);
    assert(hs[a].members[k] == gs[a].members[k]);
}

/// The second pass only adds groups.
proof fn lemma_near_grows(fps: Seq<FingerprintView>, bits: Seq<Seq<u8>>, max: int, m: int, n: int)
    requires
        0 <= m <= n,
    ensures
        near_groups(fps, bits, max, m).is_prefix_of(near_groups(fps, bits, max, n)),
    decreases n - m,
{
    if m < n {
        lemma_near_grows(fps, bits, max, m, n - 1);
    }
}

/// The third pass only adds groups.
proof fn lemma_fork_grows(fps: Seq<FingerprintView>, bits: Seq<Seq<u8>>, max: int, m: int, n: int)
    requires
        0 <= m <= n,
    ensures
        fork_groups(fps, bits, max, m).is_prefix_of(fork_groups(fps, bits, max, n)),
    decreases n - m,
{
    if m < n {
        lemma_fork_grows(fps, bits, max, m, n - 1);
    }
}

/// The groups that a pass has made are among all groups.
proof fn lemma_grouped_grows(fps: Seq<FingerprintView>, bits: Seq<Seq<u8>>, max: int, n: int)
    requires
        0 <= n <= fps.len(),
    ensures
        near_groups(fps, bits, max, n).is_prefix_of(grouped(fps, bits, max)),
        fork_groups(fps, bits, max, n).is_prefix_of(grouped(fps, bits, max)),
        exact_groups(fps, fps.len() as int).is_prefix_of(grouped(fps, bits, max)),
{
    let len = fps.len() as int;
    lemma_near_grows(fps, bits, max, 0, n);
    lemma_near_grows(fps, bits, max, n, len);
    lemma_fork_grows(fps, bits, max, 0, n);
    lemma_fork_grows(fps, bits, max, n, len);
}

/// Of two repositories that are in no group of exact or near duplicates, the
/// feature bits differ in more than the distance for near duplicates.
pub proof fn law_ungrouped_are_not_near(
    fps: Seq<FingerprintView>,
    bits: Seq<Seq<u8>>,
    max: int,
    i: int,
    j: int,
)
    requires
        0 <= i < j < fps.len(),
        !taken(fps, near_groups(fps, bits, max, fps.len() as int), i),
        !taken(fps, near_groups(fps, bits, max, fps.len() as int), j),
    ensures
        hamming(bits[i], bits[j]) > max,
{
    let all = near_groups(fps, bits, max, fps.len() as int);
    let before = near_groups(fps, bits, max, i);
    lemma_near_grows(fps, bits, max, i, fps.len() as int);
    lemma_near_grows(fps, bits, max, i + 1, fps.len() as int);
    if taken(fps, before, i) {
        lemma_taken_longer(fps, before, all, i);
    }
    if taken(fps, before, j) {
        lemma_taken_longer(fps, before, all, j);
    }
    lemma_first_near(fps, bits, max, before, i, i + 1);
    match first_near(fps, bits, max, before, i, i + 1) {
        Some(k) => {
            let g = near_group(fps, bits, i, k);
            lemma_taken_push(fps, before, g, i);
            assert(fps[g.members[0]].repo_name == fps[i].repo_name);
            lemma_taken_longer(fps, before.push(g), all, i);
        },
        None => {
            assert(hamming(bits[i], bits[j]) > max);
        },
    }
}

/// Whether a repository of the name of place `i` is in a group of exact or near
/// duplicates among `gs`.
pub open spec fn is_duplicate(fps: Seq<FingerprintView>, gs: Seq<Grouping>, i: int) -> bool {
    exists|g: int, k: int|
        #![trigger gs[g].members[k]]
        0 <= g < gs.len() && 0 <= k < gs[g].members.len() && gs[g].kind != GroupKind::Fork
            && fps[gs[g].members[k]].repo_name == fps[i].repo_name
}

/// The first pass makes no groups of forks.
proof fn lemma_exact_kinds(fps: Seq<FingerprintView>, n: int)
    ensures
        forall|a: int|
            0 <= a < exact_groups(fps, n).len() ==> (#[trigger] exact_groups(fps, n)[a]).kind
                != GroupKind::Fork,
    decreases n,
{
    if n > 0 {
        lemma_exact_kinds(fps, n - 1);
    }
}

/// Neither does the second.
proof fn lemma_near_kinds(fps: Seq<FingerprintView>, bits: Seq<Seq<u8>>, max: int, n: int)
    ensures
        forall|a: int|
            0 <= a < near_groups(fps, bits, max, n).len() ==> (#[trigger] near_groups(
                fps,
                bits,
                max,
                n,
            )[a]).kind != GroupKind::Fork,
    decreases n,
{
    if n <= 0 {
        lemma_exact_kinds(fps, fps.len() as int);
    } else {
        lemma_near_kinds(fps, bits, max, n - 1);
    }
}

/// Who is in a group of the first two passes is a duplicate.
proof fn lemma_taken_is_duplicate(
    fps: Seq<FingerprintView>,
    bits: Seq<Seq<u8>>,
    max: int,
    i: int,
)
    requires
        taken(fps, near_groups(fps, bits, max, fps.len() as int), i),
    ensures
        is_duplicate(fps, grouped(fps, bits, max), i),
{
    let n = fps.len() as int;
    let near = near_groups(fps, bits, max, n);
    let all = grouped(fps, bits, max);
    lemma_near_kinds(fps, bits, max, n);
    lemma_grouped_grows(fps, bits, max, n);
    let (g, k) = choose|g: int, k: int|
        #![trigger near[g].members[k]]
        0 <= g < near.len() && 0 <= k < near[g].members.len() && fps[near[g].members[k]].repo_name
            == fps[i].repo_name;
    assert(all[g] == near[g]);
    assert(all[g].members[k] == near[g].members[k]);
}

/// No near duplicate is missed: of two repositories that are in no group of exact
/// or near duplicates, though they may be in one of forks, the feature bits differ
/// in more than the distance for near duplicates.
pub proof fn law_no_near_duplicate_is_missed(
    fps: Seq<FingerprintView>,
    bits: Seq<Seq<u8>>,
    max: int,
    i: int,
    j: int,
)
    requires
        0 <= i < j < fps.len(),
        !is_duplicate(fps, grouped(fps, bits, max), i),
        !is_duplicate(fps, grouped(fps, bits, max), j),
    ensures
        hamming(bits[i], bits[j]) > max,
{
    if taken(fps, near_groups(fps, bits, max, fps.len() as int), i) {
        lemma_taken_is_duplicate(fps, bits, max, i);
    }
    if taken(fps, near_groups(fps, bits, max, fps.len() as int), j) {
        lemma_taken_is_duplicate(fps, bits, max, j);
    }
    law_ungrouped_are_not_near(fps, bits, max, i, j);
}

/// Of two repositories that are in no group and share a base name of three
/// bytes or more, the feature bits differ in more than the distance for forks.
pub proof fn law_ungrouped_are_not_forks(
    fps: Seq<FingerprintView>,
    bits: Seq<Seq<u8>>,
    max: int,
    i: int,
    j: int,
)
    requires
        0 <= i < j < fps.len(),
        !taken(fps, grouped(fps, bits, max), i),
        !taken(fps, grouped(fps, bits, max), j),
        base_of(fps[i].repo_name) == base_of(fps[j].repo_name),
        encode_utf8(base_of(fps[i].repo_name)).len() >= 3,
    ensures
        hamming(bits[i], bits[j]) > max * 3,
{
    let n = fps.len() as int;
    let before = fork_groups(fps, bits, max, i);
    lemma_grouped_grows(fps, bits, max, i);
    lemma_grouped_grows(fps, bits, max, i + 1);
    if taken(fps, before, i) {
        lemma_taken_longer(fps, before, grouped(fps, bits, max), i);
    }
    if taken(fps, before, j) {
        lemma_taken_longer(fps, before, grouped(fps, bits, max), j);
    }
    let s = forks(fps, bits, max, before, i, n);
    lemma_forks(fps, bits, max, before, i, n);
    if hamming(bits[i], bits[j]) <= max * 3 {
        assert(is_fork(fps, bits, max, before, i, j));
        let k = choose|k: int| 0 <= k < s.len() && s[k] == j;
        assert(k != 0);
        let g = fork_group(fps, bits, s);
        lemma_taken_push(fps, before, g, i);
        assert(fps[g.members[0]].repo_name == fps[i].repo_name);
        lemma_taken_longer(fps, before.push(g), grouped(fps, bits, max), i);
    }
}

/// Whether a repository of the name of place `i` is in a group among `gs`.
pub open spec fn has_group(fps: Seq<FingerprintView>, gs: Seq<Grouping>, i: int) -> bool {
    exists|g: int, k: int|
        #![trigger gs[g].members[k]]
        0 <= g < gs.len() && 0 <= k < gs[g].members.len() && fps[gs[g].members[k]].repo_name
            == fps[i].repo_name
}

/// No fork is missed: of two repositories that are in no group and share a base
/// name of three bytes or more, the feature bits differ in more than three times
/// the distance for near duplicates.
pub proof fn law_no_fork_is_missed(
    fps: Seq<FingerprintView>,
    bits: Seq<Seq<u8>>,
    max: int,
    i: int,
    j: int,
)
    requires
        0 <= i < j < fps.len(),
        !has_group(fps, grouped(fps, bits, max), i),
        !has_group(fps, grouped(fps, bits, max), j),
        base_of(fps[i].repo_name) == base_of(fps[j].repo_name),
        encode_utf8(base_of(fps[i].repo_name)).len() >= 3,
    ensures
        hamming(bits[i], bits[j]) > max * 3,
{
    law_ungrouped_are_not_forks(fps, bits, max, i, j);
}

/// The first place with the content hash of place `i`.
proof fn lemma_leader(fps: Seq<FingerprintView>, i: int, n: int) -> (l: int)
    requires
        0 <= n <= i < fps.len(),
        forall|j: int| 0 <= j < n ==> (#[trigger] fps[j]).content_hash != fps[i].content_hash,
    ensures
        0 <= l <= i,
        is_leader(fps, l),
        fps[l].content_hash == fps[i].content_hash,
    decreases i - n,
{
    if fps[n].content_hash == fps[i].content_hash {
        n
    } else {
        lemma_leader(fps, i, n + 1)
    }
}

/// The group of a leader with company is among those of the first pass.
proof fn lemma_leader_grouped(fps: Seq<FingerprintView>, l: int, n: int) -> (a: int)
    requires
        0 <= l < n <= fps.len(),
        is_leader(fps, l),
        same_hash(fps, l, fps.len() as int).len() >= 2,
    ensures
        0 <= a < exact_groups(fps, n).len(),
        exact_groups(fps, n)[a] == exact_group(fps, l),
    decreases n,
{
    if l == n - 1 {
        exact_groups(fps, n - 1).len() as int
    } else {
        lemma_leader_grouped(fps, l, n - 1)
    }
}

/// Two repositories with the same content hash are in one group of exact
/// duplicates.
pub proof fn law_same_content_is_grouped(
    fps: Seq<FingerprintView>,
    bits: Seq<Seq<u8>>,
    max: int,
    i: int,
    j: int,
) -> (a: int)
    requires
        0 <= i < fps.len(),
        0 <= j < fps.len(),
        i != j,
        fps[i].content_hash == fps[j].content_hash,
    ensures
        0 <= a < grouped(fps, bits, max).len(),
        grouped(fps, bits, max)[a].kind == GroupKind::ExactDuplicate,
        grouped(fps, bits, max)[a].members.contains(i),
        grouped(fps, bits, max)[a].members.contains(j),
{
    let n = fps.len() as int;
    let l = lemma_leader(fps, i, 0);
    let s = same_hash(fps, l, n);
    lemma_same_hash(fps, l, n);
    assert(s.contains(i) && s.contains(j));
    let p = choose|p: int| 0 <= p < s.len() && s[p] == i;
    let q = choose|q: int| 0 <= q < s.len() && s[q] == j;
    assert(p != q);
    let a = lemma_leader_grouped(fps, l, n);
    lemma_grouped_grows(fps, bits, max, n);
    assert(grouped(fps, bits, max)[a] == exact_groups(fps, n)[a]);
    a
}

/// The fingerprints have names of their own.
pub open spec fn distinct_names(fps: Seq<FingerprintView>) -> bool {
    forall|i: int, j: int|
        #![trigger fps[i], fps[j]]
        0 <= i < j < fps.len() ==> fps[i].repo_name != fps[j].repo_name
}

/// Where no two repositories have the same name, no name stands in two places
/// of the groups.
pub proof fn law_names_occur_once(
    fps: Seq<FingerprintView>,
    bits: Seq<Seq<u8>>,
    max: int,
    a: int,
    b: int,
    k: int,
    l: int,
)
    requires
        comparable(fps, bits),
        distinct_names(fps),
        0 <= a < grouped(fps, bits, max).len(),
        0 <= b < grouped(fps, bits, max).len(),
        0 <= k < all_named(grouped(fps, bits, max), fps)[a].repos.len(),
        0 <= l < all_named(grouped(fps, bits, max), fps)[b].repos.len(),
        (a, k) != (b, l),
    ensures
        all_named(grouped(fps, bits, max), fps)[a].repos[k] != all_named(
            grouped(fps, bits, max),
            fps,
        )[b].repos[l],
{
    let gs = grouped(fps, bits, max);
    law_groups_disjoint(fps, bits, max);
    law_groups_are_groups(fps, bits, max, a);
    law_groups_are_groups(fps, bits, max, b);
    let x = gs[a].members[k];
    let y = gs[b].members[l];
    if a == b {
        if k < l {
            assert(gs[a].members[k] < gs[a].members[l]);
        } else {
            assert(gs[a].members[l] < gs[a].members[k]);
        }
    } else if a < b {
        assert(gs[a].members[k] != gs[b].members[l]);
    } else {
        assert(gs[b].members[l] != gs[a].members[k]);
    }
    if x < y {
        assert(fps[x].repo_name != fps[y].repo_name);
    } else {
        assert(fps[y].repo_name != fps[x].repo_name);
    }
}

/// The bits that agree with `x` are those of one member and those of the others.
proof fn lemma_agreeing_with_remove(bits: Seq<Seq<u8>>, s: Seq<int>, i: int, x: int)
    requires
        0 <= i < s.len(),
    ensures
        agreeing_with(bits, s, x) == agreeing_with(bits, s.remove(i), x) + (256 - hamming(
            bits[s[i]],
            bits[x],
        )),
    decreases s.len(),
{
    let f = s.drop_last();
    if i == s.len() - 1 {
        assert(s.remove(i) =~= f);
    } else {
        lemma_agreeing_with_remove(bits, f, i, x);
        assert(s.remove(i).drop_last() =~= f.remove(i));
        assert(s.remove(i).last() == s.last());
    }
}

/// The bits that agree over all pairs are those over the pairs of one member and
/// those over the pairs of the others.
proof fn lemma_agreeing_remove(bits: Seq<Seq<u8>>, s: Seq<int>, i: int)
    requires
        0 <= i < s.len(),
    ensures
        agreeing(bits, s) == agreeing(bits, s.remove(i)) + agreeing_with(bits, s.remove(i), s[i]),
    decreases s.len(),
{
    let f = s.drop_last();
    if i == s.len() - 1 {
        assert(s.remove(i) =~= f);
    } else {
        let rest = s.remove(i);
        lemma_agreeing_remove(bits, f, i);
        lemma_agreeing_with_remove(bits, f, i, s.last());
        assert(rest.drop_last() =~= f.remove(i));
        assert(rest.last() == s.last());
        law_distance_symmetric(bits[s[i]], bits[s.last()]);
    }
}

/// The bits that agree do not depend on the order of the members.
proof fn lemma_agreeing_any_order(bits: Seq<Seq<u8>>, a: Seq<int>, b: Seq<int>, x: int)
    requires
        a.to_multiset() == b.to_multiset(),
    ensures
        a.len() == b.len(),
        agreeing_with(bits, a, x) == agreeing_with(bits, b, x),
        agreeing(bits, a) == agreeing(bits, b),
    decreases a.len(),
{
    broadcast use vstd::seq_lib::group_to_multiset_ensures;

    vstd::seq_lib::to_multiset_len(a);
    vstd::seq_lib::to_multiset_len(b);
    if a.len() > 0 {
        let y = b.last();
        let f = b.drop_last();
        assert(b[b.len() - 1] == y);
        assert(b.to_multiset().count(y) > 0) by {
            assert(b.contains(y));
        }
        assert(a.contains(y));
        let i = choose|i: int| 0 <= i < a.len() && a[i] == y;
        let rest = a.remove(i);
        assert(rest.to_multiset() =~= a.to_multiset().remove(y));
        assert(b =~= f.push(y));
        assert(f.to_multiset() =~= b.to_multiset().remove(y));
        lemma_agreeing_any_order(bits, rest, f, x);
        lemma_agreeing_any_order(bits, rest, f, y);
        lemma_agreeing_with_remove(bits, a, i, x);
        lemma_agreeing_remove(bits, a, i);
    }
}

/// The average likeness does not depend on the order of the members.
pub proof fn law_average_ignores_order(bits: Seq<Seq<u8>>, a: Seq<int>, b: Seq<int>)
    requires
        a.to_multiset() == b.to_multiset(),
    ensures
        average(bits, a) == average(bits, b),
{
    lemma_agreeing_any_order(bits, a, b, 0);
}

/// The average likeness is a share between nothing and all.
pub proof fn law_average_is_a_share(bits: Seq<Seq<u8>>, members: Seq<int>)
    requires
        forall|i: int| 0 <= i < bits.len() ==> (#[trigger] bits[i]).len() == 32,
        forall|k: int| 0 <= k < members.len() ==> 0 <= #[trigger] members[k] < bits.len(),
    ensures
        1 <= average(bits, members).pairs,
        average(bits, members).total <= 256 * average(bits, members).pairs,
{
    if members.len() >= 2 {
        lemma_agreeing_bound(bits, members);
        lemma_some_pair(members.len());
    }
}

/// Two things make a pair.
proof fn lemma_some_pair(n: nat)
    requires
        n >= 2,
    ensures
        pair_count(n) >= 1,
    decreases n,
{
    if n > 2 {
        lemma_some_pair((n - 1) as nat);
    } else {
        reveal_with_fuel(pair_count, 3);
    }
}

/// Where the feature bits of all members are the same, they are wholly alike.
pub proof fn law_equal_bits_are_wholly_alike(bits: Seq<Seq<u8>>, members: Seq<int>)
    requires
        forall|a: int, b: int|
            #![trigger members[a], members[b]]
            0 <= a < b < members.len() ==> bits[members[a]] == bits[members[b]],
    ensures
        1 <= average(bits, members).pairs,
        average(bits, members).total == 256 * average(bits, members).pairs,
{
    if members.len() >= 2 {
        lemma_agreeing_equal(bits, members);
        lemma_some_pair(members.len());
    }
}

/// Where the feature bits of all members are the same, all of them agree.
proof fn lemma_agreeing_equal(bits: Seq<Seq<u8>>, s: Seq<int>)
    requires
        forall|a: int, b: int|
            #![trigger s[a], s[b]]
            0 <= a < b < s.len() ==> bits[s[a]] == bits[s[b]],
    ensures
        agreeing(bits, s) == 256 * pair_count(s.len()),
    decreases s.len(),
{
    if s.len() > 0 {
        let f = s.drop_last();
        assert forall|a: int, b: int|
            #![trigger f[a], f[b]]
            0 <= a < b < f.len() implies bits[f[a]] == bits[f[b]] by {
            assert(f[a] == s[a] && f[b] == s[b]);
        }
        lemma_agreeing_equal(bits, f);
        assert forall|a: int| 0 <= a < f.len() implies bits[#[trigger] f[a]] == bits[s.last()] by {
            assert(f[a] == s[a]);
            assert(s[s.len() - 1] == s.last());
        }
        lemma_agreeing_with_equal(bits, f, s.last());
    }
}

/// Where the feature bits of all members are those of `x`, all of them agree.
proof fn lemma_agreeing_with_equal(bits: Seq<Seq<u8>>, s: Seq<int>, x: int)
    requires
        forall|a: int| 0 <= a < s.len() ==> bits[#[trigger] s[a]] == bits[x],
    ensures
        agreeing_with(bits, s, x) == 256 * s.len(),
    decreases s.len(),
{
    if s.len() > 0 {
        let f = s.drop_last();
        assert forall|a: int| 0 <= a < f.len() implies bits[#[trigger] f[a]] == bits[x] by {
            assert(f[a] == s[a]);
        }
        lemma_agreeing_with_equal(bits, f, x);
        assert(s[s.len() - 1] == s.last());
        law_distance_zero(bits[x], bits[x]);
    }
}

/// Nothing was passed over when the group `g` was made behind the groups
/// `before`: none of its members was in a group; near duplicates are the first free
/// one and the first free one behind it that is near enough; forks are all free
/// ones behind the first that share its base name and are not too far.
pub open spec fn is_complete(
    fps: Seq<FingerprintView>,
    bits: Seq<Seq<u8>>,
    max: int,
    before: Seq<Grouping>,
    g: Grouping,
) -> bool {
    let first = g.members[0];
    match g.kind {
        GroupKind::ExactDuplicate => true,
        GroupKind::NearDuplicate => {
            &&& !taken(fps, before, first)
            &&& !taken(fps, before, g.members[1])
            &&& forall|k: int|
                first < k < g.members[1] ==> taken(fps, before, k) || #[trigger] hamming(
                    bits[first],
                    bits[k],
                ) > max
        },
        GroupKind::Fork => {
            &&& forall|k: int|
                0 <= k < g.members.len() ==> !taken(fps, before, #[trigger] g.members[k])
            &&& forall|j: int|
                first < j < fps.len() && !taken(fps, before, j) && base_of(fps[first].repo_name)
                    == base_of(fps[j].repo_name) && encode_utf8(
                    base_of(fps[first].repo_name),
                ).len() >= 3 && #[trigger] hamming(bits[first], bits[j]) <= max * 3
                    ==> g.members.contains(j)
        },
    }
}

/// Every group is complete, and the groups of one kind stand in the order of
/// their first members, which for those of the rank `stage` are before `n`.
spec fn are_complete(
    fps: Seq<FingerprintView>,
    bits: Seq<Seq<u8>>,
    max: int,
    gs: Seq<Grouping>,
    stage: int,
    n: int,
) -> bool {
    &&& forall|a: int|
        0 <= a < gs.len() ==> is_complete(fps, bits, max, gs.take(a), #[trigger] gs[a]) && rank(
            gs[a].kind,
        ) <= stage && (rank(gs[a].kind) == stage ==> gs[a].members[0] < n)
    &&& forall|a: int, b: int|
        #![trigger gs[a], gs[b]]
        0 <= a < b < gs.len() && gs[a].kind == gs[b].kind ==> gs[a].members[0] < gs[b].members[0]
}

/// A complete group behind complete groups.
proof fn lemma_complete_push(
    fps: Seq<FingerprintView>,
    bits: Seq<Seq<u8>>,
    max: int,
    gs: Seq<Grouping>,
    g: Grouping,
    stage: int,
    n: int,
)
    requires
        are_complete(fps, bits, max, gs, stage, n),
        is_complete(fps, bits, max, gs, g),
        rank(g.kind) == stage,
        g.members[0] == n,
    ensures
        are_complete(fps, bits, max, gs.push(g), stage, n + 1),
{
    let after = gs.push(g);
    assert forall|a: int| 0 <= a < after.len() implies is_complete(
        fps,
        bits,
        max,
        after.take(a),
        #[trigger] after[a],
    ) && rank(after[a].kind) <= stage && (rank(after[a].kind) == stage ==> after[a].members[0] < n
        + 1) by {
        if a < gs.len() {
            assert(after[a] == gs[a]);
            assert(after.take(a) =~= gs.take(a));
        } else {
            assert(after.take(a) =~= gs);
        }
    }
    assert forall|a: int, b: int|
        #![trigger after[a], after[b]]
        0 <= a < b < after.len() && after[a].kind == after[b].kind implies after[a].members[0]
        < after[b].members[0] by {
        assert(after[a] == gs[a]);
        if b < gs.len() {
            assert(after[b] == gs[b]);
        }
    }
}

/// The first place with a content hash is the first of its group.
proof fn lemma_leader_first(fps: Seq<FingerprintView>, l: int)
    requires
        0 <= l < fps.len(),
        is_leader(fps, l),
    ensures
        same_hash(fps, l, fps.len() as int).len() >= 1,
        same_hash(fps, l, fps.len() as int)[0] == l,
{
    let n = fps.len() as int;
    let s = same_hash(fps, l, n);
    lemma_same_hash(fps, l, n);
    lemma_same_hash_range(fps, l, n);
    assert(s.contains(l));
    let k = choose|k: int| 0 <= k < s.len() && s[k] == l;
    assert(s.contains(s[0]));
    if s[0] < l {
        assert(fps[s[0]].content_hash != fps[l].content_hash);
    }
    if k > 0 {
        assert(s[0] < s[k]);
    }
}

proof fn lemma_exact_complete(fps: Seq<FingerprintView>, bits: Seq<Seq<u8>>, max: int, n: int)
    requires
        0 <= n <= fps.len(),
    ensures
        are_complete(fps, bits, max, exact_groups(fps, n), 0, n),
    decreases n,
{
    if n > 0 {
        lemma_exact_complete(fps, bits, max, n - 1);
        let before = exact_groups(fps, n - 1);
        if is_leader(fps, n - 1) && same_hash(fps, n - 1, fps.len() as int).len() >= 2 {
            lemma_leader_first(fps, n - 1);
            lemma_complete_push(fps, bits, max, before, exact_group(fps, n - 1), 0, n - 1);
        }
    }
}

proof fn lemma_near_complete(fps: Seq<FingerprintView>, bits: Seq<Seq<u8>>, max: int, n: int)
    requires
        0 <= n <= fps.len(),
    ensures
        are_complete(fps, bits, max, near_groups(fps, bits, max, n), 1, n),
    decreases n,
{
    if n == 0 {
        lemma_exact_complete(fps, bits, max, fps.len() as int);
    } else {
        lemma_near_complete(fps, bits, max, n - 1);
        let before = near_groups(fps, bits, max, n - 1);
        if !taken(fps, before, n - 1) {
            lemma_first_near(fps, bits, max, before, n - 1, n);
            if let Some(j) = first_near(fps, bits, max, before, n - 1, n) {
                let g = near_group(fps, bits, n - 1, j);
                assert(g.members[0] == n - 1 && g.members[1] == j);
                lemma_complete_push(fps, bits, max, before, g, 1, n - 1);
            }
        }
    }
}

proof fn lemma_fork_complete(fps: Seq<FingerprintView>, bits: Seq<Seq<u8>>, max: int, n: int)
    requires
        0 <= n <= fps.len(),
    ensures
        are_complete(fps, bits, max, fork_groups(fps, bits, max, n), 2, n),
    decreases n,
{
    if n == 0 {
        lemma_near_complete(fps, bits, max, fps.len() as int);
    } else {
        lemma_fork_complete(fps, bits, max, n - 1);
        let before = fork_groups(fps, bits, max, n - 1);
        let len = fps.len() as int;
        let s = forks(fps, bits, max, before, n - 1, len);
        if !taken(fps, before, n - 1) && s.len() >= 2 {
            let g = fork_group(fps, bits, s);
            lemma_forks(fps, bits, max, before, n - 1, len);
            assert forall|k: int| 0 <= k < s.len() implies !taken(
                fps,
                before,
                #[trigger] g.members[k],
            ) by {
                if k > 0 {
                    assert(is_fork(fps, bits, max, before, n - 1, s[k]));
                }
            }
            assert forall|j: int|
                n - 1 < j < fps.len() && !taken(fps, before, j) && base_of(fps[n - 1].repo_name)
                    == base_of(fps[j].repo_name) && encode_utf8(
                    base_of(fps[n - 1].repo_name),
                ).len() >= 3 && #[trigger] hamming(bits[n - 1], bits[j]) <= max
                    * 3 implies g.members.contains(j) by {
                assert(is_fork(fps, bits, max, before, n - 1, j));
            }
            lemma_complete_push(fps, bits, max, before, g, 2, n - 1);
        }
    }
}

/// Nothing is passed over when a group is made: near duplicates are paired with
/// the first free one that is near enough, and forks are gathered up to the last.
pub proof fn law_groups_are_complete(
    fps: Seq<FingerprintView>,
    bits: Seq<Seq<u8>>,
    max: int,
    a: int,
)
    requires
        0 <= a < grouped(fps, bits, max).len(),
    ensures
        is_complete(fps, bits, max, grouped(fps, bits, max).take(a), grouped(fps, bits, max)[a]),
{
    lemma_fork_complete(fps, bits, max, fps.len() as int);
}

/// Groups of one kind stand in the order in which their first members come.
pub proof fn law_groups_of_one_kind_in_order(
    fps: Seq<FingerprintView>,
    bits: Seq<Seq<u8>>,
    max: int,
    a: int,
    b: int,
)
    requires
        0 <= a < b < grouped(fps, bits, max).len(),
        grouped(fps, bits, max)[a].kind == grouped(fps, bits, max)[b].kind,
    ensures
        grouped(fps, bits, max)[a].members[0] < grouped(fps, bits, max)[b].members[0],
{
    lemma_fork_complete(fps, bits, max, fps.len() as int);
}

/// With every member, the average takes in one more pair for each of the others:
/// what `x` adds behind `last` is what it adds without `last`, and the bits in
/// which the two agree.
pub proof fn law_average_adds_up_pairs(bits: Seq<Seq<u8>>, s: Seq<int>, last: int, x: int)
    requires
        s.len() >= 2,
    ensures
        average(bits, s.push(last).push(x)).total - average(bits, s.push(last)).total == average(
            bits,
            s.push(x),
        ).total - average(bits, s).total + (256 - hamming(bits[last], bits[x])),
        2 * average(bits, s).pairs == s.len() * (s.len() - 1),
{
    let l = s.push(last);
    assert(l.push(x).drop_last() =~= l);
    assert(l.drop_last() =~= s);
    assert(s.push(x).drop_last() =~= s);
    lemma_pair_count_formula(s.len());
}

/// The likeness of two repositories is the share of the bits in which they agree;
/// that of three, the mean over the three pairs.
pub proof fn law_average_of_two_and_three(bits: Seq<Seq<u8>>, a: int, b: int, c: int)
    ensures
        average(bits, seq![a, b]) == (SimilarityView {
            total: 256 - hamming(bits[a], bits[b]),
            pairs: 1,
        }),
        average(bits, seq![a, b, c]) == (SimilarityView {
            total: 768 - hamming(bits[a], bits[b]) - hamming(bits[a], bits[c]) - hamming(
                bits[b],
                bits[c],
            ),
            pairs: 3,
        }),
        average(bits, seq![a]) == (SimilarityView { total: 256, pairs: 1 }),
{
    reveal_with_fuel(agreeing, 4);
    reveal_with_fuel(agreeing_with, 4);
    reveal_with_fuel(pair_count, 4);
    assert(seq![a, b].drop_last() =~= seq![a]);
    assert(seq![a].drop_last() =~= Seq::<int>::empty());
    assert(seq![a, b, c].drop_last() =~= seq![a, b]);
}

/// Among `n` things there are `n * (n - 1) / 2` pairs.
proof fn lemma_pair_count_formula(n: nat)
    ensures
        2 * pair_count(n) == n * (n - 1),
    decreases n,
{
    if n > 0 {
        let m = (n - 1) as nat;
        lemma_pair_count_formula(m);
        assert(m * (m - 1) + 2 * m == n * (n - 1)) by (nonlinear_arith)
            requires
                n == m + 1,
        ;
    } else {
        assert(n * (n - 1) == 0) by (nonlinear_arith)
            requires
                n == 0,
        ;
    }
}

/// A group is given by the names of its repositories, in the order of its members.
pub proof fn law_groups_are_given_by_names(fps: Seq<FingerprintView>, gs: Seq<Grouping>, g: int)
    requires
        0 <= g < gs.len(),
    ensures
        all_named(gs, fps).len() == gs.len(),
        all_named(gs, fps)[g].kind == gs[g].kind,
        all_named(gs, fps)[g].primary == fps[gs[g].primary].repo_name,
        all_named(gs, fps)[g].similarity == gs[g].similarity,
        all_named(gs, fps)[g].repos.len() == gs[g].members.len(),
        forall|k: int|
            0 <= k < gs[g].members.len() ==> #[trigger] all_named(gs, fps)[g].repos[k]
                == fps[gs[g].members[k]].repo_name,
{
}

/// Repositories are compared by their own feature bits.
pub proof fn law_bits_are_those_of_the_fingerprints(fps: Seq<FingerprintView>, i: int)
    requires
        0 <= i < fps.len(),
    ensures
        all_bits(fps).len() == fps.len(),
        all_bits(fps)[i] == feature_bits(fps[i]),
{
}

} // verus!
