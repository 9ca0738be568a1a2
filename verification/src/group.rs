//! Grouping of repositories: exact duplicates, near duplicates, forks.
//!
//! Three passes over the fingerprints, in this order. A repository whose name
//! is in a group already takes no part in the second and third pass.

use crate::fingerprint::{feature_bits, Fingerprint, FingerprintView};
use crate::hamming::{hamming, hamming_distance, law_distance_bound};
use crate::names::{base_name, base_of};
use crate::text::texts;
use vstd::prelude::*;
use vstd::utf8::encode_utf8;

verus! {

/// Why the repositories of a group belong together.
#[derive(Debug, Clone, Copy, PartialEq, Eq, Structural)]
pub enum GroupKind {
    /// The same content hash.
    ExactDuplicate,
    /// Feature bits that differ in few places.
    NearDuplicate,
    /// The same base name, and feature bits that differ in not too many places.
    Fork,
}

/// How alike the repositories of a group are: of the 256 feature bits of each of
/// `pairs` pairs, `256 * whole + rest` agree.
#[derive(Debug, Clone, Copy, PartialEq, Eq, Structural)]
pub struct Similarity {
    pub whole: u128,
    pub rest: u8,
    pub pairs: u128,
}

/// The contents of a similarity: the share `total / (256 * pairs)`, where `total`
/// counts, over all pairs, the feature bits that agree.
pub struct SimilarityView {
    pub total: int,
    pub pairs: nat,
}

impl View for Similarity {
    type V = SimilarityView;

    open spec fn view(&self) -> SimilarityView {
        SimilarityView { total: 256 * self.whole + self.rest, pairs: self.pairs as nat }
    }
}

/// A group of repositories.
#[derive(Debug, Clone)]
pub struct RepoGroup {
    pub kind: GroupKind,
    /// The names of the repositories.
    pub repos: Vec<String>,
    /// The name of the repository to keep.
    pub primary: String,
    /// How alike they are.
    pub similarity: Similarity,
}

/// The contents of a group.
#[verifier::ext_equal]
pub struct RepoGroupView {
    pub kind: GroupKind,
    pub repos: Seq<Seq<char>>,
    pub primary: Seq<char>,
    pub similarity: SimilarityView,
}

impl View for RepoGroup {
    type V = RepoGroupView;

    open spec fn view(&self) -> RepoGroupView {
        RepoGroupView {
            kind: self.kind,
            repos: texts(self.repos@),
            primary: self.primary@,
            similarity: self.similarity@,
        }
    }
}

/// The contents of each group of `v`.
pub open spec fn group_views(v: Seq<RepoGroup>) -> Seq<RepoGroupView> {
    v.map_values(|g: RepoGroup| g@)
}

/// The contents of each fingerprint of `v`.
pub open spec fn prints(v: Seq<Fingerprint>) -> Seq<FingerprintView> {
    v.map_values(|f: Fingerprint| f@)
}

/// The bytes of each array of `v`.
pub open spec fn bit_views(v: Seq<[u8; 32]>) -> Seq<Seq<u8>> {
    v.map_values(|b: [u8; 32]| b@)
}

/// The feature bits of each fingerprint.
pub open spec fn all_bits(fps: Seq<FingerprintView>) -> Seq<Seq<u8>> {
    fps.map_values(|f: FingerprintView| feature_bits(f))
}

/// A group, with the repositories given by their places among the fingerprints.
#[verifier::ext_equal]
pub struct Grouping {
    pub kind: GroupKind,
    pub members: Seq<int>,
    pub primary: int,
    pub similarity: SimilarityView,
}

/// The group `g` with the names that `fps` gives to its repositories.
pub open spec fn named(g: Grouping, fps: Seq<FingerprintView>) -> RepoGroupView {
    RepoGroupView {
        kind: g.kind,
        repos: g.members.map_values(|i: int| fps[i].repo_name),
        primary: fps[g.primary].repo_name,
        similarity: g.similarity,
    }
}

/// The groups `gs` with the names that `fps` gives to their repositories.
pub open spec fn all_named(gs: Seq<Grouping>, fps: Seq<FingerprintView>) -> Seq<RepoGroupView> {
    gs.map_values(|g: Grouping| named(g, fps))
}

/// One string of thirty-two bytes for each fingerprint.
pub open spec fn comparable(fps: Seq<FingerprintView>, bits: Seq<Seq<u8>>) -> bool {
    &&& bits.len() == fps.len()
    &&& forall|i: int| 0 <= i < bits.len() ==> (#[trigger] bits[i]).len() == 32
}

/// How much there is to a repository: a README, commits up to a thousand,
/// tests tenfold, source files.
pub open spec fn score(fp: FingerprintView) -> int {
    (if fp.has_readme {
        100int
    } else {
        0int
    }) + (if fp.commit_count <= 1000 {
        fp.commit_count as int
    } else {
        1000int
    }) + fp.test_count * 10 + fp.source_file_count
}

/// The member with the highest score; of several, the last.
pub open spec fn best(fps: Seq<FingerprintView>, members: Seq<int>) -> int
    decreases members.len(),
{
    if members.len() <= 1 {
        members[0]
    } else {
        let before = best(fps, members.drop_last());
        if score(fps[members.last()]) >= score(fps[before]) {
            members.last()
        } else {
            before
        }
    }
}

/// Complete likeness.
pub open spec fn full() -> SimilarityView {
    SimilarityView { total: 256, pairs: 1 }
}

/// The likeness of two repositories whose feature bits differ in `distance` places.
pub open spec fn likeness(distance: nat) -> SimilarityView {
    SimilarityView { total: 256 - distance, pairs: 1 }
}

/// The bits that agree between `x` and each of `members`, added up.
pub open spec fn agreeing_with(bits: Seq<Seq<u8>>, members: Seq<int>, x: int) -> int
    decreases members.len(),
{
    if members.len() == 0 {
        0
    } else {
        agreeing_with(bits, members.drop_last(), x) + (256 - hamming(bits[members.last()], bits[x]))
    }
}

/// The bits that agree, added up over all pairs of `members`.
pub open spec fn agreeing(bits: Seq<Seq<u8>>, members: Seq<int>) -> int
    decreases members.len(),
{
    if members.len() == 0 {
        0
    } else {
        agreeing(bits, members.drop_last()) + agreeing_with(
            bits,
            members.drop_last(),
            members.last(),
        )
    }
}

/// The number of pairs among `n` things.
pub open spec fn pair_count(n: nat) -> nat
    decreases n,
{
    if n == 0 {
        0
    } else {
        pair_count((n - 1) as nat) + (n - 1) as nat
    }
}

/// The likeness of `members`, averaged over all pairs.
pub open spec fn average(bits: Seq<Seq<u8>>, members: Seq<int>) -> SimilarityView {
    if members.len() < 2 {
        full()
    } else {
        SimilarityView { total: agreeing(bits, members), pairs: pair_count(members.len()) }
    }
}

/// The places before `n` whose content hash is that of place `i`.
pub open spec fn same_hash(fps: Seq<FingerprintView>, i: int, n: int) -> Seq<int>
    decreases n,
{
    if n <= 0 {
        Seq::empty()
    } else if fps[n - 1].content_hash == fps[i].content_hash {
        same_hash(fps, i, n - 1).push(n - 1)
    } else {
        same_hash(fps, i, n - 1)
    }
}

/// Whether `i` is the first place with its content hash.
pub open spec fn is_leader(fps: Seq<FingerprintView>, i: int) -> bool {
    forall|j: int| 0 <= j < i ==> (#[trigger] fps[j]).content_hash != fps[i].content_hash
}

/// The group of all repositories with the content hash of place `i`.
pub open spec fn exact_group(fps: Seq<FingerprintView>, i: int) -> Grouping {
    let members = same_hash(fps, i, fps.len() as int);
    Grouping {
        kind: GroupKind::ExactDuplicate,
        members,
        primary: best(fps, members),
        similarity: full(),
    }
}

/// The groups of exact duplicates whose first place is before `n`: one for each
/// content hash that occurs more than once.
pub open spec fn exact_groups(fps: Seq<FingerprintView>, n: int) -> Seq<Grouping>
    decreases n,
{
    if n <= 0 {
        Seq::empty()
    } else {
        let before = exact_groups(fps, n - 1);
        if is_leader(fps, n - 1) && same_hash(fps, n - 1, fps.len() as int).len() >= 2 {
            before.push(exact_group(fps, n - 1))
        } else {
            before
        }
    }
}

/// Whether a repository of the name of place `i` is in one of the groups `gs`.
pub open spec fn taken(fps: Seq<FingerprintView>, gs: Seq<Grouping>, i: int) -> bool {
    exists|g: int, k: int|
        #![trigger gs[g].members[k]]
        0 <= g < gs.len() && 0 <= k < gs[g].members.len() && fps[gs[g].members[k]].repo_name
            == fps[i].repo_name
}

/// The first place at or behind `j` that is free and whose feature bits differ
/// from those of place `i` in at most `max` places.
pub open spec fn first_near(
    fps: Seq<FingerprintView>,
    bits: Seq<Seq<u8>>,
    max: int,
    gs: Seq<Grouping>,
    i: int,
    j: int,
) -> Option<int>
    decreases fps.len() - j,
{
    if j >= fps.len() {
        None
    } else if !taken(fps, gs, j) && hamming(bits[i], bits[j]) <= max {
        Some(j)
    } else {
        first_near(fps, bits, max, gs, i, j + 1)
    }
}

/// The group of two near duplicates.
pub open spec fn near_group(
    fps: Seq<FingerprintView>,
    bits: Seq<Seq<u8>>,
    i: int,
    j: int,
) -> Grouping {
    Grouping {
        kind: GroupKind::NearDuplicate,
        members: seq![i, j],
        primary: if score(fps[i]) >= score(fps[j]) {
            i
        } else {
            j
        },
        similarity: likeness(hamming(bits[i], bits[j])),
    }
}

/// The groups of exact duplicates, and behind them those of near duplicates
/// that start at a place before `n`: each free repository is paired with the
/// first free one behind it that is near enough.
pub open spec fn near_groups(
    fps: Seq<FingerprintView>,
    bits: Seq<Seq<u8>>,
    max: int,
    n: int,
) -> Seq<Grouping>
    decreases n,
{
    if n <= 0 {
        exact_groups(fps, fps.len() as int)
    } else {
        let before = near_groups(fps, bits, max, n - 1);
        if taken(fps, before, n - 1) {
            before
        } else {
            match first_near(fps, bits, max, before, n - 1, n) {
                Some(j) => before.push(near_group(fps, bits, n - 1, j)),
                None => before,
            }
        }
    }
}

/// Whether place `j` is free and looks like a fork of place `i`: the same base
/// name, of three bytes or more, and feature bits that differ in at most three
/// times `max` places.
pub open spec fn is_fork(
    fps: Seq<FingerprintView>,
    bits: Seq<Seq<u8>>,
    max: int,
    gs: Seq<Grouping>,
    i: int,
    j: int,
) -> bool {
    &&& !taken(fps, gs, j)
    &&& base_of(fps[i].repo_name) == base_of(fps[j].repo_name)
    &&& encode_utf8(base_of(fps[i].repo_name)).len() >= 3
    &&& hamming(bits[i], bits[j]) <= max * 3
}

/// Place `i`, and the places behind it and before `n` that look like forks of it.
pub open spec fn forks(
    fps: Seq<FingerprintView>,
    bits: Seq<Seq<u8>>,
    max: int,
    gs: Seq<Grouping>,
    i: int,
    n: int,
) -> Seq<int>
    decreases n - i,
{
    if n <= i + 1 {
        seq![i]
    } else if is_fork(fps, bits, max, gs, i, n - 1) {
        forks(fps, bits, max, gs, i, n - 1).push(n - 1)
    } else {
        forks(fps, bits, max, gs, i, n - 1)
    }
}

/// The group of the forks `members`.
pub open spec fn fork_group(
    fps: Seq<FingerprintView>,
    bits: Seq<Seq<u8>>,
    members: Seq<int>,
) -> Grouping {
    Grouping {
        kind: GroupKind::Fork,
        members,
        primary: best(fps, members),
        similarity: average(bits, members),
    }
}

/// The groups of exact and near duplicates, and behind them those of forks that
/// start at a place before `n`.
pub open spec fn fork_groups(
    fps: Seq<FingerprintView>,
    bits: Seq<Seq<u8>>,
    max: int,
    n: int,
) -> Seq<Grouping>
    decreases n,
{
    if n <= 0 {
        near_groups(fps, bits, max, fps.len() as int)
    } else {
        let before = fork_groups(fps, bits, max, n - 1);
        let members = forks(fps, bits, max, before, n - 1, fps.len() as int);
        if !taken(fps, before, n - 1) && members.len() >= 2 {
            before.push(fork_group(fps, bits, members))
        } else {
            before
        }
    }
}

/// All groups: exact duplicates, near duplicates, forks.
pub open spec fn grouped(fps: Seq<FingerprintView>, bits: Seq<Seq<u8>>, max: int) -> Seq<Grouping> {
    fork_groups(fps, bits, max, fps.len() as int)
}

/// The places of `v`.
pub open spec fn places(v: Seq<usize>) -> Seq<int> {
    v.map_values(|i: usize| i as int)
}

/// How much there is to the repository `fp`.
fn score_repo(fp: &Fingerprint) -> (r: u64)
    ensures
        r == score(fp@),
{
    let mut r: u64 = 0;
    if fp.has_readme {
        r += 100;
    }
    r += if fp.commit_count <= 1000 {
        fp.commit_count as u64
    } else {
        1000
    };
    r += fp.test_count as u64 * 10;
    r += fp.source_file_count as u64;
    r
}

/// The place with the highest score; of several, the last.
fn pick_best(indices: &[usize], fingerprints: &[Fingerprint]) -> (r: usize)
    requires
        indices@.len() > 0,
        forall|k: int| 0 <= k < indices@.len() ==> #[trigger] indices@[k] < fingerprints@.len(),
    ensures
        r == best(prints(fingerprints@), places(indices@)),
        r < fingerprints@.len(),
{
    let ghost fps = prints(fingerprints@);
    let ghost all = places(indices@);
    let mut r: usize = indices[0];
    let mut k: usize = 1;
    assert(all.take(1).len() == 1);
    while k < indices.len()
        invariant
            1 <= k <= indices@.len(),
            r < fingerprints@.len(),
            fps == prints(fingerprints@),
            all == places(indices@),
            r == best(fps, all.take(k as int)),
            forall|k: int| 0 <= k < indices@.len() ==> #[trigger] indices@[k] < fingerprints@.len(),
        decreases indices@.len() - k,
    {
        proof {
            assert(all.take(k + 1).drop_last() =~= all.take(k as int));
            assert(all.take(k + 1).last() == indices@[k as int] as int);
        }
        let i: usize = indices[k];
        if score_repo(&fingerprints[i]) >= score_repo(&fingerprints[r]) {
            r = i;
        }
        k += 1;
    }
    assert(all.take(indices@.len() as int) =~= all);
    r
}

/// There is room for the pairs among as many things as can be counted.
proof fn lemma_pair_count_bound(n: nat)
    requires
        n <= u64::MAX,
    ensures
        pair_count(n) <= n * 0x1_0000_0000_0000_0000,
        pair_count(n) <= u128::MAX,
    decreases n,
{
    if n > 0 {
        lemma_pair_count_bound((n - 1) as nat);
    }
}

/// Of 256 bits, at most 256 agree.
proof fn lemma_agreeing_with_bound(bits: Seq<Seq<u8>>, members: Seq<int>, x: int)
    requires
        forall|i: int| 0 <= i < bits.len() ==> (#[trigger] bits[i]).len() == 32,
        forall|k: int| 0 <= k < members.len() ==> 0 <= #[trigger] members[k] < bits.len(),
    ensures
        0 <= agreeing_with(bits, members, x) <= 256 * members.len(),
    decreases members.len(),
{
    if members.len() > 0 {
        let f = members.drop_last();
        assert forall|k: int| 0 <= k < f.len() implies 0 <= #[trigger] f[k] < bits.len() by {
            assert(f[k] == members[k]);
        }
        lemma_agreeing_with_bound(bits, f, x);
        assert(members.last() == members[members.len() - 1]);
        law_distance_bound(bits[members.last()], bits[x]);
    }
}

/// The agreeing bits are at most 256 for each pair.
pub proof fn lemma_agreeing_bound(bits: Seq<Seq<u8>>, members: Seq<int>)
    requires
        forall|i: int| 0 <= i < bits.len() ==> (#[trigger] bits[i]).len() == 32,
        forall|k: int| 0 <= k < members.len() ==> 0 <= #[trigger] members[k] < bits.len(),
    ensures
        0 <= agreeing(bits, members) <= 256 * pair_count(members.len()),
    decreases members.len(),
{
    if members.len() > 0 {
        let f = members.drop_last();
        assert forall|k: int| 0 <= k < f.len() implies 0 <= #[trigger] f[k] < bits.len() by {
            assert(f[k] == members[k]);
        }
        lemma_agreeing_bound(bits, f);
        lemma_agreeing_with_bound(bits, f, members.last());
    }
}

/// The likeness of two repositories whose feature bits differ in `distance` places.
fn likeness_at(distance: u32) -> (r: Similarity)
    requires
        distance <= 256,
    ensures
        r@ == likeness(distance as nat),
{
    if distance == 0 {
        Similarity { whole: 1, rest: 0, pairs: 1 }
    } else {
        Similarity { whole: 0, rest: (256 - distance) as u8, pairs: 1 }
    }
}

/// The likeness of the repositories at `indices`, averaged over all pairs.
pub fn compute_avg_similarity(indices: &[usize], bits: &[[u8; 32]]) -> (r: Similarity)
    requires
        forall|k: int| 0 <= k < indices@.len() ==> #[trigger] indices@[k] < bits@.len(),
    ensures
        r@ == average(bit_views(bits@), places(indices@)),
{
    if indices.len() < 2 {
        return likeness_at(0);
    }
    let ghost views = bit_views(bits@);
    let ghost all = places(indices@);
    let mut whole: u128 = 0;
    let mut rest: u32 = 0;
    let mut pairs: u128 = 0;
    let mut j: usize = 0;
    assert(all.take(0).len() == 0);
    while j < indices.len()
        invariant
            j <= indices@.len(),
            forall|k: int| 0 <= k < indices@.len() ==> #[trigger] indices@[k] < bits@.len(),
            views == bit_views(bits@),
            all == places(indices@),
            256 * whole + rest == agreeing(views, all.take(j as int)),
            rest < 256,
            pairs == pair_count(j as nat),
        decreases indices@.len() - j,
    {
        proof {
            lemma_pair_count_bound((j + 1) as nat);
            lemma_agreeing_bound(views, all.take(j as int));
            assert(all.take(j + 1).drop_last() =~= all.take(j as int));
            assert(all.take(j + 1).last() == indices@[j as int] as int);
            assert(all.take(0).len() == 0);
        }
        let ghost before = 256 * whole + rest;
        let mut i: usize = 0;
        while i < j
            invariant
                i <= j < indices@.len(),
                forall|k: int| 0 <= k < indices@.len() ==> #[trigger] indices@[k] < bits@.len(),
                views == bit_views(bits@),
                all == places(indices@),
                256 * whole + rest == before + agreeing_with(
                    views,
                    all.take(i as int),
                    indices@[j as int] as int,
                ),
                rest < 256,
                0 <= before <= 256 * pair_count(j as nat),
                pair_count(j as nat) + j <= u128::MAX,
            decreases j - i,
        {
            proof {
                assert(all.take(i + 1).drop_last() =~= all.take(i as int));
                assert(all.take(i + 1).last() == indices@[i as int] as int);
                lemma_agreeing_with_bound(views, all.take(i as int), indices@[j as int] as int);
                law_distance_bound(
                    views[indices@[i as int] as int],
                    views[indices@[j as int] as int],
                );
            }
            let distance: u32 = hamming_distance(
                bits[indices[i]].as_slice(),
                bits[indices[j]].as_slice(),
            );
            rest += 256 - distance;
            if rest >= 256 {
                whole += 1;
                rest -= 256;
            }
            i += 1;
        }
        pairs += j as u128;
        j += 1;
    }
    assert(all.take(indices@.len() as int) =~= all);
    Similarity { whole, rest: rest as u8, pairs }
}

/// The group of the repositories at `members`.
fn make_group(
    kind: GroupKind,
    members: &[usize],
    primary: usize,
    similarity: Similarity,
    fingerprints: &[Fingerprint],
) -> (r: RepoGroup)
    requires
        primary < fingerprints@.len(),
        forall|k: int| 0 <= k < members@.len() ==> #[trigger] members@[k] < fingerprints@.len(),
    ensures
        r@ == named(
            (Grouping {
                kind,
                members: places(members@),
                primary: primary as int,
                similarity: similarity@,
            }),
            prints(fingerprints@),
        ),
{
    let mut repos: Vec<String> = Vec::new();
    let mut k: usize = 0;
    while k < members.len()
        invariant
            k <= members@.len(),
            repos@.len() == k,
            forall|k: int| 0 <= k < members@.len() ==> #[trigger] members@[k] < fingerprints@.len(),
            forall|m: int|
                0 <= m < k ==> (#[trigger] repos@[m])@
                    == fingerprints@[members@[m] as int].repo_name@,
        decreases members@.len() - k,
    {
        repos.push(fingerprints[members[k]].repo_name.clone());
        k += 1;
    }
    let r: RepoGroup = RepoGroup {
        kind,
        repos,
        primary: fingerprints[primary].repo_name.clone(),
        similarity,
    };
    proof {
        let g = Grouping {
            kind,
            members: places(members@),
            primary: primary as int,
            similarity: similarity@,
        };
        assert(r@.repos =~= named(g, prints(fingerprints@)).repos);
    }
    r
}

/// Groups do not free what they have taken.
pub proof fn lemma_taken_push(fps: Seq<FingerprintView>, gs: Seq<Grouping>, g: Grouping, i: int)
    ensures
        taken(fps, gs.push(g), i) <==> taken(fps, gs, i) || exists|k: int|
            0 <= k < g.members.len() && fps[#[trigger] g.members[k]].repo_name == fps[i].repo_name,
{
    let after = gs.push(g);
    if taken(fps, gs, i) {
        let (a, k) = choose|a: int, k: int|
            #![trigger gs[a].members[k]]
            0 <= a < gs.len() && 0 <= k < gs[a].members.len() && fps[gs[a].members[k]].repo_name
                == fps[i].repo_name;
        assert(after[a].members[k] == gs[a].members[k]);
    }
    if exists|k: int|
        0 <= k < g.members.len() && fps[#[trigger] g.members[k]].repo_name == fps[i].repo_name {
        let k = choose|k: int|
            0 <= k < g.members.len() && fps[#[trigger] g.members[k]].repo_name == fps[i].repo_name;
        assert(after[gs.len() as int].members[k] == g.members[k]);
    }
    if taken(fps, after, i) {
        let (a, k) = choose|a: int, k: int|
            #![trigger after[a].members[k]]
            0 <= a < after.len() && 0 <= k < after[a].members.len()
                && fps[after[a].members[k]].repo_name == fps[i].repo_name;
        if a < gs.len() {
            assert(gs[a].members[k] == after[a].members[k]);
        } else {
            assert(g.members[k] == after[a].members[k]);
        }
    }
}

/// Marks as taken the places that share a name with one of `members`, which
/// are those of the new group `g`.
fn mark_taken(
    flags: &mut Vec<bool>,
    members: &[usize],
    fingerprints: &[Fingerprint],
    Ghost(gs): Ghost<Seq<Grouping>>,
    Ghost(g): Ghost<Grouping>,
)
    requires
        g.members == places(members@),
        old(flags)@.len() == fingerprints@.len(),
        forall|k: int| 0 <= k < members@.len() ==> #[trigger] members@[k] < fingerprints@.len(),
        forall|i: int|
            0 <= i < fingerprints@.len() ==> #[trigger] old(flags)@[i] == taken(
                prints(fingerprints@),
                gs,
                i,
            ),
    ensures
        final(flags)@.len() == fingerprints@.len(),
        forall|i: int|
            0 <= i < fingerprints@.len() ==> #[trigger] final(flags)@[i] == taken(
                prints(fingerprints@),
                gs.push(g),
                i,
            ),
{
    let ghost fps = prints(fingerprints@);
    let mut i: usize = 0;
    while i < fingerprints.len()
        invariant
            i <= fingerprints@.len(),
            fps == prints(fingerprints@),
            g.members == places(members@),
            flags@.len() == fingerprints@.len(),
            forall|k: int| 0 <= k < members@.len() ==> #[trigger] members@[k] < fingerprints@.len(),
            forall|m: int|
                i <= m < fingerprints@.len() ==> #[trigger] flags@[m] == taken(fps, gs, m),
            forall|m: int| 0 <= m < i ==> #[trigger] flags@[m] == taken(fps, gs.push(g), m),
        decreases fingerprints@.len() - i,
    {
        proof {
            lemma_taken_push(fps, gs, g, i as int);
        }
        let mut k: usize = 0;
        let mut found: bool = flags[i];
        while k < members.len() && !found
            invariant
                k <= members@.len(),
                i < fingerprints@.len(),
                fps == prints(fingerprints@),
                g.members == places(members@),
                forall|k: int|
                    0 <= k < members@.len() ==> #[trigger] members@[k] < fingerprints@.len(),
                found <==> taken(fps, gs, i as int) || exists|m: int|
                    0 <= m < k && fps[#[trigger] g.members[m]].repo_name
                        == fps[i as int].repo_name,
            decreases members@.len() - k,
        {
            if fingerprints[members[k]].repo_name == fingerprints[i].repo_name {
                assert(fps[g.members[k as int]].repo_name == fps[i as int].repo_name);
                found = true;
            }
            k += 1;
        }
        flags.set(i, found);
        i += 1;
    }
}

/// Naming a longer list of groups names the new one and leaves the others.
proof fn lemma_named_push(
    groups: Seq<RepoGroup>,
    r: RepoGroup,
    gs: Seq<Grouping>,
    g: Grouping,
    fps: Seq<FingerprintView>,
)
    requires
        group_views(groups) == all_named(gs, fps),
        r@ == named(g, fps),
    ensures
        group_views(groups.push(r)) == all_named(gs.push(g), fps),
{
    assert(group_views(groups.push(r)) =~= group_views(groups).push(r@));
    assert(all_named(gs.push(g), fps) =~= all_named(gs, fps).push(named(g, fps)));
}

/// The places `same_hash` lists are places of fingerprints.
pub proof fn lemma_same_hash_range(fps: Seq<FingerprintView>, i: int, n: int)
    requires
        0 <= n,
    ensures
        forall|k: int|
            0 <= k < same_hash(fps, i, n).len() ==> 0 <= #[trigger] same_hash(fps, i, n)[k] < n,
    decreases n,
{
    if n > 0 {
        let before = same_hash(fps, i, n - 1);
        lemma_same_hash_range(fps, i, n - 1);
        assert forall|k: int| 0 <= k < same_hash(fps, i, n).len() implies 0
            <= #[trigger] same_hash(fps, i, n)[k] < n by {
            if k < before.len() {
                assert(same_hash(fps, i, n)[k] == before[k]);
            }
        }
    }
}

/// The first pass: a group for each content hash that occurs more than once.
fn find_exact(fingerprints: &[Fingerprint]) -> (r: (Vec<RepoGroup>, Vec<bool>))
    ensures
        group_views(r.0@) == all_named(
            exact_groups(prints(fingerprints@), fingerprints@.len() as int),
            prints(fingerprints@),
        ),
        r.1@.len() == fingerprints@.len(),
        forall|i: int|
            0 <= i < fingerprints@.len() ==> #[trigger] r.1@[i] == taken(
                prints(fingerprints@),
                exact_groups(prints(fingerprints@), fingerprints@.len() as int),
                i,
            ),
{
    let ghost fps = prints(fingerprints@);
    let n: usize = fingerprints.len();
    let mut groups: Vec<RepoGroup> = Vec::new();
    let mut flags: Vec<bool> = Vec::new();
    let mut f: usize = 0;
    while f < n
        invariant
            f <= n,
            flags@.len() == f,
            forall|k: int| 0 <= k < f ==> !(#[trigger] flags@[k]),
        decreases n - f,
    {
        flags.push(false);
        f += 1;
    }
    assert(group_views(groups@) =~= all_named(exact_groups(fps, 0), fps));
    let mut i: usize = 0;
    while i < n
        invariant
            i <= n,
            n == fingerprints@.len(),
            fps == prints(fingerprints@),
            group_views(groups@) == all_named(exact_groups(fps, i as int), fps),
            flags@.len() == n,
            forall|k: int|
                0 <= k < n ==> #[trigger] flags@[k] == taken(fps, exact_groups(fps, i as int), k),
        decreases n - i,
    {
        let mut leader: bool = true;
        let mut j: usize = 0;
        while j < i && leader
            invariant
                j <= i < n,
                n == fingerprints@.len(),
                fps == prints(fingerprints@),
                leader <==> forall|k: int|
                    0 <= k < j ==> (#[trigger] fps[k]).content_hash != fps[i as int].content_hash,
            decreases i - j,
        {
            if fingerprints[j].content_hash == fingerprints[i].content_hash {
                assert(fps[j as int].content_hash == fps[i as int].content_hash);
                leader = false;
            }
            j += 1;
        }
        assert(leader == is_leader(fps, i as int));
        if leader {
            let mut members: Vec<usize> = Vec::new();
            assert(places(members@) =~= same_hash(fps, i as int, 0));
            let mut m: usize = 0;
            while m < n
                invariant
                    m <= n,
                    i < n,
                    n == fingerprints@.len(),
                    fps == prints(fingerprints@),
                    places(members@) == same_hash(fps, i as int, m as int),
                decreases n - m,
            {
                if fingerprints[m].content_hash == fingerprints[i].content_hash {
                    assert(places(members@.push(m)) =~= places(members@).push(m as int));
                    members.push(m);
                }
                m += 1;
            }
            if members.len() >= 2 {
                let ghost gs = exact_groups(fps, i as int);
                let ghost g = exact_group(fps, i as int);
                proof {
                    lemma_same_hash_range(fps, i as int, n as int);
                    assert forall|k: int| 0 <= k < members@.len() implies #[trigger] members@[k]
                        < n by {
                        assert(places(members@)[k] == members@[k] as int);
                    }
                }
                let primary: usize = pick_best(members.as_slice(), fingerprints);
                let group: RepoGroup = make_group(
                    GroupKind::ExactDuplicate,
                    members.as_slice(),
                    primary,
                    likeness_at(0),
                    fingerprints,
                );
                mark_taken(&mut flags, members.as_slice(), fingerprints, Ghost(gs), Ghost(g));
                proof {
                    lemma_named_push(groups@, group, gs, g, fps);
                }
                groups.push(group);
            }
        }
        i += 1;
    }
    (groups, flags)
}

/// The second pass: pairs of near duplicates.
fn find_near(
    groups: Vec<RepoGroup>,
    flags: Vec<bool>,
    fingerprints: &[Fingerprint],
    bits: &[[u8; 32]],
    max_distance: u32,
) -> (r: (Vec<RepoGroup>, Vec<bool>))
    requires
        bits@.len() == fingerprints@.len(),
        group_views(groups@) == all_named(
            exact_groups(prints(fingerprints@), fingerprints@.len() as int),
            prints(fingerprints@),
        ),
        flags@.len() == fingerprints@.len(),
        forall|i: int|
            0 <= i < fingerprints@.len() ==> #[trigger] flags@[i] == taken(
                prints(fingerprints@),
                exact_groups(prints(fingerprints@), fingerprints@.len() as int),
                i,
            ),
    ensures
        group_views(r.0@) == all_named(
            near_groups(
                prints(fingerprints@),
                bit_views(bits@),
                max_distance as int,
                fingerprints@.len() as int,
            ),
            prints(fingerprints@),
        ),
        r.1@.len() == fingerprints@.len(),
        forall|i: int|
            0 <= i < fingerprints@.len() ==> #[trigger] r.1@[i] == taken(
                prints(fingerprints@),
                near_groups(
                    prints(fingerprints@),
                    bit_views(bits@),
                    max_distance as int,
                    fingerprints@.len() as int,
                ),
                i,
            ),
{
    let ghost fps = prints(fingerprints@);
    let ghost views = bit_views(bits@);
    let ghost max = max_distance as int;
    let n: usize = fingerprints.len();
    let mut groups: Vec<RepoGroup> = groups;
    let mut flags: Vec<bool> = flags;
    let mut i: usize = 0;
    while i < n
        invariant
            i <= n,
            n == fingerprints@.len(),
            n == bits@.len(),
            fps == prints(fingerprints@),
            views == bit_views(bits@),
            max == max_distance,
            group_views(groups@) == all_named(near_groups(fps, views, max, i as int), fps),
            flags@.len() == n,
            forall|k: int|
                0 <= k < n ==> #[trigger] flags@[k] == taken(
                    fps,
                    near_groups(fps, views, max, i as int),
                    k,
                ),
        decreases n - i,
    {
        let ghost gs = near_groups(fps, views, max, i as int);
        if !flags[i] {
            let mut j: usize = i + 1;
            let mut distance: u32 = 0;
            let mut found: bool = false;
            while j < n && !found
                invariant
                    i < j <= n,
                    n == fingerprints@.len(),
                    n == bits@.len(),
                    fps == prints(fingerprints@),
                    views == bit_views(bits@),
                    max == max_distance,
                    flags@.len() == n,
                    forall|k: int| 0 <= k < n ==> #[trigger] flags@[k] == taken(fps, gs, k),
                    found ==> j < n && !taken(fps, gs, j as int) && distance == hamming(
                        views[i as int],
                        views[j as int],
                    ) && distance <= max,
                    first_near(fps, views, max, gs, i as int, i + 1) == first_near(
                        fps,
                        views,
                        max,
                        gs,
                        i as int,
                        j as int,
                    ),
                decreases 2 * (n - j) - (if found {
                    1int
                } else {
                    0int
                }),
            {
                if flags[j] {
                    j += 1;
                } else {
                    proof {
                        law_distance_bound(views[i as int], views[j as int]);
                    }
                    distance = hamming_distance(bits[i].as_slice(), bits[j].as_slice());
                    if distance <= max_distance {
                        found = true;
                    } else {
                        j += 1;
                    }
                }
            }
            if found {
                let primary: usize = if score_repo(&fingerprints[i]) >= score_repo(
                    &fingerprints[j],
                ) {
                    i
                } else {
                    j
                };
                proof {
                    law_distance_bound(views[i as int], views[j as int]);
                }
                let members: Vec<usize> = vec![i, j];
                let ghost g = near_group(fps, views, i as int, j as int);
                assert(places(members@) =~= seq![i as int, j as int]);
                let group: RepoGroup = make_group(
                    GroupKind::NearDuplicate,
                    members.as_slice(),
                    primary,
                    likeness_at(distance),
                    fingerprints,
                );
                mark_taken(&mut flags, members.as_slice(), fingerprints, Ghost(gs), Ghost(g));
                proof {
                    lemma_named_push(groups@, group, gs, g, fps);
                }
                groups.push(group);
            }
        }
        i += 1;
    }
    (groups, flags)
}

/// What `forks` lists are places of fingerprints, and there are no more of them
/// than fingerprints.
pub proof fn lemma_forks_range(
    fps: Seq<FingerprintView>,
    bits: Seq<Seq<u8>>,
    max: int,
    gs: Seq<Grouping>,
    i: int,
    n: int,
)
    requires
        0 <= i < n,
    ensures
        1 <= forks(fps, bits, max, gs, i, n).len() <= n - i,
        forall|k: int|
            0 <= k < forks(fps, bits, max, gs, i, n).len() ==> i <= #[trigger] forks(
                fps,
                bits,
                max,
                gs,
                i,
                n,
            )[k] < n,
    decreases n - i,
{
    if n > i + 1 {
        let before = forks(fps, bits, max, gs, i, n - 1);
        let after = forks(fps, bits, max, gs, i, n);
        lemma_forks_range(fps, bits, max, gs, i, n - 1);
        assert forall|k: int| 0 <= k < after.len() implies i <= #[trigger] after[k] < n by {
            if k < before.len() {
                assert(after[k] == before[k]);
            }
        }
    }
}

/// The third pass: repositories that share a base name.
fn find_forks(
    groups: Vec<RepoGroup>,
    flags: Vec<bool>,
    fingerprints: &[Fingerprint],
    bits: &[[u8; 32]],
    max_distance: u32,
) -> (r: Vec<RepoGroup>)
    requires
        bits@.len() == fingerprints@.len(),
        group_views(groups@) == all_named(
            near_groups(
                prints(fingerprints@),
                bit_views(bits@),
                max_distance as int,
                fingerprints@.len() as int,
            ),
            prints(fingerprints@),
        ),
        flags@.len() == fingerprints@.len(),
        forall|i: int|
            0 <= i < fingerprints@.len() ==> #[trigger] flags@[i] == taken(
                prints(fingerprints@),
                near_groups(
                    prints(fingerprints@),
                    bit_views(bits@),
                    max_distance as int,
                    fingerprints@.len() as int,
                ),
                i,
            ),
    ensures
        group_views(r@) == all_named(
            grouped(prints(fingerprints@), bit_views(bits@), max_distance as int),
            prints(fingerprints@),
        ),
{
    let ghost fps = prints(fingerprints@);
    let ghost views = bit_views(bits@);
    let ghost max = max_distance as int;
    let n: usize = fingerprints.len();
    let mut bases: Vec<String> = Vec::new();
    let mut b: usize = 0;
    while b < n
        invariant
            b <= n,
            n == fingerprints@.len(),
            bases@.len() == b,
            forall|k: int|
                0 <= k < b ==> (#[trigger] bases@[k])@ == base_of(fingerprints@[k].repo_name@),
        decreases n - b,
    {
        bases.push(base_name(fingerprints[b].repo_name.as_str()));
        b += 1;
    }
    let mut groups: Vec<RepoGroup> = groups;
    let mut flags: Vec<bool> = flags;
    let mut i: usize = 0;
    while i < n
        invariant
            i <= n,
            n == fingerprints@.len(),
            n == bits@.len(),
            n == bases@.len(),
            fps == prints(fingerprints@),
            views == bit_views(bits@),
            max == max_distance,
            forall|k: int| 0 <= k < n ==> (#[trigger] bases@[k])@ == base_of(fps[k].repo_name),
            group_views(groups@) == all_named(fork_groups(fps, views, max, i as int), fps),
            flags@.len() == n,
            forall|k: int|
                0 <= k < n ==> #[trigger] flags@[k] == taken(
                    fps,
                    fork_groups(fps, views, max, i as int),
                    k,
                ),
        decreases n - i,
    {
        let ghost gs = fork_groups(fps, views, max, i as int);
        if !flags[i] {
            let long_enough: bool = bases[i].as_str().as_bytes().len() >= 3;
            let mut members: Vec<usize> = vec![i];
            assert(places(members@) =~= forks(fps, views, max, gs, i as int, i + 1));
            let mut j: usize = i + 1;
            while j < n
                invariant
                    i < j <= n,
                    n == fingerprints@.len(),
                    n == bits@.len(),
                    n == bases@.len(),
                    fps == prints(fingerprints@),
                    views == bit_views(bits@),
                    max == max_distance,
                    forall|k: int|
                        0 <= k < n ==> (#[trigger] bases@[k])@ == base_of(fps[k].repo_name),
                    long_enough == (encode_utf8(base_of(fps[i as int].repo_name)).len() >= 3),
                    flags@.len() == n,
                    forall|k: int| 0 <= k < n ==> #[trigger] flags@[k] == taken(fps, gs, k),
                    places(members@) == forks(fps, views, max, gs, i as int, j as int),
                decreases n - j,
            {
                if !flags[j] && long_enough && bases[i] == bases[j] {
                    proof {
                        law_distance_bound(views[i as int], views[j as int]);
                    }
                    let distance: u32 = hamming_distance(bits[i].as_slice(), bits[j].as_slice());
                    if distance as u64 <= max_distance as u64 * 3 {
                        assert(places(members@.push(j)) =~= places(members@).push(j as int));
                        members.push(j);
                    }
                }
                j += 1;
            }
            if members.len() >= 2 {
                proof {
                    lemma_forks_range(fps, views, max, gs, i as int, n as int);
                    assert forall|k: int| 0 <= k < members@.len() implies #[trigger] members@[k]
                        < n by {
                        assert(places(members@)[k] == members@[k] as int);
                    }
                }
                let ghost g = fork_group(fps, views, places(members@));
                let primary: usize = pick_best(members.as_slice(), fingerprints);
                let similarity: Similarity = compute_avg_similarity(members.as_slice(), bits);
                let group: RepoGroup = make_group(
                    GroupKind::Fork,
                    members.as_slice(),
                    primary,
                    similarity,
                    fingerprints,
                );
                mark_taken(&mut flags, members.as_slice(), fingerprints, Ghost(gs), Ghost(g));
                proof {
                    lemma_named_push(groups@, group, gs, g, fps);
                }
                groups.push(group);
            }
        }
        i += 1;
    }
    groups
}

/// Groups repositories by their fingerprints and by the feature bits `bits`,
/// one array for each fingerprint.
pub fn group_by_bits(
    fingerprints: &[Fingerprint],
    bits: &[[u8; 32]],
    max_distance: u32,
) -> (r: Vec<RepoGroup>)
    requires
        bits@.len() == fingerprints@.len(),
    ensures
        group_views(r@) == all_named(
            grouped(prints(fingerprints@), bit_views(bits@), max_distance as int),
            prints(fingerprints@),
        ),
{
    let (exact, flags) = find_exact(fingerprints);
    let (near, flags) = find_near(exact, flags, fingerprints, bits, max_distance);
    find_forks(near, flags, fingerprints, bits, max_distance)
}

/// Groups repositories into exact duplicates, near duplicates and forks.
pub fn group_repos(fingerprints: &[Fingerprint], max_distance: u32) -> (r: Vec<RepoGroup>)
    ensures
        group_views(r@) == all_named(
            grouped(
                prints(fingerprints@),
                all_bits(prints(fingerprints@)),
                max_distance as int,
            ),
            prints(fingerprints@),
        ),
        comparable(prints(fingerprints@), all_bits(prints(fingerprints@))),
{
    let mut bits: Vec<[u8; 32]> = Vec::new();
    let mut i: usize = 0;
    while i < fingerprints.len()
        invariant
            i <= fingerprints@.len(),
            bits@.len() == i,
            forall|k: int|
                0 <= k < i ==> (#[trigger] bits@[k])@ == feature_bits(fingerprints@[k]@),
        decreases fingerprints@.len() - i,
    {
        bits.push(fingerprints[i].to_feature_bits());
        i += 1;
    }
    assert(bit_views(bits@) =~= all_bits(prints(fingerprints@)));
    group_by_bits(fingerprints, bits.as_slice(), max_distance)
}

} // verus!
