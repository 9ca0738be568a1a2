//! What the score of a repository says, and that the primary of a group is the
//! repository with the most to it.

use crate::fingerprint::FingerprintView;
use crate::group::{comparable, grouped, score};
use crate::group_laws::law_groups_are_groups;
use vstd::prelude::*;

verus! {

/// Commits count one each up to a thousand, whatever else there is to a
/// repository, and no further.
pub proof fn law_commits_count_up_to_a_thousand(fp: FingerprintView, c: u32, d: u32)
    requires
        c <= d,
    ensures
        d <= 1000 ==> score(FingerprintView { commit_count: d, ..fp }) - score(
            FingerprintView { commit_count: c, ..fp },
        ) == d - c,
        1000 <= c ==> score(FingerprintView { commit_count: d, ..fp }) == score(
            FingerprintView { commit_count: c, ..fp },
        ),
{
}

/// A README counts a hundred, whatever else there is to a repository.
pub proof fn law_readme_counts_a_hundred(fp: FingerprintView)
    ensures
        score(FingerprintView { has_readme: true, ..fp }) - score(
            FingerprintView { has_readme: false, ..fp },
        ) == 100,
{
}

/// Each test counts ten, whatever else there is to a repository.
pub proof fn law_tests_count_tenfold(fp: FingerprintView, t: u32, u: u32)
    ensures
        score(FingerprintView { test_count: u, ..fp }) - score(
            FingerprintView { test_count: t, ..fp },
        ) == 10 * (u - t),
{
}

/// Each source file counts one, whatever else there is to a repository.
pub proof fn law_source_files_count_one(fp: FingerprintView, m: u32, n: u32)
    ensures
        score(FingerprintView { source_file_count: n, ..fp }) - score(
            FingerprintView { source_file_count: m, ..fp },
        ) == n - m,
{
}

/// Nothing but README, commits, tests and source files counts.
pub proof fn law_nothing_else_counts(a: FingerprintView, b: FingerprintView)
    requires
        a.has_readme == b.has_readme,
        a.commit_count == b.commit_count,
        a.test_count == b.test_count,
        a.source_file_count == b.source_file_count,
    ensures
        score(a) == score(b),
{
}

/// Whether there is at least as much to `a` as to `b` in every respect, and more
/// in one. Commits beyond a thousand are no more.
pub open spec fn outdoes(a: FingerprintView, b: FingerprintView) -> bool {
    &&& b.has_readme ==> a.has_readme
    &&& a.commit_count >= b.commit_count
    &&& a.test_count >= b.test_count
    &&& a.source_file_count >= b.source_file_count
    &&& {
        ||| a.has_readme && !b.has_readme
        ||| a.commit_count > b.commit_count && b.commit_count < 1000
        ||| a.test_count > b.test_count
        ||| a.source_file_count > b.source_file_count
    }
}

/// No repository is archived in favour of one that it outdoes.
pub proof fn law_no_primary_is_outdone(
    fps: Seq<FingerprintView>,
    bits: Seq<Seq<u8>>,
    max: int,
    a: int,
    k: int,
)
    requires
        comparable(fps, bits),
        0 <= a < grouped(fps, bits, max).len(),
        0 <= k < grouped(fps, bits, max)[a].members.len(),
    ensures
        !outdoes(
            fps[grouped(fps, bits, max)[a].members[k]],
            fps[grouped(fps, bits, max)[a].primary],
        ),
{
    law_groups_are_groups(fps, bits, max, a);
}

/// The primary of a group weighs at least as much as every other member: a
/// hundred for a README, one for each commit up to a thousand, ten for each test,
/// one for each source file.
pub proof fn law_primary_weighs_most(
    fps: Seq<FingerprintView>,
    bits: Seq<Seq<u8>>,
    max: int,
    a: int,
    k: int,
)
    requires
        comparable(fps, bits),
        0 <= a < grouped(fps, bits, max).len(),
        0 <= k < grouped(fps, bits, max)[a].members.len(),
    ensures
        ({
            let p = fps[grouped(fps, bits, max)[a].primary];
            let m = fps[grouped(fps, bits, max)[a].members[k]];
            let readme = (if p.has_readme { 100int } else { 0int }) - (if m.has_readme {
                100int
            } else {
                0int
            });
            let commits = (if p.commit_count < 1000 { p.commit_count as int } else { 1000int }) - (
            if m.commit_count < 1000 {
                m.commit_count as int
            } else {
                1000int
            });
            let tests = 10 * p.test_count - 10 * m.test_count;
            let files = p.source_file_count - m.source_file_count;
            readme + commits + tests + files >= 0
        }),
{
    law_groups_are_groups(fps, bits, max, a);
}

} // verus!
