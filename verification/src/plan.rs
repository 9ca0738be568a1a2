//! The plan: which repositories to keep, which to archive, and why.

use crate::fingerprint::{Fingerprint, FingerprintView};
use crate::group::{
    group_views, prints, GroupKind, RepoGroup, RepoGroupView, Similarity, SimilarityView,
};
use crate::text::{decimal, decimal_of, texts};
use vstd::prelude::*;

verus! {

/// What to do with the repositories of all groups.
#[derive(Debug)]
pub struct DedupPlan {
    pub summary: Summary,
    pub actions: Vec<Action>,
    pub duplicate_groups: Vec<DuplicateGroupDetail>,
}

/// The plan in numbers.
#[derive(Debug)]
pub struct Summary {
    pub total_repos: usize,
    pub exact_duplicates: usize,
    pub near_duplicates: usize,
    pub forks: usize,
    pub repos_to_keep: usize,
    pub repos_to_archive: usize,
    pub potential_savings: String,
}

/// What to do with one repository.
#[derive(Debug)]
pub struct Action {
    pub repo: String,
    pub action: String,
    pub reason: String,
    pub group_id: Option<usize>,
}

/// One group in detail.
#[derive(Debug)]
pub struct DuplicateGroupDetail {
    pub id: usize,
    pub kind: String,
    pub repos: Vec<RepoDetail>,
    pub primary: String,
    pub similarity: Similarity,
    pub suggestion: String,
}

/// One repository of a group in detail.
#[derive(Debug)]
pub struct RepoDetail {
    pub name: String,
    pub path: String,
    pub source_files: u32,
    pub tests: u32,
    pub commits: u32,
    pub has_readme: bool,
}

/// The contents of an action.
#[verifier::ext_equal]
pub struct ActionView {
    pub repo: Seq<char>,
    pub action: Seq<char>,
    pub reason: Seq<char>,
    pub group_id: Option<usize>,
}

/// The contents of the details of a repository.
#[verifier::ext_equal]
pub struct RepoDetailView {
    pub name: Seq<char>,
    pub path: Seq<char>,
    pub source_files: u32,
    pub tests: u32,
    pub commits: u32,
    pub has_readme: bool,
}

/// The contents of the details of a group.
#[verifier::ext_equal]
pub struct GroupDetailView {
    pub id: usize,
    pub kind: Seq<char>,
    pub repos: Seq<RepoDetailView>,
    pub primary: Seq<char>,
    pub similarity: SimilarityView,
    pub suggestion: Seq<char>,
}

impl View for Action {
    type V = ActionView;

    open spec fn view(&self) -> ActionView {
        ActionView {
            repo: self.repo@,
            action: self.action@,
            reason: self.reason@,
            group_id: self.group_id,
        }
    }
}

impl View for RepoDetail {
    type V = RepoDetailView;

    open spec fn view(&self) -> RepoDetailView {
        RepoDetailView {
            name: self.name@,
            path: self.path@,
            source_files: self.source_files,
            tests: self.tests,
            commits: self.commits,
            has_readme: self.has_readme,
        }
    }
}

impl View for DuplicateGroupDetail {
    type V = GroupDetailView;

    open spec fn view(&self) -> GroupDetailView {
        GroupDetailView {
            id: self.id,
            kind: self.kind@,
            repos: self.repos@.map_values(|d: RepoDetail| d@),
            primary: self.primary@,
            similarity: self.similarity@,
            suggestion: self.suggestion@,
        }
    }
}

/// The contents of each action of `v`.
pub open spec fn action_views(v: Seq<Action>) -> Seq<ActionView> {
    v.map_values(|a: Action| a@)
}

/// The contents of each of the details `v`.
pub open spec fn detail_views(v: Seq<DuplicateGroupDetail>) -> Seq<GroupDetailView> {
    v.map_values(|d: DuplicateGroupDetail| d@)
}

/// A kind of group, as it stands in a sentence.
pub open spec fn kind_word(kind: GroupKind) -> Seq<char> {
    match kind {
        GroupKind::ExactDuplicate => "exact-duplicate"@,
        GroupKind::NearDuplicate => "near-duplicate"@,
        GroupKind::Fork => "fork"@,
    }
}

/// A kind of group, as it stands in a record.
pub open spec fn kind_tag(kind: GroupKind) -> Seq<char> {
    match kind {
        GroupKind::ExactDuplicate => "exact_duplicate"@,
        GroupKind::NearDuplicate => "near_duplicate"@,
        GroupKind::Fork => "fork"@,
    }
}

/// Why the primary of a group is kept.
pub open spec fn keep_reason(kind: GroupKind) -> Seq<char> {
    "Primary repo for "@ + kind_word(kind) + " group — most commits/tests/readme"@
}

/// Why the others of a group are archived.
pub open spec fn archive_reason(kind: GroupKind) -> Seq<char> {
    match kind {
        GroupKind::ExactDuplicate =>
            "Exact duplicate — safe to archive, consider git remote consolidation"@,
        GroupKind::NearDuplicate =>
            "Near-duplicate — review before archiving, may contain unique changes"@,
        GroupKind::Fork =>
            "Fork — consider merging unique commits into primary, then archive"@,
    }
}

/// What to do with a group as a whole.
pub open spec fn suggestion(g: RepoGroupView) -> Seq<char> {
    match g.kind {
        GroupKind::ExactDuplicate => "Archive "@ + decimal((g.repos.len() - 1) as nat)
            + " repo(s), keep "@ + g.primary + " as canonical"@,
        GroupKind::NearDuplicate =>
            "Review differences between repos, merge unique work into "@ + g.primary
            + ", then archive others"@,
        GroupKind::Fork => "Consolidate forks into "@ + g.primary
            + ", cherry-pick any unique commits from others"@,
    }
}

/// The repositories of a group besides its primary.
pub open spec fn others(g: RepoGroupView) -> Seq<Seq<char>> {
    g.repos.filter(|name: Seq<char>| name != g.primary)
}

/// To keep the primary of group `id`.
pub open spec fn keep_action(g: RepoGroupView, id: int) -> ActionView {
    ActionView {
        repo: g.primary,
        action: "keep"@,
        reason: keep_reason(g.kind),
        group_id: Some(id as usize),
    }
}

/// To archive the repository `name` of group `id`.
pub open spec fn archive_action(g: RepoGroupView, id: int, name: Seq<char>) -> ActionView {
    ActionView {
        repo: name,
        action: "archive"@,
        reason: archive_reason(g.kind),
        group_id: Some(id as usize),
    }
}

/// The actions for group `id`: the primary first, then the others as they come.
pub open spec fn group_actions(g: RepoGroupView, id: int) -> Seq<ActionView> {
    seq![keep_action(g, id)] + others(g).map_values(
        |name: Seq<char>| archive_action(g, id, name),
    )
}

/// The actions for the first `n` groups, group by group.
pub open spec fn planned_actions(groups: Seq<RepoGroupView>, n: int) -> Seq<ActionView>
    decreases n,
{
    if n <= 0 {
        Seq::empty()
    } else {
        planned_actions(groups, n - 1) + group_actions(groups[n - 1], n - 1)
    }
}

/// The names to archive in the first `n` groups.
pub open spec fn archived(groups: Seq<RepoGroupView>, n: int) -> Set<Seq<char>>
    decreases n,
{
    if n <= 0 {
        Set::empty()
    } else {
        archived(groups, n - 1).union(others(groups[n - 1]).to_set())
    }
}

/// How many of the first `n` groups are of the kind `kind`.
pub open spec fn count_kind(groups: Seq<RepoGroupView>, kind: GroupKind, n: int) -> nat
    decreases n,
{
    if n <= 0 {
        0
    } else {
        count_kind(groups, kind, n - 1) + if groups[n - 1].kind == kind {
            1nat
        } else {
            0nat
        }
    }
}

/// The last of the first `n` fingerprints whose name is `name`.
pub open spec fn last_named(fps: Seq<FingerprintView>, name: Seq<char>, n: int) -> Option<int>
    decreases n,
{
    if n <= 0 {
        None
    } else if fps[n - 1].repo_name == name {
        Some(n - 1)
    } else {
        last_named(fps, name, n - 1)
    }
}

/// The details of the repository `name`, from the last fingerprint of that name.
pub open spec fn repo_detail(fps: Seq<FingerprintView>, name: Seq<char>) -> RepoDetailView {
    match last_named(fps, name, fps.len() as int) {
        Some(i) => RepoDetailView {
            name,
            path: fps[i].repo_path,
            source_files: fps[i].source_file_count,
            tests: fps[i].test_count,
            commits: fps[i].commit_count,
            has_readme: fps[i].has_readme,
        },
        None => RepoDetailView {
            name,
            path: Seq::empty(),
            source_files: 0,
            tests: 0,
            commits: 0,
            has_readme: false,
        },
    }
}

/// The details of group `id`.
pub open spec fn group_detail(
    fps: Seq<FingerprintView>,
    g: RepoGroupView,
    id: int,
) -> GroupDetailView {
    GroupDetailView {
        id: id as usize,
        kind: kind_tag(g.kind),
        repos: g.repos.map_values(|name: Seq<char>| repo_detail(fps, name)),
        primary: g.primary,
        similarity: g.similarity,
        suggestion: suggestion(g),
    }
}

/// The details of all groups.
pub open spec fn all_details(fps: Seq<FingerprintView>, groups: Seq<RepoGroupView>) -> Seq<
    GroupDetailView,
> {
    groups.map(|id: int, g: RepoGroupView| group_detail(fps, g, id))
}

/// What archiving saves, with the percentage given as text.
pub open spec fn savings(percent: Seq<char>, archive: nat, total: nat) -> Seq<char> {
    percent + "% of repos ("@ + decimal(archive) + "/"@ + decimal(total)
        + " repos could be archived)"@
}

/// Whether a plan can be drawn up for `groups` in a fleet of `total`
/// repositories: no group of exact duplicates is empty, and no more names are to
/// be archived than there are repositories.
pub open spec fn can_be_planned(groups: Seq<RepoGroupView>, total: nat) -> bool {
    &&& forall|g: int|
        0 <= g < groups.len() && (#[trigger] groups[g]).kind == GroupKind::ExactDuplicate
            ==> groups[g].repos.len() > 0
    &&& archived(groups, groups.len() as int).len() <= total
}

/// `a`, `b` and `c`, one behind the other.
fn concat3(a: &str, b: &str, c: &str) -> (r: String)
    ensures
        r@ == a@ + b@ + c@,
{
    let mut r: String = a.to_owned();
    r.append(b);
    r.append(c);
    r
}

/// A kind of group, as it stands in a sentence.
fn word_of(kind: GroupKind) -> (r: &'static str)
    ensures
        r@ == kind_word(kind),
{
    match kind {
        GroupKind::ExactDuplicate => "exact-duplicate",
        GroupKind::NearDuplicate => "near-duplicate",
        GroupKind::Fork => "fork",
    }
}

/// A kind of group, as it stands in a record.
fn tag_of(kind: GroupKind) -> (r: &'static str)
    ensures
        r@ == kind_tag(kind),
{
    match kind {
        GroupKind::ExactDuplicate => "exact_duplicate",
        GroupKind::NearDuplicate => "near_duplicate",
        GroupKind::Fork => "fork",
    }
}

/// Why the others of a group are archived.
fn reason_to_archive(kind: GroupKind) -> (r: &'static str)
    ensures
        r@ == archive_reason(kind),
{
    match kind {
        GroupKind::ExactDuplicate =>
            "Exact duplicate — safe to archive, consider git remote consolidation",
        GroupKind::NearDuplicate =>
            "Near-duplicate — review before archiving, may contain unique changes",
        GroupKind::Fork =>
            "Fork — consider merging unique commits into primary, then archive",
    }
}

/// What to do with a group as a whole.
fn suggest(group: &RepoGroup) -> (r: String)
    requires
        group.kind == GroupKind::ExactDuplicate ==> group.repos@.len() > 0,
    ensures
        r@ == suggestion(group@),
{
    match group.kind {
        GroupKind::ExactDuplicate => {
            let mut r: String = concat3(
                "Archive ",
                decimal_of((group.repos.len() - 1) as u64).as_str(),
                " repo(s), keep ",
            );
            r.append(group.primary.as_str());
            r.append(" as canonical");
            r
        },
        GroupKind::NearDuplicate => concat3(
            "Review differences between repos, merge unique work into ",
            group.primary.as_str(),
            ", then archive others",
        ),
        GroupKind::Fork => concat3(
            "Consolidate forks into ",
            group.primary.as_str(),
            ", cherry-pick any unique commits from others",
        ),
    }
}

/// What archiving saves, with the percentage given as text.
pub fn savings_text(percent: &str, archive: usize, total: usize) -> (r: String)
    ensures
        r@ == savings(percent@, archive as nat, total as nat),
{
    let mut r: String = concat3(percent, "% of repos (", decimal_of(archive as u64).as_str());
    r.append("/");
    r.append(decimal_of(total as u64).as_str());
    r.append(" repos could be archived)");
    r
}

/// Adds `name` to `names` unless it is there.
fn add_name(names: &mut Vec<String>, name: &String)
    requires
        texts(old(names)@).no_duplicates(),
    ensures
        texts(final(names)@).no_duplicates(),
        texts(final(names)@).to_set() == texts(old(names)@).to_set().insert(name@),
{
    let mut i: usize = 0;
    while i < names.len()
        invariant
            i <= names@.len(),
            *names == *old(names),
            texts(old(names)@).no_duplicates(),
            forall|k: int| 0 <= k < i ==> (#[trigger] texts(names@)[k]) != name@,
        decreases names@.len() - i,
    {
        if names[i] == *name {
            proof {
                assert(texts(names@)[i as int] == name@);
                assert(texts(names@).to_set().contains(name@));
                assert(texts(names@).to_set() =~= texts(names@).to_set().insert(name@));
            }
            return;
        }
        i += 1;
    }
    let ghost before = texts(names@);
    names.push(name.clone());
    proof {
        assert(texts(names@) =~= before.push(name@));
        before.lemma_push_to_set_commute(name@);
    }
}

/// Adds the actions for group `id`, and the names that it archives.
fn plan_group(group: &RepoGroup, id: usize, actions: &mut Vec<Action>, names: &mut Vec<String>)
    requires
        texts(old(names)@).no_duplicates(),
    ensures
        action_views(final(actions)@) == action_views(old(actions)@) + group_actions(
            group@,
            id as int,
        ),
        texts(final(names)@).no_duplicates(),
        texts(final(names)@).to_set() == texts(old(names)@).to_set().union(
            others(group@).to_set(),
        ),
{
    let ghost g = group@;
    let ghost p = |name: Seq<char>| name != g.primary;
    let ghost f = |name: Seq<char>| archive_action(g, id as int, name);
    let ghost before = action_views(actions@);
    let ghost start = seq![keep_action(g, id as int)];
    let ghost set = texts(names@).to_set();
    let keep: Action = Action {
        repo: group.primary.clone(),
        action: "keep".to_owned(),
        reason: concat3(
            "Primary repo for ",
            word_of(group.kind),
            " group — most commits/tests/readme",
        ),
        group_id: Some(id),
    };
    actions.push(keep);
    let mut k: usize = 0;
    proof {
        reveal(Seq::filter);
        assert(keep@ == keep_action(g, id as int));
        assert(g.repos.take(0).filter(p) =~= Seq::empty());
        assert(action_views(actions@) =~= before + (start + g.repos.take(0).filter(p).map_values(
            f,
        )));
        assert(set =~= set.union(g.repos.take(0).filter(p).to_set()));
    }
    while k < group.repos.len()
        invariant
            k <= group.repos@.len(),
            g == group@,
            p == (|name: Seq<char>| name != g.primary),
            f == (|name: Seq<char>| archive_action(g, id as int, name)),
            action_views(actions@) == before + (start + g.repos.take(k as int).filter(
                p,
            ).map_values(f)),
            texts(names@).no_duplicates(),
            texts(names@).to_set() == set.union(g.repos.take(k as int).filter(p).to_set()),
        decreases group.repos@.len() - k,
    {
        let ghost done = g.repos.take(k as int).filter(p);
        let ghost views = action_views(actions@);
        let ghost name = g.repos[k as int];
        proof {
            reveal(Seq::filter);
            assert(g.repos.take(k + 1).drop_last() =~= g.repos.take(k as int));
            assert(g.repos.take(k + 1).last() == name);
        }
        if group.repos[k] != group.primary {
            add_name(names, &group.repos[k]);
            let archive: Action = Action {
                repo: group.repos[k].clone(),
                action: "archive".to_owned(),
                reason: reason_to_archive(group.kind).to_owned(),
                group_id: Some(id),
            };
            actions.push(archive);
            proof {
                assert(archive@ == f(name));
                assert(action_views(actions@) =~= views.push(f(name)));
                assert(done.push(name).map_values(f) =~= done.map_values(f).push(f(name)));
                assert(action_views(actions@) =~= before + (start + done.push(name).map_values(f)));
                done.lemma_push_to_set_commute(name);
                assert(texts(names@).to_set() =~= set.union(done.push(name).to_set()));
            }
        }
        k += 1;
    }
    assert(g.repos.take(g.repos.len() as int) =~= g.repos);
}

/// The details of the repository `name`.
fn detail_of(name: &String, fingerprints: &[Fingerprint]) -> (r: RepoDetail)
    ensures
        r@ == repo_detail(prints(fingerprints@), name@),
{
    let ghost fps = prints(fingerprints@);
    let mut n: usize = fingerprints.len();
    while n > 0
        invariant
            n <= fingerprints@.len(),
            fps == prints(fingerprints@),
            last_named(fps, name@, fingerprints@.len() as int) == last_named(
                fps,
                name@,
                n as int,
            ),
        decreases n,
    {
        let fp: &Fingerprint = &fingerprints[n - 1];
        assert(fps[n - 1] == fp@);
        if fp.repo_name == *name {
            return RepoDetail {
                name: fp.repo_name.clone(),
                path: fp.repo_path.clone(),
                source_files: fp.source_file_count,
                tests: fp.test_count,
                commits: fp.commit_count,
                has_readme: fp.has_readme,
            };
        }
        n -= 1;
    }
    RepoDetail {
        name: name.clone(),
        path: String::new(),
        source_files: 0,
        tests: 0,
        commits: 0,
        has_readme: false,
    }
}

/// The details of group `id`.
fn detail_group(group: &RepoGroup, id: usize, fingerprints: &[Fingerprint]) -> (r:
    DuplicateGroupDetail)
    requires
        group.kind == GroupKind::ExactDuplicate ==> group.repos@.len() > 0,
    ensures
        r@ == group_detail(prints(fingerprints@), group@, id as int),
{
    let mut repos: Vec<RepoDetail> = Vec::new();
    let mut k: usize = 0;
    while k < group.repos.len()
        invariant
            k <= group.repos@.len(),
            repos@.len() == k,
            forall|m: int|
                0 <= m < k ==> (#[trigger] repos@[m])@ == repo_detail(
                    prints(fingerprints@),
                    group.repos@[m]@,
                ),
        decreases group.repos@.len() - k,
    {
        repos.push(detail_of(&group.repos[k], fingerprints));
        k += 1;
    }
    let r: DuplicateGroupDetail = DuplicateGroupDetail {
        id,
        kind: tag_of(group.kind).to_owned(),
        repos,
        primary: group.primary.clone(),
        similarity: group.similarity,
        suggestion: suggest(group),
    };
    assert(r@.repos =~= group_detail(prints(fingerprints@), group@, id as int).repos);
    r
}

/// Draws up the plan for `groups`. The share of repositories to archive is
/// written by `percent`, from how many are to be archived and how many there are.
pub fn generate_plan<F: Fn(usize, usize) -> String>(
    groups: &[RepoGroup],
    fingerprints: &[Fingerprint],
    percent: F,
) -> (r: DedupPlan)
    requires
        can_be_planned(group_views(groups@), fingerprints@.len()),
        forall|archive: usize, total: usize|
            archive <= total && 0 < total ==> call_requires(percent, (archive, total)),
    ensures
        action_views(r.actions@) == planned_actions(group_views(groups@), groups@.len() as int),
        detail_views(r.duplicate_groups@) == all_details(
            prints(fingerprints@),
            group_views(groups@),
        ),
        r.summary.total_repos == fingerprints@.len(),
        r.summary.exact_duplicates == count_kind(
            group_views(groups@),
            GroupKind::ExactDuplicate,
            groups@.len() as int,
        ),
        r.summary.near_duplicates == count_kind(
            group_views(groups@),
            GroupKind::NearDuplicate,
            groups@.len() as int,
        ),
        r.summary.forks == count_kind(
            group_views(groups@),
            GroupKind::Fork,
            groups@.len() as int,
        ),
        r.summary.repos_to_archive == archived(
            group_views(groups@),
            groups@.len() as int,
        ).len(),
        r.summary.repos_to_keep + r.summary.repos_to_archive == r.summary.total_repos,
        r.summary.total_repos == 0 ==> r.summary.potential_savings@ == savings("0.0"@, 0, 0),
        r.summary.total_repos > 0 ==> exists|share: String|
            call_ensures(
                percent,
                (r.summary.repos_to_archive, r.summary.total_repos),
                share,
            ) && r.summary.potential_savings@ == savings(
                share@,
                r.summary.repos_to_archive as nat,
                r.summary.total_repos as nat,
            ),
{
    let ghost views = group_views(groups@);
    let ghost fps = prints(fingerprints@);
    let mut actions: Vec<Action> = Vec::new();
    let mut duplicate_groups: Vec<DuplicateGroupDetail> = Vec::new();
    let mut names: Vec<String> = Vec::new();
    let mut exact: usize = 0;
    let mut near: usize = 0;
    let mut forks: usize = 0;
    let mut i: usize = 0;
    proof {
        assert(action_views(actions@) =~= planned_actions(views, 0));
        assert(texts(names@).to_set() =~= archived(views, 0));
    }
    while i < groups.len()
        invariant
            i <= groups@.len(),
            views == group_views(groups@),
            fps == prints(fingerprints@),
            can_be_planned(views, fps.len()),
            exact == count_kind(views, GroupKind::ExactDuplicate, i as int),
            near == count_kind(views, GroupKind::NearDuplicate, i as int),
            forks == count_kind(views, GroupKind::Fork, i as int),
            exact <= i,
            near <= i,
            forks <= i,
            action_views(actions@) == planned_actions(views, i as int),
            texts(names@).no_duplicates(),
            texts(names@).to_set() == archived(views, i as int),
            duplicate_groups@.len() == i,
            forall|k: int|
                0 <= k < i ==> (#[trigger] duplicate_groups@[k])@ == group_detail(
                    fps,
                    views[k],
                    k,
                ),
        decreases groups@.len() - i,
    {
        let group: &RepoGroup = &groups[i];
        assert(views[i as int] == group@);
        assert(group@.repos.len() == group.repos@.len());
        match group.kind {
            GroupKind::ExactDuplicate => {
                exact += 1;
            },
            GroupKind::NearDuplicate => {
                near += 1;
            },
            GroupKind::Fork => {
                forks += 1;
            },
        }
        plan_group(group, i, &mut actions, &mut names);
        duplicate_groups.push(detail_group(group, i, fingerprints));
        i += 1;
    }
    proof {
        assert(detail_views(duplicate_groups@) =~= all_details(fps, views));
        texts(names@).unique_seq_to_set();
    }
    let total: usize = fingerprints.len();
    let archive: usize = names.len();
    let potential_savings: String = if total == 0 {
        savings_text("0.0", archive, total)
    } else {
        let share: String = percent(archive, total);
        assert(call_ensures(percent, (archive, total), share));
        savings_text(share.as_str(), archive, total)
    };
    DedupPlan {
        summary: Summary {
            total_repos: total,
            exact_duplicates: exact,
            near_duplicates: near,
            forks,
            repos_to_keep: total - archive,
            repos_to_archive: archive,
            potential_savings,
        },
        actions,
        duplicate_groups,
    }
}

} // verus!
