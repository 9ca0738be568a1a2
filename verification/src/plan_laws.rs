//! What holds of every plan.

use crate::fingerprint::FingerprintView;
use crate::group::{all_named, comparable, grouped, GroupKind, RepoGroupView};
use crate::group_laws::{distinct_names, law_groups_are_groups, law_names_occur_once};
use crate::plan::{
    all_details, archive_action, archived, can_be_planned, count_kind, group_actions, group_detail,
    keep_action, last_named, others, planned_actions, repo_detail, savings, ActionView,
    RepoDetailView,
};
use crate::text::decimal;
use vstd::prelude::*;

verus! {

/// The names in a group besides its primary are those that differ from it.
proof fn lemma_others(g: RepoGroupView, name: Seq<char>)
    ensures
        others(g).contains(name) <==> g.repos.contains(name) && name != g.primary,
{
    let p = |n: Seq<char>| n != g.primary;
    lemma_filtered(g.repos, p, name);
}

/// A filtered sequence holds what it was made from and what passes.
proof fn lemma_filtered(s: Seq<Seq<char>>, p: spec_fn(Seq<char>) -> bool, x: Seq<char>)
    ensures
        s.filter(p).contains(x) <==> s.contains(x) && p(x),
    decreases s.len(),
{
    reveal(Seq::filter);
    if s.len() > 0 {
        let f = s.drop_last();
        let done = f.filter(p);
        lemma_filtered(f, p, x);
        if s.contains(x) {
            let i = choose|i: int| 0 <= i < s.len() && s[i] == x;
            if i < f.len() {
                assert(f[i] == x);
            }
        }
        if f.contains(x) {
            let i = choose|i: int| 0 <= i < f.len() && f[i] == x;
            assert(s[i] == x);
        }
        assert(s[s.len() - 1] == s.last());
        if done.contains(x) {
            let i = choose|i: int| 0 <= i < done.len() && done[i] == x;
            assert(s.filter(p)[i] == x);
        }
        if p(s.last()) {
            assert(s.filter(p)[done.len() as int] == s.last());
        }
        if s.filter(p).contains(x) {
            let i = choose|i: int| 0 <= i < s.filter(p).len() && s.filter(p)[i] == x;
            if i < done.len() {
                assert(done[i] == x);
            }
        }
    }
}

/// A name is archived exactly when some group lists it and has another primary.
pub proof fn law_archived_are_the_others(groups: Seq<RepoGroupView>, n: int, name: Seq<char>)
    requires
        0 <= n <= groups.len(),
    ensures
        archived(groups, n).contains(name) <==> exists|g: int|
            0 <= g < n && (#[trigger] groups[g]).repos.contains(name) && name != groups[g].primary,
    decreases n,
{
    if n > 0 {
        law_archived_are_the_others(groups, n - 1, name);
        lemma_others(groups[n - 1], name);
    }
}

/// The names to archive are finitely many.
proof fn lemma_archived_finite(groups: Seq<RepoGroupView>, n: int)
    ensures
        archived(groups, n).finite(),
    decreases n,
{
    if n > 0 {
        lemma_archived_finite(groups, n - 1);
        vstd::seq_lib::seq_to_set_is_finite(others(groups[n - 1]));
    }
}

/// A plan can be drawn up for every grouping.
pub proof fn law_groups_can_be_planned(fps: Seq<FingerprintView>, bits: Seq<Seq<u8>>, max: int)
    requires
        comparable(fps, bits),
    ensures
        can_be_planned(all_named(grouped(fps, bits, max), fps), fps.len()),
{
    let gs = grouped(fps, bits, max);
    let views = all_named(gs, fps);
    let names = fps.map_values(|f: FingerprintView| f.repo_name);
    assert forall|a: int| 0 <= a < gs.len() implies (#[trigger] views[a]).repos.len() >= 2 by {
        law_groups_are_groups(fps, bits, max, a);
    }
    let set = archived(views, gs.len() as int);
    assert forall|name: Seq<char>| set.contains(name) implies names.to_set().contains(name) by {
        law_archived_are_the_others(views, gs.len() as int, name);
        let g = choose|g: int|
            0 <= g < gs.len() && (#[trigger] views[g]).repos.contains(name) && name
                != views[g].primary;
        law_groups_are_groups(fps, bits, max, g);
        let k = choose|k: int| 0 <= k < views[g].repos.len() && views[g].repos[k] == name;
        assert(names[gs[g].members[k]] == name);
    }
    vstd::seq_lib::seq_to_set_is_finite(names);
    vstd::set_lib::lemma_len_subset(set, names.to_set());
    names.lemma_cardinality_of_set();
}

/// Each group is counted under one kind.
pub proof fn law_kinds_add_up(groups: Seq<RepoGroupView>, n: int)
    requires
        0 <= n <= groups.len(),
    ensures
        count_kind(groups, GroupKind::ExactDuplicate, n) + count_kind(
            groups,
            GroupKind::NearDuplicate,
            n,
        ) + count_kind(groups, GroupKind::Fork, n) == n,
    decreases n,
{
    if n > 0 {
        law_kinds_add_up(groups, n - 1);
    }
}

/// The plan keeps the primary of every group.
pub proof fn law_primary_is_kept(groups: Seq<RepoGroupView>, n: int, g: int)
    requires
        0 <= g < n <= groups.len(),
    ensures
        planned_actions(groups, n).contains(keep_action(groups[g], g)),
    decreases n,
{
    let before = planned_actions(groups, n - 1);
    let all = planned_actions(groups, n);
    if g == n - 1 {
        assert(all[before.len() as int] == group_actions(groups[g], g)[0]);
    } else {
        law_primary_is_kept(groups, n - 1, g);
        let i = choose|i: int| 0 <= i < before.len() && before[i] == keep_action(groups[g], g);
        assert(all[i] == before[i]);
    }
}

/// The plan archives every repository of a group besides its primary.
pub proof fn law_others_are_archived(
    groups: Seq<RepoGroupView>,
    n: int,
    g: int,
    name: Seq<char>,
)
    requires
        0 <= g < n <= groups.len(),
        groups[g].repos.contains(name),
        name != groups[g].primary,
    ensures
        planned_actions(groups, n).contains(archive_action(groups[g], g, name)),
    decreases n,
{
    let before = planned_actions(groups, n - 1);
    let all = planned_actions(groups, n);
    let wanted = archive_action(groups[g], g, name);
    if g == n - 1 {
        lemma_others(groups[g], name);
        let k = choose|k: int| 0 <= k < others(groups[g]).len() && others(groups[g])[k] == name;
        assert(group_actions(groups[g], g)[k + 1] == wanted);
        assert(all[before.len() + k + 1] == wanted);
    } else {
        law_others_are_archived(groups, n - 1, g, name);
        let i = choose|i: int| 0 <= i < before.len() && before[i] == wanted;
        assert(all[i] == before[i]);
    }
}

/// The plan has no actions but these: each keeps the primary of a group, or
/// archives another repository of it.
pub proof fn law_actions_have_a_group(groups: Seq<RepoGroupView>, n: int, i: int) -> (g: int)
    requires
        0 <= n <= groups.len(),
        0 <= i < planned_actions(groups, n).len(),
    ensures
        0 <= g < n,
        ({
            let action = planned_actions(groups, n)[i];
            ||| action == keep_action(groups[g], g)
            ||| {
                &&& action == archive_action(groups[g], g, action.repo)
                &&& groups[g].repos.contains(action.repo)
                &&& action.repo != groups[g].primary
            }
        }),
    decreases n,
{
    if n == 0 {
        0
    } else {
        let before = planned_actions(groups, n - 1);
        let all = planned_actions(groups, n);
        if i < before.len() {
            assert(all[i] == before[i]);
            law_actions_have_a_group(groups, n - 1, i)
        } else {
            let own = group_actions(groups[n - 1], n - 1);
            let k = i - before.len();
            assert(all[i] == own[k]);
            if k > 0 {
                let name = others(groups[n - 1])[k - 1];
                assert(own[k] == archive_action(groups[n - 1], n - 1, name));
                assert(others(groups[n - 1]).contains(name));
                lemma_others(groups[n - 1], name);
            }
            n - 1
        }
    }
}

/// Where no two repositories have the same name, no primary is archived.
pub proof fn law_no_primary_is_archived(
    fps: Seq<FingerprintView>,
    bits: Seq<Seq<u8>>,
    max: int,
    a: int,
)
    requires
        comparable(fps, bits),
        distinct_names(fps),
        0 <= a < grouped(fps, bits, max).len(),
    ensures
        !archived(
            all_named(grouped(fps, bits, max), fps),
            grouped(fps, bits, max).len() as int,
        ).contains(all_named(grouped(fps, bits, max), fps)[a].primary),
{
    let gs = grouped(fps, bits, max);
    let views = all_named(gs, fps);
    let name = views[a].primary;
    law_archived_are_the_others(views, gs.len() as int, name);
    if archived(views, gs.len() as int).contains(name) {
        let g = choose|g: int|
            0 <= g < gs.len() && (#[trigger] views[g]).repos.contains(name) && name
                != views[g].primary;
        law_groups_are_groups(fps, bits, max, a);
        let k = choose|k: int| 0 <= k < gs[a].members.len() && gs[a].members[k] == gs[a].primary;
        let l = choose|l: int| 0 <= l < views[g].repos.len() && views[g].repos[l] == name;
        assert(views[a].repos[k] == name);
        assert(g != a);
        law_names_occur_once(fps, bits, max, a, g, k, l);
    }
}

/// The repositories of the first `n` groups, less one for each group.
pub open spec fn surplus(groups: Seq<RepoGroupView>, n: int) -> int
    decreases n,
{
    if n <= 0 {
        0
    } else {
        surplus(groups, n - 1) + groups[n - 1].repos.len() - 1
    }
}

/// Taking one item out of a sequence without repetitions leaves one item less.
proof fn lemma_without_one(s: Seq<Seq<char>>, x: Seq<char>)
    requires
        s.no_duplicates(),
    ensures
        s.filter(|n: Seq<char>| n != x).len() == s.len() - if s.contains(x) {
            1int
        } else {
            0int
        },
        s.filter(|n: Seq<char>| n != x).no_duplicates(),
    decreases s.len(),
{
    reveal(Seq::filter);
    let p = |n: Seq<char>| n != x;
    if s.len() > 0 {
        let f = s.drop_last();
        let done = f.filter(p);
        lemma_without_one(f, x);
        assert(s[s.len() - 1] == s.last());
        if f.contains(x) {
            let i = choose|i: int| 0 <= i < f.len() && f[i] == x;
            assert(s[i] == x);
        }
        if s.contains(x) {
            let i = choose|i: int| 0 <= i < s.len() && s[i] == x;
            if i < f.len() {
                assert(f[i] == x);
            }
        }
        lemma_filtered(f, p, s.last());
        if f.contains(s.last()) {
            let i = choose|i: int| 0 <= i < f.len() && f[i] == s.last();
            assert(s[i] == s[s.len() - 1]);
        }
        assert(s.filter(p).no_duplicates());
    }
}

proof fn lemma_archived_count(fps: Seq<FingerprintView>, bits: Seq<Seq<u8>>, max: int, n: int)
    requires
        comparable(fps, bits),
        distinct_names(fps),
        0 <= n <= grouped(fps, bits, max).len(),
    ensures
        archived(all_named(grouped(fps, bits, max), fps), n).len() == surplus(
            all_named(grouped(fps, bits, max), fps),
            n,
        ),
    decreases n,
{
    let gs = grouped(fps, bits, max);
    let views = all_named(gs, fps);
    if n > 0 {
        lemma_archived_count(fps, bits, max, n - 1);
        let g = views[n - 1];
        let before = archived(views, n - 1);
        law_groups_are_groups(fps, bits, max, n - 1);
        assert forall|k: int, l: int| 0 <= k < l < g.repos.len() implies g.repos[k]
            != g.repos[l] by {
            law_names_occur_once(fps, bits, max, n - 1, n - 1, k, l);
        }
        assert(g.repos.no_duplicates());
        let members = gs[n - 1].members;
        let k = choose|k: int| 0 <= k < members.len() && members[k] == gs[n - 1].primary;
        assert(g.repos[k] == g.primary);
        lemma_without_one(g.repos, g.primary);
        others(g).unique_seq_to_set();
        vstd::seq_lib::seq_to_set_is_finite(others(g));
        lemma_archived_finite(views, n - 1);
        assert forall|name: Seq<char>| before.contains(name) implies !others(
            g,
        ).to_set().contains(name) by {
            law_archived_are_the_others(views, n - 1, name);
            let h = choose|h: int|
                0 <= h < n - 1 && (#[trigger] views[h]).repos.contains(name) && name
                    != views[h].primary;
            let i = choose|i: int| 0 <= i < views[h].repos.len() && views[h].repos[i] == name;
            if others(g).contains(name) {
                lemma_others(g, name);
                let j = choose|j: int| 0 <= j < g.repos.len() && g.repos[j] == name;
                law_names_occur_once(fps, bits, max, h, n - 1, i, j);
            }
        }
        assert(before.disjoint(others(g).to_set()));
        vstd::set_lib::lemma_set_disjoint_lens(before, others(g).to_set());
        assert(before + others(g).to_set() =~= before.union(others(g).to_set()));
    }
}

/// Where no two repositories have the same name, all repositories of a group
/// but one are to be archived.
pub proof fn law_all_but_one_are_archived(fps: Seq<FingerprintView>, bits: Seq<Seq<u8>>, max: int)
    requires
        comparable(fps, bits),
        distinct_names(fps),
    ensures
        archived(
            all_named(grouped(fps, bits, max), fps),
            grouped(fps, bits, max).len() as int,
        ).len() == surplus(
            all_named(grouped(fps, bits, max), fps),
            grouped(fps, bits, max).len() as int,
        ),
{
    lemma_archived_count(fps, bits, max, grouped(fps, bits, max).len() as int);
}

/// The actions of a group are as many as its repositories, and each is for
/// another one of them.
proof fn lemma_group_actions(fps: Seq<FingerprintView>, bits: Seq<Seq<u8>>, max: int, g: int)
    requires
        comparable(fps, bits),
        distinct_names(fps),
        0 <= g < grouped(fps, bits, max).len(),
    ensures
        ({
            let group = all_named(grouped(fps, bits, max), fps)[g];
            let own = group_actions(group, g);
            &&& own.len() == group.repos.len()
            &&& forall|i: int| 0 <= i < own.len() ==> group.repos.contains((#[trigger] own[i]).repo)
            &&& forall|i: int, j: int|
                #![trigger own[i], own[j]]
                0 <= i < j < own.len() ==> own[i].repo != own[j].repo
        }),
{
    let gs = grouped(fps, bits, max);
    let views = all_named(gs, fps);
    let group = views[g];
    let own = group_actions(group, g);
    let rest = others(group);
    law_groups_are_groups(fps, bits, max, g);
    assert forall|k: int, l: int| 0 <= k < l < group.repos.len() implies group.repos[k]
        != group.repos[l] by {
        law_names_occur_once(fps, bits, max, g, g, k, l);
    }
    assert(group.repos.no_duplicates());
    let members = gs[g].members;
    let k = choose|k: int| 0 <= k < members.len() && members[k] == gs[g].primary;
    assert(group.repos[k] == group.primary);
    lemma_without_one(group.repos, group.primary);
    assert forall|i: int| 0 <= i < own.len() implies group.repos.contains((#[trigger] own[i]).repo)
        && (i > 0 ==> own[i].repo != group.primary) by {
        if i > 0 {
            assert(own[i].repo == rest[i - 1]);
            assert(rest.contains(rest[i - 1]));
            lemma_others(group, rest[i - 1]);
        }
    }
    assert forall|i: int, j: int|
        #![trigger own[i], own[j]]
        0 <= i < j < own.len() implies own[i].repo != own[j].repo by {
        if i > 0 {
            assert(own[i].repo == rest[i - 1] && own[j].repo == rest[j - 1]);
        }
    }
}

/// Where no two repositories have the same name, no two actions for the first
/// `n` groups are for the same one.
proof fn lemma_actions_distinct(
    fps: Seq<FingerprintView>,
    bits: Seq<Seq<u8>>,
    max: int,
    n: int,
)
    requires
        comparable(fps, bits),
        distinct_names(fps),
        0 <= n <= grouped(fps, bits, max).len(),
    ensures
        ({
            let views = all_named(grouped(fps, bits, max), fps);
            let actions = planned_actions(views, n);
            &&& actions.len() == surplus(views, n) + n
            &&& forall|i: int|
                0 <= i < actions.len() ==> exists|g: int|
                    0 <= g < n && (#[trigger] views[g]).repos.contains((#[trigger] actions[i]).repo)
            &&& forall|i: int, j: int|
                #![trigger actions[i], actions[j]]
                0 <= i < j < actions.len() ==> actions[i].repo != actions[j].repo
        }),
    decreases n,
{
    let views = all_named(grouped(fps, bits, max), fps);
    let actions = planned_actions(views, n);
    if n > 0 {
        let before = planned_actions(views, n - 1);
        let own = group_actions(views[n - 1], n - 1);
        lemma_actions_distinct(fps, bits, max, n - 1);
        lemma_group_actions(fps, bits, max, n - 1);
        assert forall|i: int| 0 <= i < actions.len() implies exists|g: int|
            0 <= g < n && (#[trigger] views[g]).repos.contains((#[trigger] actions[i]).repo) by {
            if i < before.len() {
                assert(actions[i] == before[i]);
                let g = choose|g: int|
                    0 <= g < n - 1 && (#[trigger] views[g]).repos.contains(before[i].repo);
                assert(views[g].repos.contains(actions[i].repo));
            } else {
                assert(actions[i] == own[i - before.len()]);
                assert(views[n - 1].repos.contains(actions[i].repo));
            }
        }
        assert forall|i: int, j: int|
            #![trigger actions[i], actions[j]]
            0 <= i < j < actions.len() implies actions[i].repo != actions[j].repo by {
            if j < before.len() {
                assert(actions[i] == before[i] && actions[j] == before[j]);
            } else if i >= before.len() {
                assert(actions[i] == own[i - before.len()]);
                assert(actions[j] == own[j - before.len()]);
            } else {
                assert(actions[i] == before[i]);
                assert(actions[j] == own[j - before.len()]);
                let g = choose|g: int|
                    0 <= g < n - 1 && (#[trigger] views[g]).repos.contains(before[i].repo);
                let a = views[g].repos;
                let b = views[n - 1].repos;
                let k = choose|k: int| 0 <= k < a.len() && a[k] == actions[i].repo;
                if b.contains(actions[i].repo) {
                    let l = choose|l: int| 0 <= l < b.len() && b[l] == actions[i].repo;
                    law_names_occur_once(fps, bits, max, g, n - 1, k, l);
                }
            }
        }
    }
}

/// Where no two repositories have the same name, no two actions of the plan are
/// for the same one: none is both kept and archived, and none is archived twice.
pub proof fn law_one_action_for_each_repo(
    fps: Seq<FingerprintView>,
    bits: Seq<Seq<u8>>,
    max: int,
    i: int,
    j: int,
)
    requires
        comparable(fps, bits),
        distinct_names(fps),
        0 <= i < j < planned_actions(
            all_named(grouped(fps, bits, max), fps),
            grouped(fps, bits, max).len() as int,
        ).len(),
    ensures
        ({
            let groups = all_named(grouped(fps, bits, max), fps);
            let actions = planned_actions(groups, groups.len() as int);
            actions[i].repo != actions[j].repo
        }),
{
    lemma_actions_distinct(fps, bits, max, grouped(fps, bits, max).len() as int);
}

/// Where no two repositories have the same name, as many are to be archived as
/// there are actions less groups, and at least one for each group is kept.
pub proof fn law_one_repo_of_each_group_is_kept(
    fps: Seq<FingerprintView>,
    bits: Seq<Seq<u8>>,
    max: int,
)
    requires
        comparable(fps, bits),
        distinct_names(fps),
    ensures
        ({
            let groups = all_named(grouped(fps, bits, max), fps);
            let n = groups.len() as int;
            &&& archived(groups, n).len() == planned_actions(groups, n).len() - n
            &&& fps.len() - archived(groups, n).len() >= n
        }),
{
    let gs = grouped(fps, bits, max);
    let views = all_named(gs, fps);
    let n = gs.len() as int;
    let actions = planned_actions(views, n);
    let names = fps.map_values(|f: FingerprintView| f.repo_name);
    let acted = actions.map_values(|a: ActionView| a.repo);
    lemma_actions_distinct(fps, bits, max, n);
    law_all_but_one_are_archived(fps, bits, max);
    assert(acted.no_duplicates()) by {
        assert forall|i: int, j: int|
            0 <= i < acted.len() && 0 <= j < acted.len() && i != j implies acted[i] != acted[j] by {
            if i < j {
                assert(actions[i].repo != actions[j].repo);
            } else {
                assert(actions[j].repo != actions[i].repo);
            }
        }
    }
    acted.unique_seq_to_set();
    assert forall|name: Seq<char>| acted.to_set().contains(name) implies names.to_set().contains(
        name,
    ) by {
        let i = choose|i: int| 0 <= i < acted.len() && acted[i] == name;
        assert(acted[i] == actions[i].repo);
        let g = choose|g: int|
            0 <= g < n && (#[trigger] views[g]).repos.contains(actions[i].repo);
        law_groups_are_groups(fps, bits, max, g);
        let k = choose|k: int| 0 <= k < views[g].repos.len() && views[g].repos[k] == name;
        assert(names[gs[g].members[k]] == name);
    }
    vstd::seq_lib::seq_to_set_is_finite(names);
    vstd::set_lib::lemma_len_subset(acted.to_set(), names.to_set());
    names.lemma_cardinality_of_set();
}

/// An action to keep is for the primary of a group, one to archive for another
/// repository of it; both say so, give the group, and a reason by its kind.
pub proof fn law_actions_say_what_they_are(g: RepoGroupView, id: usize, name: Seq<char>)
    ensures
        keep_action(g, id as int) == (ActionView {
            repo: g.primary,
            action: "keep"@,
            reason: "Primary repo for "@ + (match g.kind {
                GroupKind::ExactDuplicate => "exact-duplicate"@,
                GroupKind::NearDuplicate => "near-duplicate"@,
                GroupKind::Fork => "fork"@,
            }) + " group — most commits/tests/readme"@,
            group_id: Some(id),
        }),
        archive_action(g, id as int, name) == (ActionView {
            repo: name,
            action: "archive"@,
            reason: match g.kind {
                GroupKind::ExactDuplicate =>
                    "Exact duplicate — safe to archive, consider git remote consolidation"@,
                GroupKind::NearDuplicate =>
                    "Near-duplicate — review before archiving, may contain unique changes"@,
                GroupKind::Fork =>
                    "Fork — consider merging unique commits into primary, then archive"@,
            },
            group_id: Some(id),
        }),
{
}

/// The actions for a group keep its primary first and archive the others in the
/// order in which the group lists them: one more repository at the end adds an
/// action at the end, or none if it is the primary.
pub proof fn law_actions_follow_the_group(g: RepoGroupView, id: int, last: Seq<char>)
    ensures
        group_actions(RepoGroupView { repos: Seq::empty(), ..g }, id) == seq![keep_action(g, id)],
        group_actions(RepoGroupView { repos: g.repos.push(last), ..g }, id) == group_actions(g, id)
            + if last == g.primary {
            Seq::<ActionView>::empty()
        } else {
            seq![archive_action(g, id, last)]
        },
{
    reveal(Seq::filter);
    let p = |name: Seq<char>| name != g.primary;
    let none = RepoGroupView { repos: Seq::empty(), ..g };
    let more = RepoGroupView { repos: g.repos.push(last), ..g };
    assert(others(none) =~= Seq::<Seq<char>>::empty());
    assert(group_actions(none, id) =~= seq![keep_action(g, id)]);
    assert(more.repos.drop_last() =~= g.repos);
    assert(others(more) =~= if last == g.primary {
        others(g)
    } else {
        others(g).push(last)
    });
    assert(group_actions(more, id) =~= group_actions(g, id) + if last == g.primary {
        Seq::<ActionView>::empty()
    } else {
        seq![archive_action(g, id, last)]
    });
}

/// The actions of a plan go group by group.
pub proof fn law_actions_go_group_by_group(groups: Seq<RepoGroupView>, n: int)
    requires
        0 <= n < groups.len(),
    ensures
        planned_actions(groups, 0).len() == 0,
        planned_actions(groups, n + 1) == planned_actions(groups, n) + group_actions(groups[n], n),
{
}

/// One more group is one more of its kind and of no other.
pub proof fn law_groups_are_counted_by_kind(groups: Seq<RepoGroupView>, kind: GroupKind, n: int)
    requires
        0 <= n < groups.len(),
    ensures
        count_kind(groups, kind, 0) == 0,
        count_kind(groups, kind, n + 1) == count_kind(groups, kind, n) + if groups[n].kind == kind {
            1int
        } else {
            0int
        },
{
}

/// The details of a group give its number, kind, primary, likeness and
/// repositories, and suggest what to do with it as a whole.
pub proof fn law_details_of_a_group(fps: Seq<FingerprintView>, g: RepoGroupView, id: usize)
    ensures
        ({
            let d = group_detail(fps, g, id as int);
            &&& d.id == id
            &&& d.kind == match g.kind {
                GroupKind::ExactDuplicate => "exact_duplicate"@,
                GroupKind::NearDuplicate => "near_duplicate"@,
                GroupKind::Fork => "fork"@,
            }
            &&& d.primary == g.primary
            &&& d.similarity == g.similarity
            &&& d.repos.len() == g.repos.len()
            &&& forall|i: int|
                0 <= i < g.repos.len() ==> #[trigger] d.repos[i] == repo_detail(fps, g.repos[i])
            &&& d.suggestion == match g.kind {
                GroupKind::ExactDuplicate => "Archive "@ + decimal((g.repos.len() - 1) as nat)
                    + " repo(s), keep "@ + g.primary + " as canonical"@,
                GroupKind::NearDuplicate =>
                    "Review differences between repos, merge unique work into "@ + g.primary
                    + ", then archive others"@,
                GroupKind::Fork => "Consolidate forks into "@ + g.primary
                    + ", cherry-pick any unique commits from others"@,
            }
        }),
{
}

/// The details of a repository are those of its fingerprint, the last one of its
/// name; of one without a fingerprint nothing is known.
pub proof fn law_details_of_a_repository(fps: Seq<FingerprintView>, name: Seq<char>, i: int)
    ensures
        0 <= i < fps.len() && fps[i].repo_name == name && (forall|j: int|
            i < j < fps.len() ==> (#[trigger] fps[j]).repo_name != name) ==> repo_detail(fps, name)
            == (RepoDetailView {
            name,
            path: fps[i].repo_path,
            source_files: fps[i].source_file_count,
            tests: fps[i].test_count,
            commits: fps[i].commit_count,
            has_readme: fps[i].has_readme,
        }),
        (forall|j: int| 0 <= j < fps.len() ==> (#[trigger] fps[j]).repo_name != name)
            ==> repo_detail(fps, name) == (RepoDetailView {
            name,
            path: Seq::empty(),
            source_files: 0,
            tests: 0,
            commits: 0,
            has_readme: false,
        }),
{
    if 0 <= i < fps.len() && fps[i].repo_name == name && (forall|j: int|
        i < j < fps.len() ==> (#[trigger] fps[j]).repo_name != name) {
        lemma_last_named(fps, name, i, fps.len() as int);
    }
    if forall|j: int| 0 <= j < fps.len() ==> (#[trigger] fps[j]).repo_name != name {
        lemma_none_named(fps, name, fps.len() as int);
    }
}

proof fn lemma_last_named(fps: Seq<FingerprintView>, name: Seq<char>, i: int, n: int)
    requires
        0 <= i < n <= fps.len(),
        fps[i].repo_name == name,
        forall|j: int| i < j < fps.len() ==> (#[trigger] fps[j]).repo_name != name,
    ensures
        last_named(fps, name, n) == Some(i),
    decreases n,
{
    if i < n - 1 {
        assert(fps[n - 1].repo_name != name);
        lemma_last_named(fps, name, i, n - 1);
    }
}

proof fn lemma_none_named(fps: Seq<FingerprintView>, name: Seq<char>, n: int)
    requires
        0 <= n <= fps.len(),
        forall|j: int| 0 <= j < fps.len() ==> (#[trigger] fps[j]).repo_name != name,
    ensures
        last_named(fps, name, n) is None,
    decreases n,
{
    if n > 0 {
        assert(fps[n - 1].repo_name != name);
        lemma_none_named(fps, name, n - 1);
    }
}

/// What archiving saves is told by the percentage and the two numbers.
pub proof fn law_savings_are_told(percent: Seq<char>, archive: nat, total: nat)
    ensures
        savings(percent, archive, total) == percent + "% of repos ("@ + decimal(archive) + "/"@
            + decimal(total) + " repos could be archived)"@,
{
}

/// The plan has the details of each group, in the order of the groups.
pub proof fn law_details_of_each_group(
    fps: Seq<FingerprintView>,
    groups: Seq<RepoGroupView>,
    i: int,
)
    requires
        0 <= i < groups.len(),
    ensures
        all_details(fps, groups).len() == groups.len(),
        all_details(fps, groups)[i] == group_detail(fps, groups[i], i),
{
}

} // verus!
