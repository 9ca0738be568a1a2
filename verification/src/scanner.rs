//! Finding the repositories below a directory.

use crate::order::{
    char_less, law_sorting_keeps_items, law_sorting_sorts, lemma_char_less, lemma_lex_total,
    lemma_lex_transitive, sort_stable, sorted, stable_sorted, text_at_most, text_leq, Ranked,
};
use crate::text::chars_of;
use vstd::prelude::*;

verus! {

/// `std::path::PathBuf`. Nothing is claimed of what is in it: a path is handed on
/// as it is.
#[verifier::external_type_specification]
#[verifier::external_body]
pub struct ExPathBuf(std::path::PathBuf);

/// `PathBuf::clone` gives a duplicate of the path.
pub assume_specification[ <std::path::PathBuf as Clone>::clone ](
    path: &std::path::PathBuf,
) -> (r: std::path::PathBuf)
    ensures
        r == *path,
;

/// A repository that was found.
#[derive(Debug)]
pub struct Repo {
    pub path: std::path::PathBuf,
    pub name: String,
}

impl Clone for Repo {
    fn clone(&self) -> (r: Self)
        ensures
            r == *self,
    {
        Repo { path: self.path.clone(), name: self.name.clone() }
    }
}

/// Repositories are ranked by name.
impl Ranked for Repo {
    open spec fn leq(&self, other: &Self) -> bool {
        text_leq(self.name@, other.name@)
    }

    proof fn total(x: &Self, y: &Self) {
        lemma_char_less();
        lemma_lex_total(x.name@, y.name@, char_less());
    }

    proof fn transitive(x: &Self, y: &Self, z: &Self) {
        lemma_char_less();
        lemma_lex_transitive(x.name@, y.name@, z.name@, char_less());
    }

    fn at_most(&self, other: &Self) -> (r: bool) {
        text_at_most(self.name.as_str(), other.name.as_str())
    }
}

/// An entry of a directory.
#[derive(Debug)]
pub struct DirEntry {
    pub path: std::path::PathBuf,
    pub name: String,
    pub is_dir: bool,
    /// Whether it holds a directory `.git`.
    pub has_git: bool,
    /// What it holds; `None` where that was not or could not be read.
    pub children: Option<Vec<DirEntry>>,
}

/// What a scan does about an entry.
#[derive(Debug, Clone, Copy, PartialEq, Eq, Structural)]
pub enum Step {
    /// Leave it out.
    Skip,
    /// Take it for a repository, and do not look into it.
    Take,
    /// Look into it.
    Enter,
}

/// Whether a name begins with a dot.
pub open spec fn is_hidden(name: Seq<char>) -> bool {
    name.len() > 0 && name[0] == '.'
}

/// Whether `name` begins with a dot.
pub fn hidden(name: &str) -> (r: bool)
    ensures
        r == is_hidden(name@),
{
    let chars: Vec<char> = chars_of(name);
    chars.len() > 0 && chars[0] == '.'
}

/// What a scan does about an entry: it leaves out what is no directory and what
/// is hidden, takes what holds a directory `.git`, and looks into the rest.
pub open spec fn step_of(name: Seq<char>, is_dir: bool, has_git: bool) -> Step {
    if !is_dir || is_hidden(name) {
        Step::Skip
    } else if has_git {
        Step::Take
    } else {
        Step::Enter
    }
}

/// What a scan does about an entry.
pub fn step(name: &str, is_dir: bool, has_git: bool) -> (r: Step)
    ensures
        r == step_of(name@, is_dir, has_git),
{
    if !is_dir || hidden(name) {
        Step::Skip
    } else if has_git {
        Step::Take
    } else {
        Step::Enter
    }
}

impl DirEntry {
    /// What a scan does about this entry.
    pub open spec fn step(self) -> Step {
        step_of(self.name@, self.is_dir, self.has_git)
    }

    /// This entry as a repository.
    pub open spec fn as_repo(self) -> Repo {
        Repo { path: self.path, name: self.name }
    }
}

/// The repositories that an entry is or leads to, in the order they are met.
pub open spec fn found_at(entry: DirEntry) -> Seq<Repo>
    decreases entry,
{
    match entry.step() {
        Step::Skip => Seq::empty(),
        Step::Take => seq![entry.as_repo()],
        Step::Enter => found_in(entry.children),
    }
}

/// The repositories below a directory, in the order they are met. One that
/// cannot be read has none.
pub open spec fn found_in(dir: Option<Vec<DirEntry>>) -> Seq<Repo>
    decreases dir,
{
    match dir {
        Some(entries) => found_among(entries@),
        None => Seq::empty(),
    }
}

/// The repositories that some entries are or lead to, in the order they are met.
pub open spec fn found_among(entries: Seq<DirEntry>) -> Seq<Repo>
    decreases entries,
{
    if entries.len() == 0 {
        Seq::empty()
    } else {
        found_among(entries.subrange(0, entries.len() - 1)) + found_at(entries[entries.len() - 1])
    }
}

/// Adds the repositories below a directory to `repos`, in the order they are met.
pub fn scan_repos_recursive(dir: Option<Vec<DirEntry>>, repos: &mut Vec<Repo>)
    ensures
        final(repos)@ == old(repos)@ + found_in(dir),
    decreases dir,
{
    let ghost start = repos@;
    let entries: Vec<DirEntry> = match dir {
        Some(entries) => entries,
        None => {
            return;
        },
    };
    let ghost all = entries@;
    for entry in it: entries
        invariant
            it.seq() == all,
            dir == Some(entries),
            all == entries@,
            repos@ == start + found_among(all.subrange(0, it.index() as int)),
    {
        let ghost before = repos@;
        let ghost met = entry;
        proof {
            let k = it.index() as int;
            let upto = all.subrange(0, k + 1);
            assert(upto.subrange(0, k) =~= all.subrange(0, k));
            assert(upto[k] == entry);
            assert(found_among(upto) == found_among(all.subrange(0, k)) + found_at(met));
            assert(decreases_to!(all => all[k]));
            assert(decreases_to!(dir => dir->0));
            assert(decreases_to!(entries => entries@));
            assert(decreases_to!(met => met.children));
        }
        match step(entry.name.as_str(), entry.is_dir, entry.has_git) {
            Step::Skip => {},
            Step::Take => {
                repos.push(Repo { path: entry.path, name: entry.name });
            },
            Step::Enter => {
                scan_repos_recursive(entry.children, repos);
            },
        }
        assert(repos@ =~= before + found_at(met));
    }
    assert(all.subrange(0, all.len() as int) =~= all);
}

/// The repositories below a directory, in order of their names; those of one
/// name in the order they are met.
pub fn scan_repos(root: Option<Vec<DirEntry>>) -> (r: Vec<Repo>)
    ensures
        r@ == stable_sorted(found_in(root)),
        sorted(r@),
{
    let mut repos: Vec<Repo> = Vec::new();
    scan_repos_recursive(root, &mut repos);
    assert(repos@ =~= found_in(root));
    sort_stable(repos)
}

/// The entry that `way` leads to from `entries`: at each step an index, first
/// among `entries` and then among what the entry before holds. Every entry on
/// the way is one that a scan looks into.
pub open spec fn led_to(entries: Seq<DirEntry>, way: Seq<int>) -> Option<DirEntry>
    decreases way.len(),
{
    if way.len() == 0 || !(0 <= way[0] < entries.len()) {
        None
    } else if way.len() == 1 {
        Some(entries[way[0]])
    } else if entries[way[0]].step() == Step::Enter {
        match entries[way[0]].children {
            Some(v) => led_to(v@, way.drop_first()),
            None => None,
        }
    } else {
        None
    }
}

/// Whether `way` leads to an entry that a scan takes for the repository `repo`.
pub open spec fn leads_to_repo(entries: Seq<DirEntry>, way: Seq<int>, repo: Repo) -> bool {
    led_to(entries, way) matches Some(entry) && entry.step() == Step::Take && entry.as_repo()
        == repo
}

/// A scan finds what some entry is or leads to.
proof fn lemma_found_among(entries: Seq<DirEntry>, k: int, repo: Repo)
    requires
        0 <= k < entries.len(),
        found_at(entries[k]).contains(repo),
    ensures
        found_among(entries).contains(repo),
    decreases entries.len(),
{
    let n = entries.len() - 1;
    let front = found_among(entries.subrange(0, n));
    let back = found_at(entries[n]);
    if k < n {
        lemma_found_among(entries.subrange(0, n), k, repo);
        let i = choose|i: int| 0 <= i < front.len() && front[i] == repo;
        assert((front + back)[i] == repo);
    } else {
        let i = choose|i: int| 0 <= i < back.len() && back[i] == repo;
        assert((front + back)[front.len() + i] == repo);
    }
}

/// What a scan finds, some entry is or leads to.
proof fn lemma_found_somewhere(entries: Seq<DirEntry>, repo: Repo) -> (k: int)
    requires
        found_among(entries).contains(repo),
    ensures
        0 <= k < entries.len(),
        found_at(entries[k]).contains(repo),
    decreases entries.len(),
{
    let n = entries.len() - 1;
    let front = found_among(entries.subrange(0, n));
    let back = found_at(entries[n]);
    let all = front + back;
    let i = choose|i: int| 0 <= i < all.len() && all[i] == repo;
    if i < front.len() {
        assert(front[i] == repo);
        lemma_found_somewhere(entries.subrange(0, n), repo)
    } else {
        assert(back[i - front.len()] == repo);
        n
    }
}

/// A way leads to everything that a scan finds.
proof fn lemma_way(entries: Seq<DirEntry>, repo: Repo) -> (way: Seq<int>)
    requires
        found_among(entries).contains(repo),
    ensures
        leads_to_repo(entries, way, repo),
    decreases entries,
{
    let k = lemma_found_somewhere(entries, repo);
    let entry = entries[k];
    match entry.step() {
        Step::Enter => {
            assert(found_at(entry) == found_in(entry.children));
            let v = entry.children->0;
            assert(decreases_to!(entries => entries[k]));
            assert(decreases_to!(entry => entry.children));
            assert(decreases_to!(entry.children => entry.children->0));
            assert(decreases_to!(v => v@));
            let rest = lemma_way(v@, repo);
            let way = seq![k] + rest;
            assert(way.drop_first() =~= rest);
            way
        },
        _ => {
            assert(found_at(entry)[0] == entry.as_repo());
            seq![k]
        },
    }
}

/// A scan finds everything that a way leads to.
proof fn lemma_way_found(entries: Seq<DirEntry>, way: Seq<int>, repo: Repo)
    requires
        leads_to_repo(entries, way, repo),
    ensures
        found_among(entries).contains(repo),
    decreases way.len(),
{
    let entry = entries[way[0]];
    if way.len() == 1 {
        assert(found_at(entry)[0] == repo);
    } else {
        lemma_way_found((entry.children->0)@, way.drop_first(), repo);
        assert(found_at(entry) == found_in(entry.children));
    }
    lemma_found_among(entries, way[0], repo);
}

/// A scan finds a repository exactly where a way leads to it through
/// directories that are neither hidden nor repositories.
pub proof fn law_found_where_a_way_leads(entries: Vec<DirEntry>, repo: Repo)
    ensures
        stable_sorted(found_in(Some(entries))).contains(repo) <==> exists|way: Seq<int>|
            leads_to_repo(entries@, way, repo),
{
    broadcast use vstd::seq_lib::group_to_multiset_ensures;

    let found = found_among(entries@);
    law_sorting_keeps_items(found);
    assert(stable_sorted(found).to_multiset().count(repo) == found.to_multiset().count(repo));
    if found.contains(repo) {
        let way = lemma_way(entries@, repo);
        assert(leads_to_repo(entries@, way, repo));
    }
    if exists|way: Seq<int>| leads_to_repo(entries@, way, repo) {
        let way = choose|way: Seq<int>| leads_to_repo(entries@, way, repo);
        lemma_way_found(entries@, way, repo);
    }
}

/// What lies in a repository, in a hidden directory or in what is no directory
/// makes no difference to a scan.
pub proof fn law_only_entered_directories_matter(a: DirEntry, b: DirEntry)
    requires
        a.step() != Step::Enter,
        a == (DirEntry { children: a.children, ..b }),
    ensures
        found_at(a) == found_at(b),
        found_at(a).len() <= 1,
{
}

/// Nothing is found that is hidden.
pub proof fn law_nothing_hidden_is_found(dir: Option<Vec<DirEntry>>, repo: Repo)
    requires
        found_in(dir).contains(repo),
    ensures
        !is_hidden(repo.name@),
{
    let entries = (dir->0)@;
    let way = lemma_way(entries, repo);
}

/// What is a directory, has no dot before its name and holds `.git` is taken for a
/// repository; without `.git` it is looked into; all else is left out.
pub proof fn law_steps_of_a_scan(name: Seq<char>, is_dir: bool, has_git: bool)
    ensures
        step_of(name, is_dir, has_git) == Step::Take <==> is_dir && has_git && !(name.len() > 0
            && name[0] == '.'),
        step_of(name, is_dir, has_git) == Step::Enter <==> is_dir && !has_git && !(name.len() > 0
            && name[0] == '.'),
        is_hidden(name) <==> name.len() > 0 && name[0] == '.',
        step_of(name, is_dir, has_git) == Step::Skip <==> !is_dir || name.len() > 0 && name[0]
            == '.',
{
}

/// What is found among entries is found in the order of the entries, and in each
/// on its own: nothing in what is left out, the entry itself where it is taken, and
/// what is found in it where it is looked into.
pub proof fn law_found_entry_by_entry(entries: Seq<DirEntry>, last: DirEntry)
    ensures
        found_among(Seq::empty()).len() == 0,
        found_among(entries.push(last)) == found_among(entries) + match step_of(
            last.name@,
            last.is_dir,
            last.has_git,
        ) {
            Step::Skip => Seq::<Repo>::empty(),
            Step::Take => seq![Repo { path: last.path, name: last.name }],
            Step::Enter => match last.children {
                Some(inner) => found_among(inner@),
                None => Seq::<Repo>::empty(),
            },
        },
{
    let all = entries.push(last);
    assert(all.subrange(0, all.len() - 1) =~= entries);
    assert(all[all.len() - 1] == last);
    assert(found_among(all) == found_among(entries) + found_at(last));
    assert(found_in(last.children) == match last.children {
        Some(inner) => found_among(inner@),
        None => Seq::<Repo>::empty(),
    });
}

/// The repositories that are found come in the order of their names.
pub proof fn law_repositories_come_by_name(found: Seq<Repo>, i: int, j: int)
    requires
        0 <= i < j < found.len(),
    ensures
        stable_sorted(found).len() == found.len(),
        text_leq(stable_sorted(found)[i].name@, stable_sorted(found)[j].name@),
{
    law_sorting_keeps_items(found);
    law_sorting_sorts(found);
    let s = stable_sorted(found);
    assert(s[i].leq(&s[j]));
}

} // verus!
