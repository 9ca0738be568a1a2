//! What is known of a repository, and its packed form.

use crate::counts::{count_commits, count_tests, stated_commits, tests_in_all};
use crate::digest::{blake3_digest, blake3_hash};
use crate::file_types::{law_distribution_determines_list, listed, lookup, FileTypes};
use crate::manifest::{ascend, is_dependency, parse_dependencies, Manifests};
use crate::order::{char_less, lemma_char_less, lemma_lex_antisymmetric, text_leq};
use crate::text::{decimal, decimal_of, join, joined, texts};
use crate::utf8::shown;
use crate::walk::{
    collect_source_files, compute_content_hash, compute_file_types, content_hash, lists_types,
    source_files, type_count, types_fit, WalkEntry,
};
use vstd::prelude::*;
use vstd::utf8::encode_utf8;

pub use crate::hamming::hamming_distance;

verus! {

/// Content fingerprint of a repository.
#[derive(Debug, Clone)]
pub struct Fingerprint {
    pub repo_name: String,
    pub repo_path: String,
    /// BLAKE3 hash, in hexadecimal, of the source files one behind the other.
    pub content_hash: String,
    /// Names of dependencies, in order and without repetition.
    pub dependencies: Vec<String>,
    /// Number of test functions found.
    pub test_count: u32,
    /// Number of source files.
    pub source_file_count: u32,
    /// Whether there is a README.
    pub has_readme: bool,
    /// Number of commits; zero where it cannot be determined.
    pub commit_count: u32,
    /// Number of files of each extension.
    pub file_types: FileTypes,
}

/// The contents of a fingerprint.
#[verifier::ext_equal]
pub struct FingerprintView {
    pub repo_name: Seq<char>,
    pub repo_path: Seq<char>,
    pub content_hash: Seq<char>,
    pub dependencies: Seq<Seq<char>>,
    pub test_count: u32,
    pub source_file_count: u32,
    pub has_readme: bool,
    pub commit_count: u32,
    pub file_types: Seq<(Seq<char>, u32)>,
}

impl View for Fingerprint {
    type V = FingerprintView;

    open spec fn view(&self) -> FingerprintView {
        FingerprintView {
            repo_name: self.repo_name@,
            repo_path: self.repo_path@,
            content_hash: self.content_hash@,
            dependencies: texts(self.dependencies@),
            test_count: self.test_count,
            source_file_count: self.source_file_count,
            has_readme: self.has_readme,
            commit_count: self.commit_count,
            file_types: self.file_types@,
        }
    }
}

/// The `k` lowest bytes of `n`, the lowest first.
pub open spec fn low_bytes(n: nat, k: nat) -> Seq<u8>
    decreases k,
{
    if k == 0 {
        Seq::empty()
    } else {
        seq![(n % 256) as u8] + low_bytes(n / 256, (k - 1) as nat)
    }
}

/// `n` zero bytes.
pub open spec fn zeros(n: nat) -> Seq<u8> {
    Seq::new(n, |i: int| 0u8)
}

/// The thirty-two bytes that stand for a repository in comparisons. Of the two
/// digests, the first four bytes enter.
pub open spec fn packed(
    test_count: u32,
    source_file_count: u32,
    dependency_count: nat,
    dependency_digest: Seq<u8>,
    file_type_digest: Seq<u8>,
    has_readme: bool,
    commit_count: u32,
) -> Seq<u8> {
    low_bytes(test_count as nat, 4) + low_bytes(source_file_count as nat, 4) + low_bytes(
        dependency_count,
        2,
    ) + zeros(2) + dependency_digest.take(4) + file_type_digest.take(4) + seq![
        if has_readme {
            0xffu8
        } else {
            0u8
        },
    ] + low_bytes(commit_count as nat, 3) + zeros(8)
}

/// One entry of a list of file types, as text.
pub open spec fn file_type_text(entry: (Seq<char>, u32)) -> Seq<char> {
    entry.0 + ":"@ + decimal(entry.1 as nat)
}

/// A list of file types, as text.
pub open spec fn file_types_text(types: Seq<(Seq<char>, u32)>) -> Seq<char> {
    joined(types.map_values(|entry: (Seq<char>, u32)| file_type_text(entry)), ","@)
}

/// The thirty-two bytes that stand for the repository `fp` in comparisons.
pub open spec fn feature_bits(fp: FingerprintView) -> Seq<u8> {
    packed(
        fp.test_count,
        fp.source_file_count,
        fp.dependencies.len(),
        blake3_digest(encode_utf8(joined(fp.dependencies, ","@))),
        blake3_digest(encode_utf8(file_types_text(fp.file_types))),
        fp.has_readme,
        fp.commit_count,
    )
}

/// Packs counts, flags and digests into thirty-two bytes.
pub fn pack_features(
    test_count: u32,
    source_file_count: u32,
    dependency_count: usize,
    dependency_digest: &[u8; 32],
    file_type_digest: &[u8; 32],
    has_readme: bool,
    commit_count: u32,
) -> (r: [u8; 32])
    ensures
        r@ == packed(
            test_count,
            source_file_count,
            dependency_count as nat,
            dependency_digest@,
            file_type_digest@,
            has_readme,
            commit_count,
        ),
{
    let r: [u8; 32] = [
        (test_count % 256) as u8,
        (test_count / 256 % 256) as u8,
        (test_count / 0x1_0000 % 256) as u8,
        (test_count / 0x100_0000 % 256) as u8,
        (source_file_count % 256) as u8,
        (source_file_count / 256 % 256) as u8,
        (source_file_count / 0x1_0000 % 256) as u8,
        (source_file_count / 0x100_0000 % 256) as u8,
        (dependency_count % 256) as u8,
        (dependency_count / 256 % 256) as u8,
        0,
        0,
        dependency_digest[0],
        dependency_digest[1],
        dependency_digest[2],
        dependency_digest[3],
        file_type_digest[0],
        file_type_digest[1],
        file_type_digest[2],
        file_type_digest[3],
        if has_readme {
            0xff
        } else {
            0
        },
        (commit_count % 256) as u8,
        (commit_count / 256 % 256) as u8,
        (commit_count / 0x1_0000 % 256) as u8,
        0,
        0,
        0,
        0,
        0,
        0,
        0,
        0,
    ];
    proof {
        reveal_with_fuel(low_bytes, 5);
        assert(r@ =~= packed(
            test_count,
            source_file_count,
            dependency_count as nat,
            dependency_digest@,
            file_type_digest@,
            has_readme,
            commit_count,
        ));
    }
    r
}

/// `types` as text.
fn write_file_types(types: &FileTypes) -> (r: String)
    ensures
        r@ == file_types_text(types@),
{
    let entries: &Vec<(String, u32)> = types.entries();
    let mut parts: Vec<String> = Vec::new();
    let mut i: usize = 0;
    while i < entries.len()
        invariant
            i <= entries@.len(),
            parts@.len() == i,
            forall|k: int|
                0 <= k < i ==> (#[trigger] parts@[k])@ == file_type_text(listed(entries@)[k]),
        decreases entries@.len() - i,
    {
        let mut part: String = entries[i].0.clone();
        part.append(":");
        part.append(decimal_of(entries[i].1 as u64).as_str());
        parts.push(part);
        i += 1;
    }
    assert(texts(parts@) =~= types@.map_values(|entry: (Seq<char>, u32)| file_type_text(entry)));
    join(parts.as_slice(), ",")
}

impl Fingerprint {
    /// The thirty-two bytes that stand for this repository in comparisons.
    pub fn to_feature_bits(&self) -> (r: [u8; 32])
        ensures
            r@ == feature_bits(self@),
    {
        let names: String = join(self.dependencies.as_slice(), ",");
        let types: String = write_file_types(&self.file_types);
        pack_features(
            self.test_count,
            self.source_file_count,
            self.dependencies.len(),
            &blake3_hash(names.as_str().as_bytes()),
            &blake3_hash(types.as_str().as_bytes()),
            self.has_readme,
            self.commit_count,
        )
    }
}

/// What was read of a repository.
#[derive(Debug, Clone)]
pub struct RepoFacts {
    pub name: String,
    pub path: String,
    /// What the walk for source files and file types met; `None` where it failed.
    pub entries: Option<Vec<WalkEntry>>,
    pub manifests: Manifests,
    /// What the walk for tests met; `None` where it failed.
    pub test_entries: Option<Vec<WalkEntry>>,
    /// Whether there is a `README.md`.
    pub readme_md: bool,
    /// Whether there is a `README`.
    pub readme: bool,
    /// Whether there is a `readme.md`.
    pub readme_md_lower: bool,
    /// What the version control printed when asked for the number of commits;
    /// `None` where it failed.
    pub commits: Option<Vec<u8>>,
}

/// What a walk met: nothing, where it failed.
pub open spec fn met(entries: Option<Vec<WalkEntry>>) -> Seq<WalkEntry> {
    match entries {
        Some(v) => v@,
        None => Seq::empty(),
    }
}

/// Whether the counts of a repository have room in their types.
pub open spec fn countable(facts: RepoFacts) -> bool {
    &&& types_fit(facts.name@, met(facts.entries))
    &&& tests_in_all(facts.name@, met(facts.test_entries)) <= u32::MAX
}

/// Whether `fp` is the fingerprint of the repository of which `facts` were read.
pub open spec fn describes(fp: FingerprintView, facts: RepoFacts) -> bool {
    let files = source_files(facts.name@, met(facts.entries));
    &&& fp.repo_name == facts.name@
    &&& fp.repo_path == facts.path@
    &&& fp.content_hash == content_hash(files)
    &&& ascend(fp.dependencies)
    &&& forall|name: Seq<char>| #[trigger]
        fp.dependencies.contains(name) <==> is_dependency(facts.manifests, name)
    &&& fp.test_count == tests_in_all(facts.name@, met(facts.test_entries))
    &&& fp.source_file_count == files.len() % 0x1_0000_0000
    &&& fp.has_readme == (facts.readme_md || facts.readme || facts.readme_md_lower)
    &&& fp.commit_count == match facts.commits {
        Some(bytes) => stated_commits(shown(bytes@)),
        None => 0,
    }
    &&& lists_types(fp.file_types, facts.name@, met(facts.entries))
}

/// The fingerprint of the repository of which `facts` were read; `None` where a
/// count is too great for its type.
pub fn compute_fingerprint(facts: RepoFacts) -> (r: Option<Fingerprint>)
    ensures
        r is Some <==> countable(facts),
        r matches Some(fp) ==> describes(fp@, facts),
{
    let ghost given = facts;
    let dependencies: Vec<String> = parse_dependencies(&facts.manifests);
    let tests: Option<u32> = match &facts.test_entries {
        Some(v) => count_tests(facts.name.as_str(), v.as_slice()),
        None => Some(0),
    };
    let commit_count: u32 = match &facts.commits {
        Some(bytes) => count_commits(Some(bytes.as_slice())),
        None => count_commits(None),
    };
    let has_readme: bool = facts.readme_md || facts.readme || facts.readme_md_lower;
    let entries: Vec<WalkEntry> = match facts.entries {
        Some(v) => v,
        None => Vec::new(),
    };
    assert(entries@ == met(given.entries));
    let types: Option<FileTypes> = compute_file_types(facts.name.as_str(), entries.as_slice());
    let files: Vec<WalkEntry> = collect_source_files(facts.name.as_str(), entries);
    match (tests, types) {
        (Some(test_count), Some(file_types)) => Some(
            Fingerprint {
                repo_name: facts.name,
                repo_path: facts.path,
                content_hash: compute_content_hash(files.as_slice()),
                dependencies,
                test_count,
                source_file_count: (files.len() as u64 % 0x1_0000_0000) as u32,
                has_readme,
                commit_count,
                file_types,
            },
        ),
        _ => None,
    }
}

/// The fingerprints of several repositories; `None` where a count of one of
/// them is too great for its type.
pub fn compute_all(repos: Vec<RepoFacts>) -> (r: Option<Vec<Fingerprint>>)
    ensures
        r is Some <==> forall|i: int| 0 <= i < repos@.len() ==> countable(#[trigger] repos@[i]),
        r matches Some(fps) ==> fps@.len() == repos@.len() && forall|i: int|
            0 <= i < fps@.len() ==> describes((#[trigger] fps@[i])@, repos@[i]),
{
    let ghost all = repos@;
    let mut fps: Vec<Fingerprint> = Vec::new();
    for facts in it: repos
        invariant
            it.seq() == all,
            fps@.len() == it.index(),
            forall|i: int| 0 <= i < it.index() ==> countable(#[trigger] all[i]),
            forall|i: int| 0 <= i < fps@.len() ==> describes((#[trigger] fps@[i])@, all[i]),
    {
        let ghost k = it.index() as int;
        assert(all[k] == facts);
        match compute_fingerprint(facts) {
            Some(fp) => {
                fps.push(fp);
            },
            None => {
                return None;
            },
        }
    }
    Some(fps)
}

/// Two ascending sequences of the same texts are the same sequence.
proof fn lemma_ascend_unique(a: Seq<Seq<char>>, b: Seq<Seq<char>>)
    requires
        ascend(a),
        ascend(b),
        forall|name: Seq<char>| #[trigger] a.contains(name) <==> b.contains(name),
    ensures
        a == b,
    decreases a.len(),
{
    if a.len() == 0 {
        if b.len() > 0 {
            assert(b.contains(b[0]));
            assert(a.contains(b[0]));
        }
        assert(a =~= b);
    } else {
        let x = a.last();
        assert(a[a.len() - 1] == x);
        assert(a.contains(x));
        let i = choose|i: int| 0 <= i < b.len() && b[i] == x;
        let y = b.last();
        assert(b[b.len() - 1] == y);
        assert(b.contains(y));
        assert(a.contains(y));
        let j = choose|j: int| 0 <= j < a.len() && a[j] == y;
        if x != y {
            assert(text_leq(b[i], b[b.len() - 1]));
            assert(text_leq(a[j], a[a.len() - 1]));
            lemma_char_less();
            lemma_lex_antisymmetric(x, y, char_less());
        }
        let fa = a.drop_last();
        let fb = b.drop_last();
        assert forall|name: Seq<char>| #[trigger] fa.contains(name) <==> fb.contains(name) by {
            if fa.contains(name) {
                let k = choose|k: int| 0 <= k < fa.len() && fa[k] == name;
                assert(a[k] == name && a[k] != a[a.len() - 1]);
                assert(a.contains(name));
                let m = choose|m: int| 0 <= m < b.len() && b[m] == name;
                assert(fb[m] == name);
            }
            if fb.contains(name) {
                let k = choose|k: int| 0 <= k < fb.len() && fb[k] == name;
                assert(b[k] == name && b[k] != b[b.len() - 1]);
                assert(b.contains(name));
                assert(a.contains(name));
                let m = choose|m: int| 0 <= m < a.len() && a[m] == name;
                assert(fa[m] == name);
            }
        }
        lemma_ascend_unique(fa, fb);
        assert(a =~= fa.push(x));
        assert(b =~= fb.push(y));
    }
}

/// What was read of a repository determines its fingerprint, and so its
/// feature bits.
pub proof fn law_facts_determine_fingerprint(
    facts: RepoFacts,
    a: FingerprintView,
    b: FingerprintView,
)
    requires
        describes(a, facts),
        describes(b, facts),
    ensures
        a == b,
        feature_bits(a) == feature_bits(b),
{
    assert forall|name: Seq<char>| #[trigger]
        a.dependencies.contains(name) <==> b.dependencies.contains(name) by {
        assert(a.dependencies.contains(name) <==> is_dependency(facts.manifests, name));
        assert(b.dependencies.contains(name) <==> is_dependency(facts.manifests, name));
    }
    lemma_ascend_unique(a.dependencies, b.dependencies);
    assert forall|ext: Seq<char>| lookup(a.file_types, ext) == lookup(b.file_types, ext) by {
        let count = type_count(facts.name@, met(facts.entries), ext);
        assert(lookup(a.file_types, ext) is None <==> count == 0);
        assert(lookup(b.file_types, ext) is None <==> count == 0);
    }
    law_distribution_determines_list(a.file_types, b.file_types);
}

} // verus!
