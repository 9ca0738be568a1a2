//! What a fingerprint and its feature bits hold.

use crate::counts::{stated_commits, tests_in, tests_in_all, tests_in_lines};
use crate::digest::blake3_digest;
use crate::file_types::{law_count_is_what_is_listed, lookup};
use crate::fingerprint::{
    countable, describes, feature_bits, file_type_text, file_types_text, low_bytes, met, packed,
    FingerprintView, RepoFacts,
};
use crate::manifest::is_dependency;
use crate::order::{law_sorting_keeps_items, text_leq};
use crate::text::{decimal, joined, lines};
use crate::text_laws::law_joining;
use crate::utf8::shown;
use crate::walk::{content_hash, is_source_file, source_files, type_count, WalkEntry};
use crate::walk_laws::law_no_more_files_than_entries;
use vstd::prelude::*;
use vstd::utf8::{encode_utf8, encode_utf8_decode_utf8, encode_utf8_valid_utf8};

verus! {

/// The lowest bytes of a number are its digits to the base of 256.
proof fn lemma_two_low_bytes(n: nat)
    ensures
        low_bytes(n, 2).len() == 2,
        low_bytes(n, 2)[0] + 256 * low_bytes(n, 2)[1] == n % 65536,
{
    reveal_with_fuel(low_bytes, 3);
    assert(low_bytes(n, 2) =~= seq![(n % 256) as u8, (n / 256 % 256) as u8]);
}

proof fn lemma_more_low_bytes(n: nat, k: nat)
    ensures
        low_bytes(n, k + 1).len() == low_bytes(n / 256, k).len() + 1,
        low_bytes(n, k + 1)[0] == n % 256,
        forall|i: int|
            0 <= i < low_bytes(n / 256, k).len() ==> low_bytes(n, k + 1)[i + 1]
                == #[trigger] low_bytes(n / 256, k)[i],
{
    assert(low_bytes(n, k + 1) == seq![(n % 256) as u8] + low_bytes(n / 256, k));
}

proof fn lemma_three_low_bytes(n: nat)
    ensures
        low_bytes(n, 3).len() == 3,
        low_bytes(n, 3)[0] + 256 * low_bytes(n, 3)[1] + 65536 * low_bytes(n, 3)[2] == n % 16777216,
{
    lemma_two_low_bytes(n / 256);
    lemma_more_low_bytes(n, 2);
    let m = low_bytes(n / 256, 2);
    assert(low_bytes(n, 3)[1] == m[0]);
    assert(low_bytes(n, 3)[2] == m[1]);
    assert(n % 16777216 == n % 256 + 256 * (n / 256 % 65536));
}

proof fn lemma_four_low_bytes(n: nat)
    requires
        n < 0x1_0000_0000,
    ensures
        low_bytes(n, 4).len() == 4,
        low_bytes(n, 4)[0] + 256 * low_bytes(n, 4)[1] + 65536 * low_bytes(n, 4)[2] + 16777216
            * low_bytes(n, 4)[3] == n,
{
    lemma_three_low_bytes(n / 256);
    lemma_more_low_bytes(n, 3);
    let m = low_bytes(n / 256, 3);
    assert(low_bytes(n, 4)[1] == m[0]);
    assert(low_bytes(n, 4)[2] == m[1]);
    assert(low_bytes(n, 4)[3] == m[2]);
    assert(n == n % 256 + 256 * (n / 256));
}

/// The thirty-two bytes hold, the lowest byte first, the number of tests in four,
/// that of source files in four, that of dependencies in two, nothing in two, the
/// first four bytes of each digest, a full or an empty byte for the README, the
/// number of commits in three, and nothing in eight.
pub proof fn law_packed_bytes(
    tests: u32,
    files: u32,
    dependencies: nat,
    d: Seq<u8>,
    e: Seq<u8>,
    readme: bool,
    commits: u32,
)
    requires
        d.len() >= 4,
        e.len() >= 4,
    ensures
        ({
            let p = packed(tests, files, dependencies, d, e, readme, commits);
            &&& p.len() == 32
            &&& p[0] + 256 * p[1] + 65536 * p[2] + 16777216 * p[3] == tests
            &&& p[4] + 256 * p[5] + 65536 * p[6] + 16777216 * p[7] == files
            &&& p[8] + 256 * p[9] == dependencies % 65536
            &&& p[10] == 0 && p[11] == 0
            &&& p[12] == d[0] && p[13] == d[1] && p[14] == d[2] && p[15] == d[3]
            &&& p[16] == e[0] && p[17] == e[1] && p[18] == e[2] && p[19] == e[3]
            &&& p[20] == if readme {
                0xffu8
            } else {
                0u8
            }
            &&& p[21] + 256 * p[22] + 65536 * p[23] == commits as int % 16777216
            &&& forall|i: int| 24 <= i < 32 ==> #[trigger] p[i] == 0
        }),
{
    let a = low_bytes(tests as nat, 4);
    let b = low_bytes(files as nat, 4);
    let c = low_bytes(dependencies, 2);
    let m = low_bytes(commits as nat, 3);
    lemma_four_low_bytes(tests as nat);
    lemma_four_low_bytes(files as nat);
    lemma_two_low_bytes(dependencies);
    lemma_three_low_bytes(commits as nat);
    lemma_packed_places(tests, files, dependencies, d, e, readme, commits);
    let p = packed(tests, files, dependencies, d, e, readme, commits);
    assert(p[0] == a[0] && p[1] == a[1] && p[2] == a[2] && p[3] == a[3]);
    assert(p[4] == b[0] && p[5] == b[1] && p[6] == b[2] && p[7] == b[3]);
    assert(p[8] == c[0] && p[9] == c[1]);
    assert(p[21] == m[0] && p[22] == m[1] && p[23] == m[2]);
}

/// Where each part of the packed bytes lies.
proof fn lemma_packed_places(
    tests: u32,
    files: u32,
    dependencies: nat,
    d: Seq<u8>,
    e: Seq<u8>,
    readme: bool,
    commits: u32,
)
    requires
        d.len() >= 4,
        e.len() >= 4,
        low_bytes(tests as nat, 4).len() == 4,
        low_bytes(files as nat, 4).len() == 4,
        low_bytes(dependencies, 2).len() == 2,
        low_bytes(commits as nat, 3).len() == 3,
    ensures
        ({
            let p = packed(tests, files, dependencies, d, e, readme, commits);
            let a = low_bytes(tests as nat, 4);
            let b = low_bytes(files as nat, 4);
            let c = low_bytes(dependencies, 2);
            let m = low_bytes(commits as nat, 3);
            &&& p.len() == 32
            &&& p[0] == a[0] && p[1] == a[1] && p[2] == a[2] && p[3] == a[3]
            &&& p[4] == b[0] && p[5] == b[1] && p[6] == b[2] && p[7] == b[3]
            &&& p[8] == c[0] && p[9] == c[1]
            &&& p[10] == 0 && p[11] == 0
            &&& p[12] == d[0] && p[13] == d[1] && p[14] == d[2] && p[15] == d[3]
            &&& p[16] == e[0] && p[17] == e[1] && p[18] == e[2] && p[19] == e[3]
            &&& p[20] == if readme {
                0xffu8
            } else {
                0u8
            }
            &&& p[21] == m[0] && p[22] == m[1] && p[23] == m[2]
            &&& forall|i: int| 24 <= i < 32 ==> #[trigger] p[i] == 0
        }),
{
}

/// The feature bits of a fingerprint pack its counts, its flag, the digest of the
/// names of its dependencies with commas between them, and that of its file types
/// as text.
pub proof fn law_feature_bits_pack_the_fingerprint(fp: FingerprintView)
    ensures
        feature_bits(fp) == packed(
            fp.test_count,
            fp.source_file_count,
            fp.dependencies.len(),
            blake3_digest(encode_utf8(joined(fp.dependencies, seq![',']))),
            blake3_digest(encode_utf8(file_types_text(fp.file_types))),
            fp.has_readme,
            fp.commit_count,
        ),
{
    reveal_strlit(",");
    assert(","@ =~= seq![',']);
}

/// File types are written as the extension, a colon and the count, with commas
/// between them.
pub proof fn law_file_types_are_written(types: Seq<(Seq<char>, u32)>, ext: Seq<char>, n: u32)
    ensures
        file_types_text(Seq::empty()).len() == 0,
        file_types_text(types.push((ext, n))) == (if types.len() == 0 {
            Seq::<char>::empty()
        } else {
            file_types_text(types) + seq![',']
        }) + (ext + seq![':'] + decimal(n as nat)),
{
    reveal_strlit(",");
    reveal_strlit(":");
    assert(","@ =~= seq![',']);
    assert(":"@ =~= seq![':']);
    let f = |entry: (Seq<char>, u32)| file_type_text(entry);
    let parts = types.map_values(f);
    let last = ext + seq![':'] + decimal(n as nat);
    assert(types.push((ext, n)).map_values(f) =~= parts.push(last));
    law_joining(parts, last, ","@);
    if types.len() == 0 {
        assert(Seq::<char>::empty() + last =~= last);
    }
}

/// The text of a text's bytes is the text.
pub proof fn law_text_is_shown_as_it_is(text: Seq<char>)
    ensures
        shown(encode_utf8(text)) == text,
{
    encode_utf8_valid_utf8(text);
    encode_utf8_decode_utf8(text);
}

/// One more source file among the entries is one more that is counted, and nothing
/// else is.
pub proof fn law_source_files_are_counted(
    root: Seq<char>,
    entries: Seq<WalkEntry>,
    e: WalkEntry,
)
    ensures
        source_files(root, Seq::empty()).len() == 0,
        source_files(root, entries.push(e)).len() == source_files(root, entries).len()
            + if is_source_file(root, e) {
            1int
        } else {
            0int
        },
{
    reveal(Seq::filter);
    let p = |e: WalkEntry| is_source_file(root, e);
    let none = Seq::<WalkEntry>::empty();
    assert(entries.push(e).drop_last() =~= entries);
    law_sorting_keeps_items(none.filter(p));
    law_sorting_keeps_items(entries.filter(p));
    law_sorting_keeps_items(entries.push(e).filter(p));
}

/// A fingerprint tells what was read of the repository: its name and path, a README
/// under any of the three names, and the counts. A walk or a command that failed
/// counts nothing.
pub proof fn law_fingerprint_tells_what_was_read(fp: FingerprintView, facts: RepoFacts)
    requires
        describes(fp, facts),
    ensures
        fp.repo_name == facts.name@,
        fp.repo_path == facts.path@,
        fp.has_readme <==> facts.readme_md || facts.readme || facts.readme_md_lower,
        facts.commits is None ==> fp.commit_count == 0,
        facts.commits matches Some(bytes) ==> fp.commit_count == stated_commits(shown(bytes@)),
        facts.test_entries is None ==> fp.test_count == 0,
        facts.test_entries matches Some(met) ==> fp.test_count == tests_in_all(facts.name@, met@),
        facts.entries is None ==> fp.source_file_count == 0 && fp.file_types.len() == 0
            && fp.content_hash == content_hash(Seq::empty()),
        facts.entries matches Some(met) ==> {
            let files = source_files(facts.name@, met@);
            &&& fp.content_hash == content_hash(files)
            &&& files.len() <= u32::MAX ==> fp.source_file_count == files.len()
        },
{
    let none = Seq::<WalkEntry>::empty();
    if facts.entries is None {
        reveal(Seq::filter);
        law_sorting_keeps_items(none.filter(|e: WalkEntry| is_source_file(facts.name@, e)));
        assert(source_files(facts.name@, none) =~= none);
        if fp.file_types.len() > 0 {
            let (ext, n) = fp.file_types[0];
            assert(lookup(fp.file_types, ext) is None);
            law_count_is_what_is_listed(fp.file_types, ext, n);
            assert(fp.file_types.contains((ext, n)));
        }
    }
}

/// The dependencies in a fingerprint ascend, so that none is there twice, and are
/// those that the manifests name.
pub proof fn law_dependencies_in_a_fingerprint(
    fp: FingerprintView,
    facts: RepoFacts,
    i: int,
    j: int,
    name: Seq<char>,
)
    requires
        describes(fp, facts),
    ensures
        0 <= i < j < fp.dependencies.len() ==> text_leq(fp.dependencies[i], fp.dependencies[j])
            && fp.dependencies[i] != fp.dependencies[j],
        fp.dependencies.contains(name) <==> is_dependency(facts.manifests, name),
{
}

/// The file types in a fingerprint are the extensions that there are files of, each
/// with their number.
pub proof fn law_file_types_in_a_fingerprint(
    fp: FingerprintView,
    facts: RepoFacts,
    ext: Seq<char>,
    n: u32,
)
    requires
        describes(fp, facts),
        countable(facts),
        facts.entries is Some,
    ensures
        fp.file_types.contains((ext, n)) <==> n > 0 && n == type_count(
            facts.name@,
            facts.entries->0@,
            ext,
        ),
{
    law_count_is_what_is_listed(fp.file_types, ext, n);
    let count = type_count(facts.name@, facts.entries->0@, ext);
    assert(count <= u32::MAX);
    assert(lookup(fp.file_types, ext) == if count == 0 {
        None
    } else {
        Some(count as u32)
    });
}

/// A repository has a fingerprint wherever its tests and its entries can be counted.
pub proof fn law_counts_have_room(facts: RepoFacts)
    requires
        facts.entries matches Some(met) ==> met@.len() <= u32::MAX,
        facts.test_entries matches Some(met) ==> tests_in_all(facts.name@, met@) <= u32::MAX,
    ensures
        countable(facts),
{
    let entries = met(facts.entries);
    assert forall|ext: Seq<char>| #[trigger]
        type_count(facts.name@, entries, ext) <= u32::MAX by {
        law_no_more_files_than_entries(facts.name@, entries, ext);
    }
}

/// A text has no more tests than lines.
pub proof fn law_no_more_tests_than_lines(text: Seq<char>)
    ensures
        tests_in(text) <= lines(text).len(),
{
    lemma_tests_in_lines(lines(text), lines(text).len() as int);
}

proof fn lemma_tests_in_lines(pieces: Seq<Seq<char>>, n: int)
    requires
        0 <= n,
    ensures
        tests_in_lines(pieces, n) <= n,
    decreases n,
{
    if n > 0 {
        lemma_tests_in_lines(pieces, n - 1);
    }
}

} // verus!
