//! The files of a repository: which of them count, their types and their hash.

use crate::digest::{blake3_digest, blake3_hash, hex_encode, hex_text};
use crate::file_types::{ascending, lookup, FileTypes};
use crate::order::{
    bytes_less, components, law_sorting_keeps_items, law_sorting_sorts, lemma_bytes_less,
    lemma_lex_antisymmetric, lemma_lex_total, lemma_lex_transitive, lemma_sorted_unique,
    path_at_most, path_leq, sort_stable, sorted, stable_sorted, Ranked,
};
use crate::text::same;
use crate::utf8::{shown, utf8_lossy_text, utf8_text};
use vstd::prelude::*;
use vstd::slice::slice_subrange;
use vstd::utf8::{decode_utf8, encode_utf8, valid_utf8};

verus! {

/// Something met on a walk through a repository.
#[derive(Debug, Clone)]
pub struct WalkEntry {
    /// The path below the root of the repository, component by component.
    pub components: Vec<Vec<u8>>,
    /// Whether it is a regular file.
    pub is_file: bool,
    /// What is in it, where it could be read.
    pub content: Option<Vec<u8>>,
}

impl Ranked for WalkEntry {
    open spec fn leq(&self, other: &Self) -> bool {
        path_leq(components(self.components@), components(other.components@))
    }

    proof fn total(x: &Self, y: &Self) {
        lemma_bytes_less();
        lemma_lex_total(components(x.components@), components(y.components@), bytes_less());
    }

    proof fn transitive(x: &Self, y: &Self, z: &Self) {
        lemma_bytes_less();
        lemma_lex_transitive(
            components(x.components@),
            components(y.components@),
            components(z.components@),
            bytes_less(),
        );
    }

    fn at_most(&self, other: &Self) -> (r: bool) {
        path_at_most(self.components.as_slice(), other.components.as_slice())
    }
}

/// How many levels below its root a walk through a repository goes.
pub const MAX_DEPTH: usize = 5;

/// Whether a name begins with a dot.
pub open spec fn is_dotted(name: Seq<u8>) -> bool {
    name.len() > 0 && name[0] == 0x2e
}

/// Whether the walks for source files and for file types enter what is called
/// `name`: not what is hidden, not what is built or installed.
pub open spec fn is_source_name(name: Seq<u8>) -> bool {
    !is_dotted(name) && name != encode_utf8("target"@) && name != encode_utf8("node_modules"@)
        && name != encode_utf8("dist"@) && name != encode_utf8("build"@)
}

/// Whether the walk for tests enters what is called `name`: not what is hidden,
/// not what is built or installed for Rust or JavaScript.
pub open spec fn is_test_name(name: Seq<u8>) -> bool {
    !is_dotted(name) && name != encode_utf8("target"@) && name != encode_utf8("node_modules"@)
}

/// Whether `name` is the text `word`.
fn is_called(name: &[u8], word: &str) -> (r: bool)
    ensures
        r == (name@ == encode_utf8(word@)),
{
    let bytes: &[u8] = word.as_bytes();
    if name.len() != bytes.len() {
        return false;
    }
    let mut i: usize = 0;
    while i < name.len()
        invariant
            i <= name@.len(),
            name@.len() == bytes@.len(),
            bytes@ == encode_utf8(word@),
            forall|k: int| 0 <= k < i ==> name@[k] == bytes@[k],
        decreases name@.len() - i,
    {
        if name[i] != bytes[i] {
            return false;
        }
        i += 1;
    }
    assert(name@ =~= bytes@);
    true
}

/// Whether the walks for source files and for file types enter what is called
/// `name`.
pub fn enters_source_walk(name: &[u8]) -> (r: bool)
    ensures
        r == is_source_name(name@),
{
    enters_test_walk(name) && !is_called(name, "dist") && !is_called(name, "build")
}

/// Whether the walk for tests enters what is called `name`.
pub fn enters_test_walk(name: &[u8]) -> (r: bool)
    ensures
        r == is_test_name(name@),
{
    !(name.len() > 0 && name[0] == 0x2e) && !is_called(name, "target") && !is_called(
        name,
        "node_modules",
    )
}

/// Whether a walk through the repository called `root` comes to `path`, given
/// component by component: not too far below the root, and only through names
/// that it enters, from that of the repository to the last.
pub open spec fn is_reached(
    root: Seq<char>,
    path: Seq<Vec<u8>>,
    enters: spec_fn(Seq<u8>) -> bool,
) -> bool {
    &&& path.len() <= MAX_DEPTH
    &&& enters(encode_utf8(root))
    &&& forall|i: int| 0 <= i < path.len() ==> enters((#[trigger] path[i])@)
}

/// Whether the walks for source files and for file types come to `path`.
pub open spec fn on_source_walk(root: Seq<char>, path: Seq<Vec<u8>>) -> bool {
    is_reached(root, path, |name: Seq<u8>| is_source_name(name))
}

/// Whether the walk for tests comes to `path`.
pub open spec fn on_test_walk(root: Seq<char>, path: Seq<Vec<u8>>) -> bool {
    is_reached(root, path, |name: Seq<u8>| is_test_name(name))
}

/// Whether a walk that enters what `enters` accepts comes to `path`.
fn reached<F: Fn(&[u8]) -> bool>(
    root: &str,
    path: &[Vec<u8>],
    enters: F,
    Ghost(rule): Ghost<spec_fn(Seq<u8>) -> bool>,
) -> (r: bool)
    requires
        forall|name: &[u8]| call_requires(enters, (name,)),
        forall|name: &[u8], b: bool| #[trigger]
            call_ensures(enters, (name,), b) ==> b == rule(name@),
    ensures
        r == is_reached(root@, path@, rule),
{
    if path.len() > MAX_DEPTH || !enters(root.as_bytes()) {
        return false;
    }
    let mut i: usize = 0;
    while i < path.len()
        invariant
            i <= path@.len(),
            forall|name: &[u8]| call_requires(enters, (name,)),
            forall|name: &[u8], b: bool| #[trigger]
                call_ensures(enters, (name,), b) ==> b == rule(name@),
            forall|k: int| 0 <= k < i ==> rule((#[trigger] path@[k])@),
        decreases path@.len() - i,
    {
        if !enters(path[i].as_slice()) {
            assert(!rule(path@[i as int]@));
            return false;
        }
        i += 1;
    }
    true
}

/// Whether the walks for source files and for file types come to `path`.
pub fn reached_by_source_walk(root: &str, path: &[Vec<u8>]) -> (r: bool)
    ensures
        r == on_source_walk(root@, path@),
{
    reached(root, path, enters_source_walk, Ghost(|name: Seq<u8>| is_source_name(name)))
}

/// Whether the walk for tests comes to `path`.
pub fn reached_by_test_walk(root: &str, path: &[Vec<u8>]) -> (r: bool)
    ensures
        r == on_test_walk(root@, path@),
{
    reached(root, path, enters_test_walk, Ghost(|name: Seq<u8>| is_test_name(name)))
}

/// The place of the last dot of `name`; minus one where there is none.
pub open spec fn last_dot_byte(name: Seq<u8>) -> int
    decreases name.len(),
{
    if name.len() == 0 {
        -1
    } else if name.last() == 0x2e {
        name.len() - 1
    } else {
        last_dot_byte(name.drop_last())
    }
}

/// The extension of what is called `name`: what stands behind the last dot, where
/// something stands before it and what stands behind it is text. The parent
/// directory has none.
pub open spec fn extension(name: Seq<u8>) -> Option<Seq<char>> {
    let p = last_dot_byte(name);
    let behind = name.skip(p + 1);
    if p > 0 && name != seq![0x2eu8, 0x2eu8] && valid_utf8(behind) {
        Some(decode_utf8(behind))
    } else {
        None
    }
}

/// The extension of the last name of a path.
pub open spec fn path_extension(path: Seq<Vec<u8>>) -> Option<Seq<char>> {
    if path.len() == 0 {
        None
    } else {
        extension(path.last()@)
    }
}

/// The extension of the last name of a path.
pub fn extension_of(path: &[Vec<u8>]) -> (r: Option<String>)
    ensures
        match r {
            Some(ext) => path_extension(path@) == Some(ext@),
            None => path_extension(path@) is None,
        },
{
    if path.len() == 0 {
        return None;
    }
    let name: &[u8] = path[path.len() - 1].as_slice();
    let mut end: usize = name.len();
    assert(name@.take(end as int) =~= name@);
    while end > 0 && name[end - 1] != 0x2e
        invariant
            end <= name@.len(),
            last_dot_byte(name@) == last_dot_byte(name@.take(end as int)),
        decreases end,
    {
        assert(name@.take(end as int).drop_last() =~= name@.take(end - 1));
        end -= 1;
    }
    assert(last_dot_byte(name@) == end - 1);
    let parent: bool = name.len() == 2 && name[0] == 0x2e && name[1] == 0x2e;
    assert(parent <==> name@ =~= seq![0x2eu8, 0x2eu8]);
    if end <= 1 || parent {
        return None;
    }
    assert(name@.subrange(end as int, name@.len() as int) =~= name@.skip(end as int));
    utf8_text(slice_subrange(name, end, name.len()))
}

/// The bytes of a path, with a slash between its components.
pub open spec fn path_bytes(path: Seq<Vec<u8>>) -> Seq<u8>
    decreases path.len(),
{
    if path.len() == 0 {
        Seq::empty()
    } else if path.len() == 1 {
        path[0]@
    } else {
        path_bytes(path.drop_last()) + seq![0x2fu8] + path.last()@
    }
}

/// A path as text, with a slash between its components.
pub open spec fn path_text(path: Seq<Vec<u8>>) -> Seq<char> {
    shown(path_bytes(path))
}

/// A path as text, with a slash between its components.
pub fn text_of_path(path: &[Vec<u8>]) -> (r: String)
    ensures
        r@ == path_text(path@),
{
    let mut bytes: Vec<u8> = Vec::new();
    let mut i: usize = 0;
    assert(path@.take(0).len() == 0);
    while i < path.len()
        invariant
            i <= path@.len(),
            bytes@ == path_bytes(path@.take(i as int)),
        decreases path@.len() - i,
    {
        let ghost before = bytes@;
        if i > 0 {
            bytes.push(0x2f);
        }
        append_bytes(&mut bytes, path[i].as_slice());
        proof {
            let upto = path@.take(i + 1);
            assert(upto.drop_last() =~= path@.take(i as int));
            assert(upto.last() == path@[i as int]);
            if i == 0 {
                assert(bytes@ =~= upto[0]@);
            } else {
                assert(bytes@ =~= before + seq![0x2fu8] + path@[i as int]@);
            }
        }
        i += 1;
    }
    assert(path@.take(path@.len() as int) =~= path@);
    utf8_lossy_text(bytes.as_slice())
}

/// The extensions of source files.
pub open spec fn is_source_extension(ext: Seq<char>) -> bool {
    ||| ext == "rs"@
    ||| ext == "ts"@
    ||| ext == "js"@
    ||| ext == "py"@
    ||| ext == "go"@
    ||| ext == "java"@
    ||| ext == "c"@
    ||| ext == "cpp"@
    ||| ext == "h"@
    ||| ext == "hpp"@
    ||| ext == "rb"@
    ||| ext == "sh"@
}

/// Whether `ext` is the extension of a source file.
pub fn source_extension(ext: &str) -> (r: bool)
    ensures
        r == is_source_extension(ext@),
{
    same(ext, "rs") || same(ext, "ts") || same(ext, "js") || same(ext, "py") || same(ext, "go")
        || same(ext, "java") || same(ext, "c") || same(ext, "cpp") || same(ext, "h") || same(
        ext,
        "hpp",
    ) || same(ext, "rb") || same(ext, "sh")
}

/// Whether `e` is a source file of the repository called `root`.
pub open spec fn is_source_file(root: Seq<char>, e: WalkEntry) -> bool {
    &&& on_source_walk(root, e.components@)
    &&& e.is_file
    &&& path_extension(e.components@) is Some
    &&& is_source_extension(path_extension(e.components@)->0)
}

/// Whether `e` is a source file of the repository called `root`.
pub fn source_file(root: &str, e: &WalkEntry) -> (r: bool)
    ensures
        r == is_source_file(root@, *e),
{
    match extension_of(e.components.as_slice()) {
        Some(ext) => e.is_file && source_extension(ext.as_str()) && reached_by_source_walk(
            root,
            e.components.as_slice(),
        ),
        None => false,
    }
}

/// The source files among `entries`, in the order of their paths.
pub open spec fn source_files(root: Seq<char>, entries: Seq<WalkEntry>) -> Seq<WalkEntry> {
    stable_sorted(entries.filter(|e: WalkEntry| is_source_file(root, e)))
}

/// The source files of the repository called `root` among `entries`, in the
/// order of their paths.
pub fn collect_source_files(root: &str, entries: Vec<WalkEntry>) -> (r: Vec<WalkEntry>)
    ensures
        r@ == source_files(root@, entries@),
        sorted(r@),
        forall|e: WalkEntry| #[trigger]
            r@.contains(e) <==> entries@.contains(e) && is_source_file(root@, e),
        distinct_paths(entries@) ==> distinct_paths(r@),
{
    let ghost all = entries@;
    let ghost p = |e: WalkEntry| is_source_file(root@, e);
    let mut files: Vec<WalkEntry> = Vec::new();
    proof {
        reveal(Seq::filter);
        assert(all.take(0).filter(p) =~= Seq::empty());
    }
    for e in it: entries
        invariant
            it.seq() == all,
            p == (|e: WalkEntry| is_source_file(root@, e)),
            files@ == all.take(it.index() as int).filter(p),
    {
        proof {
            reveal(Seq::filter);
            let k = it.index() as int;
            assert(all.take(k + 1).drop_last() =~= all.take(k));
            assert(all.take(k + 1).last() == e);
        }
        if source_file(root, &e) {
            files.push(e);
        }
    }
    assert(all.take(all.len() as int) =~= all);
    let r: Vec<WalkEntry> = sort_stable(files);
    proof {
        assert forall|e: WalkEntry| #[trigger]
            r@.contains(e) <==> all.contains(e) && is_source_file(root@, e) by {
            law_source_files(root@, all, e);
        }
        if distinct_paths(all) {
            lemma_source_paths_distinct(root@, all);
        }
    }
    r
}

/// The bytes of `e` that enter the content hash: its path, and what is in it.
pub open spec fn hashed_bytes(e: WalkEntry) -> Seq<u8> {
    encode_utf8(path_text(e.components@)) + match e.content {
        Some(content) => content@,
        None => Seq::empty(),
    }
}

/// The bytes of all of `files`, one behind the other.
pub open spec fn all_hashed_bytes(files: Seq<WalkEntry>) -> Seq<u8>
    decreases files.len(),
{
    if files.len() == 0 {
        Seq::empty()
    } else {
        all_hashed_bytes(files.drop_last()) + hashed_bytes(files.last())
    }
}

/// The content hash of `files`.
pub open spec fn content_hash(files: Seq<WalkEntry>) -> Seq<char> {
    hex_text(blake3_digest(all_hashed_bytes(files)))
}

/// Puts `bytes` behind `buffer`.
fn append_bytes(buffer: &mut Vec<u8>, bytes: &[u8])
    ensures
        final(buffer)@ == old(buffer)@ + bytes@,
{
    let ghost before = buffer@;
    buffer.extend_from_slice(bytes);
    assert(buffer@ =~= before + bytes@);
}

/// The bytes of all of `files`, one behind the other.
pub fn gather_bytes(files: &[WalkEntry]) -> (r: Vec<u8>)
    ensures
        r@ == all_hashed_bytes(files@),
{
    let mut r: Vec<u8> = Vec::new();
    let mut i: usize = 0;
    assert(files@.take(0).len() == 0);
    while i < files.len()
        invariant
            i <= files@.len(),
            r@ == all_hashed_bytes(files@.take(i as int)),
        decreases files@.len() - i,
    {
        let ghost before = r@;
        let path: String = text_of_path(files[i].components.as_slice());
        append_bytes(&mut r, path.as_str().as_bytes());
        if let Some(content) = &files[i].content {
            append_bytes(&mut r, content.as_slice());
        }
        proof {
            assert(files@.take(i + 1).drop_last() =~= files@.take(i as int));
            assert(files@.take(i + 1).last() == files@[i as int]);
            assert(r@ =~= before + hashed_bytes(files@[i as int]));
        }
        i += 1;
    }
    assert(files@.take(files@.len() as int) =~= files@);
    r
}

/// The content hash of `files`: BLAKE3, in hexadecimal.
pub fn compute_content_hash(files: &[WalkEntry]) -> (r: String)
    ensures
        r@ == content_hash(files@),
        r@.len() == 64,
{
    let bytes: Vec<u8> = gather_bytes(files);
    hex_encode(blake3_hash(bytes.as_slice()).as_slice())
}

/// Whether `e` is a file of extension `ext` that the walk for file types of the
/// repository called `root` comes to.
pub open spec fn is_of_type(root: Seq<char>, e: WalkEntry, ext: Seq<char>) -> bool {
    &&& on_source_walk(root, e.components@)
    &&& e.is_file
    &&& path_extension(e.components@) == Some(ext)
}

/// The number of files of extension `ext` among `entries`.
pub open spec fn type_count(root: Seq<char>, entries: Seq<WalkEntry>, ext: Seq<char>) -> nat
    decreases entries.len(),
{
    if entries.len() == 0 {
        0
    } else {
        type_count(root, entries.drop_last(), ext) + if is_of_type(root, entries.last(), ext) {
            1nat
        } else {
            0nat
        }
    }
}

/// Whether `types` lists the count of each extension among `entries`.
pub open spec fn lists_types(
    types: Seq<(Seq<char>, u32)>,
    root: Seq<char>,
    entries: Seq<WalkEntry>,
) -> bool {
    &&& ascending(types)
    &&& forall|ext: Seq<char>| #[trigger]
        lookup(types, ext) == if type_count(root, entries, ext) == 0 {
            None
        } else {
            Some(type_count(root, entries, ext) as u32)
        }
}

/// Whether every count of an extension among `entries` has room in its type.
pub open spec fn types_fit(root: Seq<char>, entries: Seq<WalkEntry>) -> bool {
    forall|ext: Seq<char>| #[trigger] type_count(root, entries, ext) <= u32::MAX
}

/// More entries have no fewer files of a type.
proof fn lemma_type_count_grows(
    root: Seq<char>,
    entries: Seq<WalkEntry>,
    ext: Seq<char>,
    n: int,
)
    requires
        0 <= n <= entries.len(),
    ensures
        type_count(root, entries.take(n), ext) <= type_count(root, entries, ext),
    decreases entries.len() - n,
{
    if n < entries.len() {
        lemma_type_count_grows(root, entries, ext, n + 1);
        assert(entries.take(n + 1).drop_last() =~= entries.take(n));
    } else {
        assert(entries.take(n) =~= entries);
    }
}

/// The number of files of each extension; `None` where one is too great for its
/// type.
pub fn compute_file_types(root: &str, entries: &[WalkEntry]) -> (r: Option<FileTypes>)
    ensures
        r is Some <==> types_fit(root@, entries@),
        r matches Some(types) ==> lists_types(types@, root@, entries@),
{
    let mut types: FileTypes = FileTypes::new();
    let ghost all = entries@;
    let ghost name = root@;
    let mut i: usize = 0;
    assert(all.take(0).len() == 0);
    while i < entries.len()
        invariant
            i <= entries@.len(),
            all == entries@,
            name == root@,
            lists_types(types@, name, all.take(i as int)),
            types_fit(name, all.take(i as int)),
        decreases entries@.len() - i,
    {
        let ghost now = all.take(i as int);
        let ghost next = all.take(i + 1);
        proof {
            assert(next.drop_last() =~= now);
            assert(next.last() == all[i as int]);
        }
        let e: &WalkEntry = &entries[i];
        let counts: bool = e.is_file && reached_by_source_walk(root, e.components.as_slice());
        if counts {
            if let Some(ext) = extension_of(e.components.as_slice()) {
                let old_count: u32 = match types.get(ext.as_str()) {
                    Some(n) => n,
                    None => 0,
                };
                assert(old_count == type_count(name, now, ext@)) by {
                    assert(type_count(name, now, ext@) <= u32::MAX);
                }
                match old_count.checked_add(1) {
                    Some(n) => {
                        let ghost before = types@;
                        types = types.with(ext, n);
                        proof {
                            assert forall|x: Seq<char>| #[trigger]
                                lookup(types@, x) == if type_count(name, next, x) == 0 {
                                    None
                                } else {
                                    Some(type_count(name, next, x) as u32)
                                } by {
                                assert(lookup(before, x) == if type_count(name, now, x) == 0 {
                                    None
                                } else {
                                    Some(type_count(name, now, x) as u32)
                                });
                            }
                            assert forall|x: Seq<char>| #[trigger]
                                type_count(name, next, x) <= u32::MAX by {
                                assert(type_count(name, now, x) <= u32::MAX);
                            }
                        }
                    },
                    None => {
                        proof {
                            lemma_type_count_grows(name, all, ext@, i + 1);
                            assert(type_count(name, all, ext@) > u32::MAX);
                        }
                        return None;
                    },
                }
            }
        }
        proof {
            if !(counts && path_extension(e.components@) is Some) {
                assert forall|x: Seq<char>| #[trigger] type_count(name, next, x) <= u32::MAX by {
                    assert(type_count(name, now, x) <= u32::MAX);
                }
                assert(lists_types(types@, name, next));
            }
        }
        i += 1;
    }
    assert(all.take(all.len() as int) =~= all);
    Some(types)
}

/// Files with the same paths and the same contents have the same content hash.
pub proof fn law_same_files_same_hash(a: Seq<WalkEntry>, b: Seq<WalkEntry>)
    requires
        a.len() == b.len(),
        forall|i: int| 0 <= i < a.len() ==> hashed_bytes(#[trigger] a[i]) == hashed_bytes(b[i]),
    ensures
        all_hashed_bytes(a) == all_hashed_bytes(b),
        content_hash(a) == content_hash(b),
    decreases a.len(),
{
    if a.len() > 0 {
        let fa = a.drop_last();
        let fb = b.drop_last();
        assert forall|i: int| 0 <= i < fa.len() implies hashed_bytes(#[trigger] fa[i])
            == hashed_bytes(fb[i]) by {
            assert(fa[i] == a[i]);
        }
        law_same_files_same_hash(fa, fb);
        assert(a[a.len() - 1] == a.last());
    }
}

/// The paths of `entries` are all different.
pub open spec fn distinct_paths(entries: Seq<WalkEntry>) -> bool {
    forall|i: int, j: int|
        #![trigger entries[i], entries[j]]
        0 <= i < j < entries.len() ==> components(entries[i].components@) != components(
            entries[j].components@,
        )
}

/// Filtering a sequence filters its items.
proof fn lemma_filter_multiset(s: Seq<WalkEntry>, p: spec_fn(WalkEntry) -> bool)
    ensures
        s.filter(p).to_multiset() == s.to_multiset().filter(p),
    decreases s.len(),
{
    broadcast use {vstd::seq_lib::group_to_multiset_ensures, vstd::multiset::group_multiset_axioms};

    reveal(Seq::filter);
    if s.len() == 0 {
        assert(s.filter(p).to_multiset() =~= s.to_multiset().filter(p));
    } else {
        let f = s.drop_last();
        lemma_filter_multiset(f, p);
        assert(s =~= f.push(s.last()));
        assert(s.filter(p).to_multiset() =~= s.to_multiset().filter(p));
    }
}

/// The source files of a repository, and so its content hash, do not depend on
/// the order in which the walk comes upon them.
pub proof fn law_walk_order_does_not_matter(
    root: Seq<char>,
    a: Seq<WalkEntry>,
    b: Seq<WalkEntry>,
)
    requires
        distinct_paths(a),
        a.to_multiset() == b.to_multiset(),
    ensures
        source_files(root, a) == source_files(root, b),
        content_hash(source_files(root, a)) == content_hash(source_files(root, b)),
{
    broadcast use vstd::seq_lib::group_to_multiset_ensures;

    let p = |e: WalkEntry| is_source_file(root, e);
    let x = source_files(root, a);
    let y = source_files(root, b);
    lemma_filter_multiset(a, p);
    lemma_filter_multiset(b, p);
    law_sorting_keeps_items(a.filter(p));
    law_sorting_keeps_items(b.filter(p));
    law_sorting_sorts(a.filter(p));
    law_sorting_sorts(b.filter(p));
    assert forall|u: WalkEntry, v: WalkEntry|
        #![trigger x.contains(u), x.contains(v)]
        x.contains(u) && x.contains(v) && u.leq(&v) && v.leq(&u) implies u == v by {
        law_source_files(root, a, u);
        law_source_files(root, a, v);
        lemma_bytes_less();
        lemma_lex_antisymmetric(
            components(u.components@),
            components(v.components@),
            bytes_less(),
        );
        let i = choose|i: int| 0 <= i < a.len() && a[i] == u;
        let j = choose|j: int| 0 <= j < a.len() && a[j] == v;
        if i < j {
            assert(components(a[i].components@) != components(a[j].components@));
        } else if j < i {
            assert(components(a[j].components@) != components(a[i].components@));
        }
    }
    lemma_sorted_unique(x, y);
}

/// The source files are those entries that are source files.
pub proof fn law_source_files(root: Seq<char>, entries: Seq<WalkEntry>, e: WalkEntry)
    ensures
        source_files(root, entries).contains(e) <==> entries.contains(e) && is_source_file(root, e),
{
    broadcast use {vstd::seq_lib::group_to_multiset_ensures, vstd::multiset::group_multiset_axioms};

    let p = |e: WalkEntry| is_source_file(root, e);
    law_sorting_keeps_items(entries.filter(p));
    lemma_filter_multiset(entries, p);
    let files = source_files(root, entries);
    assert(files.contains(e) <==> files.to_multiset().count(e) > 0);
    assert(entries.contains(e) <==> entries.to_multiset().count(e) > 0);
}

/// Where no two entries have the same path, neither have two source files.
proof fn lemma_source_paths_distinct(root: Seq<char>, entries: Seq<WalkEntry>)
    requires
        distinct_paths(entries),
    ensures
        distinct_paths(source_files(root, entries)),
{
    broadcast use {vstd::seq_lib::group_to_multiset_ensures, vstd::multiset::group_multiset_axioms};

    let p = |e: WalkEntry| is_source_file(root, e);
    let files = source_files(root, entries);
    law_sorting_keeps_items(entries.filter(p));
    lemma_filter_multiset(entries, p);
    assert(entries.no_duplicates()) by {
        assert forall|i: int, j: int|
            0 <= i < entries.len() && 0 <= j < entries.len() && i != j implies entries[i]
            != entries[j] by {
            if i < j {
                assert(components(entries[i].components@) != components(entries[j].components@));
            } else {
                assert(components(entries[j].components@) != components(entries[i].components@));
            }
        }
    }
    entries.lemma_multiset_has_no_duplicates();
    assert forall|e: WalkEntry| #[trigger]
        files.to_multiset().contains(e) implies files.to_multiset().count(e) == 1 by {
        assert(entries.to_multiset().contains(e));
    }
    files.lemma_multiset_has_no_duplicates_conv();
    assert forall|i: int, j: int|
        #![trigger files[i], files[j]]
        0 <= i < j < files.len() implies components(files[i].components@) != components(
        files[j].components@,
    ) by {
        law_source_files(root, entries, files[i]);
        law_source_files(root, entries, files[j]);
        let a = choose|a: int| 0 <= a < entries.len() && entries[a] == files[i];
        let b = choose|b: int| 0 <= b < entries.len() && entries[b] == files[j];
        if a < b {
            assert(components(entries[a].components@) != components(entries[b].components@));
        } else {
            assert(a != b);
            assert(components(entries[b].components@) != components(entries[a].components@));
        }
    }
}

} // verus!
