//! Which files of a repository count, and what enters its content hash, told by
//! their paths and contents.

use crate::counts::{tests_in, tests_in_all};
use crate::digest::{blake3_digest, hex_text};
use crate::order::{
    byte_less, bytes_less, char_less, components, law_sorting_sorts, lex_leq, path_leq,
    stable_sorted, text_leq, Ranked,
};
use crate::text::joined;
use crate::text_laws::law_joining;
use crate::walk::{
    all_hashed_bytes, content_hash, extension, is_source_extension, is_source_file, last_dot_byte,
    law_source_files, on_source_walk, on_test_walk, path_bytes, path_extension, path_text,
    source_files, type_count, WalkEntry,
};
use vstd::prelude::*;
use vstd::utf8::{
    decode_utf8_encode_utf8, encode_scalar, encode_utf8, encode_utf8_decode_utf8,
    encode_utf8_valid_utf8, valid_utf8,
};

verus! {

/// No byte of a character but the dot is the byte of the dot.
proof fn lemma_scalar_without_dot(c: char)
    requires
        c != '.',
    ensures
        forall|i: int|
            0 <= i < encode_scalar(c as u32).len() ==> #[trigger] encode_scalar(c as u32)[i]
                != 0x2e,
{
    let s = c as u32;
    assert(s != 0x2e);
    assert((s & 0x7f) as u8 == 0x2e ==> s == 0x2e || s >= 0x80) by (bit_vector);
    assert(0xc0u8 | ((s >> 6) & 0x1f) as u8 >= 0x80) by (bit_vector);
    assert(0xe0u8 | ((s >> 12) & 0x0f) as u8 >= 0x80) by (bit_vector);
    assert(0xf0u8 | ((s >> 18) & 0x7) as u8 >= 0x80) by (bit_vector);
    assert(0x80u8 | (s & 0x3f) as u8 >= 0x80) by (bit_vector);
    assert(0x80u8 | ((s >> 6) & 0x3f) as u8 >= 0x80) by (bit_vector);
    assert(0x80u8 | ((s >> 12) & 0x3f) as u8 >= 0x80) by (bit_vector);
}

/// A text without dots has none among its bytes.
proof fn lemma_bytes_without_dot(s: Seq<char>)
    requires
        !s.contains('.'),
    ensures
        forall|i: int| 0 <= i < encode_utf8(s).len() ==> #[trigger] encode_utf8(s)[i] != 0x2e,
    decreases s.len(),
{
    if s.len() > 0 {
        let f = s.drop_first();
        assert(s.contains(s[0]));
        assert(!f.contains('.')) by {
            if f.contains('.') {
                let i = choose|i: int| 0 <= i < f.len() && f[i] == '.';
                assert(s[i + 1] == '.');
            }
        }
        lemma_bytes_without_dot(f);
        lemma_scalar_without_dot(s[0]);
        let a = encode_scalar(s[0] as u32);
        let b = encode_utf8(f);
        assert forall|i: int| 0 <= i < encode_utf8(s).len() implies #[trigger] encode_utf8(s)[i]
            != 0x2e by {
            if i < a.len() {
                assert(encode_utf8(s)[i] == a[i]);
            } else {
                assert(encode_utf8(s)[i] == b[i - a.len()]);
            }
        }
    }
}

/// The last dot has no dot behind it.
proof fn lemma_last_dot_byte(name: Seq<u8>)
    ensures
        -1 <= last_dot_byte(name) < name.len(),
        last_dot_byte(name) >= 0 ==> name[last_dot_byte(name)] == 0x2e,
        forall|i: int| last_dot_byte(name) < i < name.len() ==> #[trigger] name[i] != 0x2e,
    decreases name.len(),
{
    if name.len() > 0 && name.last() != 0x2e {
        let f = name.drop_last();
        lemma_last_dot_byte(f);
        assert forall|i: int| last_dot_byte(name) < i < name.len() implies #[trigger] name[i]
            != 0x2e by {
            if i < f.len() {
                assert(f[i] == name[i]);
            }
        }
        if last_dot_byte(f) >= 0 {
            assert(f[last_dot_byte(f)] == name[last_dot_byte(f)]);
        }
    }
}

/// What is called `stem`, a dot and `ext`, where `ext` has no dots in it, has the
/// extension `ext`, and what is not called so has not.
pub proof fn law_extension(name: Seq<u8>, ext: Seq<char>)
    requires
        !ext.contains('.'),
    ensures
        extension(name) == Some(ext) <==> name != seq![0x2eu8, 0x2eu8] && exists|stem: Seq<u8>|
            stem.len() > 0 && name == #[trigger] (stem + seq![0x2eu8] + encode_utf8(ext)),
{
    broadcast use {encode_utf8_decode_utf8, encode_utf8_valid_utf8};

    lemma_last_dot_byte(name);
    let p = last_dot_byte(name);
    if extension(name) == Some(ext) {
        let behind = name.skip(p + 1);
        decode_utf8_encode_utf8(behind);
        let stem = name.take(p);
        assert(name =~= stem + seq![0x2eu8] + encode_utf8(ext));
    }
    if name != seq![0x2eu8, 0x2eu8] && exists|stem: Seq<u8>|
        stem.len() > 0 && name == #[trigger] (stem + seq![0x2eu8] + encode_utf8(ext)) {
        let stem = choose|stem: Seq<u8>|
            stem.len() > 0 && name == #[trigger] (stem + seq![0x2eu8] + encode_utf8(ext));
        lemma_bytes_without_dot(ext);
        let b = encode_utf8(ext);
        let at = stem.len() as int;
        assert(name[at] == 0x2e);
        if p > at {
            assert(name[p] == b[p - at - 1]);
        }
        assert(p == at);
        assert(name.skip(p + 1) =~= b);
    }
}

/// An extension has no dots in it.
pub proof fn law_extension_has_no_dots(name: Seq<u8>)
    ensures
        extension(name) is Some ==> !extension(name)->0.contains('.'),
{
    if extension(name) is Some {
        let p = last_dot_byte(name);
        let behind = name.skip(p + 1);
        let ext = extension(name)->0;
        lemma_last_dot_byte(name);
        decode_utf8_encode_utf8(behind);
        if ext.contains('.') {
            let k = choose|k: int| 0 <= k < ext.len() && ext[k] == '.';
            lemma_dot_byte(ext, k);
            let i = choose|i: int| 0 <= i < behind.len() && behind[i] == 0x2e;
            assert(name[p + 1 + i] == 0x2e);
        }
    }
}

/// A dot in a text is a dot among its bytes.
proof fn lemma_dot_byte(s: Seq<char>, k: int)
    requires
        0 <= k < s.len(),
        s[k] == '.',
    ensures
        exists|i: int| 0 <= i < encode_utf8(s).len() && encode_utf8(s)[i] == 0x2e,
    decreases s.len(),
{
    let a = encode_scalar(s[0] as u32);
    let b = encode_utf8(s.drop_first());
    if k == 0 {
        assert((0x2eu32 & 0x7f) as u8 == 0x2e) by (bit_vector);
        assert(a[0] == 0x2e);
        assert(encode_utf8(s)[0] == 0x2e);
    } else {
        lemma_dot_byte(s.drop_first(), k - 1);
        let i = choose|i: int| 0 <= i < b.len() && b[i] == 0x2e;
        assert(encode_utf8(s)[a.len() + i] == 0x2e);
    }
}

/// None of the extensions of source files has a dot in it.
proof fn lemma_source_extensions(ext: Seq<char>)
    requires
        is_source_extension(ext),
    ensures
        !ext.contains('.'),
        ext.len() > 0,
{
    reveal_strlit("rs");
    reveal_strlit("ts");
    reveal_strlit("js");
    reveal_strlit("py");
    reveal_strlit("go");
    reveal_strlit("java");
    reveal_strlit("c");
    reveal_strlit("cpp");
    reveal_strlit("h");
    reveal_strlit("hpp");
    reveal_strlit("rb");
    reveal_strlit("sh");
}

/// A file is among the source files that are collected exactly when it was met;
/// is at most five names below the repository; neither the name of the repository
/// nor one on the way nor its own begins with a dot or is `target`,
/// `node_modules`, `dist` or `build`; and its own is something, a dot and one of
/// twelve extensions.
pub proof fn law_these_files_are_collected(
    root: Seq<char>,
    entries: Seq<WalkEntry>,
    e: WalkEntry,
)
    ensures
        source_files(root, entries).contains(e) <==> {
            let entered = |name: Seq<u8>|
                {
                    &&& !(name.len() > 0 && name[0] == 0x2e)
                    &&& name != encode_utf8("target"@)
                    &&& name != encode_utf8("node_modules"@)
                    &&& name != encode_utf8("dist"@)
                    &&& name != encode_utf8("build"@)
                };
            let path = e.components@;
            &&& entries.contains(e)
            &&& e.is_file
            &&& 1 <= path.len() <= 5
            &&& entered(encode_utf8(root))
            &&& forall|i: int| 0 <= i < path.len() ==> entered((#[trigger] path[i])@)
            &&& exists|stem: Seq<u8>, ext: Seq<char>|
                {
                    &&& stem.len() > 0
                    &&& path.last()@ == #[trigger] (stem + seq![0x2eu8] + encode_utf8(ext))
                    &&& {
                        ||| ext == "rs"@
                        ||| ext == "ts"@
                        ||| ext == "js"@
                        ||| ext == "py"@
                        ||| ext == "go"@
                        ||| ext == "java"@
                        ||| ext == "c"@
                        ||| ext == "cpp"@
                        ||| ext == "h"@
                        ||| ext == "hpp"@
                        ||| ext == "rb"@
                        ||| ext == "sh"@
                    }
                }
        },
{
    let path = e.components@;
    let entered = |name: Seq<u8>|
        {
            &&& !(name.len() > 0 && name[0] == 0x2e)
            &&& name != encode_utf8("target"@)
            &&& name != encode_utf8("node_modules"@)
            &&& name != encode_utf8("dist"@)
            &&& name != encode_utf8("build"@)
        };
    law_source_files(root, entries, e);
    if is_source_file(root, e) {
        let ext = path_extension(path)->0;
        lemma_source_extensions(ext);
        law_extension(path.last()@, ext);
        let stem = choose|stem: Seq<u8>|
            stem.len() > 0 && path.last()@ == #[trigger] (stem + seq![0x2eu8] + encode_utf8(ext));
        assert(path.last()@ == stem + seq![0x2eu8] + encode_utf8(ext));
        assert forall|i: int| 0 <= i < path.len() implies entered((#[trigger] path[i])@) by {}
    }
    if path.len() >= 1 && exists|stem: Seq<u8>, ext: Seq<char>|
        stem.len() > 0 && path.last()@ == #[trigger] (stem + seq![0x2eu8] + encode_utf8(ext))
            && is_source_extension(ext) {
        let (stem, ext) = choose|stem: Seq<u8>, ext: Seq<char>|
            stem.len() > 0 && path.last()@ == #[trigger] (stem + seq![0x2eu8] + encode_utf8(ext))
                && is_source_extension(ext);
        let name = path.last()@;
        lemma_source_extensions(ext);
        assert(name == stem + seq![0x2eu8] + encode_utf8(ext));
        encode_utf8_decode_utf8(ext);
        if encode_utf8(ext).len() == 0 {
            assert(encode_utf8(ext) =~= encode_utf8(Seq::<char>::empty()));
            encode_utf8_decode_utf8(Seq::<char>::empty());
        }
        assert(name.len() >= 3);
        law_extension(name, ext);
        if path.len() <= 5 && entered(encode_utf8(root)) && (forall|i: int|
            0 <= i < path.len() ==> entered((#[trigger] path[i])@)) {
            assert(on_source_walk(root, path));
        }
    }
}

/// One more file of an extension, within reach of the walk, is one more in the
/// count of that extension and of no other; what else is met makes no difference.
pub proof fn law_file_types_count_files(
    root: Seq<char>,
    entries: Seq<WalkEntry>,
    e: WalkEntry,
    ext: Seq<char>,
)
    requires
        !ext.contains('.'),
    ensures
        type_count(root, Seq::empty(), ext) == 0,
        type_count(root, entries.push(e), ext) == type_count(root, entries, ext) + if {
            let entered = |name: Seq<u8>|
                {
                    &&& !(name.len() > 0 && name[0] == 0x2e)
                    &&& name != encode_utf8("target"@)
                    &&& name != encode_utf8("node_modules"@)
                    &&& name != encode_utf8("dist"@)
                    &&& name != encode_utf8("build"@)
                };
            let path = e.components@;
            &&& e.is_file
            &&& 1 <= path.len() <= 5
            &&& entered(encode_utf8(root))
            &&& forall|i: int| 0 <= i < path.len() ==> entered((#[trigger] path[i])@)
            &&& path.last()@ != seq![0x2eu8, 0x2eu8]
            &&& exists|stem: Seq<u8>|
                stem.len() > 0 && path.last()@ == #[trigger] (stem + seq![0x2eu8] + encode_utf8(
                    ext,
                ))
        } {
            1int
        } else {
            0int
        },
{
    let path = e.components@;
    let entered = |name: Seq<u8>|
        {
            &&& !(name.len() > 0 && name[0] == 0x2e)
            &&& name != encode_utf8("target"@)
            &&& name != encode_utf8("node_modules"@)
            &&& name != encode_utf8("dist"@)
            &&& name != encode_utf8("build"@)
        };
    assert(entries.push(e).drop_last() =~= entries);
    if path.len() >= 1 {
        law_extension(path.last()@, ext);
    }
    if on_source_walk(root, path) {
        assert forall|i: int| 0 <= i < path.len() implies entered((#[trigger] path[i])@) by {}
    }
}

/// One more file of text within reach of the walk for tests adds the tests in its
/// text; what else is met makes no difference. The walk is stopped by a name that
/// begins with a dot, by `target` and by `node_modules`, and goes five names deep.
pub proof fn law_tests_are_counted_in_these_files(
    root: Seq<char>,
    entries: Seq<WalkEntry>,
    e: WalkEntry,
    text: Seq<char>,
)
    ensures
        tests_in_all(root, Seq::empty()) == 0,
        e.content is Some && e.content->0@ == encode_utf8(text) ==> tests_in_all(
            root,
            entries.push(e),
        ) == tests_in_all(root, entries) + if {
            let entered = |name: Seq<u8>|
                {
                    &&& !(name.len() > 0 && name[0] == 0x2e)
                    &&& name != encode_utf8("target"@)
                    &&& name != encode_utf8("node_modules"@)
                };
            let path = e.components@;
            &&& e.is_file
            &&& path.len() <= 5
            &&& entered(encode_utf8(root))
            &&& forall|i: int| 0 <= i < path.len() ==> entered((#[trigger] path[i])@)
        } {
            tests_in(text)
        } else {
            0
        },
        e.content is None || !valid_utf8(e.content->0@) ==> tests_in_all(root, entries.push(e))
            == tests_in_all(root, entries),
{
    broadcast use {encode_utf8_decode_utf8, encode_utf8_valid_utf8};

    let path = e.components@;
    let entered = |name: Seq<u8>|
        {
            &&& !(name.len() > 0 && name[0] == 0x2e)
            &&& name != encode_utf8("target"@)
            &&& name != encode_utf8("node_modules"@)
        };
    assert(entries.push(e).drop_last() =~= entries);
    if on_test_walk(root, path) {
        assert forall|i: int| 0 <= i < path.len() implies entered((#[trigger] path[i])@) by {}
    }
}

/// The bytes of two texts one behind the other.
pub proof fn lemma_encode_concat(a: Seq<char>, b: Seq<char>)
    ensures
        encode_utf8(a + b) == encode_utf8(a) + encode_utf8(b),
    decreases a.len(),
{
    if a.len() == 0 {
        assert(a + b =~= b);
        assert(encode_utf8(a) + encode_utf8(b) =~= encode_utf8(b));
    } else {
        lemma_encode_concat(a.drop_first(), b);
        assert((a + b).drop_first() =~= a.drop_first() + b);
        let x = encode_scalar(a[0] as u32);
        assert(x + (encode_utf8(a.drop_first()) + encode_utf8(b)) =~= (x + encode_utf8(
            a.drop_first(),
        )) + encode_utf8(b));
    }
}

/// A path whose names are texts is those texts with slashes between them.
pub proof fn law_path_is_its_names_and_slashes(path: Seq<Vec<u8>>, names: Seq<Seq<char>>)
    requires
        path.len() == names.len(),
        forall|i: int| 0 <= i < path.len() ==> (#[trigger] path[i])@ == encode_utf8(names[i]),
    ensures
        path_text(path) == joined(names, seq!['/']),
{
    lemma_path_bytes(path, names);
    encode_utf8_valid_utf8(joined(names, seq!['/']));
    encode_utf8_decode_utf8(joined(names, seq!['/']));
}

proof fn lemma_path_bytes(path: Seq<Vec<u8>>, names: Seq<Seq<char>>)
    requires
        path.len() == names.len(),
        forall|i: int| 0 <= i < path.len() ==> (#[trigger] path[i])@ == encode_utf8(names[i]),
    ensures
        path_bytes(path) == encode_utf8(joined(names, seq!['/'])),
    decreases path.len(),
{
    let sep = seq!['/'];
    if path.len() > 1 {
        let p = path.drop_last();
        let n = names.drop_last();
        let last = names.last();
        assert forall|i: int| 0 <= i < p.len() implies (#[trigger] p[i])@ == encode_utf8(n[i]) by {
            assert(p[i] == path[i]);
        }
        lemma_path_bytes(p, n);
        assert(path[path.len() - 1]@ == encode_utf8(names[names.len() - 1]));
        assert(names =~= n.push(last));
        law_joining(n, last, sep);
        lemma_encode_concat(joined(n, sep) + sep, last);
        lemma_encode_concat(joined(n, sep), sep);
        assert(encode_utf8(sep) =~= seq![0x2fu8]) by {
            reveal_with_fuel(encode_utf8, 2);
            assert((0x2fu32 & 0x7f) as u8 == 0x2f) by (bit_vector);
            assert(sep.drop_first() =~= Seq::<char>::empty());
        }
    } else if path.len() == 1 {
        assert(path[0]@ == encode_utf8(names[0]));
    } else {
        assert(joined(names, sep) =~= Seq::<char>::empty());
        assert(encode_utf8(Seq::<char>::empty()) =~= Seq::<u8>::empty());
    }
}

/// The content hash is the BLAKE3 digest, in hexadecimal, of the paths and contents
/// of the files, one file behind the other: each more file adds its names with
/// slashes between them, and what is in it.
pub proof fn law_hash_is_of_paths_and_contents(
    files: Seq<WalkEntry>,
    e: WalkEntry,
    names: Seq<Seq<char>>,
)
    requires
        e.components@.len() == names.len(),
        forall|i: int|
            0 <= i < names.len() ==> (#[trigger] e.components@[i])@ == encode_utf8(names[i]),
    ensures
        content_hash(files) == hex_text(blake3_digest(all_hashed_bytes(files))),
        all_hashed_bytes(Seq::empty()) == Seq::<u8>::empty(),
        all_hashed_bytes(files.push(e)) == all_hashed_bytes(files) + encode_utf8(
            joined(names, seq!['/']),
        ) + match e.content {
            Some(content) => content@,
            None => Seq::<u8>::empty(),
        },
{
    assert(files.push(e).drop_last() =~= files);
    law_path_is_its_names_and_slashes(e.components@, names);
    let content = match e.content {
        Some(content) => content@,
        None => Seq::<u8>::empty(),
    };
    let path = encode_utf8(joined(names, seq!['/']));
    assert(all_hashed_bytes(files) + (path + content) =~= all_hashed_bytes(files) + path
        + content);
}

/// Two repositories with one source file each, of the same path but with another
/// content, differ in what is hashed.
pub proof fn law_another_content_is_another_hash_input(a: WalkEntry, b: WalkEntry)
    requires
        a.components@ == b.components@,
        a.content is Some,
        b.content is Some,
        a.content->0@ != b.content->0@,
    ensures
        all_hashed_bytes(seq![a]) != all_hashed_bytes(seq![b]),
{
    reveal_with_fuel(all_hashed_bytes, 2);
    let path = encode_utf8(path_text(a.components@));
    let x = all_hashed_bytes(seq![a]);
    let y = all_hashed_bytes(seq![b]);
    let none = Seq::<WalkEntry>::empty();
    assert(seq![a].drop_last() =~= none);
    assert(seq![b].drop_last() =~= none);
    assert(x =~= path + a.content->0@);
    assert(y =~= path + b.content->0@);
    assert(x.skip(path.len() as int) =~= a.content->0@);
    assert(y.skip(path.len() as int) =~= b.content->0@);
}

/// Of two sequences, the one with the lesser item at the first place where they
/// differ comes first, and a prefix comes before what it is a prefix of.
proof fn lemma_lexicographic<A>(
    common: Seq<A>,
    x: A,
    y: A,
    a: Seq<A>,
    b: Seq<A>,
    less: spec_fn(A, A) -> bool,
)
    requires
        less(x, y),
        !less(y, x),
        x != y,
    ensures
        lex_leq(common + seq![x] + a, common + seq![y] + b, less),
        !lex_leq(common + seq![y] + b, common + seq![x] + a, less),
        lex_leq(common, common + a, less),
        a.len() > 0 ==> !lex_leq(common + a, common, less),
    decreases common.len(),
{
    let p = common + seq![x] + a;
    let q = common + seq![y] + b;
    if common.len() > 0 {
        let f = common.drop_first();
        lemma_lexicographic(f, x, y, a, b, less);
        assert(p.drop_first() =~= f + seq![x] + a);
        assert(q.drop_first() =~= f + seq![y] + b);
        assert((common + a).drop_first() =~= f + a);
        assert(p[0] == q[0]);
        assert((common + a)[0] == common[0]);
    } else {
        assert(p[0] == x && q[0] == y);
        assert(common + a =~= a);
    }
}

/// Texts are ordered by the first character in which they differ, and a beginning
/// of a text comes before it.
pub proof fn law_order_of_texts(
    common: Seq<char>,
    x: char,
    y: char,
    a: Seq<char>,
    b: Seq<char>,
)
    requires
        x < y,
    ensures
        text_leq(common + seq![x] + a, common + seq![y] + b),
        !text_leq(common + seq![y] + b, common + seq![x] + a),
        text_leq(common, common + a),
        a.len() > 0 ==> !text_leq(common + a, common),
{
    lemma_lexicographic(common, x, y, a, b, char_less());
}

/// Paths are ordered by the first name in which they differ, and names by the
/// first byte in which they differ; a directory comes before what is in it, and a
/// beginning of a name before the name.
pub proof fn law_order_of_paths(
    common: Seq<Seq<u8>>,
    begin: Seq<u8>,
    x: u8,
    y: u8,
    a: Seq<u8>,
    b: Seq<u8>,
    p: Seq<Seq<u8>>,
    q: Seq<Seq<u8>>,
)
    requires
        x < y,
    ensures
        path_leq(
            common + seq![begin + seq![x] + a] + p,
            common + seq![begin + seq![y] + b] + q,
        ),
        !path_leq(
            common + seq![begin + seq![y] + b] + q,
            common + seq![begin + seq![x] + a] + p,
        ),
        a.len() > 0 ==> path_leq(common + seq![begin] + p, common + seq![begin + a] + q)
            && !path_leq(common + seq![begin + a] + q, common + seq![begin] + p),
        path_leq(common, common + p),
        p.len() > 0 ==> !path_leq(common + p, common),
{
    let s = begin + seq![x] + a;
    let t = begin + seq![y] + b;
    lemma_lexicographic(begin, x, y, a, b, byte_less());
    assert(s[begin.len() as int] == x && t[begin.len() as int] == y);
    let less = bytes_less();
    assert(less(s, t) && !less(t, s));
    lemma_lexicographic(common, s, t, p, q, less);
    if a.len() > 0 {
        assert((begin + a).len() != begin.len());
        assert(less(begin, begin + a) && !less(begin + a, begin));
        lemma_lexicographic(common, begin, begin + a, p, q, less);
    }
}

/// The files that are collected come in the order of their paths.
pub proof fn law_files_come_by_path(root: Seq<char>, entries: Seq<WalkEntry>, i: int, j: int)
    requires
        0 <= i < j < source_files(root, entries).len(),
    ensures
        path_leq(
            components(source_files(root, entries)[i].components@),
            components(source_files(root, entries)[j].components@),
        ),
{
    let files = entries.filter(|e: WalkEntry| is_source_file(root, e));
    law_sorting_sorts(files);
    let s = stable_sorted(files);
    assert(s[i].leq(&s[j]));
}

/// What could not be read, and what is no text, has no tests in it.
pub proof fn law_tests_are_counted_in_text(
    root: Seq<char>,
    entries: Seq<WalkEntry>,
    e: WalkEntry,
)
    requires
        e.content is None || !valid_utf8(e.content->0@),
    ensures
        tests_in_all(root, entries.push(e)) == tests_in_all(root, entries),
{
    assert(entries.push(e).drop_last() =~= entries);
}

/// There are no more files of an extension than entries.
pub proof fn law_no_more_files_than_entries(
    root: Seq<char>,
    entries: Seq<WalkEntry>,
    ext: Seq<char>,
)
    ensures
        type_count(root, entries, ext) <= entries.len(),
    decreases entries.len(),
{
    if entries.len() > 0 {
        law_no_more_files_than_entries(root, entries.drop_last(), ext);
    }
}

/// A byte is written with two digits out of sixteen, the high one first.
pub proof fn law_hexadecimal_digits(data: Seq<u8>, b: u8)
    ensures
        hex_text(Seq::empty()).len() == 0,
        hex_text(data.push(b)) == hex_text(data) + seq![
            "0123456789abcdef"@[b as int / 16],
            "0123456789abcdef"@[b as int % 16],
        ],
{
    reveal_strlit("0123456789abcdef");
    let all = data.push(b);
    let one = hex_text(data) + seq![
        "0123456789abcdef"@[b as int / 16],
        "0123456789abcdef"@[b as int % 16],
    ];
    assert forall|i: int| 0 <= i < hex_text(all).len() implies hex_text(all)[i] == one[i] by {
        if i < data.len() * 2 {
            assert(i / 2 < data.len());
            assert(all[i / 2] == data[i / 2]);
        } else {
            assert(i / 2 == data.len());
            assert(all[i / 2] == b);
        }
    }
    assert(hex_text(all) =~= one);
}

} // verus!
