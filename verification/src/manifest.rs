//! Names of dependencies, taken from the manifests of a repository.

use crate::cargo_manifest::{cargo_names, read_cargo};
use crate::order::{
    char_less, law_sorting_keeps_items, lemma_char_less, lemma_lex_antisymmetric,
    lemma_lex_transitive, sort_stable, sorted, stable_sorted, text_leq, Ranked,
};
use crate::npm_manifest::{npm_names, read_npm};
use crate::python_manifest::{
    project_names, read_project, read_requirements, requirements_name,
};
use crate::text::texts;
use vstd::prelude::*;

verus! {

/// Whether `c` has the Unicode property Alphabetic: what `char::is_alphabetic`
/// returns.
pub uninterp spec fn unicode_alphabetic(c: char) -> bool;

/// `char::is_alphabetic` tells whether a character has the property Alphabetic.
/// The contract claims that the answer is a function of the character.
pub assume_specification[ char::is_alphabetic ](c: char) -> (r: bool)
    ensures
        r == unicode_alphabetic(c),
;

/// Whether `c` is a letter: of the ASCII characters, those of the alphabet, and
/// of the others, those that are alphabetic.
pub open spec fn is_letter(c: char) -> bool {
    if c as u32 <= 0x7f {
        'a' <= c <= 'z' || 'A' <= c <= 'Z'
    } else {
        unicode_alphabetic(c)
    }
}

/// Whether `c` is a letter.
pub(crate) fn letter(c: char) -> (r: bool)
    ensures
        r == is_letter(c),
{
    if c as u32 <= 0x7f {
        ('a' <= c && c <= 'z') || ('A' <= c && c <= 'Z')
    } else {
        c.is_alphabetic()
    }
}

/// The text of the manifests that were found and could be read.
#[derive(Debug, Clone)]
pub struct Manifests {
    pub cargo_toml: Option<String>,
    pub package_json: Option<String>,
    pub requirements_txt: Option<String>,
    pub pyproject_toml: Option<String>,
}

/// Whether one of the manifests names the dependency `name`.
pub open spec fn is_dependency(m: Manifests, name: Seq<char>) -> bool {
    ||| m.cargo_toml is Some && cargo_names(m.cargo_toml->0@, name)
    ||| m.package_json is Some && npm_names(m.package_json->0@, name)
    ||| m.requirements_txt is Some && requirements_name(m.requirements_txt->0@, name)
    ||| m.pyproject_toml is Some && project_names(m.pyproject_toml->0@, name)
}

/// The texts of `s` ascend, so none occurs twice.
pub open spec fn ascend(s: Seq<Seq<char>>) -> bool {
    forall|i: int, j: int|
        #![trigger s[i], s[j]]
        0 <= i < j < s.len() ==> text_leq(s[i], s[j]) && s[i] != s[j]
}

/// Adds `name` to `found`.
pub(crate) fn add_name(found: &mut Vec<String>, name: String)
    ensures
        forall|x: Seq<char>|
            #![trigger texts(final(found)@).contains(x)]
            texts(final(found)@).contains(x) <==> texts(old(found)@).contains(x) || x == name@,
{
    let ghost before = texts(found@);
    found.push(name);
    proof {
        let after = texts(found@);
        assert(after =~= before.push(name@));
        assert forall|x: Seq<char>|
            #![trigger after.contains(x)]
            after.contains(x) <==> before.contains(x) || x == name@ by {
            if before.contains(x) {
                let k = choose|k: int| 0 <= k < before.len() && before[k] == x;
                assert(after[k] == x);
            }
            if x == name@ {
                assert(after[before.len() as int] == x);
            }
            if after.contains(x) {
                let k = choose|k: int| 0 <= k < after.len() && after[k] == x;
                assert(k < before.len() ==> before[k] == x);
            }
        }
    }
}

/// Adds each of `names` to `found`.
pub(crate) fn add_names(found: &mut Vec<String>, names: Vec<String>)
    ensures
        forall|x: Seq<char>|
            #![trigger texts(final(found)@).contains(x)]
            texts(final(found)@).contains(x) <==> texts(old(found)@).contains(x) || texts(
                names@,
            ).contains(x),
{
    let ghost before = texts(found@);
    let ghost all = texts(names@);
    for name in it: names
        invariant
            it.seq() == names@,
            all == texts(names@),
            forall|x: Seq<char>|
                #![trigger texts(found@).contains(x)]
                texts(found@).contains(x) <==> before.contains(x) || exists|m: int|
                    0 <= m < it.index() && #[trigger] all[m] == x,
    {
        assert(all[it.index() as int] == name@);
        add_name(found, name);
    }
    assert forall|x: Seq<char>|
        #![trigger texts(found@).contains(x)]
        texts(found@).contains(x) <==> before.contains(x) || all.contains(x) by {
        if all.contains(x) {
            let m = choose|m: int| 0 <= m < all.len() && all[m] == x;
            assert(all[m] == x);
        }
    }
}

/// The sorted vector `v` without repetitions.
fn dedup(v: Vec<String>) -> (r: Vec<String>)
    requires
        sorted(v@),
    ensures
        ascend(texts(r@)),
        forall|name: Seq<char>|
            #![trigger texts(r@).contains(name)]
            texts(r@).contains(name) <==> texts(v@).contains(name),
{
    let mut r: Vec<String> = Vec::new();
    let ghost all = texts(v@);
    let mut i: usize = 0;
    while i < v.len()
        invariant
            i <= v@.len(),
            all == texts(v@),
            sorted(v@),
            ascend(texts(r@)),
            i > 0 ==> r@.len() > 0 && r@.last()@ == all[i - 1],
            i == 0 ==> r@.len() == 0,
            forall|k: int| 0 <= k < i ==> texts(r@).contains(#[trigger] all[k]),
            forall|k: int|
                0 <= k < r@.len() ==> exists|m: int|
                    0 <= m < i && #[trigger] all[m] == #[trigger] texts(r@)[k],
        decreases v@.len() - i,
    {
        let ghost before = texts(r@);
        if i == 0 || v[i] != v[i - 1] {
            r.push(v[i].clone());
            proof {
                let after = texts(r@);
                assert(after =~= before.push(all[i as int]));
                assert forall|a: int, b: int|
                    #![trigger after[a], after[b]]
                    0 <= a < b < after.len() implies text_leq(after[a], after[b]) && after[a]
                    != after[b] by {
                    if b < before.len() {
                        assert(before[a] != before[b]);
                    } else {
                        assert(before[before.len() - 1] == all[i - 1]);
                        assert(v@[i - 1].leq(&v@[i as int]));
                        lemma_char_less();
                        if a < before.len() - 1 {
                            assert(text_leq(before[a], before[before.len() - 1]));
                            lemma_lex_transitive(before[a], all[i - 1], all[i as int], char_less());
                            if before[a] == all[i as int] {
                                lemma_lex_antisymmetric(
                                    before[a],
                                    all[i - 1],
                                    char_less(),
                                );
                            }
                        }
                    }
                }
                assert forall|k: int| 0 <= k < i + 1 implies after.contains(#[trigger] all[k]) by {
                    if k < i {
                        let m = choose|m: int| 0 <= m < before.len() && before[m] == all[k];
                        assert(after[m] == all[k]);
                    } else {
                        assert(after[before.len() as int] == all[k]);
                    }
                }
                assert forall|k: int| 0 <= k < after.len() implies exists|m: int|
                    0 <= m < i + 1 && #[trigger] all[m] == #[trigger] after[k] by {
                    if k < before.len() {
                        assert(after[k] == before[k]);
                        let m = choose|m: int| 0 <= m < i && #[trigger] all[m] == before[k];
                        assert(all[m] == after[k]);
                    } else {
                        assert(all[i as int] == after[k]);
                    }
                }
            }
        } else {
            assert(before[before.len() - 1] == all[i as int]);
        }
        i += 1;
    }
    proof {
        assert forall|name: Seq<char>|
            #![trigger texts(r@).contains(name)]
            texts(r@).contains(name) <==> all.contains(name) by {
            if texts(r@).contains(name) {
                let k = choose|k: int| 0 <= k < texts(r@).len() && texts(r@)[k] == name;
                assert(texts(r@)[k] == name);
            }
            if all.contains(name) {
                let k = choose|k: int| 0 <= k < all.len() && all[k] == name;
                assert(texts(r@).contains(all[k]));
            }
        }
    }
    r
}

/// Sorting keeps the texts.
proof fn lemma_sorted_texts(s: Seq<String>, name: Seq<char>)
    ensures
        texts(stable_sorted(s)).contains(name) <==> texts(s).contains(name),
{
    broadcast use vstd::seq_lib::group_to_multiset_ensures;

    law_sorting_keeps_items(s);
    let t = stable_sorted(s);
    if texts(s).contains(name) {
        let k = choose|k: int| 0 <= k < texts(s).len() && texts(s)[k] == name;
        assert(s.to_multiset().count(s[k]) > 0) by {
            assert(s.contains(s[k]));
        }
        assert(t.contains(s[k]));
        let m = choose|m: int| 0 <= m < t.len() && t[m] == s[k];
        assert(texts(t)[m] == name);
    }
    if texts(t).contains(name) {
        let k = choose|k: int| 0 <= k < texts(t).len() && texts(t)[k] == name;
        assert(t.to_multiset().count(t[k]) > 0) by {
            assert(t.contains(t[k]));
        }
        assert(s.contains(t[k]));
        let m = choose|m: int| 0 <= m < s.len() && s[m] == t[k];
        assert(texts(s)[m] == name);
    }
}

/// The dependencies that the manifests name, in order and each once.
pub fn parse_dependencies(manifests: &Manifests) -> (r: Vec<String>)
    ensures
        ascend(texts(r@)),
        forall|name: Seq<char>|
            #![trigger texts(r@).contains(name)]
            texts(r@).contains(name) <==> is_dependency(*manifests, name),
{
    let mut found: Vec<String> = Vec::new();
    assert forall|name: Seq<char>| !#[trigger] texts(found@).contains(name) by {
        assert(texts(found@).len() == 0);
    }
    if let Some(text) = &manifests.cargo_toml {
        read_cargo(text.as_str(), &mut found);
    }
    if let Some(text) = &manifests.package_json {
        read_npm(text.as_str(), &mut found);
    }
    if let Some(text) = &manifests.requirements_txt {
        read_requirements(text.as_str(), &mut found);
    }
    if let Some(text) = &manifests.pyproject_toml {
        read_project(text.as_str(), &mut found);
    }
    proof {
        assert forall|name: Seq<char>|
            #![trigger texts(stable_sorted(found@)).contains(name)]
            texts(stable_sorted(found@)).contains(name) <==> texts(found@).contains(name) by {
            lemma_sorted_texts(found@, name);
        }
    }
    dedup(sort_stable(found))
}

} // verus!
