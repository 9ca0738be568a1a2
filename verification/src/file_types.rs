//! How many files a repository has of each type.

use crate::order::{
    char_less, lemma_char_less, lemma_lex_antisymmetric, lemma_lex_total, lemma_lex_transitive,
    text_at_most, text_leq,
};
use crate::text::same;
use vstd::prelude::*;

verus! {

/// Counts by file extension. No extension is listed twice, and the list is in
/// the order of the extensions, so that equal distributions are equal lists.
#[derive(Debug)]
pub struct FileTypes {
    counts: Vec<(String, u32)>,
}

/// The extensions of `s` ascend, so none occurs twice.
pub open spec fn ascending(s: Seq<(Seq<char>, u32)>) -> bool {
    forall|i: int, j: int|
        #![trigger s[i], s[j]]
        0 <= i < j < s.len() ==> text_leq(s[i].0, s[j].0) && s[i].0 != s[j].0
}

/// The count that `s` lists for `ext`, if it lists one.
pub open spec fn lookup(s: Seq<(Seq<char>, u32)>, ext: Seq<char>) -> Option<u32>
    decreases s.len(),
{
    if s.len() == 0 {
        None
    } else if s.last().0 == ext {
        Some(s.last().1)
    } else {
        lookup(s.drop_last(), ext)
    }
}

/// What `lookup` finds is listed, and what it does not find is not.
proof fn lemma_lookup_sound(s: Seq<(Seq<char>, u32)>, ext: Seq<char>)
    ensures
        match lookup(s, ext) {
            Some(n) => exists|i: int| 0 <= i < s.len() && s[i] == (ext, n),
            None => forall|i: int| 0 <= i < s.len() ==> (#[trigger] s[i]).0 != ext,
        },
    decreases s.len(),
{
    if s.len() > 0 {
        if s.last().0 == ext {
            assert(s[s.len() - 1] == (ext, s.last().1));
        } else {
            let front = s.drop_last();
            lemma_lookup_sound(front, ext);
            match lookup(front, ext) {
                Some(n) => {
                    let i = choose|i: int| 0 <= i < front.len() && front[i] == (ext, n);
                    assert(s[i] == (ext, n));
                },
                None => {
                    assert forall|i: int| 0 <= i < s.len() implies (#[trigger] s[i]).0 != ext by {
                        if i < s.len() - 1 {
                            assert(front[i] == s[i]);
                        }
                    }
                },
            }
        }
    }
}

/// In an ascending list, `lookup` finds what stands at each place.
proof fn lemma_lookup_at(s: Seq<(Seq<char>, u32)>, i: int)
    requires
        ascending(s),
        0 <= i < s.len(),
    ensures
        lookup(s, s[i].0) == Some(s[i].1),
{
    lemma_lookup_sound(s, s[i].0);
}

/// The count of an extension is the one that the list holds beside it.
pub proof fn law_count_is_what_is_listed(s: Seq<(Seq<char>, u32)>, ext: Seq<char>, n: u32)
    requires
        ascending(s),
    ensures
        lookup(s, ext) == Some(n) <==> s.contains((ext, n)),
        lookup(s, ext) is None <==> forall|m: u32| !#[trigger] s.contains((ext, m)),
{
    lemma_lookup_sound(s, ext);
    assert forall|m: u32| #[trigger] s.contains((ext, m)) implies lookup(s, ext) == Some(m) by {
        let i = choose|i: int| 0 <= i < s.len() && s[i] == (ext, m);
        lemma_lookup_at(s, i);
    }
    if lookup(s, ext) is Some {
        assert(s.contains((ext, lookup(s, ext)->0)));
    }
}

/// Extensions are listed in the order of their texts, each once.
pub proof fn law_extensions_are_listed_in_order(s: Seq<(Seq<char>, u32)>)
    ensures
        ascending(s) <==> forall|i: int, j: int|
            #![trigger s[i], s[j]]
            0 <= i < j < s.len() ==> text_leq(s[i].0, s[j].0) && s[i].0 != s[j].0,
{
}

/// Two ascending lists with the same count for every extension are the same
/// list: a list says no more than the distribution that it records.
pub proof fn law_distribution_determines_list(a: Seq<(Seq<char>, u32)>, b: Seq<(Seq<char>, u32)>)
    requires
        ascending(a),
        ascending(b),
        forall|ext: Seq<char>| lookup(a, ext) == lookup(b, ext),
    ensures
        a == b,
    decreases a.len(),
{
    if a.len() == 0 {
        if b.len() > 0 {
            lemma_lookup_at(b, b.len() - 1);
            assert(lookup(a, b.last().0) is Some);
        }
        assert(a =~= b);
    } else {
        lemma_lookup_at(a, a.len() - 1);
        lemma_lookup_sound(b, a.last().0);
        let j = choose|j: int| 0 <= j < b.len() && b[j] == (a.last().0, a.last().1);
        lemma_lookup_at(b, b.len() - 1);
        lemma_lookup_sound(a, b.last().0);
        let i = choose|i: int| 0 <= i < a.len() && a[i] == (b.last().0, b.last().1);
        if a.last().0 != b.last().0 {
            assert(i < a.len() - 1 && j < b.len() - 1);
            assert(text_leq(a[i].0, a[a.len() - 1].0));
            assert(text_leq(b[j].0, b[b.len() - 1].0));
            lemma_char_less();
            lemma_lex_antisymmetric(a.last().0, b.last().0, char_less());
        }
        let fa = a.drop_last();
        let fb = b.drop_last();
        assert(ascending(fa) && ascending(fb));
        assert forall|ext: Seq<char>| lookup(fa, ext) == lookup(fb, ext) by {
            assert(lookup(a, ext) == lookup(b, ext));
            if ext == a.last().0 {
                lemma_lookup_sound(fa, ext);
                lemma_lookup_sound(fb, ext);
                if lookup(fa, ext) is Some {
                    let k = choose|k: int|
                        0 <= k < fa.len() && fa[k] == (ext, lookup(fa, ext)->0);
                    assert(a[k].0 == a[a.len() - 1].0);
                }
                if lookup(fb, ext) is Some {
                    let k = choose|k: int|
                        0 <= k < fb.len() && fb[k] == (ext, lookup(fb, ext)->0);
                    assert(b[k].0 == b[b.len() - 1].0);
                }
            }
        }
        law_distribution_determines_list(fa, fb);
        assert(a =~= fa.push(a.last()));
        assert(b =~= fb.push(b.last()));
    }
}

impl Clone for FileTypes {
    fn clone(&self) -> (r: Self)
        ensures
            r@ == self@,
    {
        proof {
            use_type_invariant(self);
        }
        let mut counts: Vec<(String, u32)> = Vec::new();
        let mut i: usize = 0;
        while i < self.counts.len()
            invariant
                i <= self.counts@.len(),
                counts@.len() == i,
                forall|k: int|
                    0 <= k < i ==> (#[trigger] counts@[k]).0@ == self.counts@[k].0@ && counts@[k].1
                        == self.counts@[k].1,
            decreases self.counts@.len() - i,
        {
            counts.push((self.counts[i].0.clone(), self.counts[i].1));
            i += 1;
        }
        assert(listed(counts@) =~= listed(self.counts@));
        FileTypes { counts }
    }
}

impl View for FileTypes {
    type V = Seq<(Seq<char>, u32)>;

    closed spec fn view(&self) -> Seq<(Seq<char>, u32)> {
        listed(self.counts@)
    }
}

/// The extensions and counts of `v`.
pub open spec fn listed(v: Seq<(String, u32)>) -> Seq<(Seq<char>, u32)> {
    v.map_values(|p: (String, u32)| (p.0@, p.1))
}

impl FileTypes {
    #[verifier::type_invariant]
    spec fn well_formed(self) -> bool {
        ascending(listed(self.counts@))
    }

    /// No files.
    pub fn new() -> (r: FileTypes)
        ensures
            r@ == Seq::<(Seq<char>, u32)>::empty(),
            ascending(r@),
    {
        let counts: Vec<(String, u32)> = Vec::new();
        assert(listed(counts@) =~= Seq::<(Seq<char>, u32)>::empty());
        FileTypes { counts }
    }

    /// These counts, with `count` for `ext` in place of what was listed for it.
    pub fn with(self, ext: String, count: u32) -> (r: FileTypes)
        ensures
            ascending(r@),
            forall|e: Seq<char>|
                #![trigger lookup(r@, e)]
                lookup(r@, e) == if e == ext@ {
                    Some(count)
                } else {
                    lookup(self@, e)
                },
    {
        proof {
            use_type_invariant(&self);
        }
        let ghost before = listed(self.counts@);
        let mut counts: Vec<(String, u32)> = self.counts;
        let mut p: usize = 0;
        while p < counts.len() && text_at_most(counts[p].0.as_str(), ext.as_str()) && !same(
            counts[p].0.as_str(),
            ext.as_str(),
        )
            invariant
                p <= counts@.len(),
                before == listed(counts@),
                forall|k: int|
                    0 <= k < p ==> text_leq((#[trigger] before[k]).0, ext@) && before[k].0 != ext@,
            decreases counts@.len() - p,
        {
            p += 1;
        }
        let ghost name = ext@;
        if p < counts.len() && same(counts[p].0.as_str(), ext.as_str()) {
            counts.set(p, (ext, count));
            proof {
                let after = listed(counts@);
                assert(after =~= before.update(p as int, (name, count)));
                lemma_replaced(before, p as int, name, count);
            }
        } else {
            proof {
                lemma_inserted(before, p as int, name, count);
            }
            counts.insert(p, (ext, count));
            assert(listed(counts@) =~= before.insert(p as int, (name, count)));
        }
        FileTypes { counts }
    }

    /// The count for `ext`, if it is listed.
    pub fn get(&self, ext: &str) -> (r: Option<u32>)
        ensures
            r == lookup(self@, ext@),
    {
        proof {
            use_type_invariant(self);
        }
        let ghost all = listed(self.counts@);
        let mut i: usize = 0;
        while i < self.counts.len()
            invariant
                i <= self.counts@.len(),
                all == listed(self.counts@),
                ascending(all),
                all == self@,
                forall|k: int| 0 <= k < i ==> (#[trigger] all[k]).0 != ext@,
            decreases self.counts@.len() - i,
        {
            if same(self.counts[i].0.as_str(), ext) {
                proof {
                    lemma_lookup_at(all, i as int);
                }
                return Some(self.counts[i].1);
            }
            i += 1;
        }
        proof {
            lemma_lookup_sound(all, ext@);
        }
        None
    }

    /// The extensions with their counts, in the order of the extensions.
    pub fn entries(&self) -> (r: &Vec<(String, u32)>)
        ensures
            listed(r@) == self@,
            ascending(self@),
    {
        proof {
            use_type_invariant(self);
        }
        &self.counts
    }
}

/// Replacing the count at one place changes the count of that extension alone.
proof fn lemma_replaced(s: Seq<(Seq<char>, u32)>, p: int, ext: Seq<char>, count: u32)
    requires
        ascending(s),
        0 <= p < s.len(),
        s[p].0 == ext,
    ensures
        ascending(s.update(p, (ext, count))),
        forall|e: Seq<char>|
            #![trigger lookup(s.update(p, (ext, count)), e)]
            lookup(s.update(p, (ext, count)), e) == if e == ext {
                Some(count)
            } else {
                lookup(s, e)
            },
{
    let r = s.update(p, (ext, count));
    assert(ascending(r));
    assert forall|e: Seq<char>|
        #![trigger lookup(r, e)]
        lookup(r, e) == if e == ext {
            Some(count)
        } else {
            lookup(s, e)
        } by {
        lemma_lookup_sound(s, e);
        lemma_lookup_sound(r, e);
        if e == ext {
            lemma_lookup_at(r, p);
        } else if lookup(s, e) is Some {
            let i = choose|i: int| 0 <= i < s.len() && s[i] == (e, lookup(s, e)->0);
            lemma_lookup_at(r, i);
        } else if lookup(r, e) is Some {
            let i = choose|i: int| 0 <= i < r.len() && r[i] == (e, lookup(r, e)->0);
            assert(s[i] == r[i]);
        }
    }
}

/// Putting a new extension in its place adds its count and changes no other.
proof fn lemma_inserted(s: Seq<(Seq<char>, u32)>, p: int, ext: Seq<char>, count: u32)
    requires
        ascending(s),
        0 <= p <= s.len(),
        forall|k: int| 0 <= k < p ==> text_leq((#[trigger] s[k]).0, ext) && s[k].0 != ext,
        p < s.len() ==> s[p].0 != ext && !text_leq(s[p].0, ext),
    ensures
        ascending(s.insert(p, (ext, count))),
        forall|e: Seq<char>|
            #![trigger lookup(s.insert(p, (ext, count)), e)]
            lookup(s.insert(p, (ext, count)), e) == if e == ext {
                Some(count)
            } else {
                lookup(s, e)
            },
{
    let r = s.insert(p, (ext, count));
    lemma_char_less();
    assert forall|k: int| p <= k < s.len() implies text_leq(ext, (#[trigger] s[k]).0) && s[k].0
        != ext by {
        lemma_lex_total(s[p].0, ext, char_less());
        if k > p {
            assert(text_leq(s[p].0, s[k].0));
            lemma_lex_transitive(ext, s[p].0, s[k].0, char_less());
        }
    }
    assert forall|i: int, j: int|
        #![trigger r[i], r[j]]
        0 <= i < j < r.len() implies text_leq(r[i].0, r[j].0) && r[i].0 != r[j].0 by {
        let si = if i < p {
            s[i]
        } else {
            s[i - 1]
        };
        let sj = if j < p {
            s[j]
        } else {
            s[j - 1]
        };
    }
    assert forall|e: Seq<char>|
        #![trigger lookup(r, e)]
        lookup(r, e) == if e == ext {
            Some(count)
        } else {
            lookup(s, e)
        } by {
        lemma_lookup_sound(s, e);
        lemma_lookup_sound(r, e);
        if e == ext {
            lemma_lookup_at(r, p);
        } else if lookup(s, e) is Some {
            let i = choose|i: int| 0 <= i < s.len() && s[i] == (e, lookup(s, e)->0);
            lemma_lookup_at(
                r,
                if i < p {
                    i
                } else {
                    i + 1
                },
            );
        } else if lookup(r, e) is Some {
            let i = choose|i: int| 0 <= i < r.len() && r[i] == (e, lookup(r, e)->0);
            let k = if i < p {
                i
            } else {
                i - 1
            };
            assert(s[k] == r[i]);
        }
    }
}

} // verus!
