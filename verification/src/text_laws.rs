//! What the operations on text do, told by how texts are put together.

use crate::text::{
    before_any, begins_with, decimal, finishes_with, has_part, is_white, joined, lines, stands_at,
    strip, strip_end, strip_start, trimmed, unquoted,
};
use vstd::prelude::*;

verus! {

/// White space is what Unicode calls so: the tab and what follows up to the
/// carriage return, the space, the next line, the no-break space, and the spaces
/// and separators further on.
pub proof fn law_white_space(c: char)
    ensures
        is_white(c) <==> {
            ||| '\t' <= c <= '\r'
            ||| c == ' '
            ||| c == '\u{85}'
            ||| c == '\u{a0}'
            ||| c == '\u{1680}'
            ||| '\u{2000}' <= c <= '\u{200a}'
            ||| c == '\u{2028}'
            ||| c == '\u{2029}'
            ||| c == '\u{202f}'
            ||| c == '\u{205f}'
            ||| c == '\u{3000}'
        },
{
}

/// Taking characters off the start.
proof fn lemma_strip_start(a: Seq<char>, s: Seq<char>, p: spec_fn(char) -> bool)
    requires
        forall|i: int| 0 <= i < a.len() ==> p(#[trigger] a[i]),
        s.len() > 0 ==> !p(s[0]),
    ensures
        strip_start(a + s, p) == s,
    decreases a.len(),
{
    if a.len() == 0 {
        assert(a + s =~= s);
    } else {
        assert((a + s)[0] == a[0]);
        assert((a + s).drop_first() =~= a.drop_first() + s);
        assert forall|i: int| 0 <= i < a.drop_first().len() implies p(
            #[trigger] a.drop_first()[i],
        ) by {
            assert(a.drop_first()[i] == a[i + 1]);
        }
        lemma_strip_start(a.drop_first(), s, p);
    }
}

/// Taking characters off the end.
proof fn lemma_strip_end(s: Seq<char>, b: Seq<char>, p: spec_fn(char) -> bool)
    requires
        forall|i: int| 0 <= i < b.len() ==> p(#[trigger] b[i]),
        s.len() > 0 ==> !p(s.last()),
    ensures
        strip_end(s + b, p) == s,
    decreases b.len(),
{
    if b.len() == 0 {
        assert(s + b =~= s);
    } else {
        assert((s + b).last() == b[b.len() - 1]);
        assert((s + b).drop_last() =~= s + b.drop_last());
        lemma_strip_end(s, b.drop_last(), p);
    }
}

/// Taking characters off both ends.
proof fn lemma_strip(a: Seq<char>, s: Seq<char>, b: Seq<char>, p: spec_fn(char) -> bool)
    requires
        forall|i: int| 0 <= i < a.len() ==> p(#[trigger] a[i]),
        forall|i: int| 0 <= i < b.len() ==> p(#[trigger] b[i]),
        s.len() > 0 ==> !p(s[0]) && !p(s.last()),
    ensures
        strip(a + s + b, p) == s,
{
    if s.len() > 0 {
        assert(a + s + b =~= a + (s + b));
        assert((s + b)[0] == s[0]);
        lemma_strip_start(a, s + b, p);
        lemma_strip_end(s, b, p);
    } else {
        assert(a + s + b =~= (a + b) + s);
        assert forall|i: int| 0 <= i < (a + b).len() implies p(#[trigger] (a + b)[i]) by {
            if i >= a.len() {
                assert((a + b)[i] == b[i - a.len()]);
            } else {
                assert((a + b)[i] == a[i]);
            }
        }
        lemma_strip_start(a + b, s, p);
        assert(s =~= Seq::empty());
        assert(strip_end(s, p) =~= s);
    }
}

/// Trimming takes white space off both ends, all of it and nothing else.
pub proof fn law_trimming(a: Seq<char>, s: Seq<char>, b: Seq<char>)
    requires
        forall|i: int| 0 <= i < a.len() ==> is_white(#[trigger] a[i]),
        forall|i: int| 0 <= i < b.len() ==> is_white(#[trigger] b[i]),
        s.len() > 0 ==> !is_white(s[0]) && !is_white(s.last()),
    ensures
        trimmed(a + s + b) == s,
{
    lemma_strip(a, s, b, |c: char| is_white(c));
}

/// Unquoting takes double quotes off both ends, all of them and nothing else.
pub proof fn law_unquoting(a: Seq<char>, s: Seq<char>, b: Seq<char>)
    requires
        forall|i: int| 0 <= i < a.len() ==> #[trigger] a[i] == '"',
        forall|i: int| 0 <= i < b.len() ==> #[trigger] b[i] == '"',
        s.len() > 0 ==> s[0] != '"' && s.last() != '"',
    ensures
        unquoted(a + s + b) == s,
{
    lemma_strip(a, s, b, |c: char| c == '"');
}

/// A text is cut before the first mark in it.
pub proof fn law_cutting(a: Seq<char>, b: Seq<char>, marks: Seq<char>)
    requires
        forall|i: int| 0 <= i < a.len() ==> !marks.contains(#[trigger] a[i]),
        b.len() > 0 ==> marks.contains(b[0]),
    ensures
        before_any(a + b, marks) == a,
    decreases a.len(),
{
    if a.len() == 0 {
        assert(a + b =~= b);
        assert(a =~= Seq::empty());
    } else {
        assert((a + b)[0] == a[0]);
        assert((a + b).drop_first() =~= a.drop_first() + b);
        assert forall|i: int| 0 <= i < a.drop_first().len() implies !marks.contains(
            #[trigger] a.drop_first()[i],
        ) by {
            assert(a.drop_first()[i] == a[i + 1]);
        }
        law_cutting(a.drop_first(), b, marks);
        assert(a =~= seq![a[0]] + a.drop_first());
    }
}

/// What stands before a text without a mark in it is kept where the text is cut.
pub proof fn law_cutting_behind(a: Seq<char>, b: Seq<char>, marks: Seq<char>)
    requires
        forall|i: int| 0 <= i < a.len() ==> !marks.contains(#[trigger] a[i]),
    ensures
        before_any(a + b, marks) == a + before_any(b, marks),
    decreases a.len(),
{
    if a.len() == 0 {
        assert(a + b =~= b);
        assert(a + before_any(b, marks) =~= before_any(b, marks));
    } else {
        assert((a + b)[0] == a[0]);
        assert((a + b).drop_first() =~= a.drop_first() + b);
        assert forall|i: int| 0 <= i < a.drop_first().len() implies !marks.contains(
            #[trigger] a.drop_first()[i],
        ) by {
            assert(a.drop_first()[i] == a[i + 1]);
        }
        law_cutting_behind(a.drop_first(), b, marks);
        assert(a + before_any(b, marks) =~= seq![a[0]] + (a.drop_first() + before_any(b, marks)));
    }
}

/// Parts go one behind the other with the separator between them.
pub proof fn law_joining(parts: Seq<Seq<char>>, last: Seq<char>, sep: Seq<char>)
    ensures
        joined(parts.push(last), sep) == if parts.len() == 0 {
            last
        } else {
            joined(parts, sep) + sep + last
        },
{
    assert(parts.push(last).drop_last() =~= parts);
    if parts.len() > 0 {
        assert(joined(parts, sep) + (sep + last) =~= joined(parts, sep) + sep + last);
    }
}

/// A text has a line more than line feeds, and its lines with line feeds between
/// them are the text.
pub proof fn law_lines_make_up_the_text(s: Seq<char>)
    ensures
        lines(s).len() >= 1,
        joined(lines(s), seq!['\n']) == s,
        forall|k: int| 0 <= k < lines(s).len() ==> !(#[trigger] lines(s)[k]).contains('\n'),
    decreases s.len(),
{
    let sep = seq!['\n'];
    if s.len() == 0 {
        assert(lines(s)[0] =~= Seq::empty());
        assert(joined(lines(s), sep) =~= s);
    } else {
        let f = s.drop_last();
        let before = lines(f);
        let after = lines(s);
        law_lines_make_up_the_text(f);
        assert(s =~= f.push(s.last()));
        if s.last() == '\n' {
            law_joining(before, Seq::empty(), sep);
            assert(joined(before, sep) + sep + Seq::<char>::empty() =~= s);
            assert forall|k: int| 0 <= k < after.len() implies !(#[trigger] after[k]).contains(
                '\n',
            ) by {
                if k < before.len() {
                    assert(after[k] == before[k]);
                }
            }
        } else {
            let front = before.drop_last();
            let line = before.last();
            assert(before =~= front.push(line));
            assert(after =~= front.push(line.push(s.last())));
            law_joining(front, line, sep);
            law_joining(front, line.push(s.last()), sep);
            assert(joined(after, sep) =~= joined(before, sep).push(s.last()));
            assert forall|k: int| 0 <= k < after.len() implies !(#[trigger] after[k]).contains(
                '\n',
            ) by {
                if k < front.len() {
                    assert(after[k] == before[k]);
                } else {
                    assert(!before[k].contains('\n'));
                    if after[k].contains('\n') {
                        let i = choose|i: int| 0 <= i < after[k].len() && after[k][i] == '\n';
                        assert(line[i] == '\n');
                    }
                }
            }
        }
    }
}

/// A line feed ends a line and begins the next.
proof fn lemma_lines_concat(s: Seq<char>, t: Seq<char>)
    requires
        !t.contains('\n'),
    ensures
        lines(s + seq!['\n'] + t) == lines(s).push(t),
    decreases t.len(),
{
    let sn = s + seq!['\n'];
    assert(sn.drop_last() =~= s);
    assert(lines(sn) == lines(s).push(Seq::empty()));
    if t.len() == 0 {
        assert(sn + t =~= sn);
        assert(t =~= Seq::empty());
    } else {
        let f = t.drop_last();
        assert(t[t.len() - 1] == t.last());
        assert(!f.contains('\n')) by {
            if f.contains('\n') {
                let i = choose|i: int| 0 <= i < f.len() && f[i] == '\n';
                assert(t[i] == '\n');
            }
        }
        lemma_lines_concat(s, f);
        assert((sn + t).drop_last() =~= sn + f);
        assert((sn + t).last() == t.last());
        assert(t.contains(t.last()));
        assert(f.push(t.last()) =~= t);
        assert(lines(sn + t) =~= lines(s).push(t));
    }
}

/// A text without line feeds is one line.
proof fn lemma_one_line(t: Seq<char>)
    requires
        !t.contains('\n'),
    ensures
        lines(t) == seq![t],
    decreases t.len(),
{
    if t.len() == 0 {
        assert(t =~= Seq::empty());
    } else {
        let f = t.drop_last();
        assert(t[t.len() - 1] == t.last());
        assert(!f.contains('\n')) by {
            if f.contains('\n') {
                let i = choose|i: int| 0 <= i < f.len() && f[i] == '\n';
                assert(t[i] == '\n');
            }
        }
        lemma_one_line(f);
        assert(f.push(t.last()) =~= t);
        assert(lines(t) =~= seq![t]);
    }
}

/// The lines of a text that was made of lines are those lines.
pub proof fn law_lines_of_joined_lines(parts: Seq<Seq<char>>)
    requires
        parts.len() >= 1,
        forall|k: int| 0 <= k < parts.len() ==> !(#[trigger] parts[k]).contains('\n'),
    ensures
        lines(joined(parts, seq!['\n'])) == parts,
    decreases parts.len(),
{
    let sep = seq!['\n'];
    let front = parts.drop_last();
    let last = parts.last();
    assert(parts =~= front.push(last));
    assert(!parts[parts.len() - 1].contains('\n'));
    law_joining(front, last, sep);
    if front.len() == 0 {
        lemma_one_line(last);
        assert(parts =~= seq![last]);
    } else {
        assert forall|k: int| 0 <= k < front.len() implies !(#[trigger] front[k]).contains(
            '\n',
        ) by {
            assert(front[k] == parts[k]);
        }
        law_lines_of_joined_lines(front);
        lemma_lines_concat(joined(front, sep), last);
    }
}

/// What begins with a part is that part and a rest.
pub proof fn law_beginning(s: Seq<char>, part: Seq<char>)
    ensures
        begins_with(s, part) <==> exists|rest: Seq<char>| s == #[trigger] (part + rest),
{
    if begins_with(s, part) {
        assert(s =~= part + s.skip(part.len() as int)) by {
            assert(s.subrange(0, part.len() as int) == part);
        }
    }
    if exists|rest: Seq<char>| s == #[trigger] (part + rest) {
        let rest = choose|rest: Seq<char>| s == #[trigger] (part + rest);
        assert(s.subrange(0, part.len() as int) =~= part);
    }
}

/// What ends with a part is a rest and that part.
pub proof fn law_ending(s: Seq<char>, part: Seq<char>)
    ensures
        finishes_with(s, part) <==> exists|rest: Seq<char>| s == #[trigger] (rest + part),
{
    let p = s.len() - part.len();
    if finishes_with(s, part) {
        assert(s =~= s.take(p) + part) by {
            assert(s.subrange(p, s.len() as int) == part);
        }
    }
    if exists|rest: Seq<char>| s == #[trigger] (rest + part) {
        let rest = choose|rest: Seq<char>| s == #[trigger] (rest + part);
        assert(s.subrange(p, p + part.len()) =~= part);
    }
}

/// What has a part is something, that part, and something.
pub proof fn law_having_a_part(s: Seq<char>, part: Seq<char>)
    ensures
        has_part(s, part) <==> exists|a: Seq<char>, b: Seq<char>| s == #[trigger] (a + part + b),
{
    if has_part(s, part) {
        let at = choose|at: int| stands_at(s, part, at);
        assert(s.subrange(at, at + part.len()) == part);
        assert(s =~= s.take(at) + part + s.skip(at + part.len()));
    }
    if exists|a: Seq<char>, b: Seq<char>| s == #[trigger] (a + part + b) {
        let (a, b) = choose|a: Seq<char>, b: Seq<char>| s == #[trigger] (a + part + b);
        assert(s.subrange(a.len() as int, (a.len() + part.len()) as int) =~= part);
        assert(stands_at(s, part, a.len() as int));
    }
}

/// In decimal, the digit for the rest by ten stands behind the digits of the tens,
/// and a number below ten is one digit.
pub proof fn law_decimal(n: nat, d: nat)
    requires
        d < 10,
    ensures
        decimal(d) == seq![(d + 0x30) as char],
        n > 0 ==> decimal(10 * n + d) == decimal(n).push((d + 0x30) as char),
{
    assert((10 * n + d) / 10 == n && (10 * n + d) % 10 == d) by (nonlinear_arith)
        requires
            d < 10,
    ;
}

/// What was taken off the start.
proof fn lemma_taken_off_start(s: Seq<char>, p: spec_fn(char) -> bool) -> (a: Seq<char>)
    ensures
        s == a + strip_start(s, p),
        forall|i: int| 0 <= i < a.len() ==> p(#[trigger] a[i]),
        strip_start(s, p).len() > 0 ==> !p(strip_start(s, p)[0]),
    decreases s.len(),
{
    if s.len() > 0 && p(s[0]) {
        let a = lemma_taken_off_start(s.drop_first(), p);
        let r = seq![s[0]] + a;
        let kept = strip_start(s.drop_first(), p);
        assert(s =~= seq![s[0]] + s.drop_first());
        assert(seq![s[0]] + (a + kept) =~= r + kept);
        assert forall|i: int| 0 <= i < r.len() implies p(#[trigger] r[i]) by {
            if i > 0 {
                assert(r[i] == a[i - 1]);
            }
        }
        r
    } else {
        assert(s =~= Seq::<char>::empty() + s);
        Seq::empty()
    }
}

/// What was taken off the end.
proof fn lemma_taken_off_end(s: Seq<char>, p: spec_fn(char) -> bool) -> (b: Seq<char>)
    ensures
        s == strip_end(s, p) + b,
        forall|i: int| 0 <= i < b.len() ==> p(#[trigger] b[i]),
        strip_end(s, p).len() > 0 ==> !p(strip_end(s, p).last()),
    decreases s.len(),
{
    if s.len() > 0 && p(s.last()) {
        let b = lemma_taken_off_end(s.drop_last(), p);
        let r = b.push(s.last());
        let kept = strip_end(s.drop_last(), p);
        assert(s =~= s.drop_last().push(s.last()));
        assert((kept + b).push(s.last()) =~= kept + r);
        assert forall|i: int| 0 <= i < r.len() implies p(#[trigger] r[i]) by {
            if i < b.len() {
                assert(r[i] == b[i]);
            }
        }
        r
    } else {
        assert(s =~= s + Seq::<char>::empty());
        Seq::empty()
    }
}

/// A text is its trimmed form with white space around it.
pub proof fn lemma_untrimmed(s: Seq<char>) -> (r: (Seq<char>, Seq<char>))
    ensures
        s == r.0 + trimmed(s) + r.1,
        forall|i: int| 0 <= i < r.0.len() ==> is_white(#[trigger] r.0[i]),
        forall|i: int| 0 <= i < r.1.len() ==> is_white(#[trigger] r.1[i]),
        trimmed(s).len() > 0 ==> !is_white(trimmed(s)[0]) && !is_white(trimmed(s).last()),
{
    let p = |c: char| is_white(c);
    let a = lemma_taken_off_start(s, p);
    let m = strip_start(s, p);
    let b = lemma_taken_off_end(m, p);
    assert(s =~= a + trimmed(s) + b);
    if trimmed(s).len() > 0 {
        assert(m[0] == trimmed(s)[0]);
        assert(!p(m[0]));
        assert(!p(trimmed(s).last()));
    }
    assert forall|i: int| 0 <= i < a.len() implies is_white(#[trigger] a[i]) by {
        assert(p(a[i]));
    }
    assert forall|i: int| 0 <= i < b.len() implies is_white(#[trigger] b[i]) by {
        assert(p(b[i]));
    }
    (a, b)
}

/// White space around a text makes no difference to its trimmed form.
pub proof fn law_trimming_again(a: Seq<char>, s: Seq<char>, b: Seq<char>)
    requires
        forall|i: int| 0 <= i < a.len() ==> is_white(#[trigger] a[i]),
        forall|i: int| 0 <= i < b.len() ==> is_white(#[trigger] b[i]),
    ensures
        trimmed(a + s + b) == trimmed(s),
{
    let (c, d) = lemma_untrimmed(s);
    let t = trimmed(s);
    let ac = a + c;
    let db = d + b;
    assert(a + s + b =~= ac + t + db);
    assert forall|i: int| 0 <= i < ac.len() implies is_white(#[trigger] ac[i]) by {
        if i < a.len() {
            assert(ac[i] == a[i]);
        } else {
            assert(ac[i] == c[i - a.len()]);
        }
    }
    assert forall|i: int| 0 <= i < db.len() implies is_white(#[trigger] db[i]) by {
        if i < d.len() {
            assert(db[i] == d[i]);
        } else {
            assert(db[i] == b[i - d.len()]);
        }
    }
    law_trimming(ac, t, db);
}

/// What stands behind white space and does not end in white space is kept by
/// trimming, whatever follows it.
pub proof fn lemma_kept(indent: Seq<char>, core: Seq<char>, rest: Seq<char>) -> (r: (
    Seq<char>,
    Seq<char>,
))
    requires
        forall|i: int| 0 <= i < indent.len() ==> is_white(#[trigger] indent[i]),
        core.len() > 0,
        !is_white(core[0]),
        !is_white(core.last()),
    ensures
        trimmed(indent + core + rest) == core + r.0,
        rest == r.0 + r.1,
        forall|i: int| 0 <= i < r.1.len() ==> is_white(#[trigger] r.1[i]),
    decreases rest.len(),
{
    let none = Seq::<char>::empty();
    if rest.len() > 0 && is_white(rest.last()) {
        let f = rest.drop_last();
        let r = lemma_kept(indent, core, f);
        let w = seq![rest.last()];
        law_trimming_again(none, indent + core + f, w);
        assert(none + (indent + core + f) + w =~= indent + core + rest);
        let b = r.1 + w;
        assert(rest =~= f.push(rest.last()));
        assert((r.0 + r.1).push(rest.last()) =~= r.0 + b);
        (r.0, b)
    } else {
        law_trimming(indent, core + rest, none);
        assert(indent + (core + rest) + none =~= indent + core + rest);
        if rest.len() > 0 {
            assert((core + rest).last() == rest.last());
        } else {
            assert(core + rest =~= core);
        }
        assert(rest =~= rest + none);
        (rest, none)
    }
}

/// What begins a text is a part of it where it is a part of what the text begins
/// with.
pub proof fn lemma_part_of_beginning(s: Seq<char>, rest: Seq<char>, part: Seq<char>)
    requires
        has_part(s, part),
    ensures
        has_part(s + rest, part),
{
    let at = choose|at: int| stands_at(s, part, at);
    assert((s + rest).subrange(at, at + part.len()) =~= s.subrange(at, at + part.len()));
    assert(stands_at(s + rest, part, at));
}

/// A part of the trimmed form of a text is a part of the text.
pub proof fn lemma_part_of_trimmed(s: Seq<char>, part: Seq<char>)
    requires
        has_part(trimmed(s), part),
    ensures
        has_part(s, part),
{
    let (a, b) = lemma_untrimmed(s);
    let t = trimmed(s);
    let at = choose|at: int| stands_at(t, part, at);
    let p = a.len() + at;
    assert(s.subrange(p, p + part.len()) =~= t.subrange(at, at + part.len()));
    assert(stands_at(s, part, p));
}

} // verus!
