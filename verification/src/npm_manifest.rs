//! Dependencies in `package.json`.

use crate::manifest::add_name;
use crate::text::{chars_of, is_word, text_of, texts};
use vstd::prelude::*;
use vstd::slice::slice_subrange;
use vstd::utf8::encode_utf8;

verus! {

/// A piece of JSON: a string, as it stands between its quotes, or a mark. What
/// else there is in JSON plays no part here.
#[derive(Debug)]
pub enum Token {
    Text(String),
    Mark(char),
}

/// The contents of a token.
pub enum TokenView {
    Text(Seq<char>),
    Mark(char),
}

impl View for Token {
    type V = TokenView;

    open spec fn view(&self) -> TokenView {
        match self {
            Token::Text(s) => TokenView::Text(s@),
            Token::Mark(c) => TokenView::Mark(*c),
        }
    }
}

/// The contents of each token of `v`.
pub open spec fn token_views(v: Seq<Token>) -> Seq<TokenView> {
    v.map_values(|t: Token| t@)
}

/// The number of characters of `s` before the quote that ends a string. A
/// backslash takes the character behind it along. Where no quote ends it, the
/// string goes on to the end.
pub open spec fn string_length(s: Seq<char>) -> nat
    decreases s.len(),
{
    if s.len() == 0 || s[0] == '"' {
        0
    } else if s[0] == '\\' && s.len() > 1 {
        2 + string_length(s.skip(2))
    } else {
        1 + string_length(s.skip(1))
    }
}

/// Whether `c` opens, closes or parts something in JSON.
pub open spec fn is_mark(c: char) -> bool {
    c == '{' || c == '}' || c == '[' || c == ']' || c == ':' || c == ','
}

/// The tokens of `s`. Nothing follows a string that does not end.
pub open spec fn tokens(s: Seq<char>) -> Seq<TokenView>
    decreases s.len(),
{
    if s.len() == 0 {
        Seq::empty()
    } else if s[0] == '"' {
        let n = string_length(s.skip(1)) as int;
        if n + 1 >= s.len() {
            Seq::empty()
        } else {
            seq![TokenView::Text(s.subrange(1, n + 1))] + tokens(s.skip(n + 2))
        }
    } else if is_mark(s[0]) {
        seq![TokenView::Mark(s[0])] + tokens(s.skip(1))
    } else {
        tokens(s.skip(1))
    }
}

/// How many objects and lists are open before token `k`.
pub open spec fn depth(ts: Seq<TokenView>, k: int) -> int
    decreases k,
{
    if k <= 0 {
        0
    } else {
        depth(ts, k - 1) + match ts[k - 1] {
            TokenView::Mark(c) => if c == '{' || c == '[' {
                1int
            } else if c == '}' || c == ']' {
                -1int
            } else {
                0int
            },
            TokenView::Text(_) => 0int,
        }
    }
}

/// The key that token `k` is, if it is one: a string with a colon behind it.
pub open spec fn key_at(ts: Seq<TokenView>, k: int) -> Option<Seq<char>> {
    match ts[k] {
        TokenView::Text(s) => if k + 1 < ts.len() && ts[k + 1] == TokenView::Mark(':') {
            Some(s)
        } else {
            None
        },
        TokenView::Mark(_) => None,
    }
}

/// The last key of the outermost object before token `k`; nothing where there is
/// none.
pub open spec fn group_of(ts: Seq<TokenView>, k: int) -> Seq<char>
    decreases k,
{
    if k <= 0 {
        Seq::empty()
    } else if depth(ts, k - 1) == 1 && key_at(ts, k - 1) is Some {
        key_at(ts, k - 1)->0
    } else {
        group_of(ts, k - 1)
    }
}

/// Whether the object under a key lists dependencies.
pub open spec fn is_npm_group(key: Seq<char>) -> bool {
    ||| key == "dependencies"@
    ||| key == "devDependencies"@
    ||| key == "peerDependencies"@
    ||| key == "optionalDependencies"@
}

/// The dependency that token `k` of `package.json` names: a key, longer than a
/// byte, of an object of dependencies.
pub open spec fn npm_dependency(ts: Seq<TokenView>, k: int) -> Option<Seq<char>> {
    if depth(ts, k) == 2 && is_npm_group(group_of(ts, k)) && key_at(ts, k) is Some && encode_utf8(
        key_at(ts, k)->0,
    ).len() > 1 {
        key_at(ts, k)
    } else {
        None
    }
}

/// Whether some token of the `package.json` that reads `text` names `name`.
pub open spec fn npm_names(text: Seq<char>, name: Seq<char>) -> bool {
    exists|k: int|
        0 <= k < tokens(text).len() && #[trigger] npm_dependency(tokens(text), k) == Some(name)
}

/// The number of characters of `s` from `from` on before the quote that ends a
/// string.
fn measure_string(s: &[char], from: usize) -> (r: usize)
    requires
        from <= s@.len(),
    ensures
        r == string_length(s@.skip(from as int)),
        from + r <= s@.len(),
{
    let mut i: usize = from;
    while i < s.len() && s[i] != '"'
        invariant
            from <= i <= s@.len(),
            string_length(s@.skip(from as int)) == i - from + string_length(s@.skip(i as int)),
        decreases s@.len() - i,
    {
        proof {
            assert(s@.skip(i as int).skip(1) =~= s@.skip(i + 1));
            assert(s@.skip(i as int)[0] == s@[i as int]);
            if i + 2 <= s@.len() {
                assert(s@.skip(i as int).skip(2) =~= s@.skip(i + 2));
            }
        }
        if s[i] == '\\' && s.len() - i > 1 {
            i += 2;
        } else {
            i += 1;
        }
    }
    i - from
}

/// The tokens of `s`.
fn tokens_of(s: &[char]) -> (r: Vec<Token>)
    ensures
        token_views(r@) == tokens(s@),
{
    let mut r: Vec<Token> = Vec::new();
    let mut i: usize = 0;
    assert(s@.skip(0) =~= s@);
    assert(token_views(r@) + tokens(s@) =~= tokens(s@));
    while i < s.len()
        invariant
            i <= s@.len(),
            tokens(s@) == token_views(r@) + tokens(s@.skip(i as int)),
        decreases s@.len() - i,
    {
        let ghost rest = s@.skip(i as int);
        let ghost before = token_views(r@);
        assert(rest[0] == s@[i as int]);
        assert(rest.skip(1) =~= s@.skip(i + 1));
        if s[i] == '"' {
            let n: usize = measure_string(s, i + 1);
            if n + 1 >= s.len() - i {
                assert(before + tokens(rest) =~= before);
                return r;
            }
            let text: String = text_of(slice_subrange(s, i + 1, i + 1 + n));
            proof {
                assert(text@ =~= rest.subrange(1, n + 1));
                assert(rest.skip(n + 2) =~= s@.skip(i + n + 2));
            }
            r.push(Token::Text(text));
            assert(token_views(r@) =~= before.push(TokenView::Text(text@)));
            i += n + 2;
        } else {
            let c: char = s[i];
            if c == '{' || c == '}' || c == '[' || c == ']' || c == ':' || c == ',' {
                r.push(Token::Mark(c));
                assert(token_views(r@) =~= before.push(TokenView::Mark(c)));
            }
            i += 1;
        }
        assert(tokens(s@) =~= token_views(r@) + tokens(s@.skip(i as int)));
    }
    assert(token_views(r@) + tokens(s@.skip(i as int)) =~= token_views(r@));
    r
}

/// Whether the object under a key lists dependencies.
fn npm_group(key: &str) -> (r: bool)
    ensures
        r == is_npm_group(key@),
{
    let chars: Vec<char> = chars_of(key);
    let key: &[char] = chars.as_slice();
    is_word(key, "dependencies") || is_word(key, "devDependencies") || is_word(
        key,
        "peerDependencies",
    ) || is_word(key, "optionalDependencies")
}

/// Whether token `k` is a colon.
fn is_colon(ts: &[Token], k: usize) -> (r: bool)
    ensures
        r == (k < ts@.len() && ts@[k as int]@ == TokenView::Mark(':')),
{
    if k < ts.len() {
        match &ts[k] {
            Token::Mark(c) => *c == ':',
            Token::Text(_) => false,
        }
    } else {
        false
    }
}

/// Adds the dependencies that the `package.json` that reads `text` names to
/// `found`.
pub fn read_npm(text: &str, found: &mut Vec<String>)
    ensures
        forall|name: Seq<char>|
            #![trigger texts(final(found)@).contains(name)]
            texts(final(found)@).contains(name) <==> texts(old(found)@).contains(name)
                || npm_names(text@, name),
{
    let chars: Vec<char> = chars_of(text);
    let all: Vec<Token> = tokens_of(chars.as_slice());
    let ghost ts = tokens(text@);
    let ghost start = texts(found@);
    let mut open: i128 = 0;
    let mut inside: bool = false;
    proof {
        reveal_strlit("dependencies");
        reveal_strlit("devDependencies");
        reveal_strlit("peerDependencies");
        reveal_strlit("optionalDependencies");
        let none = group_of(ts, 0);
        assert(none.len() == 0 && "dependencies"@.len() > 0 && "devDependencies"@.len() > 0);
        assert("peerDependencies"@.len() > 0 && "optionalDependencies"@.len() > 0);
        assert(!is_npm_group(none));
    }
    let mut k: usize = 0;
    while k < all.len()
        invariant
            k <= all@.len(),
            ts == tokens(text@),
            ts == token_views(all@),
            open == depth(ts, k as int),
            -k <= open <= k,
            inside == is_npm_group(group_of(ts, k as int)),
            forall|name: Seq<char>|
                #![trigger texts(found@).contains(name)]
                texts(found@).contains(name) <==> start.contains(name) || exists|m: int|
                    0 <= m < k && #[trigger] npm_dependency(ts, m) == Some(name),
        decreases all@.len() - k,
    {
        assert(ts[k as int] == all@[k as int]@);
        let ghost named = npm_dependency(ts, k as int);
        match &all[k] {
            Token::Text(s) => {
                let colon: bool = k + 1 < all.len() && is_colon(all.as_slice(), k + 1);
                assert(colon <==> key_at(ts, k as int) == Some(s@));
                if colon && open == 2 && inside && s.as_str().as_bytes().len() > 1 {
                    assert(named == Some(s@));
                    add_name(found, s.clone());
                } else {
                    assert(named is None);
                }
                if colon && open == 1 {
                    inside = npm_group(s.as_str());
                }
            },
            Token::Mark(c) => {
                assert(named is None);
                if *c == '{' || *c == '[' {
                    open += 1;
                } else if *c == '}' || *c == ']' {
                    open -= 1;
                }
            },
        }
        k += 1;
    }
}

} // verus!
