//! The token filter and the token rewriter, with their laws: both are
//! idempotent, filtering keeps every line-break token, and rewriting never
//! changes what a token denotes once the alias preamble is in scope.

use vstd::prelude::*;
use crate::token::{Keyword, Token, TokenV, unquoted, wf_token, wf_tokens};

verus! {

/// A token the generic minifier would classify as safely droppable: a
/// line-structure character carrying no meaning of its own. Plain spaces
/// are not in this class: the ones still present after generic
/// minification separate words and must stay.
pub open spec fn droppable(t: TokenV) -> bool {
    match t {
        TokenV::Char(c) => c == '\t' || c == '\r' || c == '\n',
        _ => false,
    }
}

/// The line-break token, which the search-index pipeline must retain.
pub open spec fn is_backline(t: TokenV) -> bool {
    t == TokenV::Char('\n')
}

/// The pipeline's filter predicate: drop what is droppable, except line
/// breaks, which separate the synthesized variable declarations downstream.
pub open spec fn keep_token(t: TokenV) -> bool {
    !droppable(t) || is_backline(t)
}

/// The filtered sequence: exactly the kept tokens, in their original order.
pub open spec fn filtered(s: Seq<TokenV>) -> Seq<TokenV> {
    s.filter(|t: TokenV| keep_token(t))
}

/// Copies one character vector.
pub fn clone_chars(s: &Vec<char>) -> (r: Vec<char>)
    ensures
        r@ == s@,
{
    let mut out: Vec<char> = Vec::new();
    let mut i: usize = 0;
    while i < s.len()
        invariant
            i <= s.len(),
            out@ == s@.take(i as int),
        decreases s.len() - i,
    {
        out.push(s[i]);
        proof {
            assert(s@.take(i + 1) =~= s@.take(i as int).push(s@[i as int]));
        }
        i += 1;
    }
    proof {
        assert(s@.take(s@.len() as int) =~= s@);
    }
    out
}

/// Copies one token.
pub fn clone_token(t: &Token) -> (r: Token)
    ensures
        r@ == t@,
{
    match t {
        Token::Keyword(k) => Token::Keyword(*k),
        Token::Str(s) => Token::Str(clone_chars(s)),
        Token::Char(c) => Token::Char(*c),
        Token::Other(s) => Token::Other(clone_chars(s)),
    }
}

/// Decides the filter predicate for one token.
pub fn keep_token_exec(t: &Token) -> (r: bool)
    ensures
        r == keep_token(t@),
{
    match t {
        Token::Char(c) => *c == '\n' || !(*c == '\t' || *c == '\r'),
        _ => true,
    }
}

/// Token filter: keeps exactly the tokens the pipeline predicate accepts,
/// preserving their relative order; no token is changed.
pub fn filter_tokens(ts: &Vec<Token>) -> (r: Vec<Token>)
    ensures
        r.deep_view() == filtered(ts.deep_view()),
{
    let mut out: Vec<Token> = Vec::new();
    let mut i: usize = 0;
    while i < ts.len()
        invariant
            i <= ts.len(),
            out.deep_view() == filtered(ts.deep_view().take(i as int)),
        decreases ts.len() - i,
    {
        let ghost pre = out.deep_view();
        let ghost dv = ts.deep_view();
        proof {
            reveal(Seq::filter);
            assert(dv.take(i + 1).drop_last() =~= dv.take(i as int));
            assert(dv.take(i + 1).last() == dv[i as int]);
        }
        if keep_token_exec(&ts[i]) {
            out.push(clone_token(&ts[i]));
            proof {
                assert(out.deep_view() =~= pre.push(dv[i as int]));
            }
        }
        proof {
            reveal(Seq::filter);
            assert(out.deep_view() =~= filtered(dv.take(i + 1)));
        }
        i += 1;
    }
    proof {
        assert(ts.deep_view().take(ts.deep_view().len() as int) =~= ts.deep_view());
    }
    out
}

proof fn lemma_filter_all_true<A>(s: Seq<A>, p: spec_fn(A) -> bool)
    requires
        forall|i: int| 0 <= i < s.len() ==> p(#[trigger] s[i]),
    ensures
        s.filter(p) == s,
    decreases s.len(),
{
    reveal(Seq::filter);
    if s.len() == 0 {
        assert(s.filter(p) =~= s);
    } else {
        lemma_filter_all_true(s.drop_last(), p);
        assert(s.filter(p) =~= s);
    }
}

/// Law: filtering is idempotent.
pub proof fn lemma_filter_idempotent(s: Seq<TokenV>)
    ensures
        filtered(filtered(s)) == filtered(s),
{
    let p = |t: TokenV| keep_token(t);
    assert forall|i: int| 0 <= i < filtered(s).len() implies p(#[trigger] filtered(s)[i]) by {
        s.lemma_filter_pred(p, i);
    }
    lemma_filter_all_true(filtered(s), p);
}

/// Law: filtering keeps every line-break token of the input, in order.
pub proof fn lemma_filter_preserves_backlines(s: Seq<TokenV>)
    ensures
        filtered(s).filter(|t: TokenV| is_backline(t)) == s.filter(|t: TokenV| is_backline(t)),
    decreases s.len(),
{
    reveal(Seq::filter);
    let keep = |t: TokenV| keep_token(t);
    let bl = |t: TokenV| is_backline(t);
    if s.len() == 0 {
        assert(filtered(s) =~= s);
    } else {
        let s0 = s.drop_last();
        let t = s.last();
        lemma_filter_preserves_backlines(s0);
        if keep(t) {
            assert(filtered(s) == filtered(s0).push(t));
            assert(filtered(s0).push(t).drop_last() =~= filtered(s0));
            assert(filtered(s0).push(t).last() == t);
            assert(filtered(s).filter(bl) == if bl(t) {
                filtered(s0).filter(bl).push(t)
            } else {
                filtered(s0).filter(bl)
            });
        } else {
            assert(!bl(t));
            assert(filtered(s) == filtered(s0));
        }
        assert(s.filter(bl) == if bl(t) {
            s0.filter(bl).push(t)
        } else {
            s0.filter(bl)
        });
    }
}

/// Filtering keeps tokens well formed: it only removes tokens.
pub proof fn lemma_filter_wf(s: Seq<TokenV>)
    requires
        wf_tokens(s),
    ensures
        wf_tokens(filtered(s)),
    decreases s.len(),
{
    reveal(Seq::filter);
    if s.len() == 0 {
    } else {
        assert(wf_tokens(s.drop_last())) by {
            assert(forall|i: int| 0 <= i < s.drop_last().len() ==> s.drop_last()[i]
                == #[trigger] s[i]);
        }
        lemma_filter_wf(s.drop_last());
        assert(wf_token(s.last())) by {
            assert(s.last() == s[s.len() - 1]);
        }
        let sub = filtered(s.drop_last());
        if keep_token(s.last()) {
            assert(filtered(s) == sub.push(s.last()));
            assert(forall|i: int| 0 <= i < sub.len() ==> #[trigger] sub.push(s.last())[i]
                == sub[i]);
            assert(sub.push(s.last())[sub.len() as int] == s.last());
        } else {
            assert(filtered(s) == sub);
        }
    }
}

/// The rewrite rule for one token: the `null` keyword and the string
/// literals with contents empty, `t` and `u` become references to the
/// aliases `N`, `E`, `T` and `U`; every other token is unchanged.
pub open spec fn rewrite_tok(t: TokenV) -> TokenV {
    match t {
        TokenV::Keyword(Keyword::Null) => TokenV::Other(seq!['N']),
        TokenV::Str(s) => {
            if unquoted(s) == Seq::<char>::empty() {
                TokenV::Other(seq!['E'])
            } else if unquoted(s) == seq!['t'] {
                TokenV::Other(seq!['T'])
            } else if unquoted(s) == seq!['u'] {
                TokenV::Other(seq!['U'])
            } else {
                t
            }
        },
        _ => t,
    }
}

/// The rewritten sequence: the rule applied to each token in place, never
/// deleting or duplicating.
pub open spec fn rewritten(s: Seq<TokenV>) -> Seq<TokenV> {
    s.map_values(|t: TokenV| rewrite_tok(t))
}

/// A one-character token text, for the alias references.
pub fn char_vec(c: char) -> (r: Vec<char>)
    ensures
        r@ == seq![c],
{
    let mut v: Vec<char> = Vec::new();
    v.push(c);
    proof {
        assert(v@ =~= seq![c]);
    }
    v
}

/// Applies the rewrite rule to one token.
pub fn rewrite_token(t: &Token) -> (r: Token)
    requires
        wf_token(t@),
    ensures
        r@ == rewrite_tok(t@),
{
    match t {
        Token::Keyword(k) => {
            match k {
                Keyword::Null => Token::Other(char_vec('N')),
            }
        },
        Token::Str(s) => {
            proof {
                assert(unquoted(s@).len() == s@.len() - 2);
            }
            if s.len() == 2 {
                proof {
                    assert(unquoted(s@) =~= Seq::<char>::empty());
                }
                Token::Other(char_vec('E'))
            } else if s.len() == 3 && s[1] == 't' {
                proof {
                    assert(unquoted(s@) =~= seq!['t']);
                }
                Token::Other(char_vec('T'))
            } else if s.len() == 3 && s[1] == 'u' {
                proof {
                    assert(unquoted(s@) =~= seq!['u']);
                }
                Token::Other(char_vec('U'))
            } else {
                proof {
                    assert(unquoted(s@)[0] == s@[1]);
                    assert(unquoted(s@) != Seq::<char>::empty());
                    assert(unquoted(s@) != seq!['t']);
                    assert(unquoted(s@) != seq!['u']);
                }
                Token::Str(clone_chars(s))
            }
        },
        Token::Char(c) => Token::Char(*c),
        Token::Other(s) => Token::Other(clone_chars(s)),
    }
}

/// Token rewriter: one forward pass, order-preserving and one-to-one.
pub fn rewrite_tokens(ts: &Vec<Token>) -> (r: Vec<Token>)
    requires
        wf_tokens(ts.deep_view()),
    ensures
        r.deep_view() == rewritten(ts.deep_view()),
{
    let mut out: Vec<Token> = Vec::new();
    let mut i: usize = 0;
    while i < ts.len()
        invariant
            i <= ts.len(),
            wf_tokens(ts.deep_view()),
            out.deep_view() == rewritten(ts.deep_view().take(i as int)),
        decreases ts.len() - i,
    {
        let ghost pre = out.deep_view();
        let ghost dv = ts.deep_view();
        assert(wf_token(dv[i as int]));
        let t = rewrite_token(&ts[i]);
        out.push(t);
        proof {
            assert(out.deep_view() =~= pre.push(rewrite_tok(dv[i as int])));
            assert(out.deep_view() =~= rewritten(dv.take(i + 1)));
        }
        i += 1;
    }
    proof {
        assert(ts.deep_view().take(ts.deep_view().len() as int) =~= ts.deep_view());
    }
    out
}

/// Law: the rewrite rule is idempotent on one token: an alias, once
/// substituted, is an `Other` token that no rule triggers on.
pub proof fn lemma_rewrite_tok_idempotent(t: TokenV)
    ensures
        rewrite_tok(rewrite_tok(t)) == rewrite_tok(t),
{
}

/// Law: the rewriter is idempotent on sequences.
pub proof fn lemma_rewrite_idempotent(s: Seq<TokenV>)
    ensures
        rewritten(rewritten(s)) == rewritten(s),
{
    assert forall|i: int| 0 <= i < s.len() implies #[trigger] rewritten(rewritten(s))[i]
        == rewritten(s)[i] by {
        lemma_rewrite_tok_idempotent(s[i]);
    }
    assert(rewritten(rewritten(s)) =~= rewritten(s));
}

/// Rewriting keeps tokens well formed: strings are either kept verbatim or
/// replaced by single-character alias references.
pub proof fn lemma_rewrite_wf(s: Seq<TokenV>)
    requires
        wf_tokens(s),
    ensures
        wf_tokens(rewritten(s)),
{
    assert forall|i: int| 0 <= i < rewritten(s).len() implies wf_token(
        #[trigger] rewritten(s)[i]) by {
        assert(wf_token(s[i]));
    }
}

/// The value a literal-like token stands for once the alias preamble
/// `N=null,E="",T="t",U="u"` is in scope.
pub enum Denotation {
    NullVal,
    StrVal(Seq<char>),
    Opaque(Seq<char>),
}

/// What one token denotes under the alias preamble.
pub open spec fn denotes(t: TokenV) -> Denotation {
    match t {
        TokenV::Keyword(Keyword::Null) => Denotation::NullVal,
        TokenV::Str(s) => Denotation::StrVal(unquoted(s)),
        TokenV::Other(s) => {
            if s == seq!['N'] {
                Denotation::NullVal
            } else if s == seq!['E'] {
                Denotation::StrVal(Seq::empty())
            } else if s == seq!['T'] {
                Denotation::StrVal(seq!['t'])
            } else if s == seq!['U'] {
                Denotation::StrVal(seq!['u'])
            } else {
                Denotation::Opaque(s)
            }
        },
        TokenV::Char(c) => Denotation::Opaque(seq![c]),
    }
}

/// Law (the token-level piece of the round trip): rewriting a whole
/// sequence changes no position's denotation under the alias preamble.
pub proof fn lemma_rewrite_preserves_denotations(s: Seq<TokenV>)
    ensures
        rewritten(s).len() == s.len(),
        forall|i: int| 0 <= i < s.len() ==> denotes(#[trigger] rewritten(s)[i]) == denotes(s[i]),
{
    assert forall|i: int| 0 <= i < s.len() implies denotes(#[trigger] rewritten(s)[i]) == denotes(
        s[i]) by {
        lemma_rewrite_preserves_denotation(s[i]);
    }
}

/// Law (the token-level piece of the round trip): rewriting never changes
/// what a token denotes under the alias preamble.
pub proof fn lemma_rewrite_preserves_denotation(t: TokenV)
    ensures
        denotes(rewrite_tok(t)) == denotes(t),
{
    assert(seq!['N'][0] == 'N' && seq!['E'][0] == 'E' && seq!['T'][0] == 'T'
        && seq!['U'][0] == 'U');
    assert(seq!['E'] != seq!['N']);
    assert(seq!['T'] != seq!['N'] && seq!['T'] != seq!['E']);
    assert(seq!['U'] != seq!['N'] && seq!['U'] != seq!['E'] && seq!['U'] != seq!['T']);
    match t {
        TokenV::Str(s) => {
            if unquoted(s) == Seq::<char>::empty() {
                assert(denotes(rewrite_tok(t)) == Denotation::StrVal(Seq::<char>::empty()));
            }
        },
        _ => {},
    }
}

} // verus!
