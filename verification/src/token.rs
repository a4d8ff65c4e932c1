//! The token model: one lexical unit of the generated JavaScript source,
//! its mathematical view, and serialization back to text.

use vstd::prelude::*;

verus! {

/// Reserved words that the rewriting rules distinguish.
#[derive(Clone, Copy, Debug, PartialEq, Eq, Structural)]
pub enum Keyword {
    Null,
}

/// One lexical unit of the source text.
///
/// A `Str` token stores its text with the surrounding quote characters
/// included, so its text always has length at least two.
#[derive(Debug, PartialEq, Eq)]
pub enum Token {
    Keyword(Keyword),
    Str(Vec<char>),
    Char(char),
    Other(Vec<char>),
}

/// The mathematical view of a token: the same shape over `Seq<char>`.
pub enum TokenV {
    Keyword(Keyword),
    Str(Seq<char>),
    Char(char),
    Other(Seq<char>),
}

impl View for Token {
    type V = TokenV;

    open spec fn view(&self) -> TokenV {
        match self {
            Token::Keyword(k) => TokenV::Keyword(*k),
            Token::Str(s) => TokenV::Str(s@),
            Token::Char(c) => TokenV::Char(*c),
            Token::Other(s) => TokenV::Other(s@),
        }
    }
}

impl DeepView for Token {
    type V = TokenV;

    open spec fn deep_view(&self) -> TokenV {
        self.view()
    }
}

/// A well-formed `Str` token holds at least its two quote characters.
pub open spec fn wf_token(t: TokenV) -> bool {
    match t {
        TokenV::Str(s) => s.len() >= 2,
        _ => true,
    }
}

pub open spec fn wf_tokens(s: Seq<TokenV>) -> bool {
    forall|i: int| 0 <= i < s.len() ==> wf_token(#[trigger] s[i])
}

/// The text of a string literal without its two quote characters.
pub open spec fn unquoted(s: Seq<char>) -> Seq<char> {
    s.subrange(1, s.len() as int - 1)
}

pub open spec fn null_text() -> Seq<char> {
    seq!['n', 'u', 'l', 'l']
}

/// The literal text a single token serializes to.
pub open spec fn tok_text(t: TokenV) -> Seq<char> {
    match t {
        TokenV::Keyword(Keyword::Null) => null_text(),
        TokenV::Str(s) => s,
        TokenV::Char(c) => seq![c],
        TokenV::Other(s) => s,
    }
}

/// The serialization of a token sequence: each token's text, concatenated
/// in order, with nothing added between tokens.
pub open spec fn serialized(s: Seq<TokenV>) -> Seq<char>
    decreases s.len(),
{
    if s.len() == 0 {
        Seq::empty()
    } else {
        serialized(s.drop_last()) + tok_text(s.last())
    }
}

pub proof fn lemma_serialized_push(s: Seq<TokenV>, t: TokenV)
    ensures
        serialized(s.push(t)) == serialized(s) + tok_text(t),
{
    assert(s.push(t).drop_last() =~= s);
    assert(s.push(t).last() == t);
}

pub proof fn lemma_serialized_add(a: Seq<TokenV>, b: Seq<TokenV>)
    ensures
        serialized(a + b) == serialized(a) + serialized(b),
    decreases b.len(),
{
    if b.len() == 0 {
        assert(a + b =~= a);
        assert(serialized(b) =~= Seq::<char>::empty());
        assert(serialized(a) + serialized(b) =~= serialized(a));
    } else {
        lemma_serialized_add(a, b.drop_last());
        assert((a + b).drop_last() =~= a + b.drop_last());
        assert((a + b).last() == b.last());
        assert(serialized(a + b) == serialized(a) + serialized(b.drop_last()) + tok_text(b.last()));
        assert(serialized(a) + serialized(b.drop_last()) + tok_text(b.last())
            =~= serialized(a) + (serialized(b.drop_last()) + tok_text(b.last())));
    }
}

/// Appends the contents of `s` to `out`.
pub fn push_all(out: &mut Vec<char>, s: &Vec<char>)
    ensures
        final(out)@ == old(out)@ + s@,
{
    let mut i: usize = 0;
    while i < s.len()
        invariant
            i <= s.len(),
            out@ == old(out)@ + s@.take(i as int),
        decreases s.len() - i,
    {
        out.push(s[i]);
        proof {
            assert(s@.take(i + 1) =~= s@.take(i as int).push(s@[i as int]));
            assert(old(out)@ + s@.take(i + 1) =~= (old(out)@ + s@.take(i as int)).push(s@[i as int]));
        }
        i += 1;
    }
    proof {
        assert(s@.take(s@.len() as int) =~= s@);
    }
}

/// Renders a token sequence to text, per `serialized`.
pub fn serialize(ts: &Vec<Token>) -> (r: Vec<char>)
    ensures
        r@ == serialized(ts.deep_view()),
{
    let mut out: Vec<char> = Vec::new();
    let mut i: usize = 0;
    while i < ts.len()
        invariant
            i <= ts.len(),
            out@ == serialized(ts.deep_view().take(i as int)),
        decreases ts.len() - i,
    {
        proof {
            assert(ts.deep_view().take(i + 1) =~= ts.deep_view().take(i as int).push(
                ts.deep_view()[i as int]));
            lemma_serialized_push(ts.deep_view().take(i as int), ts.deep_view()[i as int]);
        }
        match &ts[i] {
            Token::Keyword(k) => {
                match k {
                    Keyword::Null => {
                        out.push('n');
                        out.push('u');
                        out.push('l');
                        out.push('l');
                        proof {
                            assert(out@ =~= serialized(ts.deep_view().take(i as int))
                                + null_text());
                        }
                    },
                }
            },
            Token::Str(s) => {
                push_all(&mut out, s);
            },
            Token::Char(c) => {
                out.push(*c);
                proof {
                    assert(out@ =~= serialized(ts.deep_view().take(i as int))
                        + tok_text(ts.deep_view()[i as int]));
                }
            },
            Token::Other(s) => {
                push_all(&mut out, s);
            },
        }
        i += 1;
    }
    proof {
        assert(ts.deep_view().take(ts.deep_view().len() as int) =~= ts.deep_view());
    }
    out
}

} // verus!
