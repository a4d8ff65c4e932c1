//! The search-index compaction pipeline: filter, rewrite, aggregate,
//! serialize, then inject the alias preamble ahead of the object literal.

use vstd::prelude::*;
use crate::token::{Token, TokenV, serialized, serialize, tok_text, wf_token, wf_tokens};
use crate::stages::{filtered, filter_tokens, lemma_filter_wf, rewrite_tok, rewritten,
    rewrite_tokens, char_vec};
use crate::aggregate::aggregated;
use crate::aggregate::aggregate_tokens;
use crate::text::{CompactError, chars_to_text, has_marker, inject_preamble, injected_at,
    marker_text, occurs_at};

verus! {

/// The base name of the synthesized aggregation variables.
pub open spec fn pack_base() -> Seq<char> {
    seq!['R']
}

/// The separator the aggregator joins and splits on.
pub open spec fn pack_sep() -> char {
    '\u{1}'
}

/// The token-level pipeline: filter, rewrite, then aggregate.
pub open spec fn pipeline_tokens(s: Seq<TokenV>) -> Seq<TokenV> {
    aggregated(rewritten(filtered(s)), pack_base(), pack_sep())
}

/// Runs the token-level pipeline.
pub fn compact_tokens(ts: &Vec<Token>) -> (r: Vec<Token>)
    requires
        wf_tokens(ts.deep_view()),
    ensures
        r.deep_view() == pipeline_tokens(ts.deep_view()),
{
    let f = filter_tokens(ts);
    proof {
        lemma_filter_wf(ts.deep_view());
    }
    let rw = rewrite_tokens(&f);
    let base = char_vec('R');
    aggregate_tokens(&rw, &base, '\u{1}')
}

/// The whole search-index pass over an already-tokenized text: the
/// token-level pipeline, serialization, then the preamble injection; a
/// serialized text without the marker is a structural error.
pub fn compact_search_index(ts: &Vec<Token>) -> (r: Result<String, CompactError>)
    requires
        wf_tokens(ts.deep_view()),
    ensures
        r is Ok <==> has_marker(serialized(pipeline_tokens(ts.deep_view()))),
        match r {
            Ok(out) => exists|i: int|
                occurs_at(serialized(pipeline_tokens(ts.deep_view())), marker_text(), i) && (
                forall|j: int|
                    0 <= j < i ==> !occurs_at(
                        serialized(pipeline_tokens(ts.deep_view())),
                        marker_text(),
                        j,
                    )) && out@ == injected_at(serialized(pipeline_tokens(ts.deep_view())), i),
            Err(e) => e == CompactError::MissingMarker,
        },
{
    let packed = compact_tokens(ts);
    let txt = serialize(&packed);
    match inject_preamble(&txt) {
        Ok(v) => Ok(chars_to_text(&v)),
        Err(e) => Err(e),
    }
}

/// Filtering never lengthens the serialized text.
pub proof fn lemma_filter_no_growth(s: Seq<TokenV>)
    ensures
        serialized(filtered(s)).len() <= serialized(s).len(),
    decreases s.len(),
{
    reveal(Seq::filter);
    if s.len() == 0 {
    } else {
        let s0 = s.drop_last();
        let t = s.last();
        lemma_filter_no_growth(s0);
        if crate::stages::keep_token(t) {
            assert(filtered(s) == filtered(s0).push(t));
            crate::token::lemma_serialized_push(filtered(s0), t);
        } else {
            assert(filtered(s) == filtered(s0));
        }
    }
}

/// The rewrite rule never lengthens one token's text.
pub proof fn lemma_rewrite_tok_no_growth(t: TokenV)
    requires
        wf_token(t),
    ensures
        tok_text(rewrite_tok(t)).len() <= tok_text(t).len(),
{
}

/// Rewriting never lengthens the serialized text.
pub proof fn lemma_rewrite_no_growth(s: Seq<TokenV>)
    requires
        wf_tokens(s),
    ensures
        serialized(rewritten(s)).len() <= serialized(s).len(),
    decreases s.len(),
{
    if s.len() == 0 {
        assert(rewritten(s) =~= Seq::<TokenV>::empty());
    } else {
        let s0 = s.drop_last();
        let t = s.last();
        assert(wf_tokens(s0)) by {
            assert(forall|i: int| 0 <= i < s0.len() ==> s0[i] == #[trigger] s[i]);
        }
        lemma_rewrite_no_growth(s0);
        assert(wf_token(t)) by {
            assert(t == s[s.len() - 1]);
        }
        lemma_rewrite_tok_no_growth(t);
        assert(rewritten(s).drop_last() =~= rewritten(s0));
        assert(rewritten(s).last() == rewrite_tok(t));
        assert(serialized(rewritten(s)) == serialized(rewritten(s0)) + tok_text(rewrite_tok(t)));
    }
}

/// Law (byte-size): the whole token-level pipeline never lengthens the
/// serialized text of a well-formed token sequence: filtering only
/// removes, every alias is shorter than the literal it replaces, and a run
/// is packed only where packing is a net win.
pub proof fn lemma_pipeline_no_growth(s: Seq<TokenV>)
    requires
        wf_tokens(s),
    ensures
        serialized(pipeline_tokens(s)).len() <= serialized(s).len(),
{
    lemma_filter_no_growth(s);
    lemma_filter_wf(s);
    lemma_rewrite_no_growth(filtered(s));
    crate::stages::lemma_rewrite_wf(filtered(s));
    crate::aggregate::lemma_aggregate_no_growth(rewritten(filtered(s)), pack_base(), pack_sep());
}

} // verus!
