//! Text-level operations: conversion between `String` and character
//! vectors, substring search, and the preamble injector that declares the
//! aliases ahead of the search-index object literal.

use vstd::prelude::*;
use crate::token::push_all;

verus! {

/// Relies on `str::chars` and `Iterator::collect` for `Vec<char>`: yields
/// exactly the characters of the string, in order.
#[verifier::external_body]
pub(crate) fn str_to_chars(s: &str) -> (r: Vec<char>)
    ensures
        r@ == s@,
{
    s.chars().collect()
}

/// Relies on `Iterator::collect` for `String` over cloned `char`s: builds
/// the string holding exactly these characters, in order.
#[verifier::external_body]
pub(crate) fn chars_to_str(v: &Vec<char>) -> (r: String)
    ensures
        r@ == v@,
{
    v.iter().collect()
}

/// Converts text to the character-vector form the library works on.
pub fn text_to_chars(s: &str) -> (r: Vec<char>)
    ensures
        r@ == s@,
{
    str_to_chars(s)
}

/// Renders a character vector back to a `String`.
pub fn chars_to_text(v: &Vec<char>) -> (r: String)
    ensures
        r@ == v@,
{
    chars_to_str(v)
}

/// The error the pipeline surfaces.
#[derive(Clone, Copy, Debug, PartialEq, Eq, Structural)]
pub enum CompactError {
    /// The marker that anchors the preamble is absent, so the alias
    /// references would be left undeclared.
    MissingMarker,
}

/// The marker pattern the injector looks for: `var searchIndex={}`.
pub open spec fn marker_text() -> Seq<char> {
    "var searchIndex={}"@
}

/// What replaces the marker: the four alias declarations, then the marker's
/// own variable: `var N=null,E="",T="t",U="u",searchIndex={}`.
pub open spec fn preamble_text() -> Seq<char> {
    "var N=null,E=\"\",T=\"t\",U=\"u\",searchIndex={}"@
}

/// The needle `m` occurs in `s` at position `i`.
pub open spec fn occurs_at(s: Seq<char>, m: Seq<char>, i: int) -> bool {
    0 <= i && i + m.len() <= s.len() && s.subrange(i, i + m.len()) == m
}

/// The marker occurs somewhere in `s`.
pub open spec fn has_marker(s: Seq<char>) -> bool {
    exists|i: int| occurs_at(s, marker_text(), i)
}

/// The text with the substitution performed at position `i`.
pub open spec fn injected_at(s: Seq<char>, i: int) -> Seq<char> {
    s.take(i) + preamble_text() + s.skip(i + marker_text().len())
}

/// Finds the first occurrence of `m` in `s`.
pub fn find_sub(s: &Vec<char>, m: &Vec<char>) -> (r: Option<usize>)
    requires
        m@.len() >= 1,
    ensures
        match r {
            Some(i) => occurs_at(s@, m@, i as int) && (forall|j: int|
                0 <= j < i ==> !occurs_at(s@, m@, j)),
            None => forall|j: int| !occurs_at(s@, m@, j),
        },
{
    if s.len() < m.len() {
        return None;
    }
    let n: usize = s.len();
    let ml: usize = m.len();
    let mut i: usize = 0;
    while i <= n - ml
        invariant
            n == s@.len(),
            ml == m@.len(),
            s@.len() >= m@.len() >= 1,
            i <= s@.len() - m@.len() + 1,
            forall|j: int| 0 <= j < i ==> !occurs_at(s@, m@, j),
        decreases n - i,
    {
        let mut k: usize = 0;
        let mut matched = true;
        while k < ml && matched
            invariant
                n == s@.len(),
                ml == m@.len(),
                s@.len() >= m@.len() >= 1,
                i + m@.len() <= s@.len(),
                k <= m@.len(),
                matched ==> forall|q: int| 0 <= q < k ==> s@[i + q] == m@[q],
                !matched ==> exists|q: int| 0 <= q < m@.len() && s@[i + q] != m@[q],
            decreases ml - k + (if matched { 1int } else { 0int }),
        {
            if s[i + k] != m[k] {
                matched = false;
                proof {
                    assert(s@[i + k] != m@[k as int]);
                }
            } else {
                k += 1;
            }
        }
        if matched {
            proof {
                assert(s@.subrange(i as int, i + m@.len()) =~= m@);
            }
            return Some(i);
        }
        proof {
            let q = choose|q: int| 0 <= q < m@.len() && s@[i + q] != m@[q];
            assert(!occurs_at(s@, m@, i as int)) by {
                if occurs_at(s@, m@, i as int) {
                    assert(s@.subrange(i as int, i + m@.len())[q] == s@[i + q]);
                }
            }
        }
        i += 1;
    }
    proof {
        assert forall|j: int| !occurs_at(s@, m@, j) by {
            if occurs_at(s@, m@, j) {
                assert(0 <= j <= s@.len() - m@.len());
            }
        }
    }
    None
}

/// Preamble injector: substitutes the first occurrence of the marker
/// `var searchIndex={}` with the alias declarations followed by the marker's
/// variable; a text without the marker is a structural error, since the
/// alias references the rewriter produced would be left undeclared.
pub fn inject_preamble(s: &Vec<char>) -> (r: Result<Vec<char>, CompactError>)
    ensures
        r is Ok <==> has_marker(s@),
        match r {
            Ok(out) => exists|i: int|
                occurs_at(s@, marker_text(), i) && (forall|j: int|
                    0 <= j < i ==> !occurs_at(s@, marker_text(), j)) && out@ == injected_at(
                    s@,
                    i,
                ),
            Err(e) => e == CompactError::MissingMarker,
        },
{
    let marker = str_to_chars("var searchIndex={}");
    let preamble = str_to_chars("var N=null,E=\"\",T=\"t\",U=\"u\",searchIndex={}");
    proof {
        reveal_strlit("var searchIndex={}");
        assert(marker@.len() == 18);
    }
    match find_sub(s, &marker) {
        None => Err(CompactError::MissingMarker),
        Some(i) => {
            let n: usize = s.len();
            let mut out: Vec<char> = Vec::new();
            let mut p: usize = 0;
            while p < i
                invariant
                    n == s@.len(),
                    i + marker@.len() <= s@.len(),
                    p <= i,
                    out@ == s@.take(p as int),
                decreases i - p,
            {
                out.push(s[p]);
                proof {
                    assert(s@.take(p + 1) =~= s@.take(p as int).push(s@[p as int]));
                }
                p += 1;
            }
            push_all(&mut out, &preamble);
            proof {
                assert(i + marker@.len() <= n);
                let start = i + marker_text().len() as int;
                assert(s@.subrange(start, start) =~= Seq::<char>::empty());
                assert(out@ =~= s@.take(i as int) + preamble_text() + s@.subrange(start, start));
            }
            let mut q: usize = i + marker.len();
            while q < s.len()
                invariant
                    n == s@.len(),
                    i + marker@.len() <= q <= s@.len(),
                    marker@ == marker_text(),
                    preamble@ == preamble_text(),
                    out@ == s@.take(i as int) + preamble_text() + s@.subrange(
                        i + marker_text().len(),
                        q as int,
                    ),
                decreases s.len() - q,
            {
                let ghost pre = out@;
                out.push(s[q]);
                proof {
                    assert(s@.subrange(i + marker_text().len(), q + 1) =~= s@.subrange(
                        i + marker_text().len(),
                        q as int,
                    ).push(s@[q as int]));
                    assert(out@ =~= s@.take(i as int) + preamble_text() + s@.subrange(
                        i + marker_text().len(),
                        q + 1,
                    ));
                }
                q += 1;
            }
            proof {
                assert(s@.subrange(i + marker_text().len(), s@.len() as int) =~= s@.skip(
                    i + marker_text().len()));
                assert(out@ == injected_at(s@, i as int));
                assert(occurs_at(s@, marker_text(), i as int));
            }
            Ok(out)
        },
    }
}

} // verus!
