//! The file dispatcher's routing rule: which pass a file gets, by name.

use vstd::prelude::*;
use crate::text::str_to_chars;

verus! {

/// Where a directory entry is routed.
#[derive(Clone, Copy, Debug, PartialEq, Eq, Structural)]
pub enum Route {
    /// The search-index compaction pipeline.
    SearchIndex,
    /// The generic JavaScript minifier.
    GenericJs,
    /// The CSS minifier.
    GenericCss,
    /// Not processed at all.
    Skip,
}

/// The well-known name of the search-index file.
pub open spec fn search_index_name() -> Seq<char> {
    "search-index.js"@
}

pub open spec fn ends_with(s: Seq<char>, suffix: Seq<char>) -> bool {
    s.len() >= suffix.len() && s.skip(s.len() - suffix.len()) == suffix
}

/// The routing rule: the search-index file name wins over the generic
/// JavaScript suffix rule; then `.js`, then `.css`; anything else is skipped.
pub open spec fn route_of(name: Seq<char>) -> Route {
    if name == search_index_name() {
        Route::SearchIndex
    } else if ends_with(name, ".js"@) {
        Route::GenericJs
    } else if ends_with(name, ".css"@) {
        Route::GenericCss
    } else {
        Route::Skip
    }
}

/// Compares two character vectors.
pub fn chars_eq(a: &Vec<char>, b: &Vec<char>) -> (r: bool)
    ensures
        r == (a@ == b@),
{
    if a.len() != b.len() {
        return false;
    }
    let mut i: usize = 0;
    while i < a.len()
        invariant
            a@.len() == b@.len(),
            i <= a@.len(),
            forall|j: int| 0 <= j < i ==> a@[j] == b@[j],
        decreases a.len() - i,
    {
        if a[i] != b[i] {
            return false;
        }
        i += 1;
    }
    proof {
        assert(a@ =~= b@);
    }
    true
}

/// Does `s` end with `suffix`?
pub fn chars_end_with(s: &Vec<char>, suffix: &Vec<char>) -> (r: bool)
    ensures
        r == ends_with(s@, suffix@),
{
    if s.len() < suffix.len() {
        return false;
    }
    let n: usize = s.len();
    let off: usize = s.len() - suffix.len();
    let mut i: usize = 0;
    while i < suffix.len()
        invariant
            n == s@.len(),
            s@.len() >= suffix@.len(),
            off == s@.len() - suffix@.len(),
            i <= suffix@.len(),
            forall|j: int| 0 <= j < i ==> s@[off + j] == suffix@[j],
        decreases suffix.len() - i,
    {
        if s[off + i] != suffix[i] {
            proof {
                assert(s@.skip(off as int)[i as int] == s@[off + i]);
            }
            return false;
        }
        i += 1;
    }
    proof {
        assert(s@.skip(off as int) =~= suffix@);
    }
    true
}

/// Routes one file name, per `route_of`.
pub fn classify(name: &Vec<char>) -> (r: Route)
    ensures
        r == route_of(name@),
{
    let target = str_to_chars("search-index.js");
    if chars_eq(name, &target) {
        return Route::SearchIndex;
    }
    let js = str_to_chars(".js");
    if chars_end_with(name, &js) {
        return Route::GenericJs;
    }
    let css = str_to_chars(".css");
    if chars_end_with(name, &css) {
        return Route::GenericCss;
    }
    Route::Skip
}

} // verus!
