//! The mathematical values that the contracts speak of: the texts of
//! strings, the lists and columns of nested vectors.

use vstd::prelude::*;
use std::collections::HashSet;

verus! {

/// The texts of a vector of strings.
pub open spec fn texts(v: Seq<String>) -> Seq<Seq<char>> {
    Seq::new(v.len(), |i: int| v[i]@)
}

/// The text of an optional string slice.
pub open spec fn opt_text(s: Option<&str>) -> Option<Seq<char>> {
    match s {
        Some(t) => Some(t@),
        None => None,
    }
}

/// The lists held by a vector of vectors.
pub open spec fn lists(v: Seq<Vec<usize>>) -> Seq<Seq<usize>> {
    Seq::new(v.len(), |i: int| v[i]@)
}

/// The columns held by a vector of vectors of strings.
pub open spec fn columns(v: Seq<Vec<String>>) -> Seq<Seq<Seq<char>>> {
    Seq::new(v.len(), |i: int| texts(v[i]@))
}

/// The sets held by a vector of hash sets.
pub open spec fn sets(v: Seq<HashSet<u64>>) -> Seq<Set<u64>> {
    Seq::new(v.len(), |i: int| v[i]@)
}

} // verus!
