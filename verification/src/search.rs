//! Exact byte-pattern search: what an occurrence is, and the precompiled
//! searcher that finds the first one.

use memchr::memmem::Finder;
use vstd::prelude::*;

verus! {

/// `needle` occurs in `hay` at index `at`.
pub open spec fn matches_at(hay: Seq<u8>, needle: Seq<u8>, at: int) -> bool {
    &&& 0 <= at
    &&& at + needle.len() <= hay.len()
    &&& hay.subrange(at, at + needle.len()) == needle
}

/// `needle` occurs somewhere in `hay`.
pub open spec fn has_match(hay: Seq<u8>, needle: Seq<u8>) -> bool {
    exists|at: int| matches_at(hay, needle, at)
}

/// `at` is the leftmost index at which `needle` occurs in `hay`.
pub open spec fn is_first_match(hay: Seq<u8>, needle: Seq<u8>, at: int) -> bool {
    &&& matches_at(hay, needle, at)
    &&& forall|earlier: int| 0 <= earlier < at ==> !matches_at(hay, needle, earlier)
}

/// The leftmost index at which `needle` occurs in `hay`; meaningful only
/// where `has_match` holds.
pub open spec fn first_match(hay: Seq<u8>, needle: Seq<u8>) -> int {
    choose|at: int| is_first_match(hay, needle, at)
}

/// Wherever `needle` occurs in `hay`, it has a leftmost occurrence, and
/// `first_match` names it.
pub proof fn lemma_first_match_exists(hay: Seq<u8>, needle: Seq<u8>)
    requires
        has_match(hay, needle),
    ensures
        is_first_match(hay, needle, first_match(hay, needle)),
{
    let at = choose|at: int| matches_at(hay, needle, at);
    lemma_least_match_below(hay, needle, at);
}

/// Below any occurrence there is a leftmost one.
proof fn lemma_least_match_below(hay: Seq<u8>, needle: Seq<u8>, at: int)
    requires
        matches_at(hay, needle, at),
    ensures
        exists|first: int| is_first_match(hay, needle, first),
    decreases at,
{
    if exists|earlier: int| 0 <= earlier < at && matches_at(hay, needle, earlier) {
        let earlier = choose|earlier: int| 0 <= earlier < at && matches_at(hay, needle, earlier);
        lemma_least_match_below(hay, needle, earlier);
    } else {
        assert(is_first_match(hay, needle, at));
    }
}

/// A leftmost occurrence is the one that `first_match` names.
pub proof fn lemma_first_match_unique(hay: Seq<u8>, needle: Seq<u8>, at: int)
    requires
        is_first_match(hay, needle, at),
    ensures
        has_match(hay, needle),
        first_match(hay, needle) == at,
{
    lemma_first_match_exists(hay, needle);
}

#[verifier::external_type_specification]
#[verifier::external_body]
pub struct ExFinder<'n>(Finder<'n>);

/// The needle that a searcher was built for: what `Finder::needle` returns.
pub uninterp spec fn finder_needle(finder: &Finder<'static>) -> Seq<u8>;

/// Builds an owned searcher with `memchr::memmem::Finder::new` and
/// `Finder::into_owned`. Trusted: the searcher keeps a copy of exactly the
/// bytes of `needle`.
#[verifier::external_body]
pub(crate) fn build_finder(needle: &[u8]) -> (finder: Finder<'static>)
    ensures
        finder_needle(&finder) == needle@,
{
    Finder::new(needle).into_owned()
}

/// Calls `memchr::memmem::Finder::find`. Trusted: the result is the index of
/// the first occurrence of the searcher's needle in `hay`, and `None` exactly
/// when there is no occurrence.
#[verifier::external_body]
pub(crate) fn find_first(finder: &Finder<'static>, hay: &[u8]) -> (found: Option<usize>)
    ensures
        match found {
            Some(at) => is_first_match(hay@, finder_needle(finder), at as int),
            None => !has_match(hay@, finder_needle(finder)),
        },
{
    finder.find(hay)
}

} // verus!
