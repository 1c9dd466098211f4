//! The pair of equal-length byte strings that a run substitutes.

use crate::search::{build_finder, find_first, finder_needle, has_match, is_first_match};
use memchr::memmem::Finder;
use vstd::prelude::*;

verus! {

/// Why a pattern pair was not accepted.
#[derive(Clone, Copy, Debug, PartialEq, Eq, Structural)]
pub struct LengthMismatch {
    pub source_len: usize,
    pub destination_len: usize,
}

/// A source pattern, the destination that replaces it, and the searcher
/// precompiled for the source. The two byte strings always have one length.
#[derive(Debug)]
pub struct PatternPair {
    source: Vec<u8>,
    destination: Vec<u8>,
    finder: Finder<'static>,
}

impl PatternPair {
    #[verifier::type_invariant]
    spec fn well_formed(&self) -> bool {
        &&& self.source@.len() == self.destination@.len()
        &&& finder_needle(&self.finder) == self.source@
    }

    /// The bytes searched for.
    pub closed spec fn source_bytes(&self) -> Seq<u8> {
        self.source@
    }

    /// The bytes written over each occurrence.
    pub closed spec fn destination_bytes(&self) -> Seq<u8> {
        self.destination@
    }

    /// Accepts `source` and `destination` when they are of equal length, and
    /// reports both lengths when they are not.
    pub fn new(source: Vec<u8>, destination: Vec<u8>) -> (made: Result<PatternPair, LengthMismatch>)
        ensures
            match made {
                Ok(pair) => {
                    &&& source@.len() == destination@.len()
                    &&& pair.source_bytes() == source@
                    &&& pair.destination_bytes() == destination@
                },
                Err(e) => {
                    &&& source@.len() != destination@.len()
                    &&& e.source_len == source@.len()
                    &&& e.destination_len == destination@.len()
                },
            },
    {
        if source.len() != destination.len() {
            return Err(
                LengthMismatch { source_len: source.len(), destination_len: destination.len() },
            );
        }
        let finder = build_finder(source.as_slice());
        Ok(PatternPair { source, destination, finder })
    }

    /// The bytes searched for.
    pub fn source(&self) -> (bytes: &[u8])
        ensures
            bytes@ == self.source_bytes(),
    {
        self.source.as_slice()
    }

    /// The bytes written over each occurrence.
    pub fn destination(&self) -> (bytes: &[u8])
        ensures
            bytes@ == self.destination_bytes(),
    {
        self.destination.as_slice()
    }

    /// The index of the leftmost occurrence of the source in `hay`, if it
    /// occurs there at all.
    pub fn find_in(&self, hay: &[u8]) -> (found: Option<usize>)
        ensures
            match found {
                Some(at) => is_first_match(hay@, self.source_bytes(), at as int),
                None => !has_match(hay@, self.source_bytes()),
            },
    {
        proof {
            use_type_invariant(self);
        }
        find_first(&self.finder, hay)
    }

    /// The common length of source and destination.
    pub fn len(&self) -> (n: usize)
        ensures
            n == self.source_bytes().len(),
            n == self.destination_bytes().len(),
    {
        proof {
            use_type_invariant(self);
        }
        self.source.len()
    }
}

} // verus!
