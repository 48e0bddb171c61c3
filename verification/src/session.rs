//! Orchestration rules for hosted searches.
//!
//! A host that dispatches searches asynchronously serializes them: a new
//! request with different parameters cancels the search in flight, while a
//! duplicate of the running request is rejected. The decision itself is
//! plain logic and lives here; performing the cancellation and the dispatch
//! is the host's business. The dictionary such a host shares across requests
//! is a write-once handle: set exactly once, read-only ever after.

use vstd::prelude::*;

use crate::dictionary::Dictionary;

verus! {

/// What one search request asks for: the board's sides and the solution cap.
#[derive(Debug, Clone)]
pub struct SolveParams {
    pub sides: Vec<String>,
    pub max_solutions: u16,
}

/// Two requests ask for the very same search.
pub open spec fn params_equal(a: &SolveParams, b: &SolveParams) -> bool {
    &&& crate::scan::string_views(a.sides@) == crate::scan::string_views(b.sides@)
    &&& a.max_solutions == b.max_solutions
}

impl SolveParams {
    /// Compares two requests letter by letter.
    pub fn same_as(&self, other: &SolveParams) -> (r: bool)
        ensures
            r == params_equal(self, other),
    {
        if self.max_solutions != other.max_solutions {
            proof {
                assert(!params_equal(self, other));
            }
            return false;
        }
        if self.sides.len() != other.sides.len() {
            proof {
                assert(crate::scan::string_views(self.sides@).len() != crate::scan::string_views(
                    other.sides@,
                ).len());
            }
            return false;
        }
        let mut k: usize = 0;
        while k < self.sides.len()
            invariant
                self.sides@.len() == other.sides@.len(),
                k <= self.sides@.len(),
                forall|m: int| 0 <= m < k ==> (#[trigger] self.sides@[m])@ == other.sides@[m]@,
            decreases self.sides@.len() - k,
        {
            if !self.sides[k].eq(&other.sides[k]) {
                proof {
                    assert(crate::scan::string_views(self.sides@)[k as int]
                        != crate::scan::string_views(other.sides@)[k as int]);
                }
                return false;
            }
            k = k + 1;
        }
        proof {
            assert(crate::scan::string_views(self.sides@) =~= crate::scan::string_views(
                other.sides@,
            ));
        }
        true
    }
}

/// What the orchestrating caller must do with a new request.
#[derive(Debug, PartialEq, Eq, Structural)]
pub enum SolveDecision {
    /// No search is in flight: start the new one.
    Start,
    /// A different search is in flight: cancel it, then start the new one.
    CancelPreviousAndStart,
    /// The same search is already in flight: reject the duplicate.
    RejectDuplicate,
}

/// Decides a new request against the search in flight, if any: a duplicate
/// is rejected, a different request supersedes the running one, and with
/// nothing in flight the request simply starts.
pub fn decide_solve(current: Option<&SolveParams>, requested: &SolveParams) -> (r: SolveDecision)
    ensures
        match current {
            None => r == SolveDecision::Start,
            Some(p) => {
                &&& params_equal(p, requested) ==> r == SolveDecision::RejectDuplicate
                &&& !params_equal(p, requested) ==> r == SolveDecision::CancelPreviousAndStart
            },
        },
{
    match current {
        None => SolveDecision::Start,
        Some(p) => {
            if p.same_as(requested) {
                SolveDecision::RejectDuplicate
            } else {
                SolveDecision::CancelPreviousAndStart
            }
        },
    }
}

/// A write-once dictionary slot: hosts parse the dictionary once and share
/// it read-only across requests; a second initialization is rejected rather
/// than silently overwriting.
pub struct DictionaryHandle {
    dictionary: Option<Dictionary>,
}

impl DictionaryHandle {
    /// The dictionary held, if any.
    pub closed spec fn view_slot(&self) -> Option<Dictionary> {
        self.dictionary
    }

    /// An empty, uninitialized handle.
    pub fn new() -> (r: DictionaryHandle)
        ensures
            r.view_slot() is None,
    {
        DictionaryHandle { dictionary: None }
    }

    /// Sets the dictionary if the handle is still empty; a second call
    /// changes nothing and reports the rejection.
    pub fn initialize(&mut self, dictionary: Dictionary) -> (r: bool)
        ensures
            old(self).view_slot() is None ==> r && final(self).view_slot() == Some(dictionary),
            old(self).view_slot() is Some ==> !r && final(self).view_slot() == old(
                self,
            ).view_slot(),
    {
        match self.dictionary {
            None => {
                self.dictionary = Some(dictionary);
                true
            },
            Some(_) => false,
        }
    }

    /// Reads the dictionary, if one was set.
    pub fn get(&self) -> (r: Option<&Dictionary>)
        ensures
            match r {
                Some(d) => self.view_slot() == Some(*d),
                None => self.view_slot() is None,
            },
    {
        match &self.dictionary {
            None => None,
            Some(d) => Some(d),
        }
    }
}

} // verus!
