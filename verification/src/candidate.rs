//! Candidates for the next split and the order in which they are served.

use std::cmp::Ordering;
use vstd::prelude::*;

verus! {

/// A leaf that waits in the frontier: where it stands in the model's list of
/// leaves, whether its region is small, and its rank among the regions of
/// the same kind. A larger rank is served earlier.
#[derive(Clone, Copy, PartialEq, Eq, Structural, Debug)]
pub struct Candidate {
    pub slot: usize,
    pub small: bool,
    pub rank: u64,
}

impl Candidate {
    /// The order of service. A small region comes after every region that is
    /// not small, whatever the ranks; among regions of one kind the rank
    /// decides. The slot plays no part.
    pub open spec fn ordering(self, other: Candidate) -> Ordering {
        if self.small && !other.small {
            Ordering::Less
        } else if !self.small && other.small {
            Ordering::Greater
        } else if self.rank < other.rank {
            Ordering::Less
        } else if self.rank > other.rank {
            Ordering::Greater
        } else {
            Ordering::Equal
        }
    }

    /// `self` is served strictly before `other`.
    pub open spec fn spec_outranks(self, other: Candidate) -> bool {
        if self.small == other.small {
            self.rank > other.rank
        } else {
            other.small
        }
    }

    /// Compares two candidates by the order of service.
    pub fn cmp(&self, other: &Candidate) -> (o: Ordering)
        ensures
            o == self.ordering(*other),
    {
        match (self.small, other.small) {
            (true, false) => Ordering::Less,
            (false, true) => Ordering::Greater,
            _ => {
                if self.rank < other.rank {
                    Ordering::Less
                } else if self.rank > other.rank {
                    Ordering::Greater
                } else {
                    Ordering::Equal
                }
            },
        }
    }

    /// Whether `self` is served strictly before `other`.
    #[verifier::when_used_as_spec(spec_outranks)]
    pub fn outranks(self, other: Candidate) -> (b: bool)
        ensures
            b == self.spec_outranks(other),
    {
        if self.small == other.small {
            self.rank > other.rank
        } else {
            other.small
        }
    }
}

/// `outranks` is the strict part of `ordering`, and `ordering` turns round
/// when its arguments are exchanged.
pub proof fn lemma_ordering_agrees(a: Candidate, b: Candidate)
    ensures
        a.outranks(b) <==> a.ordering(b) == Ordering::Greater,
        b.outranks(a) <==> a.ordering(b) == Ordering::Less,
        a.ordering(b) == Ordering::Equal <==> a.small == b.small && a.rank == b.rank,
{
}

/// A small region never outranks one that is not small, and is outranked by
/// it, however the two are ranked.
pub proof fn lemma_small_region_guard(small: Candidate, other: Candidate)
    requires
        small.small,
        !other.small,
    ensures
        other.outranks(small),
        !small.outranks(other),
        small.ordering(other) == Ordering::Less,
{
}

/// The order of service is a strict weak order: nothing outranks itself,
/// outranking is transitive, and so is not being outranked.
pub proof fn lemma_order_laws(a: Candidate, b: Candidate, c: Candidate)
    ensures
        !a.outranks(a),
        a.outranks(b) ==> !b.outranks(a),
        a.outranks(b) && b.outranks(c) ==> a.outranks(c),
        !a.outranks(b) && !b.outranks(c) ==> !a.outranks(c),
{
}

} // verus!
