//! What a search runs against: a passability test, a goal test and a
//! distance heuristic over grid positions. The passable region must be
//! bounded, which is what lets every scan terminate.

use vstd::prelude::*;
use crate::geometry::{in_range, within, Pos, MAX_COORD};

verus! {

/// A domain the jump point search can walk. `passable` and `is_goal` must
/// be pure functions of the position for the duration of one search, which
/// the `ensures` on the run-time tests pin to the specification-level
/// predicates. The heuristic should be admissible (never overestimate the
/// true remaining cost) for the returned paths to be optimal; nothing here
/// checks that, and a poor heuristic costs quality, not safety.
pub trait JPSearchable: Sized {
    /// Well-formedness of the domain value.
    spec fn inv(&self) -> bool;

    /// A bound on the coordinates of passable positions.
    spec fn limit(&self) -> int;

    spec fn spec_passable(&self, pos: Pos) -> bool;

    spec fn spec_goal(&self, pos: Pos) -> bool;

    /// The heuristic's value as a function of the position alone, which is
    /// the purity one search requires of it.
    spec fn spec_heuristic(&self, pos: Pos) -> u64;

    /// The bound is itself within the coordinate range the library admits.
    proof fn lemma_limit_in_range(&self)
        requires
            self.inv(),
        ensures
            0 <= self.limit() <= MAX_COORD as int,
    ;

    /// Every passable position lies within the bound.
    proof fn lemma_passable_within_limit(&self, pos: Pos)
        requires
            self.inv(),
            self.spec_passable(pos),
        ensures
            within(pos, self.limit()),
    ;

    fn passable(&self, pos: Pos) -> (b: bool)
        requires
            self.inv(),
        ensures
            b == self.spec_passable(pos),
    ;

    fn is_goal(&self, pos: Pos) -> (b: bool)
        requires
            self.inv(),
        ensures
            b == self.spec_goal(pos),
    ;

    /// Estimate of the remaining cost from `pos` to a goal.
    fn heuristic(&self, pos: Pos) -> (h: u64)
        requires
            self.inv(),
            in_range(pos),
        ensures
            h == self.spec_heuristic(pos),
    ;
}

/// Passability together with the coordinate bounds it implies. The scan
/// specifications are written over this form so that their termination
/// needs no appeal to the domain laws.
pub open spec fn bounded_passable<D: JPSearchable>(d: &D, p: Pos) -> bool {
    &&& d.spec_passable(p)
    &&& within(p, d.limit())
    &&& 0 <= d.limit() <= MAX_COORD as int
}

/// On a well-formed domain, bounded passability is plain passability.
pub proof fn lemma_bounded_passable<D: JPSearchable>(d: &D, p: Pos)
    requires
        d.inv(),
    ensures
        bounded_passable(d, p) == d.spec_passable(p),
{
    d.lemma_limit_in_range();
    if d.spec_passable(p) {
        d.lemma_passable_within_limit(p);
    }
}

} // verus!
