//! Outcomes of a uniform random draw, kept abstract: all that is known of an
//! outcome is the range it was drawn from, so that a proof can tell a draw
//! over one range from a draw over another.

use vstd::prelude::*;

verus! {

/// `r` is an outcome of a uniform draw over `low..=high`.
pub closed spec fn drawn_from(r: i8, low: i8, high: i8) -> bool {
    low <= r <= high
}

/// An outcome of a draw lies in the range it was drawn from.
pub proof fn lemma_drawn_in_range(r: i8, low: i8, high: i8)
    requires
        drawn_from(r, low, high),
    ensures
        low <= r <= high,
{
}

} // verus!
