//! The D2Q9 lattice: nine discrete velocities and their reversal.
use vstd::prelude::*;
use crate::parameters::NC;

verus! {

/// x component of the k-th discrete velocity.
pub open spec fn spec_cx(k: int) -> int {
    if k == 1 || k == 5 || k == 8 { 1 }
    else if k == 3 || k == 6 || k == 7 { -1 }
    else { 0 }
}

/// y component of the k-th discrete velocity.
pub open spec fn spec_cy(k: int) -> int {
    if k == 2 || k == 5 || k == 6 { 1 }
    else if k == 4 || k == 7 || k == 8 { -1 }
    else { 0 }
}

/// The direction opposite to direction `k`.
pub open spec fn spec_inv(k: int) -> int {
    if k == 0 { 0 }
    else if k == 1 { 3 }
    else if k == 2 { 4 }
    else if k == 3 { 1 }
    else if k == 4 { 2 }
    else if k == 5 { 7 }
    else if k == 6 { 8 }
    else if k == 7 { 5 }
    else { 6 }
}

/// Index of the direction opposite to direction `k` (used by bounce-back).
pub fn inv(k: usize) -> (r: usize)
    requires
        k < NC,
    ensures
        r == spec_inv(k as int),
        r < NC,
{
    match k {
        0 => 0,
        1 => 3,
        2 => 4,
        3 => 1,
        4 => 2,
        5 => 7,
        6 => 8,
        7 => 5,
        _ => 6,
    }
}

/// Reversing a direction twice gives the direction back.
pub proof fn lemma_inv_involution(k: int)
    requires
        0 <= k < 9,
    ensures
        0 <= spec_inv(k) < 9,
        spec_inv(spec_inv(k)) == k,
{
}

/// The reversed direction has the opposite velocity.
pub proof fn lemma_inv_reverses_velocity(k: int)
    requires
        0 <= k < 9,
    ensures
        spec_cx(spec_inv(k)) == -spec_cx(k),
        spec_cy(spec_inv(k)) == -spec_cy(k),
{
}

/// Only the rest direction is its own reverse.
pub proof fn lemma_inv_fixed_point(k: int)
    requires
        0 <= k < 9,
    ensures
        (spec_inv(k) == k) <==> (k == 0),
{
}

} // verus!
