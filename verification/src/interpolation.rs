//! Bookkeeping of the three stored time levels used by the time interpolation
//! between the coarse and the fine blocks.
use vstd::prelude::*;

verus! {

/// Whether `ord` names each of the three storage slots exactly once.
pub open spec fn is_order(ord: Seq<usize>) -> bool {
    &&& ord.len() == 3
    &&& forall|m: int| 0 <= m < 3 ==> ord[m] < 3
    &&& ord[0] != ord[1] && ord[1] != ord[2] && ord[0] != ord[2]
}

/// The slot order after one step: the slot of the oldest level (`ord[2]`) is
/// reused for the newest level, and the other two levels age by one.
pub open spec fn rotated(ord: Seq<usize>) -> Seq<usize> {
    seq![ord[2], ord[0], ord[1]]
}

/// Rotates the slot order before a new time level is stored in slot `ord[0]`.
pub fn swap_ord(ord: &mut [usize; 3])
    ensures
        final(ord)@ == rotated(old(ord)@),
{
    let tmp = ord[2];
    ord.set(2, ord[1]);
    ord.set(1, ord[0]);
    ord.set(0, tmp);
}

/// Rotating keeps the order a permutation of the three slots.
pub proof fn lemma_rotated_is_order(ord: Seq<usize>)
    requires
        is_order(ord),
    ensures
        is_order(rotated(ord)),
{
}

/// Three rotations give the order back.
pub proof fn lemma_rotated_thrice(ord: Seq<usize>)
    requires
        ord.len() == 3,
    ensures
        rotated(rotated(rotated(ord))) == ord,
{
    assert(rotated(rotated(rotated(ord))) =~= ord);
}

} // verus!
