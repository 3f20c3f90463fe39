//! Padding of archived bytes that lie in an aligned vector.

use crate::util::sized::{lemma_round_up, round_up};
use crate::util::text::filler;
use rkyv::util::AlignedVec;
use vstd::prelude::*;

verus! {

/// `rkyv::util::AlignedVec`: a vector of bytes whose memory is aligned.
#[verifier::external_type_specification]
#[verifier::external_body]
pub struct ExAlignedVec<const ALIGNMENT: usize>(AlignedVec<ALIGNMENT>);

/// The bytes that an aligned vector holds.
pub uninterp spec fn aligned_bytes(v: AlignedVec<16>) -> Seq<u8>;

/// The greatest number of bytes that an aligned vector of alignment 16
/// holds: `AlignedVec::MAX_CAPACITY`.
pub open spec fn max_aligned_len() -> int {
    isize::MAX - 15
}

/// `AlignedVec::len`: the number of bytes that the vector holds.
#[verifier::external_body]
fn aligned_len(v: &AlignedVec<16>) -> (len: usize)
    ensures
        len == aligned_bytes(*v).len(),
{
    v.len()
}

/// `AlignedVec::push`: puts one byte behind those that the vector holds.
/// The vector must hold less than it can hold at most, else `push` panics.
#[verifier::external_body]
fn aligned_push(v: &mut AlignedVec<16>, value: u8)
    requires
        aligned_bytes(*old(v)).len() < max_aligned_len(),
    ensures
        aligned_bytes(*final(v)) == aligned_bytes(*old(v)).push(value),
{
    v.push(value)
}

/// Whether an aligned vector has room for the zeroes that fill it up to a
/// multiple of 4 bytes.
pub open spec fn can_align(v: AlignedVec<16>) -> bool {
    aligned_bytes(v).len() + 3 <= max_aligned_len()
}

/// Fills the vector with zeroes up to a multiple of 4 bytes.
pub fn align_vec(v: AlignedVec<16>) -> (r: AlignedVec<16>)
    requires
        can_align(v),
    ensures
        aligned_bytes(r) == aligned_bytes(v) + filler(
            round_up(aligned_bytes(v).len(), 4) - aligned_bytes(v).len(),
            0,
        ),
{
    let mut v = v;
    let ghost given = aligned_bytes(v);
    let len: usize = aligned_len(&v);
    proof {
        lemma_round_up(len as nat, 4);
    }
    let target: usize = if len % 4 == 0 {
        len
    } else {
        (len / 4 + 1) * 4
    };
    let mut i: usize = len;
    assert(given + filler(0, 0) =~= given);
    while i < target
        invariant
            len <= i <= target,
            target <= len + 3,
            len == given.len(),
            len + 3 <= max_aligned_len(),
            aligned_bytes(v) == given + filler(i - len, 0),
        decreases target - i,
    {
        aligned_push(&mut v, 0);
        i += 1;
        assert(given + filler(i - len, 0) =~= (given + filler(i - 1 - len, 0)).push(0u8));
    }
    v
}

/// Fills the vector with zeroes up to a multiple of 4 bytes if it has room
/// for them; returns `None` if it has not.
pub fn try_align_vec(v: AlignedVec<16>) -> (r: Option<AlignedVec<16>>)
    ensures
        match r {
            Some(aligned) => can_align(v) && aligned_bytes(aligned) == aligned_bytes(v) + filler(
                round_up(aligned_bytes(v).len(), 4) - aligned_bytes(v).len(),
                0,
            ),
            None => !can_align(v),
        },
{
    let len: usize = aligned_len(&v);
    if len > isize::MAX as usize - 18 {
        None
    } else {
        Some(align_vec(v))
    }
}

} // verus!
