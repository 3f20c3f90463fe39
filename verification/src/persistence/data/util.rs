//! Padding of offsets in an archived row.

use vstd::prelude::*;

verus! {

/// `accum` moved up to the next multiple of `padding`.
pub open spec fn padded(accum: nat, padding: nat) -> nat {
    if accum % padding != 0 {
        (accum + padding - accum % padding) as nat
    } else {
        accum
    }
}

/// `padded` gives a multiple of `padding` that is not below `accum` and
/// less than one `padding` above it.
pub proof fn lemma_padded(accum: nat, padding: nat)
    requires
        padding > 0,
    ensures
        padded(accum, padding) % padding == 0,
        accum <= padded(accum, padding) < accum + padding,
{
    let q = accum / padding;
    let r = accum % padding;
    assert(accum == q * padding + r) by (nonlinear_arith)
        requires
            padding > 0,
            q == accum / padding,
            r == accum % padding,
    ;
    assert(((q + 1) * padding) % padding == 0) by (nonlinear_arith)
        requires
            padding > 0,
    ;
    assert((q + 1) * padding == q * padding + padding) by (nonlinear_arith);
}

/// Moves the offset `accum` up to the next multiple of `padding`, where a
/// field of that alignment can start.
pub fn advance_accum_for_padding(accum: usize, padding: usize) -> (r: usize)
    requires
        padding > 0,
        accum + padding <= usize::MAX,
    ensures
        r == padded(accum as nat, padding as nat),
{
    let mut accum = accum;
    if accum % padding != 0 {
        accum += padding - accum % padding;
    }
    accum
}

} // verus!
