use vstd::prelude::*;

use crate::pack::{pack_1bit_row, row_packs};

verus! {

/// Quantizes one row to one bit per dimension: the sign of each component.
pub fn quantize_row(dim: usize, nonneg: &[bool], out: &mut [u8])
    requires
        dim <= nonneg@.len(),
        dim <= 8 * old(out)@.len(),
    ensures
        final(out)@.len() == old(out)@.len(),
        row_packs(final(out)@, dim as nat, nonneg@),
{
    pack_1bit_row(dim, nonneg, out);
}

} // verus!
