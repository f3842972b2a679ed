use vstd::prelude::*;

verus! {

/// Bytes per packed row: the row's bits rounded up to whole 64-bit words.
pub open spec fn spec_stride_bytes(dim: nat) -> nat {
    8 * ((dim + 63) / 64)
}

/// Bit `i` of a packed byte sequence: bit `i % 8` (least significant first)
/// of byte `i / 8`.
pub open spec fn bit_at(bytes: Seq<u8>, i: int) -> bool {
    (bytes[i / 8] >> ((i % 8) as u8)) & 1u8 == 1u8
}

/// `row` holds the packed signs of the first `dim` components of `nonneg`:
/// bit `t` is set exactly when `t < dim` and component `t` is non-negative.
pub open spec fn row_packs(row: Seq<u8>, dim: nat, nonneg: Seq<bool>) -> bool {
    forall|t: int| 0 <= t < 8 * row.len() ==> #[trigger] bit_at(row, t) == (t < dim && nonneg[t])
}

/// Number of bytes one packed row of `dim` sign bits takes on disk:
/// `ceil(dim / 8)` rounded up to a multiple of 8.
pub fn stride_bytes(dim: usize) -> (stride: usize)
    ensures
        stride == spec_stride_bytes(dim as nat),
{
    let bytes: usize = dim / 8 + if dim % 8 == 0 { 0 } else { 1 };
    let stride: usize = ((bytes + 7) / 8) * 8;
    stride
}

/// Number of 64-bit words in a row of `stride_bytes` bytes.
pub fn words_per_row(stride_bytes: usize) -> (words: usize)
    ensures
        words == stride_bytes / 8,
{
    stride_bytes / 8
}

proof fn lemma_or_bit(b: u8, k: u8, t: u8)
    requires
        k < 8,
        t < 8,
    ensures
        ((b | (1u8 << k)) >> t) & 1u8 == (if t == k { 1u8 } else { (b >> t) & 1u8 }),
{
    assert(((b | (1u8 << k)) >> t) & 1u8 == (if t == k { 1u8 } else { (b >> t) & 1u8 }))
        by (bit_vector)
        requires
            k < 8,
            t < 8,
    ;
}

proof fn lemma_zero_byte_bits()
    ensures
        forall|t: u8| t < 8 ==> #[trigger] ((0u8 >> t) & 1u8) == 0u8,
{
    assert(forall|t: u8| t < 8 ==> #[trigger] ((0u8 >> t) & 1u8) == 0u8) by (bit_vector);
}

/// Sets bit `bit_index` of `out`, leaving every other bit as it was.
fn set_bit(out: &mut [u8], bit_index: usize)
    requires
        bit_index / 8 < old(out)@.len(),
    ensures
        final(out)@.len() == old(out)@.len(),
        forall|t: int|
            0 <= t < 8 * old(out)@.len() ==> #[trigger] bit_at(final(out)@, t) == (t == bit_index
                || bit_at(old(out)@, t)),
{
    let byte = bit_index / 8;
    let bit = bit_index % 8;
    let old_byte = out[byte];
    out[byte] = old_byte | (1u8 << (bit as u8));
    proof {
        assert forall|t: int| 0 <= t < 8 * old(out)@.len() implies #[trigger] bit_at(out@, t) == (
        t == bit_index || bit_at(old(out)@, t)) by {
            if t / 8 == byte as int {
                lemma_or_bit(old_byte, bit as u8, (t % 8) as u8);
            }
        }
    }
}

/// Reads bit `bit_index` of `row`.
pub fn get_bit(row: &[u8], bit_index: usize) -> (b: bool)
    requires
        bit_index / 8 < row@.len(),
    ensures
        b == bit_at(row@, bit_index as int),
{
    let byte = bit_index / 8;
    let bit = bit_index % 8;
    (row[byte] >> (bit as u8)) & 1 == 1
}

/// Packs the signs of a row into bits: bit `i` is set exactly when component
/// `i` of the row is non-negative (`nonneg[i]`), for `i < dim`; every other
/// bit of `out` is cleared.
pub fn pack_1bit_row(dim: usize, nonneg: &[bool], out: &mut [u8])
    requires
        dim <= nonneg@.len(),
        dim <= 8 * old(out)@.len(),
    ensures
        final(out)@.len() == old(out)@.len(),
        row_packs(final(out)@, dim as nat, nonneg@),
{
    let len = out.len();
    let mut j: usize = 0;
    while j < len
        invariant
            j <= len,
            len == out@.len(),
            len == old(out)@.len(),
            forall|b: int| 0 <= b < j ==> #[trigger] out@[b] == 0u8,
        decreases len - j,
    {
        out[j] = 0;
        j = j + 1;
    }
    proof {
        lemma_zero_byte_bits();
        assert forall|t: int| 0 <= t < 8 * len implies !#[trigger] bit_at(out@, t) by {
            assert(out@[t / 8] == 0u8);
            assert(((0u8 >> ((t % 8) as u8)) & 1u8) == 0u8);
        }
    }
    let mut i: usize = 0;
    while i < dim
        invariant
            i <= dim,
            dim <= nonneg@.len(),
            dim <= 8 * len,
            len == out@.len(),
            len == old(out)@.len(),
            forall|t: int| 0 <= t < 8 * len ==> #[trigger] bit_at(out@, t) == (t < i && nonneg@[t]),
        decreases dim - i,
    {
        if nonneg[i] {
            set_bit(out, i);
        }
        i = i + 1;
    }
}

/// Packs a query the same way as a stored row.
pub fn pack_1bit_query(dim: usize, nonneg: &[bool], out: &mut [u8])
    requires
        dim <= nonneg@.len(),
        dim <= 8 * old(out)@.len(),
    ensures
        final(out)@.len() == old(out)@.len(),
        row_packs(final(out)@, dim as nat, nonneg@),
{
    pack_1bit_row(dim, nonneg, out);
}

/// A row stride is whole 64-bit words, holds all `dim` bits, and wastes less
/// than one word.
pub proof fn lemma_stride_shape(dim: nat)
    ensures
        spec_stride_bytes(dim) % 8 == 0,
        dim <= 8 * spec_stride_bytes(dim),
        8 * spec_stride_bytes(dim) < dim + 64,
{
}

/// Reading back a packed row gives each component's sign.
pub proof fn lemma_packed_bit_is_sign(row: Seq<u8>, dim: nat, nonneg: Seq<bool>, t: int)
    requires
        row_packs(row, dim, nonneg),
        0 <= t < dim,
        dim <= 8 * row.len(),
    ensures
        bit_at(row, t) == nonneg[t],
{
}

} // verus!
