use vstd::prelude::*;

use crate::error::Error;

verus! {

/// FNV-1a offset basis: the hash state before the first byte.
pub const FNV_OFFSET: u64 = 0xcbf29ce484222325;

/// FNV-1a 64-bit prime.
pub const FNV_PRIME: u64 = 0x100000001b3;

/// `x` rotated left by `n` bits, the bits shifted out coming back in at the
/// low end.
pub open spec fn rotl(x: u64, n: u32) -> u64 {
    let m = (n % 64) as u64;
    if m == 0 {
        x
    } else {
        (x << m) | (x >> ((64 - m) as u64))
    }
}

/// `u64::rotate_left` shifts the bits left by `n`, wrapping the truncated
/// bits around to the low end.
pub assume_specification[ u64::rotate_left ](x: u64, n: u32) -> (r: u64)
    ensures
        r == rotl(x, n),
;

/// One FNV-1a step: fold in a byte, then multiply (wrapping) by the prime.
pub open spec fn mixed(h: u64, b: u8) -> u64 {
    (h ^ (b as u64)).wrapping_mul(FNV_PRIME)
}

/// The hash state before byte `n` of `bytes` is folded in.
pub open spec fn hash_state(bytes: Seq<u8>, n: nat) -> u64
    decreases n,
{
    if n == 0 {
        FNV_OFFSET
    } else {
        rotl(mixed(hash_state(bytes, (n - 1) as nat), bytes[n - 1]), 13)
    }
}

/// The dimension that byte `j` of `bytes` lands in.
pub open spec fn bucket(bytes: Seq<u8>, j: nat, dim: nat) -> nat {
    ((mixed(hash_state(bytes, j), bytes[j as int]) as usize) as nat) % dim
}

/// How many of the first `n` bytes land in dimension `idx`.
pub open spec fn bucket_count(bytes: Seq<u8>, n: nat, dim: nat, idx: nat) -> nat
    decreases n,
{
    if n == 0 {
        0
    } else {
        bucket_count(bytes, (n - 1) as nat, dim, idx) + if bucket(bytes, (n - 1) as nat, dim)
            == idx {
            1nat
        } else {
            0nat
        }
    }
}

proof fn lemma_bucket_count_bound(bytes: Seq<u8>, n: nat, dim: nat, idx: nat)
    ensures
        bucket_count(bytes, n, dim, idx) <= n,
    decreases n,
{
    if n > 0 {
        lemma_bucket_count_bound(bytes, (n - 1) as nat, dim, idx);
    }
}

/// The sum of a sequence of counts.
pub open spec fn total(counts: Seq<usize>) -> nat
    decreases counts.len(),
{
    if counts.len() == 0 {
        0
    } else {
        total(counts.drop_last()) + counts.last() as nat
    }
}

/// The counts of dimensions `0 .. m` after the first `n` bytes, added up.
pub open spec fn counts_below(bytes: Seq<u8>, n: nat, dim: nat, m: nat) -> nat
    decreases m,
{
    if m == 0 {
        0
    } else {
        counts_below(bytes, n, dim, (m - 1) as nat) + bucket_count(bytes, n, dim, (m - 1) as nat)
    }
}

/// Every byte lands in one of the `dim` dimensions.
pub proof fn lemma_bucket_in_range(bytes: Seq<u8>, j: nat, dim: nat)
    requires
        dim > 0,
    ensures
        bucket(bytes, j, dim) < dim,
{
}

/// Byte `n` is counted once, in its own dimension, and nowhere else.
pub proof fn lemma_byte_counted_once(bytes: Seq<u8>, n: nat, dim: nat, idx: nat)
    ensures
        bucket_count(bytes, n + 1, dim, idx) == bucket_count(bytes, n, dim, idx) + if idx == bucket(
            bytes,
            n,
            dim,
        ) {
            1nat
        } else {
            0nat
        },
{
}

proof fn lemma_counts_below_start(bytes: Seq<u8>, dim: nat, m: nat)
    ensures
        counts_below(bytes, 0, dim, m) == 0,
    decreases m,
{
    if m > 0 {
        lemma_counts_below_start(bytes, dim, (m - 1) as nat);
    }
}

proof fn lemma_counts_below_step(bytes: Seq<u8>, n: nat, dim: nat, m: nat)
    ensures
        counts_below(bytes, n + 1, dim, m) == counts_below(bytes, n, dim, m) + if bucket(
            bytes,
            n,
            dim,
        ) < m {
            1nat
        } else {
            0nat
        },
    decreases m,
{
    if m > 0 {
        lemma_counts_below_step(bytes, n, dim, (m - 1) as nat);
        lemma_byte_counted_once(bytes, n, dim, (m - 1) as nat);
    }
}

/// Every one of the first `n` bytes is counted exactly once: the counts of
/// all `dim` dimensions add up to `n`.
pub proof fn lemma_bucket_counts_total(bytes: Seq<u8>, n: nat, dim: nat)
    requires
        dim > 0,
    ensures
        counts_below(bytes, n, dim, dim) == n,
    decreases n,
{
    if n == 0 {
        lemma_counts_below_start(bytes, dim, dim);
    } else {
        lemma_bucket_counts_total(bytes, (n - 1) as nat, dim);
        lemma_counts_below_step(bytes, (n - 1) as nat, dim, dim);
        lemma_bucket_in_range(bytes, (n - 1) as nat, dim);
    }
}

proof fn lemma_total_of_counts(counts: Seq<usize>, bytes: Seq<u8>, n: nat, dim: nat, m: nat)
    requires
        m <= counts.len(),
        forall|idx: int| 0 <= idx < counts.len() ==> #[trigger] counts[idx] == bucket_count(
            bytes,
            n,
            dim,
            idx as nat,
        ),
    ensures
        total(counts.take(m as int)) == counts_below(bytes, n, dim, m),
    decreases m,
{
    if m > 0 {
        lemma_total_of_counts(counts, bytes, n, dim, (m - 1) as nat);
        assert(counts.take(m as int).drop_last() =~= counts.take(m - 1));
    }
}

/// Deterministic stand-in embedder for tests: hashes each byte of a text
/// into one of `dim` dimensions.
pub struct HashEmbedder {
    id: String,
    dim: usize,
}

impl HashEmbedder {
    /// The embedder's id as recorded in an index's metadata.
    pub closed spec fn spec_id(&self) -> Seq<char> {
        self.id@
    }

    /// The embedder's output dimension.
    pub closed spec fn spec_dim(&self) -> nat {
        self.dim as nat
    }

    /// An embedder named `id` producing `dim`-dimensional vectors.
    pub fn new(id: &str, dim: usize) -> (e: HashEmbedder)
        ensures
            e.spec_id() == id@,
            e.spec_dim() == dim,
    {
        HashEmbedder { id: <String as StringExecFns>::from_str(id), dim }
    }

    /// The embedder's id.
    pub fn id(&self) -> (s: &str)
        ensures
            s@ == self.spec_id(),
    {
        self.id.as_str()
    }

    /// The embedder's output dimension.
    pub fn dim(&self) -> (d: usize)
        ensures
            d == self.spec_dim(),
    {
        self.dim
    }

    /// For each dimension, how many bytes of the text hash into it. The
    /// embedding is these counts scaled to unit length.
    pub fn bucket_counts(&self, text_bytes: &[u8]) -> (v: Vec<usize>)
        requires
            self.spec_dim() > 0 || text_bytes@.len() == 0,
        ensures
            v@.len() == self.spec_dim(),
            forall|idx: int|
                0 <= idx < v@.len() ==> #[trigger] v@[idx] == bucket_count(
                    text_bytes@,
                    text_bytes@.len(),
                    self.spec_dim(),
                    idx as nat,
                ),
            total(v@) == text_bytes@.len(),
    {
        let dim = self.dim;
        let mut v: Vec<usize> = Vec::new();
        let mut z: usize = 0;
        while z < dim
            invariant
                z <= dim,
                v@.len() == z,
                forall|idx: int| 0 <= idx < z ==> #[trigger] v@[idx] == 0,
            decreases dim - z,
        {
            v.push(0);
            z = z + 1;
        }
        let n = text_bytes.len();
        let mut hash: u64 = FNV_OFFSET;
        let mut j: usize = 0;
        while j < n
            invariant
                dim == self.spec_dim(),
                dim > 0 || n == 0,
                n == text_bytes@.len(),
                j <= n,
                v@.len() == dim,
                hash == hash_state(text_bytes@, j as nat),
                forall|idx: int|
                    0 <= idx < dim ==> #[trigger] v@[idx] == bucket_count(
                        text_bytes@,
                        j as nat,
                        dim as nat,
                        idx as nat,
                    ),
            decreases n - j,
        {
            let byte = text_bytes[j];
            hash = hash ^ (byte as u64);
            hash = hash.wrapping_mul(FNV_PRIME);
            let idx = (hash as usize) % dim;
            proof {
                lemma_bucket_count_bound(text_bytes@, j as nat, dim as nat, idx as nat);
            }
            let old_count = v[idx];
            v[idx] = old_count + 1;
            hash = hash.rotate_left(13);
            j = j + 1;
        }
        proof {
            lemma_total_of_counts(v@, text_bytes@, n as nat, dim as nat, dim as nat);
            assert(v@.take(dim as int) =~= v@);
            if dim > 0 {
                lemma_bucket_counts_total(text_bytes@, n as nat, dim as nat);
            } else {
                assert(v@.len() == 0);
            }
        }
        v
    }
}

/// An index built with one embedder accepts only an embedder of the same
/// dimension and id; the dimension is checked first.
pub fn check_embedder(
    embedder_dim: usize,
    embedder_id: &str,
    meta_dim: usize,
    meta_embedder_id: &str,
) -> (r: Result<(), Error>)
    ensures
        r is Ok <==> embedder_dim == meta_dim && embedder_id@ == meta_embedder_id@,
        embedder_dim != meta_dim ==> (r matches Err(Error::DimMismatch { expected, got })
            && expected == meta_dim && got == embedder_dim),
        embedder_dim == meta_dim && embedder_id@ != meta_embedder_id@ ==> (r matches Err(
            Error::EmbedderMismatch { expected, got },
        ) && expected@ == meta_embedder_id@ && got@ == embedder_id@),
{
    if embedder_dim != meta_dim {
        return Err(Error::DimMismatch { expected: meta_dim, got: embedder_dim });
    }
    let expected = meta_embedder_id.to_owned();
    let got = embedder_id.to_owned();
    if !(got == expected) {
        return Err(Error::EmbedderMismatch { expected, got });
    }
    Ok(())
}

} // verus!
