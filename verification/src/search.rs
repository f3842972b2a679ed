use vstd::prelude::*;
use vstd::bytes::{spec_u64_from_le_bytes, spec_u64_to_le_bytes, spec_u64_to_le_bytes_to_open, lemma_auto_spec_u64_to_from_le_bytes};

use vstd::set_lib::{lemma_int_range, lemma_len_subset, set_int_range};

use crate::pack::bit_at;

verus! {

/// One search result: the row's id and its similarity to the query.
#[derive(Debug, Clone, Copy, PartialEq)]
pub struct Hit {
    pub id: [u8; 16],
    pub score: i128,
}

/// Number of set bits among the lowest `n` bits of `x`.
pub open spec fn ones_below(x: u64, n: nat) -> nat
    decreases n,
{
    if n == 0 {
        0
    } else {
        ones_below(x, (n - 1) as nat) + if (x >> ((n - 1) as u64)) & 1u64 == 1u64 {
            1nat
        } else {
            0nat
        }
    }
}

/// `u64::count_ones` returns the number of ones in the binary representation
/// of its argument, i.e. the set bits among all 64 bits.
pub assume_specification[ u64::count_ones ](x: u64) -> (r: u32)
    ensures
        r == ones_below(x, 64),
;

/// Number of positions `i < n` at which the packed rows `a` and `b` differ.
pub open spec fn hamming_prefix(a: Seq<u8>, b: Seq<u8>, n: nat) -> nat
    decreases n,
{
    if n == 0 {
        0
    } else {
        hamming_prefix(a, b, (n - 1) as nat) + if bit_at(a, n - 1) != bit_at(b, n - 1) {
            1nat
        } else {
            0nat
        }
    }
}

/// Number of bits the word-wise comparison looks at: the first `dim` bits,
/// but no more than the row's whole words hold.
pub open spec fn compared_bits(dim: nat, stride: nat) -> nat {
    if dim <= 64 * (stride / 8) {
        dim
    } else {
        64 * (stride / 8)
    }
}

/// Number of 64-bit words the comparison reads from each row.
pub open spec fn words_read(dim: nat, stride: nat) -> nat {
    if (dim + 63) / 64 <= stride / 8 {
        (dim + 63) / 64
    } else {
        stride / 8
    }
}

/// Similarity of two packed rows: `dim - 2 * hamming`, the hamming distance
/// taken over the compared bits.
pub open spec fn spec_similarity(dim: nat, stride: nat, query_row: Seq<u8>, row: Seq<u8>) -> int {
    dim - 2 * hamming_prefix(query_row, row, compared_bits(dim, stride))
}

proof fn lemma_hamming_prefix_bound(a: Seq<u8>, b: Seq<u8>, n: nat)
    ensures
        hamming_prefix(a, b, n) <= n,
    decreases n,
{
    if n > 0 {
        lemma_hamming_prefix_bound(a, b, (n - 1) as nat);
    }
}

proof fn lemma_word_bit(x: u64, j: u64)
    requires
        j < 64,
    ensures
        ((x >> j) & 1u64 == 1u64) == (((((x >> (8 * (j / 8))) & 0xffu64) as u8) >> ((j % 8) as u8))
            & 1u8 == 1u8),
{
    assert(((x >> j) & 1u64 == 1u64) == (((((x >> (8 * (j / 8))) & 0xffu64) as u8) >> ((j % 8) as u8))
        & 1u8 == 1u8)) by (bit_vector)
        requires
            j < 64,
    ;
}

proof fn lemma_le_byte(s: Seq<u8>, x: u64, k: int)
    requires
        s.len() == 8,
        x == spec_u64_from_le_bytes(s),
        0 <= k < 8,
    ensures
        s[k] == ((x >> (8 * k) as u64) & 0xffu64) as u8,
{
    lemma_auto_spec_u64_to_from_le_bytes();
    spec_u64_to_le_bytes_to_open(x);
    assert(spec_u64_to_le_bytes(x) == s);
    let o = vstd::bytes::spec_u64_to_le_bytes_open(x);
    assert(s == o);
    if k == 0 {
        assert(o[0] == (x & 0xffu64) as u8);
        assert(x >> 0u64 == x) by (bit_vector);
    } else if k == 1 {
        assert(o[1] == ((x >> 8u64) & 0xffu64) as u8);
    } else if k == 2 {
        assert(o[2] == ((x >> 16u64) & 0xffu64) as u8);
    } else if k == 3 {
        assert(o[3] == ((x >> 24u64) & 0xffu64) as u8);
    } else if k == 4 {
        assert(o[4] == ((x >> 32u64) & 0xffu64) as u8);
    } else if k == 5 {
        assert(o[5] == ((x >> 40u64) & 0xffu64) as u8);
    } else if k == 6 {
        assert(o[6] == ((x >> 48u64) & 0xffu64) as u8);
    } else {
        assert(o[7] == ((x >> 56u64) & 0xffu64) as u8);
    }
}

/// Reads the little-endian 64-bit word `word_index` of a packed row: bit `j`
/// of the word is bit `64 * word_index + j` of the row.
fn read_u64(row: &[u8], word_index: usize) -> (x: u64)
    requires
        8 * word_index + 8 <= row@.len(),
    ensures
        forall|j: u64|
            j < 64 ==> ((#[trigger] (x >> j) & 1u64) == 1u64) == bit_at(
                row@,
                64 * word_index + j,
            ),
{
    let row_bytes = row.len();
    assert(8 * word_index + 8 <= row_bytes);
    let start = word_index * 8;
    let x = vstd::bytes::u64_from_le_bytes(&row[start..start + 8]);
    proof {
        let s = row@.subrange(start as int, start + 8);
        assert forall|j: u64| j < 64 implies ((#[trigger] (x >> j) & 1u64) == 1u64) == bit_at(
            row@,
            64 * word_index + j,
        ) by {
            lemma_word_bit(x, j);
            let k = (j / 8) as int;
            lemma_le_byte(s, x, k);
            let i = 64 * word_index + j;
            assert(i / 8 == start + k);
            assert(i % 8 == j % 8);
        }
    }
    x
}

proof fn lemma_masked_xor(q: u64, r: u64, b: u64, j: u64)
    requires
        0 < b <= 64,
        j < 64,
    ensures
        ({
            let x = if b < 64 {
                (q ^ r) & (((1u64 << b) - 1u64) as u64)
            } else {
                q ^ r
            };
            ((x >> j) & 1u64 == 1u64) == (j < b && ((q >> j) & 1u64 == 1u64) != ((r >> j) & 1u64
                == 1u64))
        }),
{
    if b < 64 {
        assert((((q ^ r) & (((1u64 << b) - 1u64) as u64)) >> j) & 1u64 == 1u64 <==> (j < b && ((q >> j)
            & 1u64 == 1u64) != ((r >> j) & 1u64 == 1u64))) by (bit_vector)
            requires
                0 < b < 64,
                j < 64,
        ;
    } else {
        assert((((q ^ r) >> j) & 1u64 == 1u64) <==> (((q >> j) & 1u64 == 1u64) != ((r >> j)
            & 1u64 == 1u64))) by (bit_vector)
            requires
                j < 64,
        ;
    }
}

proof fn lemma_word_count(a: Seq<u8>, b: Seq<u8>, base: nat, width: nat, x: u64, n: nat)
    requires
        n <= 64,
        width <= 64,
        forall|j: u64|
            j < 64 ==> ((#[trigger] (x >> j) & 1u64) == 1u64) == (j < width && bit_at(a, base + j)
                != bit_at(b, base + j)),
    ensures
        ones_below(x, n) + hamming_prefix(a, b, base) == hamming_prefix(
            a,
            b,
            base + if n <= width {
                n
            } else {
                width
            },
        ),
    decreases n,
{
    if n > 0 {
        lemma_word_count(a, b, base, width, x, (n - 1) as nat);
        let j = (n - 1) as u64;
        assert(((x >> j) & 1u64 == 1u64) == (j < width && bit_at(a, base + j) != bit_at(
            b,
            base + j,
        )));
    }
}

/// Similarity of a packed query and a packed row of `stride` bytes, compared
/// word by word over the first `dim` bits: `dim - 2 * hamming`.
pub fn hamming_similarity(dim: usize, query_row: &[u8], row: &[u8], stride: usize) -> (score: i128)
    requires
        8 * words_read(dim as nat, stride as nat) <= query_row@.len(),
        8 * words_read(dim as nat, stride as nat) <= row@.len(),
    ensures
        score == spec_similarity(dim as nat, stride as nat, query_row@, row@),
{
    let words = crate::pack::words_per_row(stride);
    let dim_words: usize = dim / 64 + if dim % 64 == 0 { 0 } else { 1 };
    let mut hamming: u64 = 0;
    let mut w: usize = 0;
    while w < words && w < dim_words
        invariant
            words == stride / 8,
            dim_words == (dim + 63) / 64,
            w <= words,
            w <= dim_words,
            8 * words_read(dim as nat, stride as nat) <= query_row@.len(),
            8 * words_read(dim as nat, stride as nat) <= row@.len(),
            hamming == hamming_prefix(
                query_row@,
                row@,
                if 64 * w <= dim {
                    (64 * w) as nat
                } else {
                    dim as nat
                },
            ),
        decreases words - w,
    {
        let start_bit = w * 64;
        let q = read_u64(query_row, w);
        let r = read_u64(row, w);
        let mut xor = q ^ r;
        let rest = dim - start_bit;
        let bits_in_word: u64 = if rest < 64 { rest as u64 } else { 64 };
        if bits_in_word < 64 {
            assert(1u64 <= 1u64 << bits_in_word) by (bit_vector)
                requires
                    bits_in_word < 64,
            ;
            xor = xor & ((1u64 << bits_in_word) - 1);
        }
        proof {
            assert forall|j: u64| j < 64 implies ((#[trigger] (xor >> j) & 1u64) == 1u64) == (j
                < bits_in_word && bit_at(query_row@, start_bit + j) != bit_at(row@, start_bit + j)) by {
                lemma_masked_xor(q, r, bits_in_word, j);
            }
            lemma_word_count(query_row@, row@, start_bit as nat, bits_in_word as nat, xor, 64);
            lemma_hamming_prefix_bound(query_row@, row@, (start_bit + bits_in_word) as nat);
        }
        let ones = xor.count_ones();
        hamming = hamming + ones as u64;
        w = w + 1;
    }
    proof {
        lemma_hamming_prefix_bound(query_row@, row@, compared_bits(dim as nat, stride as nat));
    }
    dim as i128 - 2 * (hamming as i128)
}

/// The packed row `i` of a row-major buffer with rows of `stride` bytes.
pub open spec fn row_of(vectors: Seq<u8>, stride: nat, i: int) -> Seq<u8> {
    vectors.subrange(i * stride, i * stride + stride)
}

/// The similarity of the query to each of the first `count` rows.
pub open spec fn row_scores(
    dim: nat,
    stride: nat,
    count: nat,
    vectors: Seq<u8>,
    query: Seq<u8>,
) -> Seq<int> {
    Seq::new(count, |i: int| spec_similarity(dim, stride, query, row_of(vectors, stride, i)))
}

/// Row `i` ranks before row `j`: a higher score, or an equal score and an
/// earlier position.
pub open spec fn ranks_before(scores: Seq<int>, i: int, j: int) -> bool {
    scores[i] > scores[j] || (scores[i] == scores[j] && i < j)
}

/// The rank of row `i`: how many rows rank before it.
pub open spec fn rank(scores: Seq<int>, i: int) -> nat {
    Set::new(|j: int| 0 <= j < scores.len() && ranks_before(scores, j, i)).len()
}

/// Number of results of a top-`k` query over `count` rows.
pub open spec fn top_k_len(count: nat, k: nat) -> nat {
    if k < count {
        k
    } else {
        count
    }
}

/// The row of rank `r`, when some row has that rank.
pub open spec fn row_at_rank(scores: Seq<int>, r: int) -> int {
    choose|i: int| 0 <= i < scores.len() && rank(scores, i) == r
}

/// `hits` holds the best `k` rows: position `r` holds the row of rank `r`.
pub open spec fn is_top_k(scores: Seq<int>, ids: Seq<[u8; 16]>, k: nat, hits: Seq<Hit>) -> bool {
    &&& hits.len() == top_k_len(scores.len(), k)
    &&& forall|r: int|
        0 <= r < hits.len() ==> 0 <= #[trigger] row_at_rank(scores, r) < scores.len() && rank(
            scores,
            row_at_rank(scores, r),
        ) == r
    &&& forall|i: int|
        #![trigger rank(scores, i)]
        0 <= i < scores.len() && rank(scores, i) < hits.len() ==> {
            &&& hits[rank(scores, i) as int].id == ids[i]
            &&& hits[rank(scores, i) as int].score == scores[i]
        }
}

/// Facts about a selection of row positions that is sorted by rank and that
/// every unselected row ranks after.
proof fn lemma_rank_of_selection(scores: Seq<int>, sel: Seq<int>, k: nat)
    requires
        sel.len() == top_k_len(scores.len(), k),
        forall|a: int| 0 <= a < sel.len() ==> 0 <= #[trigger] sel[a] < scores.len(),
        forall|a: int, b: int|
            0 <= a < b < sel.len() ==> ranks_before(scores, #[trigger] sel[a], #[trigger] sel[b]),
        forall|j: int|
            0 <= j < scores.len() && !sel.contains(j) ==> sel.len() == k && forall|a: int|
                0 <= a < sel.len() ==> ranks_before(scores, #[trigger] sel[a], j),
    ensures
        forall|r: int| 0 <= r < sel.len() ==> rank(scores, #[trigger] sel[r]) == r,
        forall|j: int| 0 <= j < scores.len() && !sel.contains(j) ==> rank(scores, j) >= sel.len(),
{
    let n = scores.len() as int;
    lemma_int_range(0, n);
    assert(sel.no_duplicates()) by {
        assert forall|a: int, b: int| 0 <= a < sel.len() && 0 <= b < sel.len() && a != b implies sel[a]
            != sel[b] by {
            if a < b {
                assert(ranks_before(scores, sel[a], sel[b]));
            } else {
                assert(ranks_before(scores, sel[b], sel[a]));
            }
        }
    }
    assert forall|r: int| 0 <= r < sel.len() implies rank(scores, #[trigger] sel[r]) == r by {
        let x = sel[r];
        let better = Set::new(|j: int| 0 <= j < scores.len() && ranks_before(scores, j, x));
        let prefix = sel.take(r);
        assert(prefix.no_duplicates());
        prefix.unique_seq_to_set();
        assert forall|j: int| better.contains(j) implies prefix.to_set().contains(j) by {
            if sel.contains(j) {
                let a = choose|a: int| 0 <= a < sel.len() && sel[a] == j;
                if a >= r {
                    if a > r {
                        assert(ranks_before(scores, sel[r], sel[a]));
                    }
                    assert(false);
                }
                assert(prefix[a] == j);
            } else {
                assert(ranks_before(scores, sel[r], j));
                assert(false);
            }
        }
        assert forall|j: int| prefix.to_set().contains(j) implies better.contains(j) by {
            let a = choose|a: int| 0 <= a < prefix.len() && prefix[a] == j;
            assert(sel[a] == j);
            assert(ranks_before(scores, sel[a], sel[r]));
        }
        assert(better =~= prefix.to_set());
    }
    assert forall|j: int| 0 <= j < scores.len() && !sel.contains(j) implies rank(scores, j)
        >= sel.len() by {
        let better = Set::new(|i: int| 0 <= i < scores.len() && ranks_before(scores, i, j));
        sel.unique_seq_to_set();
        assert(better.subset_of(set_int_range(0, n)));
        lemma_len_subset(better, set_int_range(0, n));
        assert forall|i: int| sel.to_set().contains(i) implies better.contains(i) by {
            let a = choose|a: int| 0 <= a < sel.len() && sel[a] == i;
            assert(ranks_before(scores, sel[a], j));
        }
        lemma_len_subset(sel.to_set(), better);
    }
}

/// `sel` lists, best first, the rows among the first `i` that a top-`k`
/// scan keeps: rows in range, strictly ordered by rank, and every row left
/// out ranks after all of them (which only happens once `k` rows are kept).
spec fn selection_ok(scores: Seq<int>, sel: Seq<int>, i: int, k: nat) -> bool {
    &&& forall|a: int| 0 <= a < sel.len() ==> 0 <= #[trigger] sel[a] < i
    &&& forall|a: int, b: int|
        0 <= a < b < sel.len() ==> ranks_before(scores, #[trigger] sel[a], #[trigger] sel[b])
    &&& forall|j: int|
        0 <= j < i && !sel.contains(j) ==> sel.len() == k && forall|a: int|
            0 <= a < sel.len() ==> ranks_before(scores, #[trigger] sel[a], j)
}

/// A row that does not beat the last kept row leaves the selection as it is.
proof fn lemma_selection_skip(scores: Seq<int>, sel: Seq<int>, i: int, k: nat)
    requires
        0 <= i < scores.len(),
        selection_ok(scores, sel, i, k),
        sel.len() == k,
        k > 0,
        scores[i] <= scores[sel[k - 1]],
    ensures
        selection_ok(scores, sel, i + 1, k),
{
    assert forall|j: int| 0 <= j < i + 1 && !sel.contains(j) implies sel.len() == k && forall|a: int|
        0 <= a < sel.len() ==> ranks_before(scores, #[trigger] sel[a], j) by {
        if j == i {
            assert forall|a: int| 0 <= a < sel.len() implies ranks_before(
                scores,
                #[trigger] sel[a],
                j,
            ) by {
                if a < k - 1 {
                    assert(ranks_before(scores, sel[a], sel[k - 1]));
                }
            }
        }
    }
}

/// Inserting row `i` at its place `p` (after dropping the last kept row when
/// `k` rows are already kept) gives the selection over the first `i + 1` rows.
proof fn lemma_selection_insert(scores: Seq<int>, sel: Seq<int>, kept: Seq<int>, i: int, k: nat, p: int)
    requires
        0 <= i < scores.len(),
        selection_ok(scores, sel, i, k),
        sel.len() <= k,
        k > 0,
        sel.len() < k ==> kept == sel,
        sel.len() == k ==> kept == sel.drop_last() && scores[i] > scores[sel[k - 1]],
        0 <= p <= kept.len(),
        forall|a: int| 0 <= a < p ==> scores[#[trigger] kept[a]] >= scores[i],
        forall|a: int| p <= a < kept.len() ==> scores[#[trigger] kept[a]] < scores[i],
    ensures
        selection_ok(scores, kept.insert(p, i), i + 1, k),
{
    let ns = kept.insert(p, i);
    assert forall|a: int, b: int| 0 <= a < b < ns.len() implies ranks_before(
        scores,
        #[trigger] ns[a],
        #[trigger] ns[b],
    ) by {
        if b < p {
            assert(ranks_before(scores, sel[a], sel[b]));
        } else if b == p {
        } else if a < p {
            assert(ranks_before(scores, sel[a], sel[b - 1]));
        } else if a == p {
        } else {
            assert(ranks_before(scores, sel[a - 1], sel[b - 1]));
        }
    }
    assert forall|j: int| 0 <= j < i + 1 && !ns.contains(j) implies ns.len() == k && forall|a: int|
        0 <= a < ns.len() ==> ranks_before(scores, #[trigger] ns[a], j) by {
        if j != i {
            if sel.contains(j) {
                let c = choose|c: int| 0 <= c < sel.len() && sel[c] == j;
                if c < kept.len() {
                    if c < p {
                        assert(ns[c] == j);
                    } else {
                        assert(ns[c + 1] == j);
                    }
                    assert(false);
                }
                assert(c == k - 1);
                assert forall|a: int| 0 <= a < ns.len() implies ranks_before(
                    scores,
                    #[trigger] ns[a],
                    j,
                ) by {
                    if a == p {
                    } else if a < p {
                        assert(ranks_before(scores, sel[a], sel[c]));
                    } else {
                        assert(ranks_before(scores, sel[a - 1], sel[c]));
                    }
                }
            } else {
                assert forall|a: int| 0 <= a < ns.len() implies ranks_before(
                    scores,
                    #[trigger] ns[a],
                    j,
                ) by {
                    if a == p {
                        assert(ranks_before(scores, sel[k - 1], j));
                    } else if a < p {
                        assert(ranks_before(scores, sel[a], j));
                    } else {
                        assert(ranks_before(scores, sel[a - 1], j));
                    }
                }
            }
        } else {
            assert(ns[p] == i);
        }
    }
}

/// The `k` rows most similar to the packed query, best first; equal scores
/// keep the rows' order.
pub fn top_k(
    dim: usize,
    stride: usize,
    count: usize,
    ids: &[[u8; 16]],
    vectors: &[u8],
    query_packed: &[u8],
    k: usize,
) -> (hits: Vec<Hit>)
    requires
        count > 0 && k > 0 ==> {
            &&& count <= ids@.len()
            &&& count * stride <= vectors@.len()
            &&& 8 * words_read(dim as nat, stride as nat) <= query_packed@.len()
        },
    ensures
        is_top_k(
            row_scores(dim as nat, stride as nat, count as nat, vectors@, query_packed@),
            ids@.take(count as int),
            k as nat,
            hits@,
        ),
        forall|a: int, b: int|
            0 <= a < b < hits@.len() ==> #[trigger] hits@[a].score >= #[trigger] hits@[b].score,
        hits@.len() == if k < count {
            k
        } else {
            count
        },
{
    let ghost scores = row_scores(dim as nat, stride as nat, count as nat, vectors@, query_packed@);
    if count == 0 || k == 0 {
        let hits: Vec<Hit> = Vec::new();
        return hits;
    }
    let ghost k_asked = k;
    let k = if k < count { k } else { count };
    let mut hits: Vec<Hit> = Vec::with_capacity(k);
    let ghost mut sel: Seq<int> = Seq::empty();
    let mut i: usize = 0;
    while i < count
        invariant
            0 < k <= count,
            count <= ids@.len(),
            count * stride <= vectors@.len(),
            8 * words_read(dim as nat, stride as nat) <= query_packed@.len(),
            scores == row_scores(dim as nat, stride as nat, count as nat, vectors@, query_packed@),
            i <= count,
            hits@.len() == sel.len(),
            sel.len() == (if i < k { i as nat } else { k as nat }),
            selection_ok(scores, sel, i as int, k as nat),
            forall|a: int|
                0 <= a < sel.len() ==> {
                    &&& (#[trigger] hits@[a]).id == ids@[sel[a]]
                    &&& hits@[a].score == scores[sel[a]]
                },
        decreases count - i,
    {
        let vector_bytes = vectors.len();
        assert(i * stride + stride <= count * stride) by (nonlinear_arith)
            requires
                i < count,
        ;
        assert(i * stride + stride <= vector_bytes);
        let row_start = i * stride;
        let row = &vectors[row_start..row_start + stride];
        let score = hamming_similarity(dim, query_packed, row, stride);
        assert(score == scores[i as int]);
        let id = ids[i];
        let len = hits.len();
        if len < k || score > hits[k - 1].score {
            let ghost old_sel = sel;
            if len == k {
                hits.pop();
                proof {
                    sel = sel.drop_last();
                }
            }
            let mut p: usize = 0;
            while p < hits.len() && hits[p].score >= score
                invariant
                    p <= hits@.len(),
                    forall|a: int| 0 <= a < p ==> #[trigger] hits@[a].score >= score,
                decreases hits@.len() - p,
            {
                p = p + 1;
            }
            proof {
                assert forall|a: int| p <= a < hits@.len() implies #[trigger] hits@[a].score
                    < score by {
                    if a > p {
                        assert(ranks_before(scores, old_sel[p as int], old_sel[a]));
                    }
                }
                assert forall|a: int| 0 <= a < p implies scores[#[trigger] sel[a]] >= scores[i as int] by {
                    assert(hits@[a].score >= score);
                }
                assert forall|a: int| p <= a < sel.len() implies scores[#[trigger] sel[a]] < scores[i as int] by {
                    assert(hits@[a].score < score);
                }
                lemma_selection_insert(scores, old_sel, sel, i as int, k as nat, p as int);
            }
            hits.insert(p, Hit { id, score });
            proof {
                sel = sel.insert(p as int, i as int);
            }
        } else {
            proof {
                lemma_selection_skip(scores, sel, i as int, k as nat);
            }
        }
        i = i + 1;
    }
    proof {
        lemma_rank_of_selection(scores, sel, k as nat);
        let ids_c = ids@.take(count as int);
        assert forall|j: int|
            #![trigger rank(scores, j)]
            0 <= j < scores.len() && rank(scores, j) < hits@.len() implies {
            &&& hits@[rank(scores, j) as int].id == ids_c[j]
            &&& hits@[rank(scores, j) as int].score == scores[j]
        } by {
            assert(sel.contains(j));
            let a = choose|a: int| 0 <= a < sel.len() && sel[a] == j;
            assert(rank(scores, sel[a]) == a);
        }
        assert forall|a: int, b: int| 0 <= a < b < hits@.len() implies #[trigger] hits@[a].score
            >= #[trigger] hits@[b].score by {
            assert(ranks_before(scores, sel[a], sel[b]));
        }
        assert forall|r: int| 0 <= r < hits@.len() implies 0 <= #[trigger] row_at_rank(scores, r)
            < scores.len() && rank(scores, row_at_rank(scores, r)) == r by {
            assert(0 <= sel[r] < scores.len());
            assert(rank(scores, sel[r]) == r);
        }
        assert(is_top_k(scores, ids_c, k_asked as nat, hits@));
    }
    hits
}

/// Number of positions `i < n` where the sign `nonneg[i]` disagrees with bit
/// `i` of the packed row.
pub open spec fn sign_mismatches(nonneg: Seq<bool>, row: Seq<u8>, n: nat) -> nat
    decreases n,
{
    if n == 0 {
        0
    } else {
        sign_mismatches(nonneg, row, (n - 1) as nat) + if nonneg[n - 1] != bit_at(row, n - 1) {
            1nat
        } else {
            0nat
        }
    }
}

/// Reference score of a row against an unpacked query, one dimension at a
/// time: `dim - 2 * (number of sign disagreements)`.
pub fn naive_score_1bit(dim: usize, nonneg: &[bool], row: &[u8]) -> (score: i128)
    requires
        dim <= nonneg@.len(),
        dim <= 8 * row@.len(),
    ensures
        score == dim - 2 * sign_mismatches(nonneg@, row@, dim as nat),
{
    let mut hamming: usize = 0;
    let mut i: usize = 0;
    while i < dim
        invariant
            i <= dim,
            dim <= nonneg@.len(),
            dim <= 8 * row@.len(),
            hamming == sign_mismatches(nonneg@, row@, i as nat),
            hamming <= i,
        decreases dim - i,
    {
        let q_pos = nonneg[i];
        let r_pos = crate::pack::get_bit(row, i);
        if q_pos != r_pos {
            hamming = hamming + 1;
        }
        i = i + 1;
    }
    dim as i128 - 2 * (hamming as i128)
}

proof fn lemma_hamming_self(a: Seq<u8>, n: nat)
    ensures
        hamming_prefix(a, a, n) == 0,
    decreases n,
{
    if n > 0 {
        lemma_hamming_self(a, (n - 1) as nat);
    }
}

proof fn lemma_hamming_symmetric(a: Seq<u8>, b: Seq<u8>, n: nat)
    ensures
        hamming_prefix(a, b, n) == hamming_prefix(b, a, n),
    decreases n,
{
    if n > 0 {
        lemma_hamming_symmetric(a, b, (n - 1) as nat);
    }
}

proof fn lemma_hamming_agree(a: Seq<u8>, b: Seq<u8>, c: Seq<u8>, n: nat)
    requires
        forall|t: int| 0 <= t < n ==> #[trigger] bit_at(a, t) == bit_at(c, t),
    ensures
        hamming_prefix(a, b, n) == hamming_prefix(c, b, n),
    decreases n,
{
    if n > 0 {
        lemma_hamming_agree(a, b, c, (n - 1) as nat);
        assert(bit_at(a, n - 1) == bit_at(c, n - 1));
    }
}

proof fn lemma_hamming_vs_signs(q: Seq<u8>, nonneg: Seq<bool>, row: Seq<u8>, n: nat)
    requires
        forall|t: int| 0 <= t < n ==> #[trigger] bit_at(q, t) == nonneg[t],
    ensures
        hamming_prefix(q, row, n) == sign_mismatches(nonneg, row, n),
    decreases n,
{
    if n > 0 {
        lemma_hamming_vs_signs(q, nonneg, row, (n - 1) as nat);
        assert(bit_at(q, n - 1) == nonneg[n - 1]);
    }
}

/// A packed row is as similar as possible to itself: its score is `dim`.
pub proof fn lemma_self_similarity(dim: nat, stride: nat, row: Seq<u8>)
    ensures
        spec_similarity(dim, stride, row, row) == dim,
{
    lemma_hamming_self(row, compared_bits(dim, stride));
}

/// Similarity does not depend on which row is the query.
pub proof fn lemma_similarity_symmetric(dim: nat, stride: nat, a: Seq<u8>, b: Seq<u8>)
    ensures
        spec_similarity(dim, stride, a, b) == spec_similarity(dim, stride, b, a),
{
    lemma_hamming_symmetric(a, b, compared_bits(dim, stride));
}

/// Every similarity lies between `-dim` and `dim`.
pub proof fn lemma_similarity_bounds(dim: nat, stride: nat, a: Seq<u8>, b: Seq<u8>)
    ensures
        -(dim as int) <= spec_similarity(dim, stride, a, b) <= dim,
{
    lemma_hamming_prefix_bound(a, b, compared_bits(dim, stride));
}

/// When the row's words hold all `dim` bits and the query was packed from
/// the signs `nonneg`, the word-wise score equals the one-dimension-at-a-time
/// score `dim - 2 * (sign disagreements)`.
pub proof fn lemma_packed_score_matches_naive(
    dim: nat,
    stride: nat,
    query_row: Seq<u8>,
    nonneg: Seq<bool>,
    row: Seq<u8>,
)
    requires
        dim <= 64 * (stride / 8),
        forall|t: int| 0 <= t < dim ==> #[trigger] bit_at(query_row, t) == nonneg[t],
    ensures
        spec_similarity(dim, stride, query_row, row) == dim - 2 * sign_mismatches(nonneg, row, dim),
{
    lemma_hamming_vs_signs(query_row, nonneg, row, dim);
}

/// Two queries that agree on the compared bits score every row alike.
pub proof fn lemma_similarity_depends_on_compared_bits(
    dim: nat,
    stride: nat,
    a: Seq<u8>,
    c: Seq<u8>,
    row: Seq<u8>,
)
    requires
        forall|t: int| 0 <= t < compared_bits(dim, stride) ==> #[trigger] bit_at(a, t) == bit_at(c, t),
    ensures
        spec_similarity(dim, stride, a, row) == spec_similarity(dim, stride, c, row),
{
    lemma_hamming_agree(a, row, c, compared_bits(dim, stride));
}

proof fn lemma_exists_first(scores: Seq<int>, n: nat) -> (m: int)
    requires
        0 < n <= scores.len(),
    ensures
        0 <= m < n,
        forall|j: int| 0 <= j < n && j != m ==> ranks_before(scores, m, j),
    decreases n,
{
    if n == 1 {
        0
    } else {
        let m0 = lemma_exists_first(scores, (n - 1) as nat);
        let last = n - 1;
        if ranks_before(scores, last, m0) {
            assert forall|j: int| 0 <= j < n && j != last implies ranks_before(scores, last, j) by {
                if j != m0 {
                    assert(ranks_before(scores, m0, j));
                }
            }
            last
        } else {
            m0
        }
    }
}

/// The first hit of a top-`k` result scores at least as high as every row.
pub proof fn lemma_top_hit_is_best(scores: Seq<int>, ids: Seq<[u8; 16]>, k: nat, hits: Seq<Hit>)
    requires
        is_top_k(scores, ids, k, hits),
        hits.len() > 0,
    ensures
        forall|i: int| 0 <= i < scores.len() ==> hits[0].score >= #[trigger] scores[i],
{
    let m = lemma_exists_first(scores, scores.len());
    let better = Set::new(|j: int| 0 <= j < scores.len() && ranks_before(scores, j, m));
    assert forall|j: int| better.contains(j) implies false by {
        if j != m {
            assert(ranks_before(scores, m, j));
        }
    }
    assert(better =~= Set::<int>::empty());
    assert(rank(scores, m) == 0);
    assert(hits[rank(scores, m) as int].score == scores[m]);
    assert forall|i: int| 0 <= i < scores.len() implies hits[0].score >= #[trigger] scores[i] by {
        if i != m {
            assert(ranks_before(scores, m, i));
        }
    }
}

/// If some row holds exactly the query's compared bits, the best hit scores
/// `dim`, the highest possible score.
pub proof fn lemma_exact_row_is_top_score(
    dim: nat,
    stride: nat,
    count: nat,
    vectors: Seq<u8>,
    query: Seq<u8>,
    ids: Seq<[u8; 16]>,
    k: nat,
    hits: Seq<Hit>,
    i: int,
)
    requires
        is_top_k(row_scores(dim, stride, count, vectors, query), ids, k, hits),
        k > 0,
        0 <= i < count,
        forall|t: int|
            0 <= t < compared_bits(dim, stride) ==> #[trigger] bit_at(row_of(vectors, stride, i), t)
                == bit_at(query, t),
    ensures
        hits[0].score == dim,
{
    let scores = row_scores(dim, stride, count, vectors, query);
    let row = row_of(vectors, stride, i);
    lemma_similarity_depends_on_compared_bits(dim, stride, query, row, row);
    lemma_self_similarity(dim, stride, row);
    lemma_top_hit_is_best(scores, ids, k, hits);
    assert(scores[i] == dim);
    let m = lemma_exists_first(scores, count);
    let better = Set::new(|j: int| 0 <= j < scores.len() && ranks_before(scores, j, m));
    assert forall|j: int| better.contains(j) implies false by {
        if j != m {
            assert(ranks_before(scores, m, j));
        }
    }
    assert(better =~= Set::<int>::empty());
    assert(rank(scores, m) == 0);
    assert(hits[0].score == scores[m]);
    assert(scores[m] == spec_similarity(dim, stride, query, row_of(vectors, stride, m)));
    lemma_similarity_bounds(dim, stride, query, row_of(vectors, stride, m));
}

/// The score of each of the first `count` rows against an unpacked query:
/// `dim - 2 * (number of sign disagreements)`.
pub open spec fn sign_scores(
    dim: nat,
    stride: nat,
    count: nat,
    vectors: Seq<u8>,
    nonneg: Seq<bool>,
) -> Seq<int> {
    Seq::new(
        count,
        |i: int| dim - 2 * sign_mismatches(nonneg, row_of(vectors, stride, i), dim),
    )
}

/// Scoring rows against a query packed from `nonneg` gives the
/// one-dimension-at-a-time scores, when each row's words hold all `dim` bits.
pub proof fn lemma_row_scores_are_sign_scores(
    dim: nat,
    stride: nat,
    count: nat,
    vectors: Seq<u8>,
    query_row: Seq<u8>,
    nonneg: Seq<bool>,
)
    requires
        dim <= 64 * (stride / 8),
        forall|t: int| 0 <= t < dim ==> #[trigger] bit_at(query_row, t) == nonneg[t],
    ensures
        row_scores(dim, stride, count, vectors, query_row) == sign_scores(
            dim,
            stride,
            count,
            vectors,
            nonneg,
        ),
{
    assert forall|i: int| 0 <= i < count implies #[trigger] row_scores(
        dim,
        stride,
        count,
        vectors,
        query_row,
    )[i] == sign_scores(dim, stride, count, vectors, nonneg)[i] by {
        lemma_packed_score_matches_naive(dim, stride, query_row, nonneg, row_of(vectors, stride, i));
    }
    assert(row_scores(dim, stride, count, vectors, query_row) =~= sign_scores(
        dim,
        stride,
        count,
        vectors,
        nonneg,
    ));
}

/// Every hit of a top-`k` result is one of the rows, with that row's id and
/// score: hit `r` is the row of rank `r`.
pub proof fn lemma_hits_are_rows(scores: Seq<int>, ids: Seq<[u8; 16]>, k: nat, hits: Seq<Hit>)
    requires
        is_top_k(scores, ids, k, hits),
    ensures
        forall|r: int|
            0 <= r < hits.len() ==> {
                let i = #[trigger] row_at_rank(scores, r);
                &&& 0 <= i < scores.len()
                &&& hits[r].id == ids[i]
                &&& hits[r].score == scores[i]
            },
{
    assert forall|r: int| 0 <= r < hits.len() implies {
        let i = #[trigger] row_at_rank(scores, r);
        &&& 0 <= i < scores.len()
        &&& hits[r].id == ids[i]
        &&& hits[r].score == scores[i]
    } by {
        let i = row_at_rank(scores, r);
        assert(rank(scores, i) == r);
    }
}

/// A top-`k` result has exactly `k` hits, or one per row when there are
/// fewer than `k` rows.
pub proof fn lemma_top_k_count(scores: Seq<int>, ids: Seq<[u8; 16]>, k: nat, hits: Seq<Hit>)
    requires
        is_top_k(scores, ids, k, hits),
    ensures
        k <= scores.len() ==> hits.len() == k,
        scores.len() <= k ==> hits.len() == scores.len(),
{
}

} // verus!
