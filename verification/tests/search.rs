use babyvector::pack::{get_bit, pack_1bit_row, stride_bytes, words_per_row};
use babyvector::search::{hamming_similarity, naive_score_1bit, top_k};
use rand::Rng;

fn signs(v: &[f32]) -> Vec<bool> {
    v.iter().map(|x| *x >= 0.0).collect()
}

fn verify_against_naive(dim: usize, stride: usize, query_float: &[f32], query_packed: &[u8], row: &[u8]) -> bool {
    let fast = hamming_similarity(dim, query_packed, row, stride);
    let naive = naive_score_1bit(dim, &signs(query_float), row);
    fast == naive
}

#[test]
fn one_bit_hamming_matches_naive() {
    let dim = 32;
    let stride = stride_bytes(dim);
    let mut a = vec![0u8; stride];
    let mut b = vec![0u8; stride];
    let va: Vec<f32> = (0..dim).map(|i| if i % 3 == 0 { 1.0 } else { -1.0 }).collect();
    let vb: Vec<f32> = (0..dim).map(|i| if i % 5 == 0 { 1.0 } else { -1.0 }).collect();
    pack_1bit_row(dim, &signs(&va), &mut a);
    pack_1bit_row(dim, &signs(&vb), &mut b);
    let mut query = vec![0u8; stride];
    pack_1bit_row(dim, &signs(&va), &mut query);
    assert!(verify_against_naive(dim, stride, &va, &query, &b));
    assert_eq!(hamming_similarity(dim, &a, &a, stride), dim as i128);
    assert_eq!(hamming_similarity(dim, &a, &query, stride), dim as i128);
}

#[test]
fn top_k_matches_naive_bruteforce() {
    let mut rng = rand::rng();
    let dim = 16;
    let stride = stride_bytes(dim);
    let n = 40;
    let mut ids = Vec::new();
    let mut vectors = Vec::new();
    let mut floats = Vec::new();
    for i in 0..n {
        ids.push([i as u8; 16]);
        let row_vec: Vec<f32> = (0..dim).map(|_| rng.random_range(-1.0..1.0)).collect();
        let mut row = vec![0u8; stride];
        pack_1bit_row(dim, &signs(&row_vec), &mut row);
        vectors.extend_from_slice(&row);
        floats.push(row_vec);
    }
    let query: Vec<f32> = (0..dim).map(|_| rng.random_range(-1.0..1.0)).collect();
    let mut query_packed = vec![0u8; stride];
    pack_1bit_row(dim, &signs(&query), &mut query_packed);

    let fast = top_k(dim, stride, n, &ids, &vectors, &query_packed, 5);

    let mut naive: Vec<(u8, i128)> = ids
        .iter()
        .enumerate()
        .map(|(i, row_id)| {
            let start = i * stride;
            let row = &vectors[start..start + stride];
            let score = naive_score_1bit(dim, &signs(&query), row);
            (row_id[0], score)
        })
        .collect();
    naive.sort_by(|a, b| b.1.cmp(&a.1));
    naive.truncate(5);

    assert_eq!(fast.len(), naive.len());
    for (hit, (nid, score)) in fast.iter().zip(naive.iter()) {
        assert_eq!(hit.id[0], *nid);
        assert_eq!(hit.score, *score);
    }
}

#[test]
fn stride_rounds_up_to_whole_words() {
    assert_eq!(stride_bytes(0), 0);
    assert_eq!(stride_bytes(1), 8);
    assert_eq!(stride_bytes(8), 8);
    assert_eq!(stride_bytes(64), 8);
    assert_eq!(stride_bytes(65), 16);
    assert_eq!(stride_bytes(128), 16);
    assert_eq!(stride_bytes(300), 40);
    assert_eq!(words_per_row(40), 5);
    assert_eq!(stride_bytes(usize::MAX), usize::MAX / 64 * 8 + 8);
}

#[test]
fn packing_sets_bits_least_significant_first() {
    let mut out = vec![0xffu8; 8];
    pack_1bit_row(10, &[true, false, true, false, false, false, false, false, false, true], &mut out);
    assert_eq!(out, vec![0b0000_0101, 0b0000_0010, 0, 0, 0, 0, 0, 0]);
    assert!(get_bit(&out, 0));
    assert!(!get_bit(&out, 1));
    assert!(get_bit(&out, 9));
    assert!(!get_bit(&out, 10));
}

#[test]
fn similarity_reads_little_endian_words() {
    // Row bit 8 lives in byte 1: a swapped byte order would compare the wrong bits.
    let dim = 16;
    let q = vec![0u8, 1, 0, 0, 0, 0, 0, 0];
    let r = vec![0u8; 8];
    assert_eq!(hamming_similarity(dim, &q, &r, 8), 14);
    assert_eq!(hamming_similarity(dim, &r, &q, 8), 14);
    // Bits past `dim` are not compared.
    let q2 = vec![0u8, 0, 0xff, 0, 0, 0, 0, 0];
    assert_eq!(hamming_similarity(dim, &q2, &r, 8), 16);
    // Second word counts too.
    let q3 = vec![0u8, 0, 0, 0, 0, 0, 0, 0, 0xff, 0, 0, 0, 0, 0, 0, 0];
    let r3 = vec![0u8; 16];
    assert_eq!(hamming_similarity(72, &q3, &r3, 16), 72 - 16);
    // All 64 bits of a full word differ.
    let q4 = vec![0xffu8; 8];
    assert_eq!(hamming_similarity(64, &q4, &r, 8), -64);
}

#[test]
fn similarity_ignores_bits_beyond_the_row_words() {
    // dim larger than the words of the row: only 64 * words bits compared.
    let q = vec![0xffu8; 8];
    let r = vec![0u8; 8];
    assert_eq!(hamming_similarity(100, &q, &r, 8), 100 - 128);
}

#[test]
fn top_k_orders_by_score_then_position() {
    let dim = 8;
    let stride = 8;
    let ids: Vec<[u8; 16]> = (0..5u8).map(|i| [i; 16]).collect();
    let mut vectors = vec![0u8; 5 * stride];
    vectors[0] = 0b1111_0000; // score 0
    vectors[8] = 0; // score 8
    vectors[16] = 0b0000_0001; // score 6
    vectors[24] = 0; // score 8
    vectors[32] = 0b1111_1111; // score -8
    let query = vec![0u8; 8];
    let hits = top_k(dim, stride, 5, &ids, &vectors, &query, 3);
    let got: Vec<(u8, i128)> = hits.iter().map(|h| (h.id[0], h.score)).collect();
    assert_eq!(got, vec![(1, 8), (3, 8), (2, 6)]);
    let all = top_k(dim, stride, 5, &ids, &vectors, &query, 10);
    let got: Vec<(u8, i128)> = all.iter().map(|h| (h.id[0], h.score)).collect();
    assert_eq!(got, vec![(1, 8), (3, 8), (2, 6), (0, 0), (4, -8)]);
    assert!(top_k(dim, stride, 5, &ids, &vectors, &query, 0).is_empty());
    assert!(top_k(dim, stride, 0, &ids, &vectors, &query, 3).is_empty());
}

#[test]
fn exact_row_is_top_hit_with_score_dim() {
    let dim = 16;
    let stride = stride_bytes(dim);
    let ids: Vec<[u8; 16]> = (0..3u8).map(|i| [i; 16]).collect();
    let mut vectors = Vec::new();
    for i in 0..3 {
        let mut row = vec![0u8; stride];
        let s: Vec<bool> = (0..dim).map(|j| (j + i) % 3 == 0).collect();
        pack_1bit_row(dim, &s, &mut row);
        vectors.extend_from_slice(&row);
    }
    let query = vectors[stride..2 * stride].to_vec();
    let hits = top_k(dim, stride, 3, &ids, &vectors, &query, 2);
    assert_eq!(hits[0].id, [1u8; 16]);
    assert_eq!(hits[0].score, dim as i128);
    assert!(hits[0].score >= hits[1].score);
}
