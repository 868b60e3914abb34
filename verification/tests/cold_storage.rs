use primd::bitvec::select_bit_in_u64;
use primd::dwm_cold_tier::{decode, encode};
use primd::random_indexing::{BaseVector, Vocabulary, DEFAULT_D, DEFAULT_SEED, DEFAULT_T};
use primd::{
    BinarySignature, BitVector, ColdTier, DwmColdTier, EventId, RandomIndexer, SignatureDwm,
};
use rand::rngs::StdRng;
use rand::seq::SliceRandom;
use rand::{Rng, SeedableRng};

/// Build a BitVector from a slice of booleans for easy testing.
fn from_bools(bits: &[bool]) -> BitVector {
    let n = bits.len();
    let n_words = n.div_ceil(64);
    let mut words = vec![0u64; n_words];
    for (i, &b) in bits.iter().enumerate() {
        if b {
            words[i / 64] |= 1u64 << (i % 64);
        }
    }
    BitVector::new(words, n)
}

/// Naive reference implementation for cross-checking.
fn naive_rank_1(bits: &[bool], i: usize) -> usize {
    bits.iter().take(i).filter(|&&b| b).count()
}
fn naive_select_1(bits: &[bool], j: usize) -> Option<usize> {
    if j == 0 {
        return None;
    }
    let mut count = 0;
    for (i, &b) in bits.iter().enumerate() {
        if b {
            count += 1;
            if count == j {
                return Some(i);
            }
        }
    }
    None
}

#[test]
fn empty_bitvec() {
    let bv = from_bools(&[]);
    assert_eq!(bv.len(), 0);
    assert_eq!(bv.ones(), 0);
    assert_eq!(bv.rank_1(0), 0);
    assert!(bv.select_1(1).is_none());
}

#[test]
fn single_bit() {
    let bv = from_bools(&[true]);
    assert_eq!(bv.len(), 1);
    assert_eq!(bv.ones(), 1);
    assert_eq!(bv.rank_1(0), 0);
    assert_eq!(bv.rank_1(1), 1);
    assert_eq!(bv.select_1(1), Some(0));
    assert_eq!(bv.select_1(2), None);
}

#[test]
fn alternating_bits() {
    let bits: Vec<bool> = (0..200).map(|i| i % 2 == 0).collect();
    let bv = from_bools(&bits);
    for i in 0..=bits.len() {
        assert_eq!(bv.rank_1(i), naive_rank_1(&bits, i), "rank_1 at {i}");
    }
    for j in 1..=bv.ones() {
        assert_eq!(bv.select_1(j), naive_select_1(&bits, j), "select_1 at {j}");
    }
}

#[test]
fn rank_select_random_large() {
    let mut rng = StdRng::seed_from_u64(0xBEEF);
    let n = 5_000;
    let bits: Vec<bool> = (0..n).map(|_| rng.random_bool(0.5)).collect();
    let bv = from_bools(&bits);

    // Spot-check rank at random positions.
    for _ in 0..200 {
        let i = rng.random_range(0..=n);
        assert_eq!(bv.rank_1(i), naive_rank_1(&bits, i));
    }

    // Spot-check select for random j.
    let ones = bv.ones();
    for _ in 0..200 {
        let j = rng.random_range(1..=ones);
        assert_eq!(bv.select_1(j), naive_select_1(&bits, j));
    }
}

#[test]
fn rank_clamps_past_len() {
    let bits = vec![true, false, true, true, false];
    let bv = from_bools(&bits);
    assert_eq!(bv.rank_1(5), 3);
    assert_eq!(bv.rank_1(100), 3); // clamps to total ones
}

#[test]
fn rank_zero_consistent() {
    let bits = vec![true, false, true, true, false, false, true];
    let bv = from_bools(&bits);
    for i in 0..=bits.len() {
        assert_eq!(bv.rank_0(i) + bv.rank_1(i), i);
    }
}

#[test]
fn select_zero_works() {
    let bits = vec![false, true, false, true, false, true, false];
    let bv = from_bools(&bits);
    assert_eq!(bv.select_0(1), Some(0));
    assert_eq!(bv.select_0(2), Some(2));
    assert_eq!(bv.select_0(3), Some(4));
    assert_eq!(bv.select_0(4), Some(6));
    assert_eq!(bv.select_0(5), None);
}


#[test]
fn select_in_u64_works() {
    // Bits set at positions 5, 13, 27, 40
    let word = (1u64 << 5) | (1u64 << 13) | (1u64 << 27) | (1u64 << 40);
    assert_eq!(select_bit_in_u64(word, 1), 5);
    assert_eq!(select_bit_in_u64(word, 2), 13);
    assert_eq!(select_bit_in_u64(word, 3), 27);
    assert_eq!(select_bit_in_u64(word, 4), 40);
}

#[test]
fn bitvec_serde_round_trip() {
    let bits: Vec<bool> = (0..500).map(|i| i % 3 == 0).collect();
    let bv = from_bools(&bits);
    let restored = BitVector::new(bv.words().to_vec(), bv.len());
    assert_eq!(restored.len(), bv.len());
    assert_eq!(restored.ones(), bv.ones());
    for i in 0..=bits.len() {
        assert_eq!(restored.rank_1(i), bv.rank_1(i));
    }
    assert_eq!(restored.block_ranks(), bv.block_ranks());
    assert_eq!(restored.subblock_ranks(), bv.subblock_ranks());
}

#[test]
fn rank_at_the_end_of_a_full_word() {
    let bv = from_bools(&[true; 64]);
    assert_eq!(bv.rank_1(64), 64);
    let two = from_bools(&[true; 128]);
    assert_eq!(two.rank_1(128), 128);
    assert_eq!(two.rank_1(1000), 128);
}

#[test]
fn rank_and_select_undo_each_other() {
    let bits: Vec<bool> = (0..1500).map(|i| i % 7 == 3 || i > 1100).collect();
    let bv = BitVector::from_bits(&bits);
    assert_eq!(bv.zeros() + bv.ones(), 1500);
    for j in 1..=bv.ones() {
        let p = bv.select_1(j).unwrap();
        assert!(bv.get(p));
        assert_eq!(bv.rank_1(p), j - 1);
        assert_eq!(bv.rank_1(p + 1), j);
    }
    for j in 1..=bv.zeros() {
        let p = bv.select_0(j).unwrap();
        assert!(!bv.get(p));
        assert_eq!(bv.rank_0(p + 1), j);
    }
    assert_eq!(bv.select_1(0), None);
    assert_eq!(bv.select_0(bv.zeros() + 1), None);
}

#[test]
fn rank_tables_count_from_the_start_and_within_blocks() {
    let bv = from_bools(&[true; 600]);
    assert_eq!(bv.block_ranks(), &[0u32, 512, 600][..]);
    assert_eq!(
        bv.subblock_ranks(),
        &[0u16, 64, 128, 192, 256, 320, 384, 448, 0, 64][..]
    );
}

fn sig(bits: &[usize]) -> BinarySignature {
    let mut out = [0u8; 32];
    for &b in bits {
        out[b / 8] |= 1u8 << (b % 8);
    }
    BinarySignature(out)
}

#[test]
fn empty_dwm() {
    let dwm = SignatureDwm::empty();
    assert!(dwm.is_empty());
    assert_eq!(dwm.len(), 0);
    assert!(dwm.get(0).is_none());
    assert!(dwm.nearest(&sig(&[0]), 5).is_empty());
}

#[test]
fn build_and_get_round_trip() {
    let sigs = vec![sig(&[0, 10, 20]), sig(&[5, 15, 25]), sig(&[100, 200])];
    let values = vec![100, 200, 300];
    let dwm = SignatureDwm::build(&sigs, values.clone());

    assert_eq!(dwm.len(), 3);
    for i in 0..3 {
        assert_eq!(dwm.get(i), Some(sigs[i]));
        assert_eq!(dwm.value(i), Some(values[i]));
    }
    assert!(dwm.get(3).is_none());
}

#[test]
fn hamming_distance_matches_direct() {
    let sigs = vec![sig(&[0, 1, 2]), sig(&[10, 11, 12]), sig(&[100, 101])];
    let dwm = SignatureDwm::build(&sigs, vec![0, 1, 2]);
    let q = sig(&[0, 1, 2, 50]);
    for (i, expected) in sigs.iter().enumerate() {
        assert_eq!(
            dwm.hamming_distance(&q, i),
            q.hamming_distance(expected),
            "mismatch at index {i}",
        );
    }
}

#[test]
fn nearest_returns_sorted_top_k() {
    let sigs = vec![
        sig(&[0, 1, 2, 3, 4]),
        sig(&[100, 101, 102]),
        sig(&[200, 201]),
        sig(&[0, 1, 2, 3]),
    ];
    let dwm = SignatureDwm::build(&sigs, vec![10, 20, 30, 40]);
    let q = sig(&[0, 1, 2, 3, 4]);

    let hits = dwm.nearest(&q, 2);
    assert_eq!(hits.len(), 2);
    // sigs[0] is identical to q (distance 0); sigs[3] differs by
    // 1 bit (bit 4 not set).
    assert_eq!(hits[0], (0, 10));
    assert_eq!(hits[1], (1, 40));
}

#[test]
fn within_radius_filters_correctly() {
    let sigs = vec![
        sig(&[0]),
        sig(&[1]),
        sig(&[0, 1]),
        sig(&[100, 101, 102, 103]),
    ];
    let dwm = SignatureDwm::build(&sigs, vec![10, 20, 30, 40]);
    let q = sig(&[0]);
    let hits = dwm.within_radius(&q, 2);
    // Distances to query (sig with bit 0 set):
    //   sigs[0]: 0
    //   sigs[1]: 2 (bit 0 vs bit 1)
    //   sigs[2]: 1 (extra bit 1)
    //   sigs[3]: 5 (no overlap with query)
    // Within radius 2: sigs[0], sigs[1], sigs[2]
    assert_eq!(hits.len(), 3);
    assert_eq!(hits[0].0, 0);
    assert_eq!(hits[1].0, 1);
    assert_eq!(hits[2].0, 2);
}

#[test]
fn push_then_query_without_compact() {
    let mut dwm = SignatureDwm::empty();
    dwm.push(sig(&[0, 1, 2]), 1);
    dwm.push(sig(&[10, 11, 12]), 2);
    // No compact yet — entries live in tail, but queries still
    // include them.
    assert_eq!(dwm.len(), 2);
    assert_eq!(dwm.pending_tail(), 2);
    let q = sig(&[0, 1, 2]);
    let hits = dwm.nearest(&q, 2);
    assert_eq!(hits[0], (0, 1));
}

#[test]
fn compact_folds_tail_into_layers() {
    let mut dwm = SignatureDwm::build(&[sig(&[0, 1])], vec![100]);
    dwm.push(sig(&[10, 11]), 200);
    dwm.push(sig(&[20, 21]), 300);
    assert_eq!(dwm.pending_tail(), 2);

    dwm.compact();
    assert_eq!(dwm.pending_tail(), 0);
    assert_eq!(dwm.len(), 3);
    assert_eq!(dwm.get(0), Some(sig(&[0, 1])));
    assert_eq!(dwm.get(1), Some(sig(&[10, 11])));
    assert_eq!(dwm.get(2), Some(sig(&[20, 21])));
    assert_eq!(dwm.value(2), Some(300));
}


#[test]
fn large_random_build_and_query() {
    let mut rng = StdRng::seed_from_u64(0xDEAD_F00D);
    let n = 500;
    let sigs: Vec<BinarySignature> = (0..n)
        .map(|_| {
            let mut b = [0u8; 32];
            rng.fill(&mut b);
            BinarySignature(b)
        })
        .collect();
    let values: Vec<u64> = (0..n as u64).collect();
    let dwm = SignatureDwm::build(&sigs, values);
    assert_eq!(dwm.len(), n);

    // Pick a random stored sig as the query; expect itself first.
    let q_idx = 42;
    let q = sigs[q_idx];
    let hits = dwm.nearest(&q, 3);
    assert_eq!(hits[0].0, 0);
    assert_eq!(hits[0].1, q_idx as u64);
    // Subsequent results have distance > 0.
    assert!(hits[1].0 > 0);
}

#[test]
fn signature_dwm_save_and_load_round_trip() {
    let sigs = vec![sig(&[0, 5, 10, 50, 100]), sig(&[3, 8, 13, 53, 103])];
    let mut dwm = SignatureDwm::build(&sigs, vec![1000, 2000]);
    dwm.push(sig(&[200, 201, 202]), 3000);

    dwm.compact();
    let layers: Vec<Vec<u64>> = dwm.layers().iter().map(|l| l.words().to_vec()).collect();
    let values: Vec<u64> = (0..dwm.len()).map(|i| dwm.value(i).unwrap()).collect();
    let loaded = SignatureDwm::from_parts(&layers, values, Vec::new(), Vec::new()).unwrap();

    assert_eq!(loaded.len(), 3);
    assert_eq!(loaded.pending_tail(), 0);
    for i in 0..3 {
        assert_eq!(loaded.get(i), dwm.get(i));
        assert_eq!(loaded.value(i), dwm.value(i));
    }
}

#[test]
fn layers_of_the_wrong_shape_are_refused() {
    assert!(SignatureDwm::from_parts(&vec![vec![0; 1]; 255], vec![1], vec![], vec![]).is_none());
    assert!(SignatureDwm::from_parts(&vec![vec![0; 1]; 256], vec![1], vec![], vec![]).is_some());
}

#[test]
fn extended_stores_count_their_tail() {
    let mut dwm = SignatureDwm::default();
    dwm.extend(&[sig(&[1]), sig(&[2]), sig(&[])], &[7, 8, 9]);
    assert_eq!(dwm.pending_tail(), 3);
    assert_eq!(dwm.within_radius(&sig(&[]), 0), vec![(0, 9)]);
    assert_eq!(dwm.get(1), Some(sig(&[2])));
    assert_eq!(dwm.hamming_distance(&sig(&[2]), 0), 2);
}

#[test]
fn encode_decode_round_trip() {
    let cases = [
        (EventId(0), 0usize),
        (EventId(1), 42),
        (EventId(0xDEAD_BEEF), 12345),
        (EventId(u32::MAX), u32::MAX as usize),
    ];
    for (event, doc_idx) in cases {
        let encoded = encode(event, doc_idx);
        let (e2, d2) = decode(encoded);
        assert_eq!(event, e2);
        assert_eq!(doc_idx, d2);
    }
}

#[test]
fn empty_cold_tier() {
    let ct = DwmColdTier::empty();
    assert!(ct.is_empty());
    assert_eq!(ct.len(), 0);
    assert!(ct.search(&sig(&[0]), 5).is_empty());
}

#[test]
fn add_and_search() {
    let mut ct = DwmColdTier::empty();
    ct.add_evicted(sig(&[0, 1, 2]), EventId(7), 100);
    ct.add_evicted(sig(&[100, 101, 102]), EventId(9), 200);
    assert_eq!(ct.len(), 2);

    let q = sig(&[0, 1, 2]);
    let hits = ct.search(&q, 1);
    assert_eq!(hits.len(), 1);
    let (d, event, doc_idx) = hits[0];
    assert_eq!(d, 0);
    assert_eq!(event, EventId(7));
    assert_eq!(doc_idx, 100);
}

#[test]
fn from_batch_constructor() {
    let entries = vec![
        (sig(&[0]), EventId(1), 10),
        (sig(&[1]), EventId(2), 20),
        (sig(&[2]), EventId(3), 30),
    ];
    let ct = DwmColdTier::from_batch(&entries);
    assert_eq!(ct.len(), 3);
    // pending_tail should be 0 — the batch went through `build`.
    assert_eq!(ct.pending_tail(), 0);
    let hits = ct.search(&sig(&[1]), 1);
    assert_eq!(hits[0].1, EventId(2));
    assert_eq!(hits[0].2, 20);
}

#[test]
fn auto_compact_at_threshold() {
    let mut ct = DwmColdTier::empty().with_auto_compact_threshold(3);
    ct.add_evicted(sig(&[0]), EventId(0), 0);
    ct.add_evicted(sig(&[1]), EventId(0), 1);
    // Below threshold — pending.
    assert_eq!(ct.pending_tail(), 2);
    ct.add_evicted(sig(&[2]), EventId(0), 2);
    // Hit threshold — auto-compacted.
    assert_eq!(ct.pending_tail(), 0);
    assert_eq!(ct.len(), 3);
}


#[test]
fn trait_object_safe() {
    let mut ct: Box<dyn ColdTier> = Box::new(DwmColdTier::empty());
    ct.add_evicted(sig(&[0]), EventId(1), 10);
    ct.add_evicted(sig(&[1]), EventId(2), 20);
    let hits = ct.search(&sig(&[0]), 2);
    assert!(!hits.is_empty());
    assert_eq!(hits[0].1, EventId(1));
}

#[test]
fn cold_tier_save_and_load_round_trip() {
    let mut ct = DwmColdTier::empty();
    ct.add_evicted(sig(&[0, 10, 20]), EventId(11), 111);
    ct.add_evicted(sig(&[5, 15, 25]), EventId(22), 222);
    ct.add_evicted(sig(&[7, 17, 27]), EventId(33), 333);

    ct.compact();
    let dwm = ct.dwm();
    let layers: Vec<Vec<u64>> = dwm.layers().iter().map(|l| l.words().to_vec()).collect();
    let values: Vec<u64> = (0..dwm.len()).map(|i| dwm.value(i).unwrap()).collect();
    let stored = SignatureDwm::from_parts(&layers, values, Vec::new(), Vec::new()).unwrap();
    let loaded = DwmColdTier::from_store(stored, ct.auto_compact_threshold());

    assert_eq!(loaded.len(), 3);
    let hits = loaded.search(&sig(&[5, 15, 25]), 1);
    assert_eq!(hits[0].1, EventId(22));
    assert_eq!(hits[0].2, 222);
}

#[test]
fn encoded_values_hold_the_event_above_the_document() {
    assert_eq!(encode(EventId(1), 2), 0x1_0000_0002);
    assert_eq!(decode(0x1_0000_0002), (EventId(1), 2));
}

#[test]
fn a_threshold_of_zero_compacts_every_time() {
    let mut ct = DwmColdTier::empty().with_auto_compact_threshold(0);
    assert_eq!(ct.auto_compact_threshold(), 1);
    ct.add_evicted(sig(&[3]), EventId(1), 1);
    assert_eq!(ct.pending_tail(), 0);
}

#[test]
fn deterministic_from_seed() {
    let a = RandomIndexer::with_params(100, 256, 12, 42);
    let b = RandomIndexer::with_params(100, 256, 12, 42);
    let stream = vec![0u32, 5, 10, 15];
    assert_eq!(a.signature(&stream), b.signature(&stream));
}

#[test]
fn different_seeds_give_different_sigs() {
    let a = RandomIndexer::with_params(100, 256, 12, 42);
    let b = RandomIndexer::with_params(100, 256, 12, 43);
    let stream = vec![0u32, 1, 2, 3, 4, 5];
    let sig_a = a.signature(&stream);
    let sig_b = b.signature(&stream);
    // Should differ in many bits (random projection).
    let dist = sig_a.hamming_distance(&sig_b);
    assert!(dist > 50, "expected highly-different sigs, got {dist} bits");
}

#[test]
fn empty_stream_produces_zero_sig() {
    let r = RandomIndexer::new(100);
    let sig = r.signature(&[]);
    assert_eq!(sig.0, [0u8; 32]);
}

#[test]
fn unknown_tokens_skipped() {
    let r = RandomIndexer::with_params(10, 256, 12, 7);
    let known = r.signature(&[0, 5]);
    let with_unknown = r.signature(&[0, 999, 5, 1000]); // 999 and 1000 are out of vocab
    // The unknown tokens are silently skipped, so the sig matches
    // the known-only stream.
    assert_eq!(known, with_unknown);
}

#[test]
fn similar_streams_produce_similar_sigs() {
    // A stream and its 90%-overlap version should have low Hamming
    // distance — Random Indexing's main quality property.
    let r = RandomIndexer::with_params(100, 256, 12, 11);
    let stream_a: Vec<u32> = (0..50).collect();
    let mut stream_b = stream_a.clone();
    stream_b[0] = 75; // change one token
    let sig_a = r.signature(&stream_a);
    let sig_b = r.signature(&stream_b);
    let dist = sig_a.hamming_distance(&sig_b);
    // Single-token change perturbs ~12 base-vector entries (the
    // changed token's nonzeros). Even after sign-quantization the
    // resulting Hamming should be well below 50% (random baseline
    // of ~128 bits).
    assert!(dist < 80, "expected similar sigs (dist < 80), got {dist}");
}

#[test]
fn signature_from_tokens_uses_vocab() {
    let r = RandomIndexer::with_params(3, 256, 8, 17);
    let mut vocab = Vocabulary::new();
    vocab.insert("hello".to_string(), 0);
    vocab.insert("world".to_string(), 1);
    vocab.insert("primd".to_string(), 2);
    let sig_a = r.signature(&[0, 1, 2]);
    let sig_b = r.signature_from_tokens(&["hello", "world", "primd"], &vocab);
    assert_eq!(sig_a, sig_b);
}

#[test]
fn larger_d_with_topk_truncation() {
    let r = RandomIndexer::with_params(50, 1024, 12, 23);
    assert_eq!(r.dim(), 1024);
    // Output is still a 256-bit signature.
    let sig = r.signature(&[0, 5, 10]);
    assert_eq!(sig.0.len(), 32);
}

#[test]
fn random_indexing_serde_round_trip() {
    let r = RandomIndexer::with_params(20, 256, 8, 99);
    let bases: Vec<BaseVector> = r
        .bases()
        .iter()
        .map(|b| BaseVector { plus: b.plus.clone(), minus: b.minus.clone() })
        .collect();
    let restored = RandomIndexer::from_bases(bases, r.dim(), r.nonzeros_per_token());
    let stream = vec![0u32, 3, 7, 19];
    assert_eq!(restored.signature(&stream), r.signature(&stream));
}

#[test]
fn base_vectors_come_from_one_seeded_generator() {
    let r = RandomIndexer::with_params(5, 256, 8, 99);
    let mut rng = StdRng::seed_from_u64(99);
    let mut positions: Vec<u16> = (0..256).collect();
    for base in r.bases() {
        positions.shuffle(&mut rng);
        assert_eq!(base.plus, positions[..4].to_vec());
        assert_eq!(base.minus, positions[4..8].to_vec());
    }
    assert_eq!(r.vocab_size(), 5);
}

#[test]
fn default_parameters_apply() {
    let r = RandomIndexer::new(3);
    assert_eq!(r.dim(), DEFAULT_D);
    assert_eq!(r.nonzeros_per_token(), DEFAULT_T);
    let same = RandomIndexer::with_params(3, 256, 12, DEFAULT_SEED);
    assert_eq!(r.signature(&[0, 1, 2]), same.signature(&[0, 1, 2]));
}

#[test]
fn signature_bits_are_the_positive_positions() {
    let base = |plus: Vec<u16>, minus: Vec<u16>| BaseVector { plus, minus };
    let r = RandomIndexer::from_bases(
        vec![base(vec![0, 9], vec![1, 2]), base(vec![1, 9], vec![0, 3])],
        256,
        4,
    );
    // Positions 0 and 1 cancel out; position 9 is counted twice.
    let sig = r.signature(&[0, 1]);
    assert_eq!(sig.0[0], 0x00);
    assert_eq!(sig.0[1], 0x02);
    assert_eq!(r.signature(&[0]).0[0], 0x01);
}

#[test]
fn wide_indexers_keep_the_largest_positions() {
    let plus: Vec<u16> = (300..400).collect();
    let minus: Vec<u16> = (0..100).collect();
    let r = RandomIndexer::from_bases(vec![BaseVector { plus, minus }], 512, 200);
    let ones: u32 = r.signature(&[0]).0.iter().map(|b| b.count_ones()).sum();
    // All 200 positions that are not zero are among the 256 largest.
    assert_eq!(ones, 100);
}

#[test]
fn one_token_changes_few_bits() {
    let r = RandomIndexer::with_params(100, 256, 12, 11);
    let mut stream: Vec<u32> = (0..50).collect();
    let before = r.signature(&stream);
    stream[20] = 75;
    let after = r.signature(&stream);
    assert!(before.hamming_distance(&after) <= 24);
}

#[test]
fn evicted_signatures_remain_queryable() {
    let mut ct = DwmColdTier::empty().with_auto_compact_threshold(2);
    for i in 0..5usize {
        ct.add_evicted(sig(&[i, i + 50, i + 100]), EventId(i as u32), 10 * i);
    }
    for i in 0..5usize {
        assert_eq!(
            ct.search(&sig(&[i, i + 50, i + 100]), 1),
            vec![(0, EventId(i as u32), 10 * i)]
        );
    }
}

#[test]
fn token_order_does_not_matter() {
    let r = RandomIndexer::with_params(20, 256, 8, 5);
    assert_eq!(r.signature(&[3, 1, 7, 1]), r.signature(&[1, 99, 7, 1, 3]));
    assert_eq!(r.signature(&[40, 41]).0, [0u8; 32]);
    let ones: u32 = r.signature(&[6, 33]).0.iter().map(|b| b.count_ones()).sum();
    assert_eq!(ones, 4);
}

#[test]
fn words_without_a_number_contribute_nothing() {
    let r = RandomIndexer::with_params(3, 256, 8, 17);
    let mut vocab = Vocabulary::new();
    vocab.insert("hello".to_string(), 2);
    assert_eq!(r.signature_from_tokens(&["oh", "hello", "you"], &vocab), r.signature(&[2]));
}

#[test]
fn batches_hold_what_evictions_would() {
    let entries: Vec<(BinarySignature, EventId, usize)> =
        (0..9usize).map(|i| (sig(&[i, 2 * i + 20]), EventId(i as u32), i)).collect();
    let batch = DwmColdTier::from_batch(&entries);
    let mut one_by_one = DwmColdTier::empty().with_auto_compact_threshold(4);
    for (s, e, i) in &entries {
        one_by_one.add_evicted(*s, *e, *i);
    }
    for k in 0..12 {
        assert_eq!(batch.search(&sig(&[1, 22]), k), one_by_one.search(&sig(&[1, 22]), k));
    }
}

#[test]
fn extending_is_pushing_and_compaction_changes_no_answer() {
    let sigs: Vec<BinarySignature> = (0..7usize).map(|i| sig(&[i, 3 * i + 40])).collect();
    let values: Vec<u64> = (10..17).collect();
    let mut extended = SignatureDwm::empty();
    extended.extend(&sigs, &values);
    let mut pushed = SignatureDwm::empty();
    for (s, v) in sigs.iter().zip(values.iter()) {
        pushed.push(*s, *v);
    }
    let before = extended.nearest(&sig(&[2]), 5);
    assert_eq!(before, pushed.nearest(&sig(&[2]), 5));
    let near = extended.within_radius(&sig(&[2]), 3);
    extended.compact();
    assert_eq!(extended.nearest(&sig(&[2]), 5), before);
    assert_eq!(extended.within_radius(&sig(&[2]), 3), near);
    assert_eq!(pushed.get(6), Some(sigs[6]));
    assert_eq!(extended.get(7), None);
}

#[test]
fn copies_of_a_store_hold_the_same() {
    let mut dwm = SignatureDwm::build(&[sig(&[0, 10])], vec![7]);
    dwm.push(sig(&[5]), 8);
    let copy = dwm.clone();
    dwm.compact();
    assert_eq!(copy.pending_tail(), 1);
    for i in 0..2 {
        assert_eq!(copy.get(i), dwm.get(i));
        assert_eq!(copy.value(i), dwm.value(i));
    }
    assert!(format!("{copy:?}").starts_with("SignatureDwm"));
    let mut tier = DwmColdTier::empty();
    tier.add_evicted(sig(&[1]), EventId(3), 4);
    let kept = tier.clone();
    assert_eq!(kept.search(&sig(&[1]), 1), tier.search(&sig(&[1]), 1));
    let indexer = RandomIndexer::with_params(4, 256, 10, 1);
    assert_eq!(indexer.clone().signature(&[1, 2]), indexer.signature(&[1, 2]));
}
