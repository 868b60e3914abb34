use std::collections::hash_map::DefaultHasher;
use std::hash::{Hash, Hasher};

use primd::hashed::{is_stopword, not_negative, tokenize};
use primd::models::{EmbeddingDatum, LocalModel, LocalModelKind, OpenAIEmbedder};
use primd::quantize::{
    batch_count, check_dimension, projection_sign, quantize_direct, random_projection,
    sign_bit_quantize,
};
use primd::signature::{bit_counts, signature_from_bits};
use primd::{BinarySignature, HashedEmbedder, PcaProjector, PrimdError};

fn signs(v: &[f32]) -> Vec<bool> {
    v.iter().map(|x| *x >= 0.0).collect()
}

fn identity_projector(dim: usize) -> PcaProjector<f32> {
    // Identity-like: first 256 components map 1:1 (if dim >= 256)
    let mut matrix = vec![0.0f32; 256 * dim];
    for i in 0..256.min(dim) {
        matrix[i * dim + i] = 1.0;
    }
    PcaProjector::new(matrix, dim).unwrap()
}

fn quantize(proj: &PcaProjector<f32>, emb: &[f32]) -> Result<BinarySignature, PrimdError> {
    proj.check_embedding(emb.len())?;
    let projected: Vec<f32> = (0..256)
        .map(|i| proj.row(i).iter().zip(emb.iter()).map(|(a, b)| a * b).sum())
        .collect();
    Ok(sign_bit_quantize(&signs(&projected)))
}

fn quantize_batch(
    proj: &PcaProjector<f32>,
    embs: &[f32],
) -> Result<Vec<BinarySignature>, PrimdError> {
    let n = batch_count(embs.len(), proj.source_dim())?;
    let dim = proj.source_dim();
    (0..n).map(|i| quantize(proj, &embs[i * dim..(i + 1) * dim])).collect()
}

/// The embedding at unit length.
fn unit(v: &[i32]) -> Vec<f32> {
    let norm: f32 = v.iter().map(|x| (*x as f32) * (*x as f32)).sum::<f32>().sqrt();
    v.iter()
        .map(|x| if norm > 1e-9 { *x as f32 / norm } else { *x as f32 })
        .collect()
}

fn cosine_similarity(a: &[f32], b: &[f32]) -> f32 {
    let dot: f32 = a.iter().zip(b.iter()).map(|(x, y)| x * y).sum();
    let na: f32 = a.iter().map(|x| x * x).sum::<f32>().sqrt();
    let nb: f32 = b.iter().map(|x| x * x).sum::<f32>().sqrt();
    if na < 1e-9 || nb < 1e-9 {
        return 0.0;
    }
    dot / (na * nb)
}

#[test]
fn hamming_identical() {
    let sig = BinarySignature([0xAA; 32]);
    assert_eq!(sig.hamming_distance(&sig), 0);
}

#[test]
fn hamming_complementary() {
    let a = BinarySignature([0x00; 32]);
    let b = BinarySignature([0xFF; 32]);
    assert_eq!(a.hamming_distance(&b), 256);
}

#[test]
fn hamming_known_pattern() {
    let a = BinarySignature([0x00; 32]);
    let mut b_bytes = [0x00u8; 32];
    b_bytes[0] = 0x01; // 1 bit different
    let b = BinarySignature(b_bytes);
    assert_eq!(a.hamming_distance(&b), 1);
}

#[test]
fn sign_bit_all_positive() {
    let projected = [1.0f32; 256];
    let sig = sign_bit_quantize(&signs(&projected));
    assert_eq!(sig, BinarySignature([0xFF; 32]));
}

#[test]
fn sign_bit_all_negative() {
    let projected = [-1.0f32; 256];
    let sig = sign_bit_quantize(&signs(&projected));
    assert_eq!(sig, BinarySignature([0x00; 32]));
}

#[test]
fn sign_bit_alternating() {
    let mut projected = [0.0f32; 256];
    for (i, val) in projected.iter_mut().enumerate() {
        *val = if i % 2 == 0 { 1.0 } else { -1.0 };
    }
    let sig = sign_bit_quantize(&signs(&projected));
    // Even bits set, odd bits clear, 0b10101010 = 0xAA per byte
    assert_eq!(sig, BinarySignature([0xAA; 32]));
}

#[test]
fn quantize_with_identity() {
    let proj = identity_projector(384);
    let mut emb = vec![-1.0f32; 384];
    // First 4 components positive
    emb[0] = 1.0;
    emb[1] = 1.0;
    emb[2] = 1.0;
    emb[3] = 1.0;

    let sig = quantize(&proj, &emb).unwrap();
    // First 4 bits should be 1, rest 0 in first byte: 0b11110000 = 0xF0
    assert_eq!(sig.0[0], 0xF0);
    // Remaining bytes: components 8..255 are -1.0, components 256..383 are unused → 0
    // Bytes 1..31: components 8..255 are -1.0 → all zero bits
    for &b in &sig.0[1..32] {
        assert_eq!(b, 0x00);
    }
}

#[test]
fn dimension_mismatch() {
    let proj = identity_projector(384);
    let emb = vec![0.0f32; 128];
    assert!(quantize(&proj, &emb).is_err());
}

#[test]
fn batch_consistency() {
    let proj = identity_projector(384);
    let emb1 = vec![1.0f32; 384];
    let emb2 = vec![-1.0f32; 384];

    let single1 = quantize(&proj, &emb1).unwrap();
    let single2 = quantize(&proj, &emb2).unwrap();

    let mut batch_input = emb1.clone();
    batch_input.extend_from_slice(&emb2);
    let batch = quantize_batch(&proj, &batch_input).unwrap();

    assert_eq!(batch[0], single1);
    assert_eq!(batch[1], single2);
}


#[test]
fn pca_file_roundtrip() {
    let proj = identity_projector(384);
    let mut words: Vec<u32> = Vec::new();
    for i in 0..256 {
        words.extend(proj.row(i).iter().map(|x| x.to_bits()));
    }
    let stored = PcaProjector::new(words.clone(), 384).unwrap();

    let bytes = stored.to_bytes();
    assert_eq!(bytes.len(), 4 + 256 * 384 * 4);
    assert_eq!(&bytes[..8], &[0x80, 0x01, 0, 0, 0, 0, 0x80, 0x3F][..]);
    let loaded = PcaProjector::from_bytes(&bytes).unwrap();

    assert_eq!(loaded.source_dim(), 384);
    for i in 0..256 {
        assert_eq!(loaded.row(i), stored.row(i));
    }
}

#[test]
fn matrix_bytes_must_fit_their_dimension() {
    assert!(matches!(
        PcaProjector::from_bytes(&[1, 0, 0]),
        Err(PrimdError::PcaMatrixMissing)
    ));
    assert!(matches!(
        PcaProjector::from_bytes(&[1, 0, 0, 0, 9]),
        Err(PrimdError::InvalidDimension { expected: 1028, got: 5 })
    ));
    assert!(matches!(
        PcaProjector::new(vec![0u32; 255], 1),
        Err(PrimdError::InvalidDimension { expected: 256, got: 255 })
    ));
}

#[test]
fn direct_path_requires_256_dim() {
    assert!(check_dimension(256, 384).is_err());
    assert!(check_dimension(256, 256).is_ok());
    assert!(quantize_direct(&signs(&vec![1.0; 384])).is_err());
    assert!(quantize_direct(&signs(&vec![1.0; 256])).is_ok());
}

#[test]
fn pca_path_validates_dim_match() {
    let identity = identity_projector(384);
    assert!(identity.check_embedding(384).is_ok());

    let mismatched = identity_projector(512);
    assert!(matches!(
        mismatched.check_embedding(384),
        Err(PrimdError::InvalidDimension { expected: 512, got: 384 })
    ));
}

#[test]
fn direct_path_produces_consistent_signatures() {
    let s1 = quantize_direct(&signs(&vec![1.0; 256])).unwrap();
    let s2 = quantize_direct(&signs(&vec![1.0; 256])).unwrap();
    assert_eq!(s1, s2);
    assert_eq!(s1, BinarySignature([0xFF; 32]));
}

#[test]
fn batch_matches_singletons() {
    let e = HashedEmbedder::new(256);
    let texts = ["a", "b", "c"];
    for t in texts {
        let one = e.embed_to_signature(t).unwrap();
        let batch = quantize_direct(&not_negative(&e.embed(t))).unwrap();
        assert_eq!(batch, one);
    }
}

#[test]
fn batch_of_a_broken_length_is_refused() {
    assert_eq!(batch_count(768, 384).ok(), Some(2));
    assert!(matches!(
        batch_count(770, 384),
        Err(PrimdError::InvalidDimension { expected: 384, got: 2 })
    ));
}

#[test]
fn projection_signs_come_from_the_standard_hasher() {
    let p = random_projection(7, 3);
    for i in 0..256usize {
        for j in 0..3usize {
            let mut h = DefaultHasher::new();
            7u64.hash(&mut h);
            i.hash(&mut h);
            j.hash(&mut h);
            let positive = h.finish() & 1 == 0;
            assert_eq!(projection_sign(7, i, j), positive);
            assert_eq!(p.row(i)[j], positive);
        }
    }
}

#[test]
fn deterministic_across_calls() {
    let e = HashedEmbedder::new(256);
    let a = unit(&e.embed("how much does the premium plan cost"));
    let b = unit(&e.embed("how much does the premium plan cost"));
    assert_eq!(a, b);
}

#[test]
fn similar_texts_have_higher_cosine_than_dissimilar() {
    let e = HashedEmbedder::new(512);
    let q = unit(&e.embed("how much does the premium plan cost"));
    let close = unit(&e.embed("what is the cost of premium plans"));
    let far = unit(&e.embed("the weather in tokyo is sunny today"));
    let close_sim = cosine_similarity(&q, &close);
    let far_sim = cosine_similarity(&q, &far);
    assert!(
        close_sim > far_sim,
        "close ({close_sim}) should beat far ({far_sim})"
    );
}

#[test]
fn empty_text_returns_zero_vector() {
    let e = HashedEmbedder::new(64);
    let v = unit(&e.embed(""));
    assert!(v.iter().all(|&x| x == 0.0));
}

#[test]
fn tokenization_strips_punctuation_and_lowercases() {
    let toks = tokenize("Hello, World! 123 -- foo_bar.");
    assert_eq!(
        toks,
        vec![
            "hello".to_string(),
            "world".to_string(),
            "123".to_string(),
            "foo".to_string(),
            "bar".to_string(),
        ]
    );
}

#[test]
fn bigrams_help_distinguish_word_orders() {
    // Without bigrams, "dog bites man" and "man bites dog" embed identically.
    let with_bi = HashedEmbedder::new(512);
    let no_bi = HashedEmbedder::new(512).without_bigrams();

    let a = unit(&with_bi.embed("dog bites man"));
    let b = unit(&with_bi.embed("man bites dog"));
    let bi_sim = cosine_similarity(&a, &b);

    let a2 = unit(&no_bi.embed("dog bites man"));
    let b2 = unit(&no_bi.embed("man bites dog"));
    let no_bi_sim = cosine_similarity(&a2, &b2);

    // No bigrams → identical bags → cosine = 1.0
    assert!((no_bi_sim - 1.0).abs() < 1e-3);
    // With bigrams → less similar
    assert!(bi_sim < no_bi_sim);
}

#[test]
fn dim_matches_constructor() {
    for dim in [64, 128, 256, 384, 512] {
        let e = HashedEmbedder::new(dim);
        assert_eq!(e.embed("test text").len(), dim);
        assert_eq!(e.dim(), dim);
    }
}

#[test]
fn embedding_is_unit_norm() {
    let e = HashedEmbedder::new(256);
    let v = unit(&e.embed("a sentence with several words in it"));
    let norm: f32 = v.iter().map(|x| x * x).sum::<f32>().sqrt();
    assert!((norm - 1.0).abs() < 1e-4, "norm should be ~1.0, got {norm}");
}

#[test]
fn token_counts_come_from_the_standard_hasher() {
    let e = HashedEmbedder::new(100).with_seed(11).with_hash_bands(3);
    let mut expected = vec![0i32; 100];
    for token in ["premium", "plan", "premium_plan"] {
        for band in 0..3usize {
            let mut h = DefaultHasher::new();
            11u64.hash(&mut h);
            band.hash(&mut h);
            token.hash(&mut h);
            let v = h.finish();
            expected[(v as usize) % 100] += if (v >> 32) & 1 == 0 { 1 } else { -1 };
        }
    }
    assert_eq!(e.embed("The PREMIUM plan!"), expected);
    assert_eq!(
        e.embed_words(vec!["the".to_string(), "premium".to_string(), "plan".to_string()]),
        expected
    );
}

#[test]
fn stop_words_are_left_out_unless_kept() {
    assert!(is_stopword("the"));
    assert!(is_stopword("very"));
    assert!(!is_stopword("premium"));
    let dropping = HashedEmbedder::new(64);
    let keeping = HashedEmbedder::new(64).keep_stopwords();
    assert!(dropping.embed("the and of").iter().all(|x| *x == 0));
    assert!(keeping.embed("the and of").iter().any(|x| *x != 0));
}

#[test]
fn tokens_are_lowercased_beyond_ascii() {
    assert_eq!(
        tokenize("\u{00DC}BER caf\u{00E9}"),
        vec!["\u{00FC}ber".to_string(), "caf\u{00E9}".to_string()]
    );
}

#[test]
fn hashed_signatures_need_256_components() {
    let r = HashedEmbedder::new(128).embed_to_signature("hello");
    assert!(matches!(
        r,
        Err(PrimdError::InvalidDimension { expected: 256, got: 128 })
    ));
    // No word leaves every component at zero, which counts as positive.
    let blank = HashedEmbedder::new(256).embed_to_signature(" ... ").unwrap();
    assert_eq!(blank, BinarySignature([0xFF; 32]));
}

#[test]
fn distance_is_a_metric() {
    let a = BinarySignature([0x0F; 32]);
    let b = BinarySignature([0x3C; 32]);
    let c = BinarySignature([0x00; 32]);
    assert_eq!(a.hamming_distance(&b), 128);
    assert_eq!(b.hamming_distance(&a), 128);
    assert!(a.hamming_distance(&b) <= a.hamming_distance(&c) + c.hamming_distance(&b));
}

#[test]
fn bits_are_read_from_the_low_end_of_each_byte() {
    let mut bits = vec![false; 256];
    bits[0] = true;
    bits[15] = true;
    let sig = signature_from_bits(&bits);
    assert_eq!(sig.0[0], 0x01);
    assert_eq!(sig.0[1], 0x80);
    assert!(sig.bit(15));
    assert!(!sig.bit(14));
}

#[test]
fn model_dims_are_correct() {
    assert_eq!(LocalModel::AllMiniLM.dim(), 384);
    assert_eq!(LocalModel::BgeSmallEn.dim(), 384);
    assert_eq!(LocalModel::BgeBaseEn.dim(), 768);
}

#[test]
fn model_names_are_those_of_the_files() {
    assert_eq!(LocalModelKind::AllMinilm.into_local().name(), "all-MiniLM-L6-v2");
    assert_eq!(LocalModelKind::BgeSmallEn.into_local().name(), "bge-small-en-v1.5");
    assert_eq!(LocalModelKind::BgeBaseEn.into_local(), LocalModel::BgeBaseEn);
}

#[test]
fn builder_options_apply() {
    let e = OpenAIEmbedder::with_api_key("test-key")
        .with_model("text-embedding-3-large")
        .with_dim(1024)
        .with_base_url("http://localhost:1234");
    assert_eq!(e.dim(), 1024);
    assert_eq!(e.model(), "text-embedding-3-large");
    assert_eq!(e.base_url(), "http://localhost:1234");
}

#[test]
fn requests_go_to_the_embeddings_endpoint() {
    let e = OpenAIEmbedder::with_api_key("test-key").with_base_url("http://localhost:1234");
    assert_eq!(e.endpoint(), "http://localhost:1234/embeddings");
    assert_eq!(e.authorization(), "Bearer test-key");
    assert_eq!(e.dim(), 256);
    assert_eq!(e.model(), "text-embedding-3-small");
}

fn datum(index: usize, embedding: Vec<i8>) -> EmbeddingDatum<i8> {
    EmbeddingDatum { index, embedding }
}

#[test]
fn responses_are_put_in_input_order() {
    let e = OpenAIEmbedder::with_api_key("k").with_dim(2);
    let r = e.accept_response(vec![datum(1, vec![3, 4]), datum(0, vec![1, 2])], 2);
    assert_eq!(r.unwrap(), vec![vec![1, 2], vec![3, 4]]);
}

#[test]
fn incomplete_responses_are_refused() {
    let e = OpenAIEmbedder::with_api_key("k").with_dim(2);
    match e.accept_response(vec![datum(0, vec![1, 2])], 3) {
        Err(PrimdError::Embedder(msg)) => {
            assert_eq!(msg, "OpenAI returned 1 embeddings for 3 inputs")
        }
        _ => panic!("a missing embedding was accepted"),
    }
    assert!(matches!(
        e.accept_response(vec![datum(0, vec![1])], 1),
        Err(PrimdError::InvalidDimension { expected: 2, got: 1 })
    ));
}

#[test]
fn errors_say_what_is_wrong() {
    assert_eq!(
        PrimdError::InvalidDimension { expected: 256, got: 3 }.message(),
        "invalid embedding dimension: expected 256, got 3"
    );
    assert_eq!(
        PrimdError::InvalidSignatureFile("short".to_string()).message(),
        "invalid signature file: short"
    );
    assert_eq!(
        PrimdError::PcaMatrixMissing.message(),
        "PCA matrix file not found or invalid"
    );
    assert_eq!(
        PrimdError::Embedder("no key".to_string()).message(),
        "embedder error: no key"
    );
}

fn sig_with_bits_set(bits: &[usize]) -> BinarySignature {
    let mut out = [0u8; 32];
    for &b in bits {
        out[b / 8] |= 1 << (b % 8);
    }
    BinarySignature(out)
}

#[test]
fn signature_to_float_roundtrip() {
    let sig = sig_with_bits_set(&[0, 5, 100, 255]);
    let floats: Vec<f32> = (0..256).map(|k| if sig.bit(k) { 1.0 } else { 0.0 }).collect();
    assert_eq!(floats[0], 1.0);
    assert_eq!(floats[1], 0.0);
    assert_eq!(floats[5], 1.0);
    assert_eq!(floats[100], 1.0);
    assert_eq!(floats[255], 1.0);
    assert_eq!(floats[254], 0.0);
}

#[test]
fn mean_matches_bit_frequency() {
    // 3 signatures: bit 0 set in all, bit 1 set in 2/3, bit 100 set in 1/3.
    let sigs = vec![
        sig_with_bits_set(&[0, 1]),
        sig_with_bits_set(&[0, 1]),
        sig_with_bits_set(&[0, 100]),
    ];
    let counts = bit_counts(&sigs);
    assert_eq!((counts[0], counts[1], counts[100], counts[200]), (3, 2, 1, 0));
    let mean: Vec<f32> = counts.iter().map(|n| *n as f32 / sigs.len() as f32).collect();
    assert!((mean[0] - 1.0).abs() < 1e-6);
    assert!((mean[1] - 2.0 / 3.0).abs() < 1e-6);
    assert!((mean[100] - 1.0 / 3.0).abs() < 1e-6);
    assert!((mean[200]).abs() < 1e-6);
}

#[test]
fn word_order_matters_to_bigrams_alone() {
    let plain = HashedEmbedder::new(128).without_bigrams();
    assert_eq!(
        plain.embed("the dog bites the man twice"),
        plain.embed("twice bites man, the dog")
    );
    let pairs = HashedEmbedder::new(128);
    assert_ne!(pairs.embed("dog bites man"), pairs.embed("man bites dog"));
}
