use primd::{
    BinarySignature, EventCatalog, EventId, HierarchicalIndex, NamedScope, PrimdError,
    SearchOptions, SearchResult, SignatureIndex, TopKHeap,
};
use rand::Rng;

#[test]
fn empty_heap() {
    let heap: TopKHeap<usize> = TopKHeap::new(5);
    assert!(heap.is_empty());
    assert_eq!(heap.len(), 0);
    assert_eq!(heap.threshold(), u32::MAX);
}

#[test]
fn zero_k() {
    let mut heap: TopKHeap<usize> = TopKHeap::new(0);
    heap.push(10, 0);
    assert!(heap.is_empty());
}

#[test]
fn under_capacity() {
    let mut heap = TopKHeap::new(5);
    heap.push(10, 0usize);
    heap.push(5, 1);
    heap.push(8, 2);
    assert_eq!(heap.len(), 3);
    assert_eq!(heap.threshold(), u32::MAX); // not full yet
}

#[test]
fn at_capacity_replaces_worst() {
    let mut heap = TopKHeap::new(3);
    heap.push(10, 0usize);
    heap.push(5, 1);
    heap.push(8, 2);
    assert_eq!(heap.threshold(), 10);

    // Push something closer — should evict distance=10
    heap.push(3, 3);
    assert_eq!(heap.len(), 3);
    assert_eq!(heap.threshold(), 8);

    let sorted = heap.into_sorted_vec();
    assert_eq!(sorted, vec![(3, 3), (5, 1), (8, 2)]);
}

#[test]
fn does_not_admit_worse() {
    let mut heap = TopKHeap::new(2);
    heap.push(5, 0usize);
    heap.push(3, 1);
    heap.push(10, 2); // worse than threshold=5, rejected
    assert_eq!(heap.len(), 2);

    let sorted = heap.into_sorted_vec();
    assert_eq!(sorted, vec![(3, 1), (5, 0)]);
}

#[test]
fn sorted_output() {
    let mut heap = TopKHeap::new(5);
    for (i, d) in [42, 7, 99, 1, 23].iter().enumerate() {
        heap.push(*d, i);
    }
    let sorted = heap.into_sorted_vec();
    let distances: Vec<u32> = sorted.iter().map(|(d, _)| *d).collect();
    assert_eq!(distances, vec![1, 7, 23, 42, 99]);
}

#[test]
fn merge_heaps() {
    let mut a = TopKHeap::new(3);
    a.push(10, 0usize);
    a.push(5, 1);
    a.push(8, 2);

    let mut b = TopKHeap::new(3);
    b.push(3, 3);
    b.push(12, 4);
    b.push(1, 5);

    a.merge(b);
    let sorted = a.into_sorted_vec();
    assert_eq!(sorted, vec![(1, 5), (3, 3), (5, 1)]);
}

fn make_sigs(n: usize) -> Vec<BinarySignature> {
    let mut rng = rand::rng();
    (0..n)
        .map(|_| {
            let mut bytes = [0u8; 32];
            rng.fill(&mut bytes);
            BinarySignature(bytes)
        })
        .collect()
}

#[test]
fn scan_finds_exact_match() {
    let mut sigs = make_sigs(1000);
    let query = BinarySignature([0xAB; 32]);
    sigs[42] = query; // insert exact match

    let idx = SignatureIndex::new(sigs);
    let results = idx.scan_top_k(&query, 1);

    assert_eq!(results.len(), 1);
    assert_eq!(results[0], (0, 42)); // distance=0, index=42
}

#[test]
fn scan_empty() {
    let idx = SignatureIndex::new(Vec::new());
    let query = BinarySignature([0x00; 32]);
    assert!(idx.scan_top_k(&query, 10).is_empty());
}

#[test]
fn scan_k_zero() {
    let idx = SignatureIndex::new(make_sigs(100));
    let query = BinarySignature([0x00; 32]);
    assert!(idx.scan_top_k(&query, 0).is_empty());
}

#[test]
fn scan_k_larger_than_corpus() {
    let sigs = make_sigs(5);
    let idx = SignatureIndex::new(sigs);
    let query = BinarySignature([0x00; 32]);
    let results = idx.scan_top_k(&query, 100);
    assert_eq!(results.len(), 5);
}

#[test]
fn scan_results_sorted_ascending() {
    let idx = SignatureIndex::new(make_sigs(500));
    let query = BinarySignature([0x00; 32]);
    let results = idx.scan_top_k(&query, 10);

    for w in results.windows(2) {
        assert!(w[0].0 <= w[1].0, "results not sorted: {:?}", results);
    }
}

#[test]
fn parallel_matches_sequential() {
    let sigs = make_sigs(10_000);
    let query = BinarySignature([0x55; 32]);
    let idx = SignatureIndex::new(sigs);

    let seq = idx.scan_top_k(&query, 10);
    let par = idx.scan_top_k_parallel(&query, 10);

    // Same distances (indices may differ if ties exist)
    let seq_dists: Vec<u32> = seq.iter().map(|(d, _)| *d).collect();
    let par_dists: Vec<u32> = par.iter().map(|(d, _)| *d).collect();
    assert_eq!(seq_dists, par_dists);
}


fn sig(seed: u8) -> BinarySignature {
    BinarySignature([seed; 32])
}

#[test]
fn maps_names_and_docs() {
    let mut scope = NamedScope::new();
    scope.insert("pricing".to_string(), vec![0, 1]);
    scope.insert("trial".to_string(), vec![2, 3]);
    let catalog = EventCatalog::from_named_scope(&scope, 4);

    assert_eq!(catalog.len(), 2);
    assert_eq!(catalog.event_name(EventId(0)), Some("pricing"));
    assert_eq!(catalog.event_name(EventId(1)), Some("trial"));
    assert_eq!(catalog.doc_event(3), Some(EventId(1)));
}

#[test]
fn hierarchical_search_uses_event_scope() {
    let signatures = SignatureIndex::new(vec![sig(0x10), sig(0x11), sig(0xF0), sig(0xF1)]);
    let mut named = NamedScope::new();
    named.insert("a".to_string(), vec![0, 1]);
    named.insert("b".to_string(), vec![2, 3]);
    let events = EventCatalog::from_named_scope(&named, 4);
    let index = HierarchicalIndex::new(signatures, events);

    let result = index.search(
        &sig(0x10),
        1,
        &SearchOptions {
            coarse_k: 2,
            max_candidate_events: 1,
            parallel: true,
        },
    );
    assert!(result.used_shards);
    assert_eq!(result.results[0].1, 0);
    assert!(result.shard_scope_size < index.len());
}

#[test]
fn file_roundtrip() {
    let sigs = make_sigs(100);

    let original = SignatureIndex::new(sigs.clone());
    let bytes = original.to_bytes();
    assert_eq!(bytes.len(), 3200);
    assert_eq!(&bytes[32..64], &sigs[1].0[..]);

    let loaded = SignatureIndex::from_bytes(&bytes).unwrap();
    assert_eq!(loaded.len(), 100);
    assert_eq!(loaded.as_slice(), sigs.as_slice());
}

#[test]
fn file_invalid_size() {
    let r = SignatureIndex::from_bytes(&[0u8; 33]); // not a multiple of 32
    assert!(r.is_err());
    assert!(matches!(r, Err(PrimdError::InvalidSignatureFile(_))));
}

#[test]
fn signatures_without_bytes_are_refused() {
    match SignatureIndex::from_bytes(&[]) {
        Err(PrimdError::InvalidSignatureFile(why)) => {
            assert_eq!(why, "file size 0 is not a multiple of 32 bytes")
        }
        _ => panic!("no bytes were accepted"),
    }
    assert_eq!(SignatureIndex::new(Vec::new()).to_bytes(), Vec::<u8>::new());
}

/// Distances of every signature to the query, nearest first and the earlier of
/// two equally near ones first.
fn by_distance(sigs: &[BinarySignature], query: &BinarySignature) -> Vec<(u32, usize)> {
    let mut all: Vec<(u32, usize)> = sigs
        .iter()
        .enumerate()
        .map(|(i, s)| (s.hamming_distance(query), i))
        .collect();
    all.sort();
    all
}

#[test]
fn scan_agrees_with_a_full_sort() {
    let sigs = make_sigs(2000);
    let query = BinarySignature([0x33; 32]);
    let expected: Vec<(u32, usize)> = by_distance(&sigs, &query)[..20].to_vec();
    let found = SignatureIndex::new(sigs).scan_top_k(&query, 20);
    let distances: Vec<u32> = found.iter().map(|(d, _)| *d).collect();
    let nearest: Vec<u32> = expected.iter().map(|(d, _)| *d).collect();
    assert_eq!(distances, nearest);
}

#[test]
fn subset_scan_looks_at_the_scope_alone() {
    let sigs = vec![sig(0x00), sig(0x01), sig(0x03), sig(0x07)];
    let idx = SignatureIndex::new(sigs);
    assert_eq!(
        idx.scan_top_k_subset(&sig(0x00), &[3, 1], 5),
        vec![(32, 1), (96, 3)]
    );
    assert_eq!(idx.scan_top_k_subset(&sig(0x00), &[3, 9, 1], 1), vec![(32, 1)]);
    assert!(idx.scan_top_k_subset(&sig(0x00), &[], 3).is_empty());
}

#[test]
fn subset_scan_in_parallel_finds_the_same_distances() {
    let sigs = make_sigs(6000);
    let query = BinarySignature([0x0F; 32]);
    let scope: Vec<usize> = (0..6000).filter(|i| i % 2 == 0).collect();
    let idx = SignatureIndex::new(sigs.clone());
    let alone = idx.scan_top_k_subset(&query, &scope, 15);
    let shared = idx.scan_top_k_subset_parallel(&query, &scope, 15);
    assert_eq!(alone.len(), 15);
    let a: Vec<u32> = alone.iter().map(|(d, _)| *d).collect();
    let b: Vec<u32> = shared.iter().map(|(d, _)| *d).collect();
    assert_eq!(a, b);
    for (d, i) in shared {
        assert_eq!(i % 2, 0);
        assert_eq!(sigs[i].hamming_distance(&query), d);
    }
}

#[test]
fn parallel_scan_places_are_those_of_the_whole_index() {
    let mut sigs = vec![sig(0xFF); 9000];
    sigs[8191] = sig(0x00);
    let idx = SignatureIndex::new(sigs);
    assert_eq!(idx.scan_top_k_parallel(&sig(0x00), 1), vec![(0, 8191)]);
}

#[test]
fn top_k_does_not_depend_on_the_order_of_distances() {
    let mut up = TopKHeap::new(2);
    let mut down = TopKHeap::new(2);
    for i in 0..6usize {
        up.push(i as u32, i);
        down.push(5 - i as u32, 5 - i);
    }
    assert_eq!(up.into_sorted_vec(), vec![(0, 0), (1, 1)]);
    assert_eq!(down.into_sorted_vec(), vec![(0, 0), (1, 1)]);
}

#[test]
fn heap_output_orders_equal_distances_by_item() {
    let mut heap = TopKHeap::new(4);
    heap.push(7, 9usize);
    heap.push(7, 2);
    heap.push(3, 5);
    assert_eq!(heap.into_sorted_vec(), vec![(3, 5), (7, 2), (7, 9)]);
}

#[test]
fn merged_heaps_hold_what_one_heap_would() {
    let distances = [9u32, 4, 12, 7, 1, 8];
    let mut whole = TopKHeap::new(3);
    let mut left = TopKHeap::new(3);
    let mut right = TopKHeap::new(3);
    for (i, d) in distances.iter().enumerate() {
        whole.push(*d, i);
        if i < 3 {
            left.push(*d, i);
        } else {
            right.push(*d, i);
        }
    }
    left.merge(right);
    assert_eq!(left.into_sorted_vec(), whole.into_sorted_vec());
}

#[test]
fn catalog_answers_by_name_and_by_id() {
    let mut scope = NamedScope::new();
    scope.insert("trial".to_string(), vec![2, 7]);
    scope.insert("pricing".to_string(), vec![0]);
    let catalog = EventCatalog::from_named_scope(&scope, 4);
    // Names are numbered in ascending order.
    assert_eq!(catalog.event_id("pricing"), Some(EventId(0)));
    assert_eq!(catalog.event_id("trial"), Some(EventId(1)));
    assert_eq!(catalog.event_id("refund"), None);
    assert_eq!(catalog.event_name(EventId(2)), None);
    assert_eq!(catalog.doc_event(1), None);
    assert_eq!(catalog.doc_event(7), None);
    assert_eq!(catalog.indices_for(EventId(1)), Some(&[2usize, 7][..]));
    assert_eq!(catalog.indices_for(EventId(5)), None);
    assert_eq!(
        catalog.union_scope(&[EventId(1), EventId(0), EventId(1)]),
        vec![0, 2, 7]
    );
    assert_eq!(
        catalog.candidate_events_from_docs(&[(0, 2), (1, 0), (2, 2)], 5),
        vec![EventId(1), EventId(0)]
    );
    assert_eq!(
        catalog.candidate_events_from_docs(&[(0, 2), (1, 0)], 1),
        vec![EventId(1)]
    );
    assert!(EventCatalog::default().is_empty());
}

#[test]
fn catalog_gives_back_its_scope() {
    let mut scope = NamedScope::new();
    scope.push_index("b", 1);
    scope.push_index("a", 0);
    scope.push_index("b", 3);
    let back = EventCatalog::from_named_scope(&scope, 4).named_scope();
    assert_eq!(back.len(), 2);
    assert_eq!((back.name(0), back.indices(0)), ("a", &[0usize][..]));
    assert_eq!((back.name(1), back.indices(1)), ("b", &[1usize, 3][..]));
    assert_eq!(back.get("b"), Some(&[1usize, 3][..]));
    assert_eq!(back.position("c"), None);
}

#[test]
fn search_without_events_scans_everything() {
    let signatures = SignatureIndex::new(vec![sig(0x0F), sig(0x01), sig(0x00)]);
    let index = HierarchicalIndex::new(signatures, EventCatalog::default());
    let SearchResult {
        results,
        used_shards,
        shard_scope_size,
        ..
    } = index.search(&sig(0x00), 2, &SearchOptions::default());
    assert_eq!(results, vec![(0, 2), (32, 1)]);
    assert!(!used_shards);
    assert_eq!(shard_scope_size, index.len());
}

#[test]
fn search_options_default_to_a_wide_coarse_scan() {
    let options = SearchOptions::default();
    assert_eq!(options.coarse_k, 64);
    assert_eq!(options.max_candidate_events, 8);
    assert!(options.parallel);
}
