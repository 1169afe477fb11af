use grounding::store::embedding::rank_by_key;
use grounding::store::{bytes_to_embedding, embedding_to_bytes, EmbeddingBytesError, EmbeddingStore};

type Store = EmbeddingStore<(), Vec<f32>>;

fn cosine_similarity(a: &[f32], b: &[f32]) -> f32 {
    let dot: f32 = a.iter().zip(b.iter()).map(|(x, y)| x * y).sum();
    let norm_a: f32 = a.iter().map(|x| x * x).sum::<f32>().sqrt();
    let norm_b: f32 = b.iter().map(|x| x * x).sum::<f32>().sqrt();
    if norm_a == 0.0 || norm_b == 0.0 {
        return 0.0;
    }
    dot / (norm_a * norm_b)
}

/// An order key that sorts like the score (for scores that are not NaN).
fn order_key(score: f32) -> u32 {
    let score = if score == 0.0 { 0.0f32 } else { score };
    let bits = score.to_bits();
    if bits & 0x8000_0000 != 0 {
        !bits
    } else {
        bits | 0x8000_0000
    }
}

fn search(store: &Store, query: &[f32], top_k: usize) -> Vec<(String, f32)> {
    let scores: Vec<f32> = store
        .entries()
        .iter()
        .map(|(_, e)| cosine_similarity(query, e))
        .collect();
    let keys: Vec<u32> = scores.iter().map(|s| order_key(*s)).collect();
    store
        .search(&keys, top_k)
        .into_iter()
        .map(|(id, pos)| (id, scores[pos]))
        .collect()
}

fn to_bits(v: &[f32]) -> Vec<u32> {
    v.iter().map(|f| f.to_bits()).collect()
}

fn from_bits(v: &[u32]) -> Vec<f32> {
    v.iter().map(|w| f32::from_bits(*w)).collect()
}

#[test]
fn test_roundtrip_bytes() {
    let original = vec![0.1f32, 0.2, 0.3, -0.4, 1.5];
    let bytes = embedding_to_bytes(&to_bits(&original));
    let restored = from_bits(&bytes_to_embedding(&bytes).unwrap());
    assert_eq!(original.len(), restored.len());
    for (a, b) in original.iter().zip(restored.iter()) {
        assert!((a - b).abs() < 1e-6);
    }
}

#[test]
fn test_invalid_bytes() {
    let bad = vec![0u8, 1, 2];
    let result = bytes_to_embedding(&bad);
    assert!(result.is_err());
}

#[test]
fn test_add_search_remove() {
    let mut store: Store = EmbeddingStore::new(None);
    let emb1 = vec![1.0, 0.0, 0.0];
    let emb2 = vec![0.0, 1.0, 0.0];

    store.add("doc1", emb1.clone());
    store.add("doc2", emb2.clone());
    assert_eq!(store.len(), 2);

    let results = search(&store, &emb1, 5);
    assert_eq!(results.len(), 2);
    assert_eq!(results[0].0, "doc1");
    assert!((results[0].1 - 1.0).abs() < 1e-6);

    store.remove("doc1");
    assert_eq!(store.len(), 1);

    let results = search(&store, &emb1, 5);
    assert!(results.iter().all(|r| r.0 != "doc1"), "removed doc should not appear");
}

#[test]
fn test_empty_store_search() {
    let store: Store = EmbeddingStore::new(None);
    let results = search(&store, &[1.0, 0.0], 5);
    assert!(results.is_empty());
}

#[test]
fn test_upsert_same_id() {
    let mut store: Store = EmbeddingStore::new(None);
    store.add("doc1", vec![1.0, 0.0]);
    store.add("doc1", vec![0.0, 1.0]);
    assert_eq!(store.len(), 1);
    let results = search(&store, &[0.0, 1.0], 5);
    assert_eq!(results[0].0, "doc1");
}

#[test]
fn test_search_sorted_by_score() {
    let mut store: Store = EmbeddingStore::new(None);
    let query = vec![1.0, 0.0];
    store.add("far", vec![0.0, 1.0]);
    store.add("close", vec![0.9, 0.1]);
    store.add("exact", vec![1.0, 0.0]);
    let results = search(&store, &query, 5);
    assert_eq!(results.len(), 3);
    for i in 1..results.len() {
        assert!(results[i - 1].1 >= results[i].1);
    }
    assert_eq!(results[0].0, "exact");
    assert_eq!(results[1].0, "close");
    assert_eq!(results[2].0, "far");
}

// ---------------------------------------------------------------------------

fn ids(store: &Store) -> Vec<String> {
    store.entries().iter().map(|(id, _)| id.clone()).collect()
}

#[test]
fn new_store_is_empty_and_reports_model() {
    let store: Store = EmbeddingStore::new(None);
    assert!(store.is_empty());
    assert_eq!(store.len(), 0);
    assert!(!store.is_available());
    assert!(store.model().is_none());
    let with_model: EmbeddingStore<u8, Vec<f32>> = EmbeddingStore::new(Some(7));
    assert!(with_model.is_available());
    assert_eq!(with_model.model(), Some(&7));
}

#[test]
fn upsert_keeps_position_and_replaces_embedding() {
    let mut store: Store = EmbeddingStore::new(None);
    store.add("a", vec![1.0]);
    store.add("b", vec![2.0]);
    store.add("a", vec![3.0]);
    assert_eq!(ids(&store), vec!["a".to_string(), "b".to_string()]);
    assert_eq!(store.entries()[0].1, vec![3.0]);
    assert_eq!(store.entries()[1].1, vec![2.0]);
}

#[test]
fn remove_moves_last_entry_into_the_gap() {
    let mut store: Store = EmbeddingStore::new(None);
    store.add("a", vec![1.0]);
    store.add("b", vec![2.0]);
    store.add("c", vec![3.0]);
    store.remove("a");
    assert_eq!(ids(&store), vec!["c".to_string(), "b".to_string()]);
    // the moved entry is still found by its id
    store.add("c", vec![4.0]);
    assert_eq!(store.len(), 2);
    assert_eq!(store.entries()[0].1, vec![4.0]);
    store.remove("b");
    assert_eq!(ids(&store), vec!["c".to_string()]);
}

#[test]
fn remove_of_unknown_id_changes_nothing() {
    let mut store: Store = EmbeddingStore::new(None);
    store.add("a", vec![1.0]);
    store.remove("zzz");
    assert_eq!(ids(&store), vec!["a".to_string()]);
    store.remove("a");
    store.remove("a");
    assert!(store.is_empty());
}

#[test]
fn remove_undoes_first_add() {
    let mut store: Store = EmbeddingStore::new(None);
    store.add("a", vec![1.0]);
    store.add("b", vec![2.0]);
    store.add("new", vec![9.0]);
    store.remove("new");
    assert_eq!(ids(&store), vec!["a".to_string(), "b".to_string()]);
    assert_eq!(store.entries()[0].1, vec![1.0]);
    assert_eq!(store.entries()[1].1, vec![2.0]);
}

#[test]
fn search_ties_keep_storage_order_and_truncate() {
    let mut store: EmbeddingStore<(), u8> = EmbeddingStore::new(None);
    store.add("p", 0);
    store.add("q", 1);
    store.add("r", 2);
    store.add("s", 3);
    let results = store.search(&vec![5, 9, 5, 1], 3);
    assert_eq!(
        results,
        vec![("q".to_string(), 1), ("p".to_string(), 0), ("r".to_string(), 2)]
    );
    assert!(store.search(&vec![5, 9, 5, 1], 0).is_empty());
    assert_eq!(store.search(&vec![5, 9, 5, 1], 10).len(), 4);
}

#[test]
fn rank_by_key_orders_best_first() {
    assert_eq!(rank_by_key(&vec![1, 5, 5, 2], 3), vec![1, 2, 3]);
    assert_eq!(rank_by_key(&vec![], 3), Vec::<usize>::new());
    assert_eq!(rank_by_key(&vec![3, 3, 3], 2), vec![0, 1]);
}

#[test]
fn embedding_bytes_are_little_endian_bit_patterns() {
    let bytes = embedding_to_bytes(&[0x0403_0201, 1.0f32.to_bits()]);
    assert_eq!(bytes, vec![1, 2, 3, 4, 0x00, 0x00, 0x80, 0x3f]);
    assert_eq!(bytes_to_embedding(&bytes), Ok(vec![0x0403_0201, 0x3f80_0000]));
    assert_eq!(embedding_to_bytes(&[]), Vec::<u8>::new());
    assert_eq!(bytes_to_embedding(&[]), Ok(vec![]));
}

#[test]
fn invalid_byte_length_reports_the_length() {
    let err = bytes_to_embedding(&[0u8, 1, 2, 3, 4]).unwrap_err();
    assert_eq!(err, EmbeddingBytesError::InvalidLength(5));
    assert_eq!(err.message(), "invalid embedding byte length: 5");
    assert_eq!(
        EmbeddingBytesError::InvalidLength(1234).message(),
        "invalid embedding byte length: 1234"
    );
}

#[test]
fn bytes_roundtrip_through_words() {
    let bytes: Vec<u8> = (0u8..16).map(|b| b.wrapping_mul(37)).collect();
    let words = bytes_to_embedding(&bytes).unwrap();
    assert_eq!(words.len(), 4);
    assert_eq!(embedding_to_bytes(&words), bytes);
}
