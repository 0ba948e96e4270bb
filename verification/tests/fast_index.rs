use logcompress::fast_index::{hash_token, tokenize_hashed, FastIndex};

#[test]
fn hash_deterministic() {
    assert_eq!(hash_token(b"payment"), hash_token(b"payment"));
    assert_ne!(hash_token(b"payment"), hash_token(b"order"));
}

#[test]
fn hash_case_insensitive() {
    assert_eq!(hash_token(b"ERROR"), hash_token(b"error"));
    assert_eq!(hash_token(b"Payment"), hash_token(b"payment"));
}

#[test]
fn tokenize_hashed_basic() {
    let hashes = tokenize_hashed(b"payment_id=42 failed");
    assert_eq!(hashes.len(), 3); // payment_id, 42, failed
}

#[test]
fn fast_index_basic() {
    let mut idx = FastIndex::new(3);
    idx.add_doc(0, &tokenize_hashed(b"payment failed timeout"));
    idx.add_doc(1, &tokenize_hashed(b"order created successfully"));
    idx.add_doc(2, &tokenize_hashed(b"payment processed"));

    let q = tokenize_hashed(b"payment failed");
    let candidates = idx.candidate_lines(&q);
    assert!(candidates.contains(&0));
    assert!(candidates.contains(&2));
}

#[test]
fn hash_known_values() {
    // FNV-1a 64 of the empty input is the offset basis; of "a" it is the published value.
    assert_eq!(hash_token(b""), 0xcbf29ce484222325);
    assert_eq!(hash_token(b"a"), 0xaf63dc4c8601ec8c);
    assert_eq!(hash_token(b"A"), 0xaf63dc4c8601ec8c);
}

#[test]
fn tokenize_hashed_order_and_values() {
    let hashes = tokenize_hashed(b"  Payment--ID x 42_a!");
    assert_eq!(
        hashes,
        vec![hash_token(b"payment"), hash_token(b"id"), hash_token(b"42_a")]
    );
}

#[test]
fn tokenize_hashed_non_ascii_separates() {
    let hashes = tokenize_hashed("caf\u{e9}s ok".as_bytes());
    assert_eq!(hashes, vec![hash_token(b"caf"), hash_token(b"ok")]);
}

#[test]
fn candidates_sorted_unique() {
    let mut idx = FastIndex::new(4);
    idx.add_doc(3, &tokenize_hashed(b"alpha beta"));
    idx.add_doc(1, &tokenize_hashed(b"beta beta gamma"));
    idx.add_doc(2, &tokenize_hashed(b"delta"));
    let q = tokenize_hashed(b"beta alpha beta zeta");
    assert_eq!(idx.candidate_lines(&q), vec![1, 3]);
    assert!(idx.candidate_lines(&tokenize_hashed(b"nothing here")).is_empty());
}

#[test]
fn doc_freq_counts_documents_once() {
    let mut idx = FastIndex::new(3);
    idx.add_doc(0, &tokenize_hashed(b"beta beta beta"));
    idx.add_doc(1, &tokenize_hashed(b"beta"));
    assert_eq!(idx.doc_freq(hash_token(b"beta")), 2);
    assert_eq!(idx.doc_freq(hash_token(b"alpha")), 0);
    assert_eq!(idx.total_docs(), 3);
}

#[test]
fn fast_total_docs_kept_over_adds() {
    let mut idx = FastIndex::new(2);
    for i in 0..5u32 {
        idx.add_doc(i, &tokenize_hashed(b"alpha beta"));
        assert_eq!(idx.total_docs(), 2);
    }
    assert_eq!(idx.doc_freq(hash_token(b"alpha")), 5);
}
