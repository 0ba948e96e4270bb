use logcompress::index::InvertedIndex;

#[test]
fn basic_index() {
    let mut idx = InvertedIndex::new(3);
    idx.add_doc(0, &["payment".into(), "failed".into()]);
    idx.add_doc(1, &["order".into(), "created".into()]);
    idx.add_doc(2, &["payment".into(), "success".into()]);

    assert_eq!(idx.postings_for("payment"), &[0, 2]);
    assert_eq!(idx.postings_for("order"), &[1]);
    assert!(idx.postings_for("unknown").is_empty());
}

#[test]
fn candidate_lines_union() {
    let mut idx = InvertedIndex::new(5);
    idx.add_doc(0, &["payment".into()]);
    idx.add_doc(1, &["failed".into()]);
    idx.add_doc(2, &["payment".into(), "failed".into()]);

    let candidates = idx.candidate_lines(&["payment".into(), "failed".into()]);
    assert_eq!(candidates, vec![0, 1, 2]);
}

#[test]
fn repeated_tokens_post_once() {
    let mut idx = InvertedIndex::new(2);
    idx.add_doc(7, &["x".into(), "x".into(), "y".into()]);
    assert_eq!(idx.postings_for("x"), &[7]);
    assert_eq!(idx.doc_freq("x"), 1);
    assert_eq!(idx.doc_freq("z"), 0);
    assert_eq!(idx.total_docs(), 2);
}

#[test]
fn candidates_in_increasing_order() {
    let mut idx = InvertedIndex::new(10);
    idx.add_doc(9, &["a".into()]);
    idx.add_doc(4, &["b".into()]);
    idx.add_doc(6, &["a".into(), "b".into()]);
    assert_eq!(idx.candidate_lines(&["b".into(), "a".into()]), vec![4, 6, 9]);
}

#[test]
fn total_docs_kept_over_adds() {
    let mut idx = InvertedIndex::new(3);
    assert_eq!(idx.total_docs(), 3);
    let docs: Vec<Vec<String>> = vec![
        vec!["payment".to_string(), "timeout".to_string()],
        vec![],
        vec!["order".to_string(), "payment".to_string(), "payment".to_string()],
        vec!["extra".to_string()],
    ];
    for (i, d) in docs.iter().enumerate() {
        idx.add_doc(i, d);
        assert_eq!(idx.total_docs(), 3);
    }
    assert_eq!(idx.postings_for("payment"), &[0, 2]);
    assert_eq!(idx.postings_for("extra"), &[3]);
}
