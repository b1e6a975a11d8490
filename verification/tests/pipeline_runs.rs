use polymath::pipeline::{ErrorKind, Pipeline, Stage};

fn urls(n: usize) -> Vec<Vec<u8>> {
    (0..n).map(|i| format!("http://site{}.example/", i).into_bytes()).collect()
}

/// Runs URL `i` through fetch, extraction and embedding successfully,
/// with the given extracted text and one embedding per chunk.
fn run_success(p: &mut Pipeline, i: usize, text: &[u8], dim: usize, now: u64) {
    p.on_fetched(i);
    let chunks = p.on_extracted(i, text, now).expect("text should yield chunks");
    let vectors: Vec<Vec<u32>> = chunks.iter().map(|_| vec![7; dim]).collect();
    assert!(p.on_embedded(i, vectors));
}

#[test]
fn partial_failure_is_isolated() {
    let us = urls(3);
    let mut p = Pipeline::new(&us, 512, 2, 10, 3600);
    assert_eq!(p.start_next(), Some(0));
    assert_eq!(p.start_next(), Some(1));
    assert_eq!(p.start_next(), Some(2));

    run_success(&mut p, 0, b"first page text body", 2, 100);
    p.fail(1, ErrorKind::Fetch, b"connection refused".to_vec());
    run_success(&mut p, 2, b"third page text body words", 2, 100);

    assert!(p.finished());
    assert_eq!(p.url_count(), 3);

    let ok0 = p.result_at(0);
    assert_eq!(ok0.stage, Stage::Done);
    assert!(ok0.error.is_none());
    assert!(!ok0.chunks.is_empty());
    assert_eq!(ok0.embeddings.len(), ok0.chunks.len());

    let failed = p.result_at(1);
    assert_eq!(failed.stage, Stage::Failed);
    let err = failed.error.as_ref().unwrap();
    assert_eq!(err.kind, ErrorKind::Fetch);
    assert_eq!(err.detail, b"connection refused".to_vec());
    assert!(failed.chunks.is_empty());
    assert!(failed.embeddings.is_empty());

    let ok2 = p.result_at(2);
    assert_eq!(ok2.stage, Stage::Done);
    assert!(ok2.error.is_none());
    assert!(!ok2.chunks.is_empty());

    // The index holds vectors only from the two successful URLs.
    assert_eq!(p.vector_index().len(), 2);
    for id in 0..2 {
        let e = p.vector_index().resolve(id).unwrap();
        assert_ne!(e.url, us[1]);
    }
}

#[test]
fn one_timeout_among_ten_urls() {
    let us = urls(10);
    let mut p = Pipeline::new(&us, 512, 3, 10, 3600);
    for i in 0..10 {
        assert_eq!(p.start_next(), Some(i));
    }
    // The concurrency bound of 10 is now fully used.
    assert_eq!(p.start_next(), None);

    for i in 0..10 {
        if i == 4 {
            p.fail(i, ErrorKind::Fetch, b"timed out".to_vec());
        } else {
            let text = format!("page number {} with a little body text", i);
            run_success(&mut p, i, text.as_bytes(), 3, 50);
        }
    }

    assert!(p.finished());
    assert_eq!(p.url_count(), 10);
    let error_count =
        (0..10).filter(|&i| p.result_at(i).error.is_some()).count();
    assert_eq!(error_count, 1);
    assert!(p.result_at(4).error.is_some());

    // One chunk per successful URL: the index holds exactly nine
    // vectors, none of them from the failed URL.
    assert_eq!(p.vector_index().len(), 9);
    for id in 0..9 {
        let e = p.vector_index().resolve(id).unwrap();
        assert_ne!(e.url, us[4]);
    }
}

#[test]
fn admission_respects_the_bound() {
    let us = urls(3);
    let mut p = Pipeline::new(&us, 512, 2, 2, 3600);
    assert_eq!(p.start_next(), Some(0));
    assert_eq!(p.start_next(), Some(1));
    assert_eq!(p.start_next(), None);
    p.fail(0, ErrorKind::Fetch, b"no route".to_vec());
    assert_eq!(p.start_next(), Some(2));
    assert_eq!(p.start_next(), None);
}

#[test]
fn embedding_count_mismatch_fails_url_and_commits_nothing() {
    let us = urls(1);
    let mut p = Pipeline::new(&us, 512, 2, 10, 3600);
    assert_eq!(p.start_next(), Some(0));
    p.on_fetched(0);
    let chunks = p.on_extracted(0, b"some words here", 0).unwrap();
    assert_eq!(chunks.len(), 1);
    // Two vectors for one chunk.
    assert!(!p.on_embedded(0, vec![vec![1, 2], vec![3, 4]]));
    let r = p.result_at(0);
    assert_eq!(r.stage, Stage::Failed);
    assert_eq!(r.error.as_ref().unwrap().kind, ErrorKind::Embedding);
    assert!(r.chunks.is_empty());
    assert_eq!(p.vector_index().len(), 0);
}

#[test]
fn mismatched_dimension_is_rejected_at_the_index_boundary() {
    let us = urls(1);
    let mut p = Pipeline::new(&us, 512, 3, 10, 3600);
    assert_eq!(p.start_next(), Some(0));
    p.on_fetched(0);
    p.on_extracted(0, b"some words here", 0).unwrap();
    // One vector per chunk, but of dimension 2 instead of 3.
    assert!(!p.on_embedded(0, vec![vec![1, 2]]));
    let r = p.result_at(0);
    assert_eq!(r.stage, Stage::Failed);
    assert_eq!(r.error.as_ref().unwrap().kind, ErrorKind::Index);
    assert_eq!(p.vector_index().len(), 0);
}

#[test]
fn wordless_text_fails_with_extraction_error() {
    let us = urls(1);
    let mut p = Pipeline::new(&us, 512, 2, 10, 3600);
    assert_eq!(p.start_next(), Some(0));
    p.on_fetched(0);
    assert!(p.on_extracted(0, b" \t \n ", 0).is_none());
    let r = p.result_at(0);
    assert_eq!(r.stage, Stage::Failed);
    assert_eq!(r.error.as_ref().unwrap().kind, ErrorKind::Extraction);
}

#[test]
fn committed_ids_resolve_to_their_chunk_text() {
    let us = urls(2);
    let mut p = Pipeline::new(&us, 2, 2, 10, 3600);
    assert_eq!(p.start_next(), Some(0));
    assert_eq!(p.start_next(), Some(1));
    run_success(&mut p, 0, b"aa bb cc dd", 2, 0);
    run_success(&mut p, 1, b"ee ff", 2, 0);
    // URL 0 yields chunks "aa bb" and "cc dd"; URL 1 yields "ee ff".
    assert_eq!(p.vector_index().len(), 3);
    let e0 = p.vector_index().resolve(0).unwrap();
    assert_eq!(e0.chunk_text, b"aa bb".to_vec());
    assert_eq!(e0.url, us[0]);
    let e1 = p.vector_index().resolve(1).unwrap();
    assert_eq!(e1.chunk_text, b"cc dd".to_vec());
    let e2 = p.vector_index().resolve(2).unwrap();
    assert_eq!(e2.chunk_text, b"ee ff".to_vec());
    assert_eq!(e2.url, us[1]);
}
