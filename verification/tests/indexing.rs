use polymath::index::{IndexError, VectorIndex};

#[test]
fn index_assigns_monotonic_unique_ids() {
    let mut ix = VectorIndex::new(3);
    let a = ix.insert(b"u1".to_vec(), b"t1".to_vec(), vec![1, 2, 3]).unwrap();
    let b = ix.insert(b"u1".to_vec(), b"t2".to_vec(), vec![4, 5, 6]).unwrap();
    let c = ix.insert(b"u2".to_vec(), b"t3".to_vec(), vec![7, 8, 9]).unwrap();
    assert_eq!((a, b, c), (0, 1, 2));
    assert_eq!(ix.len(), 3);
    assert!(a != b && b != c && a != c);
}

#[test]
fn index_rejects_dimension_mismatch() {
    let mut ix = VectorIndex::new(3);
    let r = ix.insert(b"u".to_vec(), b"t".to_vec(), vec![1, 2]);
    assert_eq!(r, Err(IndexError::DimensionMismatch));
    assert_eq!(ix.len(), 0);
    let r = ix.insert(b"u".to_vec(), b"t".to_vec(), vec![1, 2, 3, 4]);
    assert_eq!(r, Err(IndexError::DimensionMismatch));
    assert_eq!(ix.len(), 0);
}

#[test]
fn index_resolves_committed_ids() {
    let mut ix = VectorIndex::new(2);
    let id = ix.insert(b"http://a".to_vec(), b"some text".to_vec(), vec![10, 20]).unwrap();
    let e = ix.resolve(id).unwrap();
    assert_eq!(e.id, id);
    assert_eq!(e.url, b"http://a".to_vec());
    assert_eq!(e.chunk_text, b"some text".to_vec());
    assert_eq!(e.vector, vec![10, 20]);
}

#[test]
fn index_does_not_resolve_unallocated_ids() {
    let mut ix = VectorIndex::new(2);
    assert!(ix.resolve(0).is_none());
    ix.insert(b"u".to_vec(), b"t".to_vec(), vec![1, 2]).unwrap();
    assert!(ix.resolve(0).is_some());
    assert!(ix.resolve(1).is_none());
    assert!(ix.resolve(99).is_none());
}

#[test]
fn index_reports_dimension() {
    let ix = VectorIndex::new(384);
    assert_eq!(ix.dimension(), 384);
}
