use treescout::embedding::{bytes_to_i8, dot_i8, i8_to_bytes};
use treescout::folder_matrix::{encode, parse, FolderEmbeddingMatrix, IndexError};

#[test]
fn build_and_open_roundtrip() {
    let entries = vec![
        ("/a".to_string(), vec![1i8, 2, 3, 4]),
        ("/b/c".to_string(), vec![-1i8, -2, -3, -4]),
        ("/d".to_string(), vec![0i8, 0, 0, 0]),
    ];
    let matrix = FolderEmbeddingMatrix::build(&entries, 4).unwrap();
    assert_eq!(matrix.dim(), 4);
    assert_eq!(matrix.len(), 3);
    assert_eq!(matrix.paths(), &vec!["/a".to_string(), "/b/c".to_string(), "/d".to_string()]);
    assert_eq!(matrix.embedding(0), vec![1i8, 2, 3, 4]);
    assert_eq!(matrix.embedding(1), vec![-1i8, -2, -3, -4]);
    assert_eq!(matrix.embedding(2), vec![0i8, 0, 0, 0]);
}

#[test]
fn reopen_from_disk() {
    let entries = vec![("/x".to_string(), vec![10i8, 20, 30]), ("/y".to_string(), vec![-10i8, -20, -30])];
    let bytes = encode(&entries, 3).unwrap();
    let matrix = FolderEmbeddingMatrix::open(bytes).unwrap();
    assert_eq!(matrix.dim(), 3);
    assert_eq!(matrix.len(), 2);
    assert_eq!(matrix.embedding(0), vec![10i8, 20, 30]);
    assert_eq!(matrix.embedding(1), vec![-10i8, -20, -30]);
    assert_eq!(matrix.paths()[1], "/y");
}

#[test]
fn empty_entries() {
    let matrix = FolderEmbeddingMatrix::build(&vec![], 384).unwrap();
    assert_eq!(matrix.dim(), 384);
    assert!(matrix.is_empty());
}

#[test]
fn dim_mismatch_rejected() {
    let entries = vec![("/a".to_string(), vec![1i8, 2, 3])];
    let err = FolderEmbeddingMatrix::build(&entries, 4).unwrap_err();
    assert!(matches!(err, IndexError::DimMismatch { expected: 4, actual: 3 }));
}

#[test]
fn iter_embeddings_matches_paths_order() {
    let entries = vec![("/a".to_string(), vec![1i8, 1]), ("/b".to_string(), vec![2i8, 2])];
    let matrix = FolderEmbeddingMatrix::build(&entries, 2).unwrap();
    let collected = matrix.iter_embeddings();
    assert_eq!(collected, vec![vec![1i8, 1], vec![2i8, 2]]);
}

#[test]
fn file_layout_is_little_endian() {
    let entries = vec![("é".to_string(), vec![-1i8, 2])];
    let bytes = encode(&entries, 2).unwrap();
    assert_eq!(bytes, vec![2, 0, 0, 0, 1, 0, 0, 0, 255, 2, 2, 0, 0, 0, 0xC3, 0xA9]);
    assert_eq!(parse(&bytes), Some((2, vec!["é".to_string()])));
}

#[test]
fn malformed_files_are_refused() {
    assert_eq!(parse(&vec![1, 0, 0]), None);
    // one path announced, none present
    assert_eq!(parse(&vec![0, 0, 0, 0, 1, 0, 0, 0]), None);
    // a path that is not UTF-8
    assert_eq!(parse(&vec![0, 0, 0, 0, 1, 0, 0, 0, 1, 0, 0, 0, 0xFF]), None);
    assert!(FolderEmbeddingMatrix::open(vec![1, 2]).is_none());
}

#[test]
fn i8_bytes_roundtrip_and_dot() {
    let v = vec![-128i8, -1, 0, 1, 127];
    let b = i8_to_bytes(&v);
    assert_eq!(b, vec![128u8, 255, 0, 1, 127]);
    assert_eq!(bytes_to_i8(&b), v);
    assert_eq!(dot_i8(&[90, 90], &[90, 90]), 16200);
    assert_eq!(dot_i8(&[1, -2, 3], &[4, 5, -6]), 1 * 4 - 2 * 5 - 3 * 6);
}
