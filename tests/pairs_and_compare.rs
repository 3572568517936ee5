use dup_finder::compare::{compare_chunks, same_bytes, ChunkVerdict, CHUNK_SIZE};
use dup_finder::pairs::get_pairs;

#[test]
fn pairs_within_one_directory() {
    let files = vec![vec!["a", "b", "c"]];
    let r = get_pairs(&files, false);
    assert_eq!(r, vec![((0, 0), (0, 1)), ((0, 0), (0, 2)), ((0, 1), (0, 2))]);
}

#[test]
fn pairs_two_directories_not_cross() {
    let files = vec![vec!["a", "b"], vec!["c", "d"]];
    let r = get_pairs(&files, false);
    assert_eq!(
        r,
        vec![
            ((0, 0), (0, 1)),
            ((1, 0), (1, 1)),
            ((0, 0), (1, 0)),
            ((0, 0), (1, 1)),
            ((0, 1), (1, 0)),
            ((0, 1), (1, 1)),
        ]
    );
}

#[test]
fn pairs_two_directories_cross_only() {
    let files = vec![vec!["a", "b"], vec!["c", "d"]];
    let r = get_pairs(&files, true);
    assert_eq!(
        r,
        vec![((0, 0), (1, 0)), ((0, 0), (1, 1)), ((0, 1), (1, 0)), ((0, 1), (1, 1))]
    );
}

#[test]
fn pairs_three_directories_each_pair_once() {
    let files = vec![vec!["a"], vec!["b"], vec!["c"]];
    let r = get_pairs(&files, true);
    assert_eq!(r, vec![((0, 0), (1, 0)), ((0, 0), (2, 0)), ((1, 0), (2, 0))]);
}

#[test]
fn pairs_never_twice_nor_with_self() {
    let files = vec![vec![1, 2, 3], vec![4, 5], vec![], vec![6, 7, 8]];
    for cross in [false, true] {
        let r = get_pairs(&files, cross);
        for (k, p) in r.iter().enumerate() {
            assert_ne!(p.0, p.1);
            assert_ne!(files[p.0 .0][p.0 .1], files[p.1 .0][p.1 .1]);
            assert!(!r[k + 1..].contains(p));
        }
        let within = 3 + 1 + 0 + 3;
        let across = 3 * 2 + 3 * 3 + 2 * 3;
        assert_eq!(r.len(), if cross { across } else { within + across });
    }
}

#[test]
fn pairs_of_nothing() {
    let files: Vec<Vec<u8>> = vec![];
    assert!(get_pairs(&files, false).is_empty());
    let one = vec![vec![7u8]];
    assert!(get_pairs(&one, false).is_empty());
    assert!(get_pairs(&one, true).is_empty());
}

#[test]
fn chunk_verdicts() {
    assert_eq!(compare_chunks(b"", b""), ChunkVerdict::Equal);
    assert_eq!(compare_chunks(b"ab", b"a"), ChunkVerdict::Differ);
    assert_eq!(compare_chunks(b"ab", b"ac"), ChunkVerdict::Differ);
    assert_eq!(compare_chunks(b"ab", b"ab"), ChunkVerdict::More);
}

#[test]
fn zero_length_files_are_equal() {
    assert!(same_bytes(b"", b"", CHUNK_SIZE));
}

#[test]
fn files_differing_in_last_byte_are_not_equal() {
    assert!(!same_bytes(b"hello", b"hellp", CHUNK_SIZE));
    assert!(!same_bytes(b"hello", b"hellp", 2));
}

#[test]
fn files_of_different_lengths_are_not_equal() {
    assert!(!same_bytes(b"hello", b"hello!", CHUNK_SIZE));
    assert!(!same_bytes(b"", b"x", 1));
}

#[test]
fn equal_files_over_several_chunks() {
    let a: Vec<u8> = (0..100u8).collect();
    let b = a.clone();
    assert!(same_bytes(&a, &b, 7));
    assert!(same_bytes(&a, &b, 100));
    let mut c = a.clone();
    c[50] = 0;
    assert!(!same_bytes(&a, &c, 7));
}
