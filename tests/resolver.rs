use dup_finder::find::{find_duplicates, resolve};
use dup_finder::pairs::get_pairs;
use dup_finder::resolve::DuplicateMap;

fn bytes(s: &str) -> Vec<u8> {
    s.as_bytes().to_vec()
}

#[test]
fn one_directory_two_equal_files() {
    let contents = vec![vec![bytes("hello"), bytes("hello")]];
    let m = find_duplicates(&contents, false);
    assert_eq!(m.entries(), &vec![((0, 1), (0, 0))]);
    assert_eq!(m.get((0, 1)), Some((0, 0)));
    assert_eq!(m.get((0, 0)), None);
    assert_eq!(m.len(), 1);
}

#[test]
fn two_directories_compared_across_without_cross() {
    let contents = vec![vec![bytes("hi")], vec![bytes("hi")]];
    let m = find_duplicates(&contents, false);
    assert_eq!(m.entries(), &vec![((1, 0), (0, 0))]);
    let m = find_duplicates(&contents, true);
    assert_eq!(m.entries(), &vec![((1, 0), (0, 0))]);
}

#[test]
fn single_file_has_no_duplicates() {
    let contents = vec![vec![bytes("only")]];
    let m = find_duplicates(&contents, false);
    assert!(m.is_empty());
    assert_eq!(m.len(), 0);
}

#[test]
fn cross_only_ignores_files_within_a_directory() {
    let contents = vec![vec![bytes("x"), bytes("x")], vec![bytes("y")]];
    assert!(find_duplicates(&contents, true).is_empty());
    let m = find_duplicates(&contents, false);
    assert_eq!(m.entries(), &vec![((0, 1), (0, 0))]);
}

#[test]
fn identical_files_collapse_onto_the_first() {
    let contents = vec![vec![bytes("same"), bytes("same"), bytes("same")]];
    let m = find_duplicates(&contents, false);
    assert_eq!(m.entries(), &vec![((0, 1), (0, 0)), ((0, 2), (0, 0))]);
    assert_ne!(m.get((0, 2)), Some((0, 1)));
}

#[test]
fn resolving_twice_gives_the_same_map() {
    let contents = vec![
        vec![bytes("a"), bytes("b"), bytes("a")],
        vec![bytes("b"), bytes(""), bytes("a")],
    ];
    let pairs = get_pairs(&contents, false);
    let first = resolve(&pairs, &contents);
    let second = resolve(&pairs, &contents);
    assert_eq!(first.entries(), second.entries());
    assert_eq!(
        first.entries(),
        &vec![((0, 2), (0, 0)), ((1, 2), (0, 0)), ((1, 0), (0, 1))]
    );
}

#[test]
fn replaying_pairs_over_the_result_changes_nothing() {
    let contents = vec![vec![bytes("a"), bytes("b"), bytes("a"), bytes("b")]];
    let pairs = get_pairs(&contents, false);
    let mut m = resolve(&pairs, &contents);
    let before = m.entries().clone();
    for p in &pairs {
        if m.should_compare(*p) {
            let same = contents[p.0 .0][p.0 .1] == contents[p.1 .0][p.1 .1];
            m.record(*p, same);
        }
    }
    assert_eq!(m.entries(), &before);
}

#[test]
fn record_skips_classified_files() {
    let mut m = DuplicateMap::new();
    assert!(m.should_compare(((0, 0), (0, 1))));
    m.record(((0, 0), (0, 1)), true);
    assert!(m.contains_key((0, 1)));
    assert!(!m.should_compare(((0, 1), (0, 2))));
    m.record(((0, 1), (0, 2)), true);
    assert!(!m.contains_key((0, 2)));
    m.record(((0, 0), (0, 2)), false);
    assert!(!m.contains_key((0, 2)));
    assert_eq!(m.len(), 1);
}
