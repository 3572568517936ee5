use dup_finder::scan::{key_le, listing_order, path_key, sorted_order};

fn comps(parts: &[&str]) -> Vec<Vec<u8>> {
    parts.iter().map(|p| p.as_bytes().to_vec()).collect()
}

#[test]
fn key_of_a_path() {
    let k = path_key(&comps(&["ab", "c"]));
    assert_eq!(k, vec![98, 99, 0, 100, 0]);
    assert!(path_key(&vec![]).is_empty());
}

#[test]
fn keys_order_component_by_component() {
    let slash = path_key(&comps(&["d", "a", "b"]));
    let dot = path_key(&comps(&["d", "a.b"]));
    assert!(key_le(&slash, &dot));
    assert!(!key_le(&dot, &slash));
    assert!(key_le(&dot, &dot));
}

#[test]
fn order_sorts_and_keeps_ties() {
    let keys = vec![
        path_key(&comps(&["d", "b.txt"])),
        path_key(&comps(&["d", "a.txt"])),
        path_key(&comps(&["d", "a", "z"])),
        path_key(&comps(&["d", "b.txt"])),
    ];
    assert_eq!(sorted_order(&keys), vec![2, 1, 0, 3]);
    assert!(sorted_order(&vec![]).is_empty());
}

#[test]
fn listing_order_sorts_paths_by_component() {
    let paths = vec![
        comps(&["x", "b.txt"]),
        comps(&["x", "a.b"]),
        comps(&["x", "a", "b"]),
        comps(&["x", "a"]),
        comps(&["x", "b.txt"]),
        comps(&["x", "B"]),
    ];
    assert_eq!(listing_order(&paths), vec![5, 3, 2, 1, 0, 4]);
}
