use rust_art::{ARTMap, Iter, RangeIter};

fn keys_of(pairs: Vec<(&[u8], &i32)>) -> Vec<Vec<u8>> {
    pairs.into_iter().map(|(k, _)| k.to_vec()).collect()
}

fn drain_iter(mut it: Iter<'_, i32>) -> Vec<(Vec<u8>, i32)> {
    let mut out = Vec::new();
    while let Some((k, v)) = it.next() {
        out.push((k.to_vec(), *v));
    }
    out
}

fn drain_range(mut it: RangeIter<'_, i32>) -> Vec<(Vec<u8>, i32)> {
    let mut out = Vec::new();
    while let Some((k, v)) = it.next() {
        out.push((k.to_vec(), *v));
    }
    out
}

fn sample_tree() -> ARTMap<i32> {
    let mut tree = ARTMap::new();
    let keys: [&[u8]; 9] = [b"", b"a", b"ab", b"abc", b"abd", b"abda", b"b", b"ba", b"zz"];
    for (i, k) in keys.iter().enumerate() {
        tree.put(k, i as i32);
    }
    tree
}

#[test]
fn get_after_put_and_other_keys_unchanged() {
    let mut tree = sample_tree();
    tree.put(b"abc", 100);
    assert_eq!(tree.get(b"abc"), Some(&100));
    assert_eq!(tree.get(b"ab"), Some(&2));
    assert_eq!(tree.get(b"abd"), Some(&4));
    assert_eq!(tree.get(b"abcd"), None);
}

#[test]
fn get_after_delete_and_other_keys_unchanged() {
    let mut tree = sample_tree();
    assert!(tree.delete(b"ab"));
    assert_eq!(tree.get(b"ab"), None);
    assert_eq!(tree.get(b"a"), Some(&1));
    assert_eq!(tree.get(b"abc"), Some(&3));
    assert_eq!(tree.get(b"abda"), Some(&5));
}

#[test]
fn len_counts_new_keys_only() {
    let mut tree = ARTMap::new();
    tree.put(b"x", 1);
    tree.put(b"x", 2);
    assert_eq!(tree.len(), 1);
    tree.put(b"xy", 3);
    assert_eq!(tree.len(), 2);
    assert!(!tree.delete(b"xyz"));
    assert_eq!(tree.len(), 2);
    assert!(tree.delete(b"x"));
    assert_eq!(tree.len(), 1);
    assert!(!tree.is_empty());
    assert!(tree.delete(b"xy"));
    assert!(tree.is_empty());
}

#[test]
fn second_put_replaces_first() {
    let mut a = ARTMap::new();
    a.put(b"k", 1);
    a.put(b"k", 2);
    let mut b = ARTMap::new();
    b.put(b"k", 2);
    assert_eq!(drain_iter(a.iter()), drain_iter(b.iter()));
}

#[test]
fn delete_undoes_put_of_fresh_key() {
    let mut tree = sample_tree();
    let before = drain_iter(tree.iter());
    tree.put(b"abz", 77);
    assert!(tree.delete(b"abz"));
    assert_eq!(drain_iter(tree.iter()), before);
}

#[test]
fn delete_returns_presence() {
    let mut tree = sample_tree();
    assert!(tree.delete(b""));
    assert!(!tree.delete(b""));
    assert!(!tree.delete(b"abcd"));
    assert!(tree.delete(b"abda"));
    assert_eq!(tree.len(), 7);
}

#[test]
fn items_len_matches_len() {
    let tree = sample_tree();
    assert_eq!(tree.items().len(), tree.len());
    assert_eq!(tree.len(), 9);
}

#[test]
fn iter_matches_items() {
    let tree = sample_tree();
    let from_items: Vec<(Vec<u8>, i32)> = tree.items().into_iter().map(|(k, v)| (k.to_vec(), *v)).collect();
    assert_eq!(drain_iter(tree.iter()), from_items);
    let keys: Vec<Vec<u8>> = from_items.into_iter().map(|(k, _)| k).collect();
    let expected: Vec<Vec<u8>> = [&b""[..], b"a", b"ab", b"abc", b"abd", b"abda", b"b", b"ba", b"zz"]
        .iter()
        .map(|k| k.to_vec())
        .collect();
    assert_eq!(keys, expected);
}

#[test]
fn iter_on_empty_map_yields_nothing() {
    let tree: ARTMap<i32> = ARTMap::new();
    let mut it = tree.iter();
    assert!(it.next().is_none());
    assert!(it.next().is_none());
    let mut r = tree.range_iter(None, None);
    assert!(r.next().is_none());
}

#[test]
fn range_iter_matches_range() {
    let tree = sample_tree();
    let from_range: Vec<(Vec<u8>, i32)> = tree
        .range(Some(b"ab"), Some(b"b"))
        .into_iter()
        .map(|(k, v)| (k.to_vec(), *v))
        .collect();
    assert_eq!(drain_range(tree.range_iter(Some(b"ab"), Some(b"b"))), from_range);
    assert_eq!(
        from_range,
        vec![
            (b"ab".to_vec(), 2),
            (b"abc".to_vec(), 3),
            (b"abd".to_vec(), 4),
            (b"abda".to_vec(), 5),
            (b"b".to_vec(), 6)
        ]
    );
}

#[test]
fn range_is_filtered_full_scan_for_many_bounds() {
    let tree = sample_tree();
    let bounds: [Option<&[u8]>; 8] = [None, Some(b""), Some(b"a"), Some(b"abc"), Some(b"abcz"), Some(b"abd"), Some(b"b"), Some(b"zzz")];
    let all: Vec<Vec<u8>> = keys_of(tree.items());
    for lo in bounds.iter() {
        for hi in bounds.iter() {
            let expected: Vec<Vec<u8>> = all
                .iter()
                .filter(|k| lo.map_or(true, |l| k.as_slice() >= l) && hi.map_or(true, |h| k.as_slice() <= h))
                .cloned()
                .collect();
            assert_eq!(keys_of(tree.range(*lo, *hi)), expected);
        }
    }
}

#[test]
fn upper_bound_shorter_than_shared_prefix() {
    let mut tree = ARTMap::new();
    tree.put(b"abc", 1);
    tree.put(b"abd", 2);
    tree.put(b"c", 3);
    assert_eq!(keys_of(tree.range(None, Some(b"b"))), vec![b"abc".to_vec(), b"abd".to_vec()]);
    assert_eq!(keys_of(tree.range(None, Some(b"a"))), Vec::<Vec<u8>>::new());
    assert_eq!(keys_of(tree.range(Some(b"b"), None)), vec![b"c".to_vec()]);
}

#[test]
fn lower_bound_shorter_than_shared_prefix() {
    let mut tree = ARTMap::new();
    tree.put(b"abc", 1);
    tree.put(b"abd", 2);
    assert_eq!(keys_of(tree.range(Some(b"a"), None)), vec![b"abc".to_vec(), b"abd".to_vec()]);
    assert_eq!(keys_of(tree.range(Some(b"b"), None)), Vec::<Vec<u8>>::new());
    assert_eq!(keys_of(tree.range(Some(b"aa"), None)), vec![b"abc".to_vec(), b"abd".to_vec()]);
}

#[test]
fn range_single_key_bounds() {
    let tree = sample_tree();
    assert_eq!(keys_of(tree.range(Some(b"abd"), Some(b"abd"))), vec![b"abd".to_vec()]);
    assert_eq!(keys_of(tree.range(Some(b"abe"), Some(b"abe"))), Vec::<Vec<u8>>::new());
    assert_eq!(keys_of(tree.range(Some(b""), Some(b""))), vec![b"".to_vec()]);
}

#[test]
fn range_inverted_bounds_is_empty() {
    let tree = sample_tree();
    assert!(tree.range(Some(b"b"), Some(b"a")).is_empty());
    assert!(tree.range(Some(b"abd"), Some(b"abc")).is_empty());
    assert!(tree.range(Some(b"ab"), Some(b"a")).is_empty());
}

#[test]
fn range_bound_between_prefix_key_and_children() {
    let tree = sample_tree();
    assert_eq!(
        keys_of(tree.range(Some(b"ab\x00"), Some(b"abd\x00"))),
        vec![b"abc".to_vec(), b"abd".to_vec()]
    );
    assert_eq!(keys_of(tree.range(Some(b"abd"), Some(b"abd"))), vec![b"abd".to_vec()]);
}

#[test]
fn long_prefixes_beyond_inline_capacity() {
    let base = vec![b'p'; 40];
    let mut tree = ARTMap::new();
    for i in 0..5u8 {
        let mut k = base.clone();
        k.push(b'a' + i);
        tree.put(&k, i as i32);
    }
    let mut k2 = base.clone();
    k2.truncate(30);
    tree.put(&k2, 99);
    assert_eq!(tree.get(&k2), Some(&99));
    for i in 0..5u8 {
        let mut k = base.clone();
        k.push(b'a' + i);
        assert_eq!(tree.get(&k), Some(&(i as i32)));
    }
    let mut lo = base.clone();
    lo.push(b'b');
    let mut hi = base.clone();
    hi.push(b'd');
    assert_eq!(keys_of(tree.range(Some(&lo), Some(&hi))).len(), 3);
    let mut other = base.clone();
    other[35] = b'q';
    assert_eq!(tree.get(&other), None);
    assert_eq!(tree.len(), 6);
}

#[test]
fn grow_to_256_then_shrink_back() {
    let mut tree = ARTMap::new();
    for b in 0..=255u8 {
        tree.put(&[7, b], b as i32);
    }
    assert_eq!(tree.len(), 256);
    for b in 0..=255u8 {
        if b % 64 != 0 {
            assert!(tree.delete(&[7, b]));
        }
    }
    assert_eq!(tree.len(), 4);
    let keys = keys_of(tree.items());
    assert_eq!(keys, vec![vec![7, 0], vec![7, 64], vec![7, 128], vec![7, 192]]);
    for b in [0u8, 64, 128, 192] {
        assert_eq!(tree.get(&[7, b]), Some(&(b as i32)));
    }
    for b in [0u8, 64, 128] {
        assert!(tree.delete(&[7, b]));
    }
    assert_eq!(keys_of(tree.items()), vec![vec![7, 192]]);
    assert!(tree.delete(&[7, 192]));
    assert!(tree.is_empty());
    assert!(tree.items().is_empty());
}

#[test]
fn delete_collapses_prefix_then_split_again() {
    let mut tree = ARTMap::new();
    tree.put(b"prefix-one", 1);
    tree.put(b"prefix-two", 2);
    tree.put(b"prefix", 0);
    assert!(tree.delete(b"prefix-two"));
    assert!(tree.delete(b"prefix"));
    assert_eq!(keys_of(tree.items()), vec![b"prefix-one".to_vec()]);
    tree.put(b"pre", 3);
    assert_eq!(keys_of(tree.items()), vec![b"pre".to_vec(), b"prefix-one".to_vec()]);
    assert_eq!(tree.get(b"prefix-one"), Some(&1));
    assert_eq!(tree.get(b"pre"), Some(&3));
}

#[test]
fn empty_key_alone() {
    let mut tree = ARTMap::new();
    tree.put(b"", 5);
    assert_eq!(tree.get(b""), Some(&5));
    assert_eq!(keys_of(tree.range(None, Some(b""))), vec![b"".to_vec()]);
    assert_eq!(keys_of(tree.range(Some(b"\x00"), None)), Vec::<Vec<u8>>::new());
    assert!(tree.delete(b""));
    assert!(tree.get(b"").is_none());
}
