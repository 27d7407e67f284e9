use mini_lsm::key::compare_keys;
use mini_lsm::mem_table::MemTableIterator;
use mini_lsm::merge_iterator::MergeIterator;
use mini_lsm::source::StorageIterator;
use std::cmp::Ordering;

fn table(pairs: &[(&str, &str)]) -> Box<MemTableIterator> {
    let entries: Vec<(Vec<u8>, Vec<u8>)> = pairs
        .iter()
        .map(|(k, v)| (k.as_bytes().to_vec(), v.as_bytes().to_vec()))
        .collect();
    Box::new(MemTableIterator::create(entries).unwrap())
}

fn drain<I: StorageIterator>(it: &mut I) -> Vec<(String, String)> {
    let mut out = Vec::new();
    while it.is_valid() {
        out.push((
            String::from_utf8(it.key().to_vec()).unwrap(),
            String::from_utf8(it.value().to_vec()).unwrap(),
        ));
        it.next().unwrap();
    }
    out
}

fn pairs(v: &[(&str, &str)]) -> Vec<(String, String)> {
    v.iter().map(|(k, v)| (k.to_string(), v.to_string())).collect()
}

#[test]
fn lower_index_wins_on_duplicate_keys() {
    let s0 = table(&[("k1", "a"), ("k2", "b")]);
    let s1 = table(&[("k1", "z")]);
    let mut m = MergeIterator::create(vec![s0, s1]);
    assert_eq!(drain(&mut m), pairs(&[("k1", "a"), ("k2", "b")]));
    assert!(!m.is_valid());
}

#[test]
fn lower_index_wins_when_listed_second_in_key_order() {
    let s0 = table(&[("k2", "b")]);
    let s1 = table(&[("k1", "y"), ("k2", "z")]);
    let mut m = MergeIterator::create(vec![s0, s1]);
    assert_eq!(drain(&mut m), pairs(&[("k1", "y"), ("k2", "b")]));
}

#[test]
fn keys_come_out_in_order_across_sources() {
    let s0 = table(&[("k2", "x")]);
    let s1 = table(&[("k1", "y")]);
    let mut m = MergeIterator::create(vec![s0, s1]);
    assert_eq!(drain(&mut m), pairs(&[("k1", "y"), ("k2", "x")]));
}

#[test]
fn all_empty_sources_give_invalid_merge() {
    let m = MergeIterator::create(vec![table(&[]), table(&[]), table(&[])]);
    assert!(!m.is_valid());
    let none: MergeIterator<MemTableIterator> = MergeIterator::create(vec![]);
    assert!(!none.is_valid());
}

#[test]
fn exhausted_sources_are_skipped() {
    let s0 = table(&[]);
    let s1 = table(&[("a", "1"), ("c", "3")]);
    let s2 = table(&[]);
    let s3 = table(&[("b", "2")]);
    let mut m = MergeIterator::create(vec![s0, s1, s2, s3]);
    assert_eq!(drain(&mut m), pairs(&[("a", "1"), ("b", "2"), ("c", "3")]));
}

#[test]
fn many_sources_sharing_keys() {
    let s0 = table(&[("b", "0b"), ("d", "0d")]);
    let s1 = table(&[("a", "1a"), ("b", "1b"), ("c", "1c"), ("d", "1d")]);
    let s2 = table(&[("a", "2a"), ("d", "2d"), ("e", "2e")]);
    let mut m = MergeIterator::create(vec![s0, s1, s2]);
    assert_eq!(
        drain(&mut m),
        pairs(&[("a", "1a"), ("b", "0b"), ("c", "1c"), ("d", "0d"), ("e", "2e")])
    );
}

#[test]
fn merge_of_merges_equals_flat_merge() {
    let leaves: Vec<Vec<(&str, &str)>> = vec![
        vec![("b", "0b"), ("e", "0e")],
        vec![("a", "1a"), ("b", "1b")],
        vec![("b", "2b"), ("c", "2c"), ("e", "2e")],
        vec![("a", "3a"), ("d", "3d")],
    ];
    let mut flat = MergeIterator::create(leaves.iter().map(|l| table(l)).collect());
    let left = MergeIterator::create(vec![table(&leaves[0]), table(&leaves[1])]);
    let right = MergeIterator::create(vec![table(&leaves[2]), table(&leaves[3])]);
    let mut nested = MergeIterator::create(vec![Box::new(left), Box::new(right)]);
    let expected = pairs(&[("a", "1a"), ("b", "0b"), ("c", "2c"), ("d", "3d"), ("e", "0e")]);
    assert_eq!(drain(&mut flat), expected);
    assert_eq!(drain(&mut nested), expected);
}

#[test]
fn mem_table_rejects_unsorted_entries() {
    let unsorted = vec![(b"b".to_vec(), b"1".to_vec()), (b"a".to_vec(), b"2".to_vec())];
    assert!(MemTableIterator::create(unsorted).is_none());
    let repeated = vec![(b"a".to_vec(), b"1".to_vec()), (b"a".to_vec(), b"2".to_vec())];
    assert!(MemTableIterator::create(repeated).is_none());
}

#[test]
fn key_order_is_lexicographic() {
    assert_eq!(compare_keys(b"ab", b"abc"), Ordering::Less);
    assert_eq!(compare_keys(b"abd", b"abc"), Ordering::Greater);
    assert_eq!(compare_keys(b"abc", b"abc"), Ordering::Equal);
    assert_eq!(compare_keys(b"", b"a"), Ordering::Less);
    assert_eq!(compare_keys(b"b", b"abc"), Ordering::Greater);
}

#[test]
fn single_source_merge_becomes_invalid_after_last_entry() {
    let mut m = MergeIterator::create(vec![table(&[("a", "1")])]);
    assert!(m.is_valid());
    assert!(m.next().is_ok());
    assert!(!m.is_valid());
}

#[test]
fn heap_order_holds_over_many_sources() {
    // twelve sources with overlapping keys: source i holds each k < 24 with k % 12 == i or k % 5 == i % 5
    let mut sources = Vec::new();
    for i in 0..12u32 {
        let mut keys: Vec<u32> = (0..24u32).filter(|k| k % 12 == i || k % 5 == i % 5).collect();
        keys.sort();
        keys.dedup();
        let entries: Vec<(Vec<u8>, Vec<u8>)> = keys
            .iter()
            .map(|k| (format!("{:02}", k).into_bytes(), format!("s{}", i).into_bytes()))
            .collect();
        sources.push(Box::new(MemTableIterator::create(entries).unwrap()));
    }
    let mut m = MergeIterator::create(sources);
    let got = drain(&mut m);
    let expected: Vec<(String, String)> = (0..24u32)
        .map(|k| {
            let first = (0..12u32).find(|i| k % 12 == *i || k % 5 == i % 5).unwrap();
            (format!("{:02}", k), format!("s{}", first))
        })
        .collect();
    assert_eq!(got, expected);
}
