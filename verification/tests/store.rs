use plasma_operator::error::Error;
use plasma_operator::primitives::{
    bytes_eq, copy_bytes, push_be_bytes, push_bytes, read_be_bytes, Range,
};
use plasma_operator::range_store::{IntervalStore, ScopedStore};

fn starts(store: &IntervalStore<u32>, scope: &ScopedStore, start: u64, end: u64) -> Vec<(u64, u64, u32)> {
    store.get(scope, start, end).iter().map(|e| (e.start, e.end, e.value)).collect()
}

#[test]
fn get_returns_the_entries_that_intersect_in_the_order_of_their_starts() {
    let mut store: IntervalStore<u32> = IntervalStore::new();
    let scope = store.bucket(b"ranges");
    assert_eq!(store.put(&scope, 50, 60, 3), Ok(()));
    assert_eq!(store.put(&scope, 0, 10, 1), Ok(()));
    assert_eq!(store.put(&scope, 20, 30, 2), Ok(()));
    assert_eq!(store.put(&scope, 10, 20, 4), Ok(()));
    assert_eq!(starts(&store, &scope, 0, 100), vec![(0, 10, 1), (10, 20, 4), (20, 30, 2), (50, 60, 3)]);
    assert_eq!(starts(&store, &scope, 5, 25), vec![(0, 10, 1), (10, 20, 4), (20, 30, 2)]);
    assert_eq!(starts(&store, &scope, 10, 20), vec![(10, 20, 4)]);
    assert_eq!(starts(&store, &scope, 30, 50), vec![]);
    assert_eq!(starts(&store, &scope, 59, 60), vec![(50, 60, 3)]);
    assert_eq!(starts(&store, &scope, 60, 61), vec![]);
    assert_eq!(starts(&store, &scope, 25, 25), vec![]);
    assert_eq!(store.all(&scope).len(), 4);
}

#[test]
fn put_refuses_an_interval_that_overlaps_or_is_empty() {
    let mut store: IntervalStore<u32> = IntervalStore::new();
    let scope = store.bucket(b"ranges");
    assert_eq!(store.put(&scope, 10, 20, 1), Ok(()));
    assert_eq!(store.put(&scope, 15, 25, 2), Err(Error::StorageError));
    assert_eq!(store.put(&scope, 0, 11, 2), Err(Error::StorageError));
    assert_eq!(store.put(&scope, 12, 13, 2), Err(Error::StorageError));
    assert_eq!(store.put(&scope, 0, 100, 2), Err(Error::StorageError));
    assert_eq!(store.put(&scope, 5, 5, 2), Err(Error::StorageError));
    assert_eq!(store.put(&scope, 7, 3, 2), Err(Error::StorageError));
    assert_eq!(starts(&store, &scope, 0, u64::MAX), vec![(10, 20, 1)]);
    assert_eq!(store.put(&scope, 20, 21, 3), Ok(()));
    assert_eq!(store.put(&scope, 9, 10, 4), Ok(()));
}

#[test]
fn buckets_are_apart_and_nest() {
    let mut store: IntervalStore<u32> = IntervalStore::new();
    let outer = store.bucket(b"a");
    let inner = outer.bucket(b"b");
    let glued = store.bucket(b"ab");
    assert_eq!(store.put(&outer, 0, 10, 1), Ok(()));
    assert_eq!(store.put(&inner, 0, 10, 2), Ok(()));
    assert_eq!(store.put(&glued, 0, 10, 3), Ok(()));
    assert_eq!(starts(&store, &outer, 0, 10), vec![(0, 10, 1)]);
    assert_eq!(starts(&store, &inner, 0, 10), vec![(0, 10, 2)]);
    assert_eq!(starts(&store, &glued, 0, 10), vec![(0, 10, 3)]);
    assert_eq!(starts(&store, &ScopedStore::root(), 0, 10), vec![]);
    store.delete_all(&outer);
    assert_eq!(starts(&store, &outer, 0, 10), vec![]);
    assert_eq!(starts(&store, &inner, 0, 10), vec![(0, 10, 2)]);
    store.delete_all(&store.bucket(b"never written"));
    assert_eq!(starts(&store, &glued, 0, 10), vec![(0, 10, 3)]);
}

#[test]
fn remove_takes_the_entry_that_starts_there() {
    let mut store: IntervalStore<u32> = IntervalStore::new();
    let scope = store.bucket(b"ranges");
    for (i, start) in [0u64, 10, 20, 30].iter().enumerate() {
        assert_eq!(store.put(&scope, *start, *start + 10, i as u32), Ok(()));
    }
    assert_eq!(store.remove(&scope, 10), Some(1));
    assert_eq!(store.remove(&scope, 10), None);
    assert_eq!(store.remove(&scope, 15), None);
    assert_eq!(starts(&store, &scope, 0, 100), vec![(0, 10, 0), (20, 30, 2), (30, 40, 3)]);
    store.remove_starts(&scope, &vec![30, 99, 0]);
    assert_eq!(starts(&store, &scope, 0, 100), vec![(20, 30, 2)]);
    assert_eq!(store.put(&scope, 0, 20, 9), Ok(()));
}

#[test]
fn range_intersection() {
    let range = Range::new(10, 20);
    assert!(range.validate());
    assert!(!Range::new(5, 5).validate());
    assert_eq!(range.get_intersection(0, 15), Some(Range::new(10, 15)));
    assert_eq!(range.get_intersection(12, 30), Some(Range::new(12, 20)));
    assert_eq!(range.get_intersection(0, 100), Some(Range::new(10, 20)));
    assert_eq!(range.get_intersection(20, 30), None);
    assert_eq!(range.get_intersection(0, 10), None);
    assert_eq!(range.get_start(), 10);
    assert_eq!(range.get_end(), 20);
}

#[test]
fn big_endian_bytes() {
    let mut out = vec![0xaa];
    push_be_bytes(&mut out, 0x0102030405060708);
    assert_eq!(out, vec![0xaa, 1, 2, 3, 4, 5, 6, 7, 8]);
    assert_eq!(read_be_bytes(&out, 1), 0x0102030405060708);
    push_bytes(&mut out, &[9, 9]);
    assert_eq!(out.len(), 11);
    assert_eq!(copy_bytes(&out), out);
    assert!(bytes_eq(&out, &copy_bytes(&out)));
    assert!(!bytes_eq(&out, &out[1..]));
    assert!(!bytes_eq(&[1, 2], &[1, 3]));
}
