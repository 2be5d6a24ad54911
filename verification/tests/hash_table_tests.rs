use data_structures::hash_table::{HashTable, Hashable};

#[derive(Debug, PartialEq, Eq)]
struct TestKey(usize);

impl Hashable for TestKey {
    fn spec_hash(&self) -> usize {
        self.0
    }

    fn hash(&self) -> usize {
        self.0
    }
}

#[test]
fn test_insert_and_search() {
    let mut hash_table = HashTable::new();
    let key = TestKey(1);
    let value = TestKey(10);

    hash_table.insert(key, value);
    let result = hash_table.search(TestKey(1));

    assert_eq!(result, Some(&TestKey(10)));
}

#[test]
fn missing_key_is_absent() {
    let mut hash_table: HashTable<usize, u64> = HashTable::new();
    hash_table.insert(3, 33);
    assert_eq!(hash_table.search(4), None);
    assert_eq!(hash_table.search(3), Some(&33));
}

#[test]
fn first_inserted_value_wins_for_a_repeated_key() {
    let mut hash_table: HashTable<usize, &str> = HashTable::new();
    hash_table.insert(7, "first");
    hash_table.insert(7, "second");
    assert_eq!(hash_table.search(7), Some(&"first"));
    assert_eq!(hash_table.len(), 2);
}

#[test]
fn ten_thousand_distinct_keys_are_all_found() {
    let mut hash_table: HashTable<usize, usize> = HashTable::new();
    let initial_capacity = hash_table.capacity();
    for k in 0..10000usize {
        // Spread the keys out so many buckets are exercised.
        hash_table.insert(k.wrapping_mul(2654435761) % 1000000007, k);
    }
    assert_eq!(hash_table.len(), 10000);
    assert!(hash_table.capacity() > initial_capacity);
    for k in 0..10000usize {
        assert_eq!(
            hash_table.search(k.wrapping_mul(2654435761) % 1000000007),
            Some(&k)
        );
    }
}

#[test]
fn a_fresh_table_finds_nothing() {
    let table: HashTable<usize, i32> = HashTable::default();
    assert_eq!(table.len(), 0);
    assert_eq!(table.capacity(), 3000);
    assert_eq!(table.search(0), None);
    assert_eq!(table.search(12345), None);
}

#[test]
fn resize_keeps_every_pair() {
    let mut hash_table: HashTable<u32, u32> = HashTable::new();
    let before = hash_table.capacity();
    // Three quarters of the initial 3000 buckets is 2250 entries: inserting
    // 2251 entries crosses the threshold and forces at least one resize.
    for k in 0..2251u32 {
        hash_table.insert(k, k + 100000);
    }
    assert!(hash_table.capacity() > before);
    assert_eq!(hash_table.len(), 2251);
    for k in 0..2251u32 {
        assert_eq!(hash_table.search(k), Some(&(k + 100000)));
    }
}
