use sharded_cache::shard::{Entry, Shard};
use sharded_cache::shard_set::ShardSet;

fn entry(value: &[u8], size: u64, at: u64) -> Entry {
    Entry { value: value.to_vec(), size_bytes: size, last_access: at }
}

#[test]
fn a_new_shard_is_empty_and_keeps_its_id() {
    let shard = Shard::new(7);
    assert_eq!(shard.id(), 7);
    assert!(shard.get(b"a").is_none());
}

#[test]
fn shard_insert_then_get_returns_the_entry() {
    let mut shard = Shard::new(0);
    assert_eq!(shard.insert(b"a".to_vec(), entry(b"one", 4, 1)), None);
    let found = shard.get(b"a").unwrap();
    assert_eq!(found.value, b"one".to_vec());
    assert_eq!(found.size_bytes, 4);
    assert_eq!(found.last_access, 1);
    assert!(shard.get(b"b").is_none());
    assert_eq!(shard.id(), 0);
}

#[test]
fn shard_insert_over_a_key_returns_the_previous_size() {
    let mut shard = Shard::new(0);
    assert_eq!(shard.insert(b"a".to_vec(), entry(b"one", 4, 1)), None);
    assert_eq!(shard.insert(b"a".to_vec(), entry(b"three", 6, 2)), Some(4));
    assert_eq!(shard.insert(b"a".to_vec(), entry(b"", 1, 3)), Some(6));
    let found = shard.get(b"a").unwrap();
    assert_eq!(found.value, Vec::<u8>::new());
    assert_eq!(found.size_bytes, 1);
    assert_eq!(found.last_access, 3);
}

#[test]
fn shard_remove_returns_the_entry_once() {
    let mut shard = Shard::new(0);
    shard.insert(b"a".to_vec(), entry(b"one", 4, 1));
    shard.insert(b"b".to_vec(), entry(b"two", 4, 2));
    let removed = shard.remove(b"a").unwrap();
    assert_eq!(removed.value, b"one".to_vec());
    assert_eq!(removed.size_bytes, 4);
    assert!(shard.remove(b"a").is_none());
    assert!(shard.get(b"a").is_none());
    assert_eq!(shard.get(b"b").unwrap().value, b"two".to_vec());
}

#[test]
fn shard_remove_of_an_absent_key_changes_nothing() {
    let mut shard = Shard::new(0);
    shard.insert(b"a".to_vec(), entry(b"one", 4, 1));
    assert!(shard.remove(b"zz").is_none());
    assert_eq!(shard.get(b"a").unwrap().value, b"one".to_vec());
}

#[test]
fn shard_refresh_sets_the_time_of_last_access_only() {
    let mut shard = Shard::new(0);
    shard.insert(b"a".to_vec(), entry(b"one", 4, 1));
    shard.insert(b"b".to_vec(), entry(b"two", 4, 2));
    assert!(shard.refresh(b"a", 9));
    let found = shard.get(b"a").unwrap();
    assert_eq!(found.last_access, 9);
    assert_eq!(found.value, b"one".to_vec());
    assert_eq!(found.size_bytes, 4);
    assert_eq!(shard.get(b"b").unwrap().last_access, 2);
    assert!(!shard.refresh(b"zz", 10));
    assert!(shard.get(b"zz").is_none());
}

#[test]
fn shard_keeps_keys_that_differ_in_one_byte_apart() {
    let mut shard = Shard::new(0);
    for i in 0u16..600 {
        let key = i.to_be_bytes().to_vec();
        assert_eq!(shard.insert(key, entry(&i.to_le_bytes(), 4, i as u64)), None);
    }
    for i in 0u16..600 {
        let found = shard.get(&i.to_be_bytes()).unwrap();
        assert_eq!(found.value, i.to_le_bytes().to_vec());
        assert_eq!(found.last_access, i as u64);
    }
    for i in (0u16..600).step_by(2) {
        assert!(shard.remove(&i.to_be_bytes()).is_some());
    }
    for i in 0u16..600 {
        assert_eq!(shard.get(&i.to_be_bytes()).is_some(), i % 2 == 1);
    }
}

#[test]
fn shard_set_has_the_number_of_shards_asked_for() {
    assert_eq!(ShardSet::new(1).shard_count(), 1);
    assert_eq!(ShardSet::new(4).shard_count(), 4);
    assert_eq!(ShardSet::new(33).shard_count(), 33);
}

#[test]
fn shard_set_stores_and_finds_keys_of_every_shard() {
    let mut set = ShardSet::new(4);
    for key in [&b"a"[..], b"b", b"c", b"d", b"hello", b""] {
        assert_eq!(set.insert(key.to_vec(), entry(key, key.len() as u64 * 2, 5)), None);
    }
    for key in [&b"a"[..], b"b", b"c", b"d", b"hello", b""] {
        let found = set.get(key).unwrap();
        assert_eq!(found.value, key.to_vec());
        assert_eq!(found.size_bytes, key.len() as u64 * 2);
    }
    assert!(set.get(b"e").is_none());
}

#[test]
fn shard_set_insert_over_a_key_returns_the_previous_size() {
    let mut set = ShardSet::new(3);
    assert_eq!(set.insert(b"k".to_vec(), entry(b"long value", 11, 1)), None);
    assert_eq!(set.insert(b"k".to_vec(), entry(b"v", 2, 2)), Some(11));
    assert_eq!(set.get(b"k").unwrap().value, b"v".to_vec());
}

#[test]
fn shard_set_remove_and_refresh_reach_the_right_shard() {
    let mut set = ShardSet::new(4);
    set.insert(b"a".to_vec(), entry(b"1", 2, 1));
    set.insert(b"b".to_vec(), entry(b"2", 2, 2));
    assert!(set.refresh(b"b", 8));
    assert!(!set.refresh(b"c", 8));
    assert_eq!(set.get(b"b").unwrap().last_access, 8);
    assert_eq!(set.get(b"a").unwrap().last_access, 1);
    let removed = set.remove(b"a").unwrap();
    assert_eq!(removed.value, b"1".to_vec());
    assert!(set.remove(b"a").is_none());
    assert!(set.get(b"a").is_none());
    assert!(set.get(b"b").is_some());
}
