use sharded_cache::recency::RecencyIndex;

fn drain(index: &mut RecencyIndex) -> Vec<Vec<u8>> {
    let mut keys = Vec::new();
    while let Some(key) = index.pop_lru() {
        keys.push(key);
    }
    keys
}

#[test]
fn a_new_index_is_empty() {
    let mut index = RecencyIndex::new();
    assert_eq!(index.len(), 0);
    assert_eq!(index.pop_lru(), None);
    assert_eq!(index.len(), 0);
}

#[test]
fn keys_leave_in_the_order_they_came() {
    let mut index = RecencyIndex::new();
    assert_eq!(index.touch(b"a".to_vec()), None);
    assert_eq!(index.touch(b"b".to_vec()), None);
    assert_eq!(index.touch(b"c".to_vec()), None);
    assert_eq!(index.len(), 3);
    assert_eq!(index.pop_lru(), Some(b"a".to_vec()));
    assert_eq!(index.len(), 2);
    assert_eq!(drain(&mut index), vec![b"b".to_vec(), b"c".to_vec()]);
    assert_eq!(index.len(), 0);
}

#[test]
fn touching_a_key_again_moves_it_to_the_back() {
    let mut index = RecencyIndex::new();
    index.touch(b"a".to_vec());
    index.touch(b"b".to_vec());
    index.touch(b"c".to_vec());
    assert_eq!(index.touch(b"a".to_vec()), None);
    assert_eq!(index.len(), 3);
    assert_eq!(drain(&mut index), vec![b"b".to_vec(), b"c".to_vec(), b"a".to_vec()]);
}

#[test]
fn promote_moves_a_present_key_to_the_back() {
    let mut index = RecencyIndex::new();
    index.touch(b"a".to_vec());
    index.touch(b"b".to_vec());
    index.touch(b"c".to_vec());
    assert!(index.promote(b"b"));
    assert_eq!(index.len(), 3);
    assert_eq!(drain(&mut index), vec![b"a".to_vec(), b"c".to_vec(), b"b".to_vec()]);
}

#[test]
fn promote_of_an_absent_key_changes_nothing() {
    let mut index = RecencyIndex::new();
    index.touch(b"a".to_vec());
    index.touch(b"b".to_vec());
    assert!(!index.promote(b"zz"));
    assert_eq!(index.len(), 2);
    assert_eq!(drain(&mut index), vec![b"a".to_vec(), b"b".to_vec()]);
}

#[test]
fn promote_of_the_last_key_keeps_the_order() {
    let mut index = RecencyIndex::new();
    index.touch(b"a".to_vec());
    index.touch(b"b".to_vec());
    assert!(index.promote(b"b"));
    assert_eq!(drain(&mut index), vec![b"a".to_vec(), b"b".to_vec()]);
}

#[test]
fn the_empty_key_is_a_key_like_any_other() {
    let mut index = RecencyIndex::new();
    index.touch(Vec::new());
    index.touch(b"x".to_vec());
    assert!(index.promote(b""));
    assert_eq!(drain(&mut index), vec![b"x".to_vec(), Vec::new()]);
}

#[test]
fn the_index_holds_many_keys_without_losing_any() {
    let mut index = RecencyIndex::new();
    for i in 0u32..5000 {
        assert_eq!(index.touch(i.to_be_bytes().to_vec()), None);
    }
    assert_eq!(index.len(), 5000);
    let keys = drain(&mut index);
    assert_eq!(keys.len(), 5000);
    for (i, key) in keys.iter().enumerate() {
        assert_eq!(key, &(i as u32).to_be_bytes().to_vec());
    }
}

#[test]
fn the_index_follows_a_plain_list_through_a_long_run() {
    let mut index = RecencyIndex::new();
    let mut list: Vec<Vec<u8>> = Vec::new();
    let mut seed: u32 = 2024;
    for round in 0..20_000 {
        seed = seed.wrapping_mul(1_664_525).wrapping_add(1_013_904_223);
        let key = vec![(seed >> 24) as u8 % 60, (seed >> 16) as u8 % 2];
        match (seed >> 8) % 4 {
            0 | 1 => {
                assert_eq!(index.touch(key.clone()), None);
                list.retain(|k| k != &key);
                list.push(key);
            }
            2 => {
                let present = list.contains(&key);
                assert_eq!(index.promote(&key), present);
                if present {
                    list.retain(|k| k != &key);
                    list.push(key);
                }
            }
            _ => {
                let expected = if list.is_empty() { None } else { Some(list.remove(0)) };
                assert_eq!(index.pop_lru(), expected);
            }
        }
        assert_eq!(index.len(), list.len());
        if round % 1000 == 999 {
            assert_eq!(drain(&mut index), list);
            list.clear();
        }
    }
}
