use sharded_cache::cache::{ShardedCache, WriteOutcome};
use sharded_cache::config::{Config, EvictionMode, Ratio};
use std::sync::Arc;
use tokio::sync::Mutex;

fn shared_cache() -> Arc<Mutex<ShardedCache>> {
    let config = Config {
        shard_count: 8,
        max_bytes: 1_000_000,
        high_watermark: Ratio { numerator: 1, denominator: 1 },
        low_watermark: Ratio { numerator: 9, denominator: 10 },
        max_key_len: 256,
        max_value_len: 256,
        refresh_on_read: true,
        eviction: EvictionMode::Inline,
    };
    Arc::new(Mutex::new(ShardedCache::new(config).unwrap()))
}

async fn put_range(store: Arc<Mutex<ShardedCache>>, prefix: u8, count: u32) {
    for i in 0..count {
        let mut key = vec![prefix];
        key.extend_from_slice(&i.to_be_bytes());
        let value = vec![prefix; (i % 50) as usize + 1];
        let outcome = store.lock().await.put(key, value);
        assert_eq!(outcome, Ok(WriteOutcome::Inserted));
        tokio::task::yield_now().await;
    }
}

#[test]
fn two_writers_on_different_keys_lose_no_update() {
    let runtime = tokio::runtime::Builder::new_multi_thread().worker_threads(2).build().unwrap();
    let store = shared_cache();
    let left = runtime.spawn(put_range(store.clone(), b'l', 500));
    let right = runtime.spawn(put_range(store.clone(), b'r', 500));
    runtime.block_on(left).unwrap();
    runtime.block_on(right).unwrap();
    let mut cache = runtime.block_on(store.lock());
    assert_eq!(cache.len(), 1000);
    let mut expected_bytes: u64 = 0;
    for prefix in [b'l', b'r'] {
        for i in 0u32..500 {
            let mut key = vec![prefix];
            key.extend_from_slice(&i.to_be_bytes());
            let value = vec![prefix; (i % 50) as usize + 1];
            expected_bytes += (key.len() + value.len()) as u64;
            assert_eq!(cache.get(&key), Ok(Some(value)));
        }
    }
    assert_eq!(cache.total_bytes(), expected_bytes);
}
