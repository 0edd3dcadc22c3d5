use sharded_cache::config::{Config, EvictionMode, Ratio};

fn base() -> Config {
    Config {
        shard_count: 4,
        max_bytes: 1000,
        high_watermark: Ratio { numerator: 1, denominator: 1 },
        low_watermark: Ratio { numerator: 9, denominator: 10 },
        max_key_len: 256,
        max_value_len: 256,
        refresh_on_read: false,
        eviction: EvictionMode::Inline,
    }
}

#[test]
fn a_sound_configuration_is_valid() {
    assert!(base().is_valid());
}

#[test]
fn limits_are_the_scaled_budget() {
    let config = base();
    assert_eq!(config.high_limit_bytes(), 1000);
    assert_eq!(config.low_limit_bytes(), 900);
}

#[test]
fn limits_round_down() {
    let mut config = base();
    config.max_bytes = 1001;
    assert!(config.is_valid());
    assert_eq!(config.low_limit_bytes(), 900);
    assert_eq!(config.high_limit_bytes(), 1001);
    config.max_bytes = 7;
    config.high_watermark = Ratio { numerator: 2, denominator: 3 };
    config.low_watermark = Ratio { numerator: 1, denominator: 3 };
    assert!(config.is_valid());
    assert_eq!(config.high_limit_bytes(), 4);
    assert_eq!(config.low_limit_bytes(), 2);
}

#[test]
fn limits_do_not_overflow_with_large_numbers() {
    let mut config = base();
    config.max_bytes = 1u64 << 62;
    config.high_watermark = Ratio { numerator: u32::MAX, denominator: u32::MAX };
    config.low_watermark = Ratio { numerator: u32::MAX - 1, denominator: u32::MAX };
    assert!(config.is_valid());
    assert_eq!(config.high_limit_bytes(), 1u64 << 62);
    let exact = ((1u128 << 62) * (u32::MAX as u128 - 1)) / u32::MAX as u128;
    assert_eq!(config.low_limit_bytes() as u128, exact);
}

#[test]
fn zero_shards_are_refused() {
    let mut config = base();
    config.shard_count = 0;
    assert!(!config.is_valid());
}

#[test]
fn zero_denominators_are_refused() {
    let mut config = base();
    config.high_watermark.denominator = 0;
    assert!(!config.is_valid());
    let mut config = base();
    config.low_watermark.denominator = 0;
    assert!(!config.is_valid());
}

#[test]
fn low_watermark_above_high_is_refused() {
    let mut config = base();
    config.high_watermark = Ratio { numerator: 8, denominator: 10 };
    config.low_watermark = Ratio { numerator: 9, denominator: 10 };
    assert!(!config.is_valid());
}

#[test]
fn equal_watermarks_are_accepted() {
    let mut config = base();
    config.high_watermark = Ratio { numerator: 1, denominator: 2 };
    config.low_watermark = Ratio { numerator: 2, denominator: 4 };
    assert!(config.is_valid());
    assert_eq!(config.high_limit_bytes(), 500);
    assert_eq!(config.low_limit_bytes(), 500);
}

#[test]
fn high_watermark_above_the_budget_is_refused() {
    let mut config = base();
    config.high_watermark = Ratio { numerator: 11, denominator: 10 };
    assert!(!config.is_valid());
}

#[test]
fn budgets_near_the_machine_limit_are_refused() {
    let mut config = base();
    config.max_bytes = u64::MAX;
    assert!(!config.is_valid());
    let mut config = base();
    config.max_key_len = usize::MAX;
    assert!(!config.is_valid());
    let mut config = base();
    config.max_value_len = usize::MAX / 2;
    assert!(!config.is_valid());
}

#[test]
fn zero_budget_and_zero_lengths_are_accepted() {
    let mut config = base();
    config.max_bytes = 0;
    config.max_key_len = 0;
    config.max_value_len = 0;
    assert!(config.is_valid());
    assert_eq!(config.high_limit_bytes(), 0);
    assert_eq!(config.low_limit_bytes(), 0);
}

#[test]
fn put_limit_is_the_high_limit_for_inline_eviction() {
    let mut config = base();
    assert_eq!(config.put_limit_bytes(), 1000);
    config.high_watermark = Ratio { numerator: 19, denominator: 20 };
    assert_eq!(config.put_limit_bytes(), 950);
}

#[test]
fn put_limit_is_the_machine_limit_for_deferred_eviction() {
    let mut config = base();
    config.eviction = EvictionMode::Deferred;
    assert!(config.is_valid());
    assert_eq!(config.put_limit_bytes(), usize::MAX as u64 - 512 - 1);
    assert_eq!(config.high_limit_bytes(), 1000);
}
