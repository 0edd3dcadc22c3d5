use sharded_cache::accountant::{signed_delta, MemoryAccountant};

#[test]
fn signed_delta_is_negative_when_the_entry_shrinks() {
    assert_eq!(signed_delta(3, 10), -7);
    assert_eq!(signed_delta(10, 3), 7);
    assert_eq!(signed_delta(5, 5), 0);
    assert_eq!(signed_delta(0, u64::MAX), -(u64::MAX as i128));
    assert_eq!(signed_delta(u64::MAX, 0), u64::MAX as i128);
}

#[test]
fn a_new_accountant_charges_nothing() {
    assert_eq!(MemoryAccountant::new().total_bytes(), 0);
}

#[test]
fn replace_charges_new_entries_in_full() {
    let mut accountant = MemoryAccountant::new();
    assert!(accountant.replace(10, 0));
    assert!(accountant.replace(32, 0));
    assert_eq!(accountant.total_bytes(), 42);
}

#[test]
fn replace_with_a_smaller_entry_lowers_the_total() {
    let mut accountant = MemoryAccountant::new();
    assert!(accountant.replace(100, 0));
    assert!(accountant.replace(40, 100));
    assert_eq!(accountant.total_bytes(), 40);
    assert!(accountant.replace(0, 40));
    assert_eq!(accountant.total_bytes(), 0);
}

#[test]
fn replace_refuses_to_go_below_zero() {
    let mut accountant = MemoryAccountant::new();
    assert!(accountant.replace(4, 0));
    assert!(!accountant.replace(0, 5));
    assert_eq!(accountant.total_bytes(), 4);
    assert!(accountant.replace(1, 5));
    assert_eq!(accountant.total_bytes(), 0);
}

#[test]
fn replace_refuses_to_overflow() {
    let mut accountant = MemoryAccountant::new();
    assert!(accountant.replace(u64::MAX, 0));
    assert_eq!(accountant.total_bytes(), u64::MAX);
    assert!(!accountant.replace(1, 0));
    assert_eq!(accountant.total_bytes(), u64::MAX);
    assert!(accountant.replace(u64::MAX, u64::MAX));
    assert_eq!(accountant.total_bytes(), u64::MAX);
}

#[test]
fn release_takes_the_charge_back() {
    let mut accountant = MemoryAccountant::new();
    assert!(accountant.replace(30, 0));
    assert!(accountant.release(10));
    assert_eq!(accountant.total_bytes(), 20);
    assert!(!accountant.release(21));
    assert_eq!(accountant.total_bytes(), 20);
    assert!(accountant.release(20));
    assert_eq!(accountant.total_bytes(), 0);
    assert!(accountant.release(0));
}
