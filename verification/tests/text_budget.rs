use pixelkit::text::budget::CacheBudget;

#[test]
fn the_entry_limit_clears_the_cache_wholesale() {
    let mut budget = CacheBudget::new(2, 1_000);
    assert!(!budget.record(10));
    assert!(!budget.record(10));
    assert_eq!((budget.len(), budget.bytes()), (2, 20));
    assert!(budget.record(10), "a third entry over a limit of two clears first");
    assert_eq!((budget.len(), budget.bytes(), budget.evictions()), (1, 10, 1));
}

#[test]
fn the_byte_budget_clears_the_cache_but_one_oversized_entry_is_kept() {
    let mut budget = CacheBudget::new(100, 50);
    assert!(!budget.record(30));
    assert!(budget.record(30), "30 + 30 is over 50");
    assert_eq!((budget.len(), budget.bytes()), (1, 30));
    let mut empty = CacheBudget::new(100, 50);
    assert!(!empty.record(500), "an empty cache takes even an entry larger than the budget");
    assert_eq!(empty.bytes(), 500);
    assert!(empty.record(1));
}

#[test]
fn zero_bounds_are_taken_as_one_and_bytes_saturate() {
    let mut budget = CacheBudget::new(0, 0);
    assert!(budget.is_empty());
    assert!(!budget.record(0));
    assert!(budget.record(0), "one entry is the limit");
    let mut wide = CacheBudget::new(10, usize::MAX);
    assert!(!wide.record(usize::MAX - 1));
    assert!(!wide.record(5), "saturated at the budget, not over it");
    assert_eq!(wide.bytes(), usize::MAX);
    wide.reset();
    assert_eq!((wide.len(), wide.bytes(), wide.evictions()), (0, 0, 0));
}
