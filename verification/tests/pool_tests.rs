use steglib::pool::WorkPool;

#[test]
fn worker_pool_completeness() {
    // Every item is handed out exactly once, and completion is reported
    // only after every outcome is in.
    let n: usize = 5;
    let mut pool = WorkPool::new(n);
    assert_eq!(pool.item_count(), n);
    assert!(!pool.is_complete());

    let mut handed: Vec<usize> = Vec::new();
    while let Some(item) = pool.next_item() {
        handed.push(item);
    }
    assert_eq!(handed, vec![0, 1, 2, 3, 4]);
    assert_eq!(pool.dispatched_count(), n);
    assert!(pool.next_item().is_none());
    assert!(!pool.is_complete());

    let mut completions: usize = 0;
    for item in 0..n {
        assert!(!pool.is_complete());
        assert!(!pool.outcome_recorded(item));
        pool.record_outcome(item, true);
        completions += 1;
    }
    assert_eq!(completions, n);
    assert!(pool.is_complete());
    assert!(pool.failed_items().is_empty());
}

#[test]
fn partial_failure_containment() {
    // One failed embed call leaves every sibling item untouched and is
    // identified in the final summary.
    let n: usize = 4;
    let mut pool = WorkPool::new(n);
    let mut handed: Vec<usize> = Vec::new();
    while let Some(item) = pool.next_item() {
        handed.push(item);
    }
    assert_eq!(handed.len(), n);

    pool.record_outcome(1, false);
    for item in [0usize, 2, 3] {
        assert!(!pool.outcome_recorded(item));
        pool.record_outcome(item, true);
    }
    assert!(pool.is_complete());
    assert_eq!(pool.failed_items(), vec![1]);
}

#[test]
fn pool_of_one_item() {
    let mut pool = WorkPool::new(1);
    assert_eq!(pool.next_item(), Some(0));
    assert_eq!(pool.next_item(), None);
    pool.record_outcome(0, false);
    assert!(pool.is_complete());
    assert_eq!(pool.failed_items(), vec![0]);
}

#[test]
fn empty_pool_is_complete() {
    let pool = WorkPool::new(0);
    assert!(pool.is_complete());
    assert!(pool.failed_items().is_empty());
}
