use workqueue::counting_alloc::CountingAlloc;

#[test]
fn new_tally_is_zero() {
    assert_eq!(CountingAlloc::new().bytes_used(), 0);
}

#[test]
fn tally_follows_allocations_and_releases() {
    let mut tally = CountingAlloc::new();
    tally.record_alloc(10);
    assert_eq!(tally.bytes_used(), 10);
    tally.record_alloc(32);
    assert_eq!(tally.bytes_used(), 42);
    tally.record_dealloc(4);
    assert_eq!(tally.bytes_used(), 38);
    tally.record_dealloc(38);
    assert_eq!(tally.bytes_used(), 0);
}

#[test]
fn tally_wraps_at_the_limits() {
    let mut tally = CountingAlloc::new();
    tally.record_alloc(usize::MAX);
    assert_eq!(tally.bytes_used(), usize::MAX);
    tally.record_alloc(2);
    assert_eq!(tally.bytes_used(), 1);
    tally.record_dealloc(2);
    assert_eq!(tally.bytes_used(), usize::MAX);

    let mut below = CountingAlloc::new();
    below.record_dealloc(1);
    assert_eq!(below.bytes_used(), usize::MAX);
    below.record_alloc(1);
    assert_eq!(below.bytes_used(), 0);
}

#[test]
fn release_undoes_allocation() {
    for start in [0usize, 1, 77, usize::MAX - 3, usize::MAX] {
        for size in [0usize, 1, 5, usize::MAX] {
            let mut tally = CountingAlloc::new();
            tally.record_alloc(start);
            tally.record_alloc(size);
            tally.record_dealloc(size);
            assert_eq!(tally.bytes_used(), start);
        }
    }
}
