use system_monitor::series::BoundedSeries;

#[test]
fn capacity_three_keeps_last_three() {
    let mut s: BoundedSeries<u64> = BoundedSeries::new(3);
    s.append(10);
    s.append(20);
    s.append(30);
    s.append(40);
    assert_eq!(s.as_slice(), &[20, 30, 40]);
    assert_eq!(s.len(), 3);
}

#[test]
fn length_never_exceeds_capacity() {
    let mut s: BoundedSeries<u64> = BoundedSeries::new(5);
    for i in 0..20u64 {
        s.append(i);
        assert!(s.len() <= 5);
    }
    assert_eq!(s.as_slice(), &[15, 16, 17, 18, 19]);
}

#[test]
fn shorter_history_is_kept_whole() {
    let mut s: BoundedSeries<u64> = BoundedSeries::new(60);
    s.append(7);
    s.append(8);
    assert_eq!(s.as_slice(), &[7, 8]);
    assert_eq!(s.len(), 2);
    assert_eq!(s.capacity(), 60);
}

#[test]
fn latest_is_none_until_first_append() {
    let mut s: BoundedSeries<u64> = BoundedSeries::new(4);
    assert_eq!(s.latest(), None);
    s.append(11);
    assert_eq!(s.latest(), Some(11));
    s.append(12);
    assert_eq!(s.latest(), Some(12));
}

#[test]
fn eviction_is_oldest_first() {
    let mut s: BoundedSeries<i32> = BoundedSeries::new(2);
    s.append(1);
    s.append(2);
    s.append(3);
    assert_eq!(s.as_slice(), &[2, 3]);
}
