use ping_plot::probe::{parse_ping_output, ProbeFailed};
use ping_plot::series::{SlidingWindowSeries, CAPACITY};

fn filled(capacity: u64, ys: &[u32]) -> SlidingWindowSeries<u32> {
    let mut s = SlidingWindowSeries::new(capacity);
    for &y in ys {
        s.append_time(y);
    }
    s
}

#[test]
fn new_series_is_empty() {
    let s: SlidingWindowSeries<u32> = SlidingWindowSeries::new(CAPACITY);
    assert!(s.points().is_empty());
    assert_eq!(s.window(), (0, 100));
    assert_eq!(s.next_x(), 0);
    assert_eq!(s.capacity(), 100);
}

#[test]
fn three_appends_fill_capacity_three() {
    let s = filled(3, &[10, 20, 30]);
    assert_eq!(s.points(), &[(0, 10), (1, 20), (2, 30)]);
    assert_eq!(s.window(), (0, 3));
}

#[test]
fn fourth_append_evicts_oldest() {
    let mut s = filled(3, &[10, 20, 30]);
    s.append_time(40);
    assert_eq!(s.points(), &[(1, 20), (2, 30), (3, 40)]);
    assert_eq!(s.window(), (1, 4));
}

#[test]
fn length_never_exceeds_capacity() {
    let mut s = SlidingWindowSeries::new(5);
    for y in 0..50u32 {
        s.append_time(y);
        assert!(s.points().len() <= 5);
        let (low, high) = s.window();
        assert_eq!(high - low, 5);
    }
}

#[test]
fn full_append_shifts_window_and_drops_first() {
    let mut s = filled(4, &[1, 2, 3, 4, 5, 6]);
    let (low, high) = s.window();
    let first = s.points()[0];
    s.append_time(7);
    assert_eq!(s.window(), (low + 1, high + 1));
    assert!(!s.points().contains(&first));
    assert_eq!(s.points(), &[(3, 4), (4, 5), (5, 6), (6, 7)]);
}

#[test]
fn next_x_counts_every_append() {
    let ys: Vec<u32> = (0..17).collect();
    let s = filled(4, &ys);
    assert_eq!(s.next_x(), 17);
    assert_eq!(s.points().first().map(|p| p.0), Some(13));
    assert_eq!(s.window(), (13, 17));
}

#[test]
fn window_width_stays_capacity_before_filling() {
    let s = filled(10, &[5, 6]);
    assert_eq!(s.window(), (0, 10));
    assert_eq!(s.next_x(), 2);
}

#[test]
fn zero_capacity_keeps_no_points() {
    let s = filled(0, &[1, 2, 3]);
    assert!(s.points().is_empty());
    assert_eq!(s.window(), (3, 3));
    assert_eq!(s.next_x(), 3);
}

#[test]
fn snapshot_leaves_series_unchanged() {
    let s = filled(3, &[10, 20, 30, 40]);
    let first = s.snapshot();
    let second = s.snapshot();
    assert_eq!(first, second);
    assert_eq!(first.0, vec![(1, 20), (2, 30), (3, 40)]);
    assert_eq!(first.1, (1, 4));
    assert_eq!(s.points(), &[(1, 20), (2, 30), (3, 40)]);
    assert_eq!(s.window(), (1, 4));
    assert_eq!(s.next_x(), 4);
}

#[test]
fn failed_probe_leaves_series_unchanged() {
    let mut s = filled(3, &[10, 20]);
    let outcome = parse_ping_output(false, b"64 bytes from 8.8.8.8: icmp_seq=1 time=23.4 ms\n");
    assert_eq!(outcome, Err(ProbeFailed));
    s.record_probe(outcome.map(|_| 0u32));
    assert_eq!(s.points(), &[(0, 10), (1, 20)]);
    assert_eq!(s.window(), (0, 3));
    assert_eq!(s.next_x(), 2);
}

#[test]
fn successful_probe_appends() {
    let mut s = filled(2, &[10, 20]);
    s.record_probe(Ok(30));
    assert_eq!(s.points(), &[(1, 20), (2, 30)]);
    assert_eq!(s.window(), (1, 3));
}
