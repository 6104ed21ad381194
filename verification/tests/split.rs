use pcore_blake3::split::{divisors, optimal_split};

#[test]
fn optimal_split_below_threshold_never_splits_files() {
    for threads in 1..=4 {
        assert_eq!(optimal_split(threads), (threads, 1));
    }
}

#[test]
fn optimal_split_stays_within_bounds() {
    for threads in 1..=64 {
        let (tpf, cf) = optimal_split(threads);
        assert!(tpf >= 1 && tpf <= threads.max(1));
        assert!(cf >= 1);
        assert!(tpf * cf <= threads.max(1) || threads == 0);
    }
}

#[test]
fn optimal_split_zero_threads_counts_as_one() {
    assert_eq!(optimal_split(0), (1, 1));
}

#[test]
fn optimal_split_matches_the_benchmarked_table() {
    // threads/2 snapped to the nearest divisor, from above 4 threads up.
    assert_eq!(optimal_split(4), (4, 1));
    assert_eq!(optimal_split(6), (3, 2));
    assert_eq!(optimal_split(8), (4, 2));
    assert_eq!(optimal_split(10), (5, 2));
    assert_eq!(optimal_split(12), (6, 2));
    assert_eq!(optimal_split(20), (10, 2));
}

#[test]
fn optimal_split_odd_counts_snap_to_nearest_divisor() {
    assert_eq!(optimal_split(5), (1, 5));
    assert_eq!(optimal_split(7), (1, 7));
    assert_eq!(optimal_split(9), (3, 3));
    assert_eq!(optimal_split(15), (5, 3));
    assert_eq!(optimal_split(21), (7, 3));
    assert_eq!(optimal_split(25), (5, 5));
}

#[test]
fn optimal_split_uses_every_thread() {
    for threads in 1..=200usize {
        let (tpf, cf) = optimal_split(threads);
        assert_eq!(tpf * cf, threads);
        if threads > 4 {
            assert!(cf >= 2);
        }
        if threads > 4 && threads % 2 == 0 {
            assert_eq!((tpf, cf), (threads / 2, 2));
        }
    }
}

#[test]
fn divisors_are_ascending_and_complete() {
    assert_eq!(divisors(0), vec![1]);
    assert_eq!(divisors(1), vec![1]);
    assert_eq!(divisors(12), vec![1, 2, 3, 4, 6, 12]);
    assert_eq!(divisors(13), vec![1, 13]);
    assert_eq!(divisors(36), vec![1, 2, 3, 4, 6, 9, 12, 18, 36]);
}
