use pcore_blake3::affinity::linux::SysfsSnapshot;
use pcore_blake3::affinity::Platform;
use pcore_blake3::layout::{
    collect_in_order, default_cpus, default_physical_cpus, new_all_physical_layout, new_layout,
    new_physical_layout, worker_cpu, PoolLayout,
};

fn hybrid_linux() -> Platform {
    let siblings = (0..20usize)
        .map(|c| if c < 12 { Some(format!("{}-{}\n", c & !1, c | 1)) } else { Some(format!("{c}\n")) })
        .collect();
    Platform::Linux(SysfsSnapshot {
        core_marker_openable: true,
        core_cpus: Some("0-11\n".to_string()),
        atom_cpus: Some("12-19\n".to_string()),
        online_cpus: Some("0-19\n".to_string()),
        thread_siblings: siblings,
    })
}

#[test]
fn with_cpus_slices_cpus_between_pools() {
    let l = PoolLayout::with_cpus(&[0, 1, 2, 3, 4, 5, 6, 7]);
    assert_eq!(l.split(), (4, 2));
    assert_eq!(l.pool_cpus, vec![vec![0, 1, 2, 3], vec![4, 5, 6, 7]]);
    assert_eq!(l.pool_threads(), 4);
    let l = PoolLayout::with_cpus(&[0, 1]);
    assert_eq!(l.split(), (2, 1));
    assert_eq!(l.pool_cpus, vec![vec![0, 1]]);
    let l = PoolLayout::with_cpus(&[9, 8, 7, 6, 5, 4]);
    assert_eq!(l.split(), (3, 2));
    assert_eq!(l.pool_cpus, vec![vec![9, 8, 7], vec![6, 5, 4]]);
}

#[test]
fn with_no_cpus_builds_one_unpinned_pool() {
    let l = PoolLayout::with_cpus(&[]);
    assert_eq!(l.split(), (1, 1));
    assert_eq!(l.pool_cpus, vec![Vec::<usize>::new()]);
    assert_eq!(l.pool_threads(), 1);
}

#[test]
fn hybrid_layouts() {
    let platform = hybrid_linux();
    assert_eq!(default_cpus(&platform, 20), (0..12).collect::<Vec<_>>());
    assert_eq!(default_physical_cpus(&platform, 20), vec![0, 2, 4, 6, 8, 10]);
    let all = new_layout(&platform, 20);
    assert_eq!(all.split(), (6, 2));
    let phys = new_physical_layout(&platform, 20);
    assert_eq!(phys.split(), (3, 2));
    assert_eq!(phys.pool_cpus, vec![vec![0, 2, 4], vec![6, 8, 10]]);
    let (t, c) = phys.split();
    let (t2, c2) = all.split();
    assert!(t * c <= t2 * c2, "physical uses <= threads than all-threads");
    let every = new_all_physical_layout(&platform, 20);
    assert_eq!(every.split(), (1, 14));
    assert_eq!(every.pool_cpus[0], vec![0]);
    assert_eq!(every.pool_cpus[13], vec![19]);
    assert!(every.split().1 >= phys.split().1.max(1));
}

#[test]
fn homogeneous_layouts_use_available_parallelism() {
    let platform = Platform::Other(6);
    assert_eq!(default_cpus(&platform, 6), (0..6).collect::<Vec<_>>());
    assert_eq!(new_layout(&platform, 6).split(), (3, 2));
    assert_eq!(new_all_physical_layout(&platform, 6).split(), (1, 6));
    // Nothing known at all: the layout of new_layout.
    let unknown = Platform::Windows(None);
    let l = new_all_physical_layout(&unknown, 2);
    assert_eq!(l.split(), (2, 1));
    assert_eq!(l.pool_cpus, vec![vec![0, 1]]);
}

#[test]
fn workers_are_pinned_round_robin() {
    assert_eq!(worker_cpu(&[], 3), None);
    assert_eq!(worker_cpu(&[4, 5], 0), Some(4));
    assert_eq!(worker_cpu(&[4, 5], 1), Some(5));
    assert_eq!(worker_cpu(&[4, 5], 2), Some(4));
}

#[test]
fn results_come_back_in_input_order() {
    let out = collect_in_order(4, vec![(2, "c"), (0, "a"), (3, "d"), (1, "b")]);
    assert_eq!(out, vec![Some("a"), Some("b"), Some("c"), Some("d")]);
    let out = collect_in_order(3, vec![(1, "x"), (1, "y")]);
    assert_eq!(out, vec![None, Some("y"), None]);
    let out: Vec<Option<u8>> = collect_in_order(0, vec![]);
    assert!(out.is_empty());
}

fn pattern(len: usize) -> Vec<u8> {
    (0..len).map(|i| (i % 251) as u8).collect()
}

#[test]
fn physical_layout_runs_no_more_threads_than_new_layout() {
    let data = pattern(1 << 20);
    // Correctness must hold regardless of how many cores the split uses.
    assert_eq!(pcore_blake3::digest::hash_bytes(&data), *blake3::hash(&data).as_bytes());
    for (platform, available) in [(hybrid_linux(), 20), (Platform::Other(8), 8), (Platform::Windows(None), 1)] {
        let phys_threads = {
            let (t, c) = new_physical_layout(&platform, available).split();
            t * c
        };
        let all_threads = {
            let (t, c) = new_layout(&platform, available).split();
            t * c
        };
        assert!(phys_threads <= all_threads, "physical uses <= threads than all-threads");
    }
}

#[test]
fn all_physical_layout_is_files_parallel() {
    let data = pattern(1 << 20);
    assert_eq!(pcore_blake3::digest::hash_bytes(&data), *blake3::hash(&data).as_bytes());
    let platform = hybrid_linux();
    let l = new_all_physical_layout(&platform, 20);
    let (tpf, cf) = l.split();
    assert_eq!(tpf, 1, "all-physical is one-file-per-core");
    assert!(cf >= new_physical_layout(&platform, 20).split().1.max(1));
    // Batch correctness: results delivered out of order come back in order.
    let files: Vec<Vec<u8>> = (0..5u8).map(|i| vec![i; 4096]).collect();
    let delivered: Vec<(usize, [u8; 32])> =
        [3usize, 0, 4, 1, 2].iter().map(|&i| (i, pcore_blake3::digest::hash_bytes(&files[i]))).collect();
    let got = collect_in_order(files.len(), delivered);
    for (i, r) in got.into_iter().enumerate() {
        assert_eq!(r.unwrap(), *blake3::hash(&[i as u8; 4096]).as_bytes());
    }
}

#[test]
fn batch_digests_come_back_in_input_order() {
    let contents: Vec<&[u8]> = vec![b"one", b"two", b"three", b"four", b"five"];
    let l = PoolLayout::with_cpus(&[0, 1, 2, 3]);
    assert_eq!(l.split(), (4, 1));
    let delivered: Vec<(usize, [u8; 32])> =
        [4usize, 2, 0, 3, 1].iter().map(|&i| (i, pcore_blake3::digest::hash_bytes(contents[i]))).collect();
    let results = collect_in_order(contents.len(), delivered);
    assert_eq!(results.len(), contents.len());
    for (result, content) in results.into_iter().zip(contents) {
        assert_eq!(result.unwrap(), *blake3::hash(content).as_bytes());
    }
}

#[test]
fn all_physical_layout_beats_physical_with_fewer_available_than_online() {
    let siblings = (0..8usize).map(|c| Some(format!("{},{}\n", c % 4, c % 4 + 4))).collect();
    let platform = Platform::Linux(SysfsSnapshot {
        core_marker_openable: false,
        core_cpus: None,
        atom_cpus: None,
        online_cpus: Some("0-7\n".to_string()),
        thread_siblings: siblings,
    });
    let every = new_all_physical_layout(&platform, 4);
    let phys = new_physical_layout(&platform, 4);
    assert_eq!(every.split(), (1, 4));
    assert_eq!(phys.split(), (4, 1));
    assert!(every.split().1 >= phys.split().1.max(1));
}
