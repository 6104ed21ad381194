use pcore_blake3::affinity::fallback;
use pcore_blake3::affinity::linux::SysfsSnapshot;
use pcore_blake3::affinity::windows::{
    parse_cpu_set_information, thread_affinity_mask, CpuInfo, CPU_SET_ENTRY_SIZE,
};
use pcore_blake3::affinity::{
    all_physical_cpus, efficiency_cpus, performance_cpus, performance_physical_cpus,
    physical_core_leaders, topology, PinError, Platform, Topology,
};

/// A 13th-gen i9 as Linux reports it: 6 P-cores with SMT (CPUs 0-11, the
/// siblings of CPU c being c and c^1) and 8 E-cores (CPUs 12-19).
fn hybrid_linux() -> Platform {
    let siblings = (0..20usize)
        .map(|c| {
            if c < 12 {
                Some(format!("{}-{}\n", c & !1, c | 1))
            } else {
                Some(format!("{c}\n"))
            }
        })
        .collect();
    Platform::Linux(SysfsSnapshot {
        core_marker_openable: true,
        core_cpus: Some("0-11\n".to_string()),
        atom_cpus: Some("12-19\n".to_string()),
        online_cpus: Some("0-19\n".to_string()),
        thread_siblings: siblings,
    })
}

/// An 8-CPU homogeneous Linux machine with SMT pairs written as lists.
fn homogeneous_linux() -> Platform {
    let siblings = (0..8usize).map(|c| Some(format!("{},{}\n", c % 4, c % 4 + 4))).collect();
    Platform::Linux(SysfsSnapshot {
        core_marker_openable: false,
        core_cpus: None,
        atom_cpus: None,
        online_cpus: Some("0-7\n".to_string()),
        thread_siblings: siblings,
    })
}

fn entry(logical: u8, core: u8, efficiency: u8) -> Vec<u8> {
    let mut e = vec![0u8; CPU_SET_ENTRY_SIZE];
    e[0..4].copy_from_slice(&(CPU_SET_ENTRY_SIZE as u32).to_le_bytes());
    e[8..12].copy_from_slice(&(256 + logical as u32).to_le_bytes());
    e[14] = logical;
    e[15] = core;
    e[18] = efficiency;
    e
}

/// A hybrid Windows table: 2 SMT P-cores (class 1) and 2 E-cores (class 0).
fn hybrid_windows_bytes() -> Vec<u8> {
    let mut b = Vec::new();
    for (logical, core, class) in [(0, 0, 1), (1, 0, 1), (2, 1, 1), (3, 1, 1), (4, 2, 0), (5, 3, 0)] {
        b.extend(entry(logical, core, class));
    }
    b
}

fn hybrid_windows() -> Platform {
    Platform::Windows(Some(parse_cpu_set_information(&hybrid_windows_bytes())))
}

fn all_platforms() -> Vec<Platform> {
    vec![
        hybrid_linux(),
        homogeneous_linux(),
        hybrid_windows(),
        Platform::Windows(Some(vec![
            CpuInfo { logical: 0, efficiency: 0, core: 0 },
            CpuInfo { logical: 1, efficiency: 0, core: 1 },
        ])),
        Platform::Other(4),
    ]
}

#[test]
fn detection_is_consistent() {
    for platform in all_platforms() {
        let p = performance_cpus(&platform);
        let e = efficiency_cpus(&platform);
        assert!(!p.is_empty(), "at least the online CPUs must be reported");
        assert!(p.iter().all(|cpu| !e.contains(cpu)), "P and E sets must be disjoint");
        match topology(&platform) {
            Topology::Hybrid => assert!(!e.is_empty(), "hybrid implies a non-empty E-core list"),
            Topology::Homogeneous => assert!(e.is_empty(), "homogeneous implies no E-cores"),
        }
    }
}

#[test]
fn physical_core_leaders_are_idempotent_and_a_subset() {
    for platform in all_platforms() {
        let cpus = performance_cpus(&platform);
        if cpus.is_empty() {
            continue;
        }
        let leaders = physical_core_leaders(&platform, &cpus);
        // Every leader was in the input.
        assert!(leaders.iter().all(|c| cpus.contains(c)), "leaders must be a subset");
        // No duplicates.
        let mut sorted = leaders.clone();
        sorted.sort_unstable();
        sorted.dedup();
        assert_eq!(sorted.len(), leaders.len(), "leaders must be distinct");
        // Collapsing an already-collapsed set changes nothing.
        assert_eq!(physical_core_leaders(&platform, &leaders), leaders, "idempotent");
        // Never more leaders than inputs.
        assert!(leaders.len() <= cpus.len());
    }
}

#[test]
fn physical_leaders_collapse_smt_siblings() {
    // On an SMT machine the P-core leader count equals the physical P-core
    // count, which is strictly fewer than the logical count.
    let platform = hybrid_linux();
    let cpus = performance_cpus(&platform);
    let leaders = physical_core_leaders(&platform, &cpus);
    assert!(leaders.len() < cpus.len(), "SMT machine: fewer leaders than logical CPUs");
    assert_eq!(leaders, vec![0, 2, 4, 6, 8, 10]);
    // Without SMT every CPU leads its own core.
    let e = efficiency_cpus(&platform);
    assert_eq!(physical_core_leaders(&platform, &e).len(), e.len(), "no SMT: one leader per CPU");
}

#[test]
fn linux_hybrid_detection() {
    let platform = hybrid_linux();
    assert_eq!(topology(&platform), Topology::Hybrid);
    assert_eq!(performance_cpus(&platform), (0..12).collect::<Vec<_>>());
    assert_eq!(efficiency_cpus(&platform), (12..20).collect::<Vec<_>>());
    assert_eq!(performance_physical_cpus(&platform), vec![0, 2, 4, 6, 8, 10]);
    let all = all_physical_cpus(&platform);
    assert_eq!(all.len(), 14);
    assert_eq!(all, vec![0, 2, 4, 6, 8, 10, 12, 13, 14, 15, 16, 17, 18, 19]);
}

#[test]
fn linux_falls_back_to_online_cpus() {
    let platform = homogeneous_linux();
    assert_eq!(topology(&platform), Topology::Homogeneous);
    assert_eq!(performance_cpus(&platform), (0..8).collect::<Vec<_>>());
    assert!(efficiency_cpus(&platform).is_empty());
    assert_eq!(performance_physical_cpus(&platform), vec![0, 1, 2, 3]);
    // A malformed P-core list also falls back to the online list.
    let platform = Platform::Linux(SysfsSnapshot {
        core_marker_openable: true,
        core_cpus: Some("0-3 junk\n".to_string()),
        atom_cpus: Some("\n".to_string()),
        online_cpus: Some("0-5\n".to_string()),
        thread_siblings: Vec::new(),
    });
    assert_eq!(topology(&platform), Topology::Hybrid);
    assert_eq!(performance_cpus(&platform), (0..6).collect::<Vec<_>>());
    assert!(efficiency_cpus(&platform).is_empty());
    // Nothing readable at all: no CPUs.
    let platform = Platform::Linux(SysfsSnapshot {
        core_marker_openable: false,
        core_cpus: None,
        atom_cpus: None,
        online_cpus: None,
        thread_siblings: Vec::new(),
    });
    assert!(performance_cpus(&platform).is_empty());
}

#[test]
fn linux_leader_is_lowest_requested_sibling() {
    let platform = hybrid_linux();
    // CPU 1 first: core {0,1} is led by 1 when 0 was not asked for.
    assert_eq!(physical_core_leaders(&platform, &[1, 3, 2]), vec![1, 2]);
    // When both siblings are asked for, the lowest one leads, in first-seen order.
    assert_eq!(physical_core_leaders(&platform, &[5, 4, 12, 1, 0]), vec![4, 12, 0]);
    // Unknown siblings: each CPU its own core.
    assert_eq!(physical_core_leaders(&platform, &[40, 41, 40]), vec![40, 41]);
}

#[test]
fn windows_table_is_parsed() {
    let sets = parse_cpu_set_information(&hybrid_windows_bytes());
    assert_eq!(sets.len(), 6);
    assert_eq!(sets[0], CpuInfo { logical: 0, efficiency: 1, core: 0 });
    assert_eq!(sets[5], CpuInfo { logical: 5, efficiency: 0, core: 3 });
}

#[test]
fn windows_table_skips_malformed_entries() {
    let mut b = entry(0, 0, 1);
    // An entry of another type is skipped.
    let mut other = entry(1, 1, 1);
    other[4] = 1;
    b.extend(other);
    // A short entry (declared size below a whole entry) is skipped.
    let mut short = vec![0u8; 16];
    short[0] = 16;
    b.extend(short);
    b.extend(entry(2, 2, 0));
    let sets = parse_cpu_set_information(&b);
    assert_eq!(sets.iter().map(|c| c.logical).collect::<Vec<_>>(), vec![0, 2]);
    // A zero size ends the table.
    let mut b = entry(0, 0, 1);
    b.extend(vec![0u8; 8]);
    b.extend(entry(3, 3, 1));
    assert_eq!(parse_cpu_set_information(&b).len(), 1);
    // A truncated last entry is not read.
    let mut b = entry(0, 0, 1);
    b.extend(&entry(1, 1, 1)[..20]);
    assert_eq!(parse_cpu_set_information(&b).len(), 1);
    // Fewer than 8 bytes: nothing.
    assert!(parse_cpu_set_information(&[32, 0, 0]).is_empty());
}

#[test]
fn windows_detection() {
    let platform = hybrid_windows();
    assert_eq!(topology(&platform), Topology::Hybrid);
    assert_eq!(performance_cpus(&platform), vec![0, 1, 2, 3]);
    assert_eq!(efficiency_cpus(&platform), vec![4, 5]);
    assert_eq!(performance_physical_cpus(&platform), vec![0, 2]);
    assert_eq!(all_physical_cpus(&platform), vec![0, 2, 4, 5]);
    // CPUs missing from the table are each their own core; a known core is
    // represented by its lowest-numbered CPU in the input.
    assert_eq!(physical_core_leaders(&platform, &[9, 1, 0, 9]), vec![9, 0, 9]);
    // Without a table: homogeneous, nothing known, input unchanged.
    let none = Platform::Windows(None);
    assert_eq!(topology(&none), Topology::Homogeneous);
    assert!(performance_cpus(&none).is_empty());
    assert!(efficiency_cpus(&none).is_empty());
    assert_eq!(physical_core_leaders(&none, &[3, 1, 3]), vec![3, 1, 3]);
    // A uniform table: every processor is a P-core.
    let uniform = Platform::Windows(Some(vec![
        CpuInfo { logical: 0, efficiency: 2, core: 0 },
        CpuInfo { logical: 1, efficiency: 2, core: 0 },
    ]));
    assert_eq!(topology(&uniform), Topology::Homogeneous);
    assert_eq!(performance_cpus(&uniform), vec![0, 1]);
    assert!(efficiency_cpus(&uniform).is_empty());
}

#[test]
fn windows_pin_mask() {
    assert_eq!(thread_affinity_mask(0), Ok(1));
    assert_eq!(thread_affinity_mask(5), Ok(32));
    assert_eq!(thread_affinity_mask(63), Ok(1usize << 63));
    assert_eq!(thread_affinity_mask(64), Err(PinError::OutsideProcessorGroup));
    assert_eq!(thread_affinity_mask(1000), Err(PinError::OutsideProcessorGroup));
}

#[test]
fn other_platforms_have_no_topology_source() {
    let platform = Platform::Other(3);
    assert_eq!(topology(&platform), Topology::Homogeneous);
    assert_eq!(performance_cpus(&platform), vec![0, 1, 2]);
    assert!(efficiency_cpus(&platform).is_empty());
    assert_eq!(physical_core_leaders(&platform, &[2, 2, 0]), vec![2, 2, 0]);
    assert_eq!(fallback::pin_current_thread_to_cpu(0), Err(PinError::Unsupported));
}

#[test]
fn windows_leader_is_lowest_sibling_in_input() {
    let platform = Platform::Windows(Some(vec![
        CpuInfo { logical: 0, efficiency: 0, core: 0 },
        CpuInfo { logical: 1, efficiency: 0, core: 0 },
        CpuInfo { logical: 2, efficiency: 0, core: 1 },
        CpuInfo { logical: 3, efficiency: 0, core: 1 },
    ]));
    assert_eq!(physical_core_leaders(&platform, &[1, 0]), vec![0]);
    assert_eq!(physical_core_leaders(&platform, &[3, 1, 2]), vec![2, 1]);
    assert_eq!(physical_core_leaders(&platform, &[3, 7, 0, 2]), vec![2, 7, 0]);
    assert_eq!(physical_core_leaders(&platform, &[1]), vec![1]);
    let leaders = physical_core_leaders(&platform, &[3, 7, 0, 2]);
    assert_eq!(physical_core_leaders(&platform, &leaders), leaders);
}

#[test]
fn all_physical_keeps_every_physical_performance_core() {
    for platform in all_platforms() {
        assert!(all_physical_cpus(&platform).len() >= performance_physical_cpus(&platform).len());
    }
}
