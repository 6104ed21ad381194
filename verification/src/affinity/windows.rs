//! Windows: the table that `GetSystemCpuSetInformation` fills in, where
//! each logical processor carries an `EfficiencyClass` (higher = faster,
//! less power-efficient = performance core) and a `CoreIndex` shared by
//! SMT siblings. This is a scheduler abstraction, not a vendor-specific one.

use std::collections::{HashMap, HashSet};
use vstd::prelude::*;
use crate::affinity::{PinError, Topology};
use crate::cpulist::no_duplicates;

verus! {

broadcast use vstd::std_specs::hash::group_hash_axioms;

/// One logical processor's identity from the CPU-set table.
#[derive(Debug, Clone, Copy, PartialEq, Eq, Structural)]
pub struct CpuInfo {
    /// `LogicalProcessorIndex`.
    pub logical: usize,
    /// `EfficiencyClass`.
    pub efficiency: u8,
    /// `CoreIndex`: the same for logical processors sharing a physical core.
    pub core: u8,
}

/// Size in bytes of one `SYSTEM_CPU_SET_INFORMATION` entry: `Size` (u32)
/// at 0, `Type` (i32) at 4, then the `CpuSet` record whose
/// `LogicalProcessorIndex`, `CoreIndex` and `EfficiencyClass` bytes sit at
/// 14, 15 and 18.
pub const CPU_SET_ENTRY_SIZE: usize = 32;

/// The little-endian `u32` at `off`.
pub open spec fn le_u32(b: Seq<u8>, off: int) -> int {
    b[off] + 256 * b[off + 1] + 65536 * b[off + 2] + 16777216 * b[off + 3]
}

/// The processor described by the entry at `off`.
pub open spec fn entry_at(b: Seq<u8>, off: int) -> CpuInfo {
    CpuInfo { logical: b[off + 14] as usize, efficiency: b[off + 18], core: b[off + 15] }
}

/// The processors listed from the entry at `off` on. Entries follow each
/// other by their declared `Size`; a `Size` of 0, or fewer than 8 bytes
/// left, ends the table. Only entries of type `CpuSetInformation` (0) whose
/// declared size and whose bytes cover a whole entry count.
pub open spec fn cpu_sets_from(b: Seq<u8>, off: int) -> Seq<CpuInfo>
    decreases b.len() - off,
{
    if off < 0 || off + 8 > b.len() {
        seq![]
    } else {
        let size = le_u32(b, off);
        if size == 0 {
            seq![]
        } else {
            let here = if le_u32(b, off + 4) == 0 && off + CPU_SET_ENTRY_SIZE <= b.len() && size
                >= CPU_SET_ENTRY_SIZE {
                seq![entry_at(b, off)]
            } else {
                seq![]
            };
            if off + size <= b.len() {
                here + cpu_sets_from(b, off + size)
            } else {
                here
            }
        }
    }
}

/// The processors of a whole table.
pub open spec fn spec_cpu_sets(b: Seq<u8>) -> Seq<CpuInfo> {
    cpu_sets_from(b, 0)
}

fn read_u32_le(buf: &[u8], off: usize) -> (v: u32)
    requires
        off + 4 <= buf@.len(),
    ensures
        v == le_u32(buf@, off as int),
{
    buf[off] as u32 + (buf[off + 1] as u32) * 256 + (buf[off + 2] as u32) * 65536 + (buf[off
        + 3] as u32) * 16777216
}

/// Reads a `CpuInfo` for every logical processor out of the bytes that
/// `GetSystemCpuSetInformation` returned.
pub fn parse_cpu_set_information(buf: &[u8]) -> (r: Vec<CpuInfo>)
    ensures
        r@ == spec_cpu_sets(buf@),
{
    let len = buf.len();
    let mut result: Vec<CpuInfo> = Vec::new();
    let mut offset: usize = 0;
    loop
        invariant
            len == buf@.len(),
            offset <= len,
            spec_cpu_sets(buf@) == result@ + cpu_sets_from(buf@, offset as int),
        decreases len - offset,
    {
        if len < 8 || offset > len - 8 {
            assert(result@ + seq![] =~= result@);
            return result;
        }
        let size = read_u32_le(buf, offset) as usize;
        if size == 0 {
            assert(result@ + seq![] =~= result@);
            return result;
        }
        let ty = read_u32_le(buf, offset + 4);
        let ghost before = result@;
        if ty == 0 && CPU_SET_ENTRY_SIZE <= len - offset && size >= CPU_SET_ENTRY_SIZE {
            result.push(
                CpuInfo {
                    logical: buf[offset + 14] as usize,
                    efficiency: buf[offset + 18],
                    core: buf[offset + 15],
                },
            );
        }
        if size > len - offset {
            assert(before + (result@.skip(before.len() as int)) =~= result@);
            assert(cpu_sets_from(buf@, offset as int) =~= result@.skip(before.len() as int));
            return result;
        }
        proof {
            let here = result@.skip(before.len() as int);
            assert(before + here =~= result@);
            assert(before + (here + cpu_sets_from(buf@, offset + size)) =~= result@ + cpu_sets_from(
                buf@,
                offset + size,
            ));
        }
        offset = offset + size;
    }
}

/// The highest efficiency class in `s` (0 for an empty table).
pub open spec fn max_class(s: Seq<CpuInfo>) -> u8
    decreases s.len(),
{
    if s.len() == 0 {
        0
    } else {
        let m = max_class(s.drop_last());
        if s.last().efficiency > m {
            s.last().efficiency
        } else {
            m
        }
    }
}

/// The lowest efficiency class in `s` (255 for an empty table).
pub open spec fn min_class(s: Seq<CpuInfo>) -> u8
    decreases s.len(),
{
    if s.len() == 0 {
        255
    } else {
        let m = min_class(s.drop_last());
        if s.last().efficiency < m {
            s.last().efficiency
        } else {
            m
        }
    }
}

/// Two processors of `s` differ in efficiency class.
pub open spec fn mixed_classes(s: Seq<CpuInfo>) -> bool {
    exists|i: int, j: int|
        0 <= i < s.len() && 0 <= j < s.len() && #[trigger] s[i].efficiency != #[trigger] s[j].efficiency
}

/// Keeps the class `class` itself, or (with `below`) every class under it.
pub open spec fn class_pred(class: u8, below: bool) -> spec_fn(u8) -> bool {
    |e: u8|
        if below {
            e < class
        } else {
            e == class
        }
}

/// The logical IDs of the processors of `s` whose class satisfies `keep`,
/// in table order.
pub open spec fn logical_ids_where(s: Seq<CpuInfo>, keep: spec_fn(u8) -> bool) -> Seq<usize>
    decreases s.len(),
{
    if s.len() == 0 {
        seq![]
    } else {
        let prev = logical_ids_where(s.drop_last(), keep);
        if keep(s.last().efficiency) {
            prev.push(s.last().logical)
        } else {
            prev
        }
    }
}

pub proof fn lemma_class_bounds(s: Seq<CpuInfo>)
    ensures
        forall|i: int|
            0 <= i < s.len() ==> min_class(s) <= #[trigger] s[i].efficiency <= max_class(s),
        s.len() > 0 ==> exists|i: int| 0 <= i < s.len() && #[trigger] s[i].efficiency == max_class(s),
        s.len() > 0 ==> exists|i: int| 0 <= i < s.len() && #[trigger] s[i].efficiency == min_class(s),
    decreases s.len(),
{
    if s.len() > 0 {
        let p = s.drop_last();
        lemma_class_bounds(p);
        let n = s.len() - 1;
        assert(s[n] == s.last());
        assert forall|i: int| 0 <= i < s.len() implies min_class(s) <= #[trigger] s[i].efficiency
            <= max_class(s) by {
            if i < n {
                assert(s[i] == p[i]);
            }
        }
        if p.len() > 0 {
            let a = choose|i: int| 0 <= i < p.len() && #[trigger] p[i].efficiency == max_class(p);
            let b = choose|i: int| 0 <= i < p.len() && #[trigger] p[i].efficiency == min_class(p);
            assert(s[a] == p[a]);
            assert(s[b] == p[b]);
            if s[n].efficiency > max_class(p) {
                assert(s[n].efficiency == max_class(s));
            } else {
                assert(s[a].efficiency == max_class(s));
            }
            if s[n].efficiency < min_class(p) {
                assert(s[n].efficiency == min_class(s));
            } else {
                assert(s[b].efficiency == min_class(s));
            }
        } else {
            assert(s[n].efficiency == max_class(s));
            assert(s[n].efficiency == min_class(s));
        }
    }
}

/// Hybrid exactly when the classes differ (highest above lowest).
pub proof fn lemma_mixed_iff_spread(s: Seq<CpuInfo>)
    ensures
        mixed_classes(s) <==> (s.len() > 0 && min_class(s) < max_class(s)),
{
    lemma_class_bounds(s);
    if s.len() > 0 && min_class(s) < max_class(s) {
        let a = choose|i: int| 0 <= i < s.len() && #[trigger] s[i].efficiency == max_class(s);
        let b = choose|i: int| 0 <= i < s.len() && #[trigger] s[i].efficiency == min_class(s);
        assert(s[a].efficiency != s[b].efficiency);
    }
    if mixed_classes(s) {
        let (i, j) = choose|i: int, j: int|
            0 <= i < s.len() && 0 <= j < s.len() && #[trigger] s[i].efficiency
                != #[trigger] s[j].efficiency;
        assert(min_class(s) <= s[i].efficiency <= max_class(s));
        assert(min_class(s) <= s[j].efficiency <= max_class(s));
    }
}

fn class_range(sets: &Vec<CpuInfo>) -> (r: (u8, u8))
    ensures
        r == (min_class(sets@), max_class(sets@)),
{
    let mut lo: u8 = 255;
    let mut hi: u8 = 0;
    let mut i: usize = 0;
    while i < sets.len()
        invariant
            i <= sets@.len(),
            lo == min_class(sets@.take(i as int)),
            hi == max_class(sets@.take(i as int)),
        decreases sets@.len() - i,
    {
        assert(sets@.take(i + 1).drop_last() =~= sets@.take(i as int));
        let e = sets[i].efficiency;
        if e < lo {
            lo = e;
        }
        if e > hi {
            hi = e;
        }
        i = i + 1;
    }
    assert(sets@.take(sets@.len() as int) =~= sets@);
    (lo, hi)
}

/// The logical IDs of the processors whose class is `class`, or, with
/// `below`, under `class`.
fn logical_ids(sets: &Vec<CpuInfo>, class: u8, below: bool) -> (r: Vec<usize>)
    ensures
        r@ == logical_ids_where(sets@, class_pred(class, below)),
{
    let ghost keep = class_pred(class, below);
    let mut r: Vec<usize> = Vec::new();
    let mut i: usize = 0;
    while i < sets.len()
        invariant
            i <= sets@.len(),
            keep == class_pred(class, below),
            r@ == logical_ids_where(sets@.take(i as int), keep),
        decreases sets@.len() - i,
    {
        assert(sets@.take(i + 1).drop_last() =~= sets@.take(i as int));
        let c = sets[i];
        assert(keep(c.efficiency) == ((below && c.efficiency < class) || (!below && c.efficiency
            == class)));
        if (below && c.efficiency < class) || (!below && c.efficiency == class) {
            r.push(c.logical);
        }
        i = i + 1;
    }
    assert(sets@.take(sets@.len() as int) =~= sets@);
    r
}

/// Hybrid exactly when the table lists processors of different
/// efficiency classes; homogeneous when the table is missing or uniform.
pub fn topology(sets: &Option<Vec<CpuInfo>>) -> (t: Topology)
    ensures
        t == (if sets matches Some(s) && mixed_classes(s@) {
            Topology::Hybrid
        } else {
            Topology::Homogeneous
        }),
{
    match sets {
        Some(s) if s.len() > 0 => {
            let (lo, hi) = class_range(s);
            proof {
                lemma_mixed_iff_spread(s@);
            }
            if hi > lo {
                Topology::Hybrid
            } else {
                Topology::Homogeneous
            }
        },
        _ => {
            proof {
                if let Some(s) = sets {
                    lemma_mixed_iff_spread(s@);
                }
            }
            Topology::Homogeneous
        },
    }
}

/// The logical IDs of the highest-class processors, in table order.
pub open spec fn spec_performance_cpus(sets: Option<Vec<CpuInfo>>) -> Seq<usize> {
    match sets {
        Some(s) => logical_ids_where(s@, class_pred(max_class(s@), false)),
        None => seq![],
    }
}

/// The logical IDs of every processor below the highest class, in table
/// order.
pub open spec fn spec_efficiency_cpus(sets: Option<Vec<CpuInfo>>) -> Seq<usize> {
    match sets {
        Some(s) => logical_ids_where(s@, class_pred(max_class(s@), true)),
        None => seq![],
    }
}

/// Logical CPU IDs of performance cores: those of the highest efficiency
/// class (every processor, on a homogeneous machine); nothing without a
/// table.
pub fn performance_cpus(sets: &Option<Vec<CpuInfo>>) -> (v: Vec<usize>)
    ensures
        v@ == spec_performance_cpus(*sets),
{
    match sets {
        Some(s) if s.len() > 0 => {
            let (_, hi) = class_range(s);
            logical_ids(s, hi, false)
        },
        _ => {
            proof {
                if let Some(s) = sets {
                    assert(s@.len() == 0);
                }
            }
            Vec::new()
        },
    }
}

proof fn lemma_none_below_min(s: Seq<CpuInfo>, class: u8)
    requires
        forall|i: int| 0 <= i < s.len() ==> class <= #[trigger] s[i].efficiency,
    ensures
        logical_ids_where(s, class_pred(class, true)) == Seq::<usize>::empty(),
    decreases s.len(),
{
    if s.len() > 0 {
        assert forall|i: int| 0 <= i < s.drop_last().len() implies class <= #[trigger] s.drop_last()[i].efficiency by {
            assert(s.drop_last()[i] == s[i]);
        }
        lemma_none_below_min(s.drop_last(), class);
        assert(s[s.len() - 1] == s.last());
    }
}

/// Logical CPU IDs of efficiency cores: those below the highest class.
/// Empty on a homogeneous machine.
pub fn efficiency_cpus(sets: &Option<Vec<CpuInfo>>) -> (v: Vec<usize>)
    ensures
        v@ == spec_efficiency_cpus(*sets),
{
    match sets {
        Some(s) if s.len() > 0 => {
            let (lo, hi) = class_range(s);
            if hi == lo {
                proof {
                    lemma_class_bounds(s@);
                    lemma_none_below_min(s@, max_class(s@));
                }
                return Vec::new();
            }
            logical_ids(s, hi, true)
        },
        _ => {
            proof {
                if let Some(s) = sets {
                    assert(s@.len() == 0);
                }
            }
            Vec::new()
        },
    }
}

/// Logical processor to core, as collecting the table into a map gives it:
/// where a logical ID is listed twice, the later entry wins.
pub open spec fn core_map(s: Seq<CpuInfo>) -> Map<usize, u8>
    decreases s.len(),
{
    if s.len() == 0 {
        Map::empty()
    } else {
        core_map(s.drop_last()).insert(s.last().logical, s.last().core)
    }
}

/// `cpus[i]` is kept: its core is unknown, or no earlier CPU of `cpus` is
/// on that core.
pub open spec fn kept(cm: Map<usize, u8>, cpus: Seq<usize>, i: int) -> bool {
    !cm.contains_key(cpus[i]) || forall|j: int|
        0 <= j < i ==> !(cm.contains_key(#[trigger] cpus[j]) && cm[cpus[j]] == cm[cpus[i]])
}

/// The lowest CPU of `cpus` that the table places on core `core`, if any.
pub open spec fn lowest_on_core(cm: Map<usize, u8>, cpus: Seq<usize>, core: u8) -> Option<usize>
    decreases cpus.len(),
{
    if cpus.len() == 0 {
        None
    } else {
        let rest = lowest_on_core(cm, cpus.drop_last(), core);
        let c = cpus.last();
        if cm.contains_key(c) && cm[c] == core {
            match rest {
                Some(m) => Some(if m <= c { m } else { c }),
                None => Some(c),
            }
        } else {
            rest
        }
    }
}

/// `m` holds, for core `k`, the lowest CPU of `cpus` on it.
spec fn records_lowest(m: Map<u8, usize>, cm: Map<usize, u8>, cpus: Seq<usize>, k: u8) -> bool {
    match lowest_on_core(cm, cpus, k) {
        Some(v) => m.contains_key(k) && m[k] == v,
        None => !m.contains_key(k),
    }
}

/// What stands for `cpus[i]`: the lowest CPU of `cpus` on its core, or
/// `cpus[i]` itself where the table does not know it.
pub open spec fn leader_of(cm: Map<usize, u8>, cpus: Seq<usize>, i: int) -> usize {
    if cm.contains_key(cpus[i]) {
        match lowest_on_core(cm, cpus, cm[cpus[i]]) {
            Some(m) => m,
            None => cpus[i],
        }
    } else {
        cpus[i]
    }
}

/// The leaders chosen among the first `n` CPUs of `cpus`.
pub open spec fn leaders_prefix(cm: Map<usize, u8>, cpus: Seq<usize>, n: int) -> Seq<usize>
    decreases n,
{
    if n <= 0 {
        seq![]
    } else {
        let prev = leaders_prefix(cm, cpus, n - 1);
        if kept(cm, cpus, n - 1) {
            prev.push(leader_of(cm, cpus, n - 1))
        } else {
            prev
        }
    }
}

/// Without a table every CPU is its own core. With one, each core the
/// table knows is represented, where it first appears in `cpus`, by the
/// lowest-numbered CPU of `cpus` on that core; CPUs missing from the table
/// are each their own core.
pub open spec fn spec_physical_leaders(sets: Option<Vec<CpuInfo>>, cpus: Seq<usize>) -> Seq<
    usize,
> {
    match sets {
        None => cpus,
        Some(s) => leaders_prefix(core_map(s@), cpus, cpus.len() as int),
    }
}

/// Collapses SMT siblings by `CoreIndex`: one representative per core,
/// the lowest-numbered CPU of `cpus` on it, in first-seen order. A CPU
/// missing from the table is its own core; without a table the input comes
/// back as it is.
pub fn physical_leaders(sets: &Option<Vec<CpuInfo>>, cpus: &[usize]) -> (out: Vec<usize>)
    ensures
        out@ == spec_physical_leaders(*sets, cpus@),
{
    let s = match sets {
        None => {
            let mut out: Vec<usize> = Vec::new();
            let mut i: usize = 0;
            while i < cpus.len()
                invariant
                    i <= cpus@.len(),
                    out@ == cpus@.take(i as int),
                decreases cpus@.len() - i,
            {
                out.push(cpus[i]);
                assert(cpus@.take(i + 1) =~= cpus@.take(i as int).push(cpus@[i as int]));
                i = i + 1;
            }
            assert(cpus@.take(cpus@.len() as int) =~= cpus@);
            return out;
        },
        Some(s) => s,
    };
    let mut core_of: HashMap<usize, u8> = HashMap::new();
    let mut i: usize = 0;
    while i < s.len()
        invariant
            i <= s@.len(),
            core_of@ == core_map(s@.take(i as int)),
        decreases s@.len() - i,
    {
        assert(s@.take(i + 1).drop_last() =~= s@.take(i as int));
        core_of.insert(s[i].logical, s[i].core);
        i = i + 1;
    }
    assert(s@.take(s@.len() as int) =~= s@);
    let ghost cm = core_map(s@);
    // The lowest CPU of `cpus` on each known core.
    let mut lowest: HashMap<u8, usize> = HashMap::new();
    let mut i: usize = 0;
    while i < cpus.len()
        invariant
            i <= cpus@.len(),
            core_of@ == cm,
            forall|k: u8| #[trigger] records_lowest(lowest@, cm, cpus@.take(i as int), k),
        decreases cpus@.len() - i,
    {
        let cpu = cpus[i];
        let ghost before = lowest@;
        assert(cpus@.take(i + 1).drop_last() =~= cpus@.take(i as int));
        assert(cpus@.take(i + 1).last() == cpu);
        match core_of.get(&cpu) {
            Some(core) => {
                let core = *core;
                let current = match lowest.get(&core) {
                    Some(m) => Some(*m),
                    None => None,
                };
                match current {
                    Some(m) => {
                        if cpu < m {
                            lowest.insert(core, cpu);
                        }
                    },
                    None => {
                        lowest.insert(core, cpu);
                    },
                }
                assert forall|k: u8| #[trigger] records_lowest(lowest@, cm, cpus@.take(i + 1), k) by {
                    assert(records_lowest(before, cm, cpus@.take(i as int), k));
                }
            },
            None => {
                assert forall|k: u8| #[trigger] records_lowest(lowest@, cm, cpus@.take(i + 1), k) by {
                    assert(records_lowest(before, cm, cpus@.take(i as int), k));
                }
            },
        }
        i = i + 1;
    }
    assert(cpus@.take(cpus@.len() as int) =~= cpus@);
    let mut seen: HashSet<u8> = HashSet::new();
    let mut out: Vec<usize> = Vec::new();
    let mut i: usize = 0;
    while i < cpus.len()
        invariant
            i <= cpus@.len(),
            core_of@ == cm,
            forall|k: u8| #[trigger] records_lowest(lowest@, cm, cpus@, k),
            forall|k: u8|
                #[trigger] seen@.contains(k) <==> exists|j: int|
                    0 <= j < i && cm.contains_key(#[trigger] cpus@[j]) && cm[cpus@[j]] == k,
            out@ == leaders_prefix(cm, cpus@, i as int),
        decreases cpus@.len() - i,
    {
        let cpu = cpus[i];
        let ghost old_seen = seen@;
        match core_of.get(&cpu) {
            Some(core) => {
                let core = *core;
                let fresh = seen.insert(core);
                assert(fresh == kept(cm, cpus@, i as int)) by {
                    if !fresh {
                        let j = choose|j: int|
                            0 <= j < i && cm.contains_key(#[trigger] cpus@[j]) && cm[cpus@[j]] == core;
                    } else {
                        assert forall|j: int| 0 <= j < i implies !(cm.contains_key(
                            #[trigger] cpus@[j],
                        ) && cm[cpus@[j]] == cm[cpus@[i as int]]) by {
                            if cm.contains_key(cpus@[j]) && cm[cpus@[j]] == core {
                                assert(old_seen.contains(core));
                            }
                        }
                    }
                }
                if fresh {
                    assert(records_lowest(lowest@, cm, cpus@, core));
                    let leader = match lowest.get(&core) {
                        Some(m) => *m,
                        None => cpu,
                    };
                    assert(leader == leader_of(cm, cpus@, i as int));
                    out.push(leader);
                }
                assert forall|k: u8| #[trigger] seen@.contains(k) <==> exists|j: int|
                    0 <= j < i + 1 && cm.contains_key(#[trigger] cpus@[j]) && cm[cpus@[j]] == k by {
                    if seen@.contains(k) && k != core {
                        assert(old_seen.contains(k));
                    }
                    if k == core {
                        assert(cm.contains_key(cpus@[i as int]) && cm[cpus@[i as int]] == k);
                    }
                }
            },
            None => {
                out.push(cpu);
                assert forall|k: u8| #[trigger] seen@.contains(k) <==> exists|j: int|
                    0 <= j < i + 1 && cm.contains_key(#[trigger] cpus@[j]) && cm[cpus@[j]] == k by {
                    if exists|j: int|
                        0 <= j < i + 1 && cm.contains_key(#[trigger] cpus@[j]) && cm[cpus@[j]] == k {
                        let j = choose|j: int|
                            0 <= j < i + 1 && cm.contains_key(#[trigger] cpus@[j]) && cm[cpus@[j]]
                                == k;
                        assert(j < i);
                    }
                }
            },
        }
        i = i + 1;
    }
    out
}

/// The affinity mask that pins a thread to `cpu` within its processor
/// group: bit `cpu` alone. CPU IDs of 64 and above lie outside the group.
pub fn thread_affinity_mask(cpu: usize) -> (r: Result<usize, PinError>)
    requires
        cpu >= 64 || cpu < usize::BITS,
    ensures
        cpu >= 64 ==> r == Err::<usize, PinError>(PinError::OutsideProcessorGroup),
        cpu < 64 ==> r == Ok::<usize, PinError>(1usize << cpu),
{
    if cpu >= 64 {
        return Err(PinError::OutsideProcessorGroup);
    }
    Ok(1usize << cpu)
}

proof fn lemma_ids_where_members(s: Seq<CpuInfo>, keep: spec_fn(u8) -> bool)
    ensures
        logical_ids_where(s, keep).len() <= s.len(),
        forall|x: usize|
            #[trigger] logical_ids_where(s, keep).contains(x) <==> exists|i: int|
                0 <= i < s.len() && keep(#[trigger] s[i].efficiency) && s[i].logical == x,
    decreases s.len(),
{
    if s.len() > 0 {
        let p = s.drop_last();
        lemma_ids_where_members(p, keep);
        let n = s.len() - 1;
        let l = logical_ids_where(s, keep);
        let lp = logical_ids_where(p, keep);
        assert forall|x: usize| #[trigger] l.contains(x) <==> exists|i: int|
            0 <= i < s.len() && keep(#[trigger] s[i].efficiency) && s[i].logical == x by {
            if l.contains(x) {
                let k = choose|k: int| 0 <= k < l.len() && l[k] == x;
                if k < lp.len() {
                    assert(lp[k] == x);
                    assert(lp.contains(x));
                    let i = choose|i: int|
                        0 <= i < p.len() && keep(#[trigger] p[i].efficiency) && p[i].logical == x;
                    assert(s[i] == p[i]);
                } else {
                    assert(s[n] == s.last());
                }
            }
            if exists|i: int| 0 <= i < s.len() && keep(#[trigger] s[i].efficiency) && s[i].logical == x {
                let i = choose|i: int|
                    0 <= i < s.len() && keep(#[trigger] s[i].efficiency) && s[i].logical == x;
                if i < n {
                    assert(p[i] == s[i]);
                    assert(lp.contains(x));
                    let k = choose|k: int| 0 <= k < lp.len() && lp[k] == x;
                    assert(l[k] == x);
                } else {
                    assert(s[n] == s.last());
                    assert(l[l.len() - 1] == x);
                }
            }
        }
    }
}

/// Hybrid exactly when there is an efficiency core to report.
pub proof fn lemma_hybrid_iff_efficiency_cores(sets: Option<Vec<CpuInfo>>)
    ensures
        (sets matches Some(s) && mixed_classes(s@)) <==> spec_efficiency_cpus(sets).len() > 0,
{
    if let Some(s) = sets {
        let t = s@;
        lemma_mixed_iff_spread(t);
        lemma_class_bounds(t);
        lemma_ids_where_members(t, class_pred(max_class(t), true));
        let e = spec_efficiency_cpus(sets);
        if mixed_classes(t) {
            let b = choose|i: int| 0 <= i < t.len() && #[trigger] t[i].efficiency == min_class(t);
            assert(class_pred(max_class(t), true)(t[b].efficiency));
            assert(e.contains(t[b].logical));
        }
        if e.len() > 0 {
            assert(e.contains(e[0]));
            let i = choose|i: int|
                0 <= i < t.len() && class_pred(max_class(t), true)(#[trigger] t[i].efficiency)
                    && t[i].logical == e[0];
        }
    }
}

/// On a homogeneous machine every listed processor is a performance core
/// and there are no efficiency cores.
pub proof fn lemma_homogeneous_all_performance(sets: Option<Vec<CpuInfo>>)
    requires
        !(sets matches Some(s) && mixed_classes(s@)),
    ensures
        spec_efficiency_cpus(sets).len() == 0,
        sets matches Some(s) ==> forall|i: int|
            0 <= i < s@.len() ==> spec_performance_cpus(sets).contains(#[trigger] s@[i].logical),
{
    lemma_hybrid_iff_efficiency_cores(sets);
    if let Some(s) = sets {
        let t = s@;
        lemma_class_bounds(t);
        lemma_ids_where_members(t, class_pred(max_class(t), false));
        assert forall|i: int| 0 <= i < t.len() implies spec_performance_cpus(sets).contains(
            #[trigger] t[i].logical,
        ) by {
            let a = choose|a: int| 0 <= a < t.len() && #[trigger] t[a].efficiency == max_class(t);
            if t[i].efficiency != max_class(t) {
                assert(t[i].efficiency != t[a].efficiency);
            }
            assert(class_pred(max_class(t), false)(t[i].efficiency));
        }
    }
}

/// No CPU is both a performance and an efficiency core, as long as the
/// table does not list one logical processor both at the highest class and
/// below it.
pub proof fn lemma_performance_efficiency_disjoint(sets: Option<Vec<CpuInfo>>, x: usize)
    requires
        sets matches Some(s) ==> forall|i: int, j: int|
            0 <= i < s@.len() && 0 <= j < s@.len() && #[trigger] s@[i].logical
                == #[trigger] s@[j].logical ==> !(s@[i].efficiency == max_class(s@)
                && s@[j].efficiency < max_class(s@)),
    ensures
        !(spec_performance_cpus(sets).contains(x) && spec_efficiency_cpus(sets).contains(x)),
{
    if let Some(s) = sets {
        let t = s@;
        let m = max_class(t);
        lemma_ids_where_members(t, class_pred(m, false));
        lemma_ids_where_members(t, class_pred(m, true));
        if spec_performance_cpus(sets).contains(x) && spec_efficiency_cpus(sets).contains(x) {
            let i = choose|i: int|
                0 <= i < t.len() && class_pred(m, false)(#[trigger] t[i].efficiency) && t[i].logical == x;
            let j = choose|j: int|
                0 <= j < t.len() && class_pred(m, true)(#[trigger] t[j].efficiency) && t[j].logical == x;
            assert(t[i].efficiency == m && t[j].efficiency < m);
        }
    }
}


pub proof fn lemma_lowest_on_core(cm: Map<usize, u8>, cpus: Seq<usize>, core: u8)
    ensures
        lowest_on_core(cm, cpus, core) is None <==> (forall|j: int|
            0 <= j < cpus.len() ==> !(cm.contains_key(#[trigger] cpus[j]) && cm[cpus[j]] == core)),
        lowest_on_core(cm, cpus, core) matches Some(m) ==> {
            &&& cpus.contains(m)
            &&& cm.contains_key(m)
            &&& cm[m] == core
            &&& forall|j: int|
                0 <= j < cpus.len() && cm.contains_key(#[trigger] cpus[j]) && cm[cpus[j]] == core
                    ==> m <= cpus[j]
        },
    decreases cpus.len(),
{
    if cpus.len() > 0 {
        let rest = cpus.drop_last();
        lemma_lowest_on_core(cm, rest, core);
        let n = cpus.len() - 1;
        assert(cpus[n] == cpus.last());
        assert forall|j: int| 0 <= j < rest.len() implies rest[j] == cpus[j] by {}
        if let Some(m) = lowest_on_core(cm, rest, core) {
            let k = choose|k: int| 0 <= k < rest.len() && rest[k] == m;
            assert(cpus[k] == m);
        }
        if lowest_on_core(cm, cpus, core) is None {
            assert forall|j: int| 0 <= j < cpus.len() implies !(cm.contains_key(
                #[trigger] cpus[j],
            ) && cm[cpus[j]] == core) by {
                if j < n {
                    assert(rest[j] == cpus[j]);
                }
            }
        }
        if let Some(m) = lowest_on_core(cm, cpus, core) {
            assert forall|j: int|
                0 <= j < cpus.len() && cm.contains_key(#[trigger] cpus[j]) && cm[cpus[j]] == core
                    implies m <= cpus[j] by {
                if j < n {
                    assert(rest[j] == cpus[j]);
                }
            }
        }
    }
}

proof fn lemma_leader_of(cm: Map<usize, u8>, cpus: Seq<usize>, i: int)
    requires
        0 <= i < cpus.len(),
    ensures
        cpus.contains(leader_of(cm, cpus, i)),
        cm.contains_key(leader_of(cm, cpus, i)) == cm.contains_key(cpus[i]),
        !cm.contains_key(cpus[i]) ==> leader_of(cm, cpus, i) == cpus[i],
        cm.contains_key(cpus[i]) ==> {
            &&& cm[leader_of(cm, cpus, i)] == cm[cpus[i]]
            &&& forall|j: int|
                0 <= j < cpus.len() && cm.contains_key(#[trigger] cpus[j]) && cm[cpus[j]]
                    == cm[cpus[i]] ==> leader_of(cm, cpus, i) <= cpus[j]
        },
{
    if cm.contains_key(cpus[i]) {
        lemma_lowest_on_core(cm, cpus, cm[cpus[i]]);
        assert(cm.contains_key(cpus[i]) && cm[cpus[i]] == cm[cpus[i]]);
    } else {
        assert(cpus.contains(cpus[i]));
    }
}

/// `x` is what stands for `cpus[j]`, and `cpus[j]` is the first of `cpus`
/// on its core.
pub open spec fn leads(cm: Map<usize, u8>, cpus: Seq<usize>, j: int, x: usize) -> bool {
    kept(cm, cpus, j) && x == leader_of(cm, cpus, j)
}

/// The position in `cpus` whose leader is entry `p` of the leaders chosen
/// among the first `n` CPUs.
pub open spec fn source_index(cm: Map<usize, u8>, cpus: Seq<usize>, n: int, p: int) -> int
    decreases n,
{
    if n <= 0 {
        0
    } else if p < leaders_prefix(cm, cpus, n - 1).len() {
        source_index(cm, cpus, n - 1, p)
    } else {
        n - 1
    }
}

proof fn lemma_prefix_len(cm: Map<usize, u8>, cpus: Seq<usize>, n: int)
    requires
        0 <= n,
    ensures
        leaders_prefix(cm, cpus, n).len() <= n,
    decreases n,
{
    if n > 0 {
        lemma_prefix_len(cm, cpus, n - 1);
    }
}

proof fn lemma_prefix_entry(cm: Map<usize, u8>, cpus: Seq<usize>, n: int, p: int)
    requires
        0 <= n <= cpus.len(),
        0 <= p < leaders_prefix(cm, cpus, n).len(),
    ensures
        0 <= source_index(cm, cpus, n, p) < n,
        leads(cm, cpus, source_index(cm, cpus, n, p), leaders_prefix(cm, cpus, n)[p]),
    decreases n,
{
    let prev = leaders_prefix(cm, cpus, n - 1);
    if p < prev.len() {
        lemma_prefix_entry(cm, cpus, n - 1, p);
    }
}

proof fn lemma_prefix_order(cm: Map<usize, u8>, cpus: Seq<usize>, n: int, p: int, q: int)
    requires
        0 <= n <= cpus.len(),
        0 <= p < q < leaders_prefix(cm, cpus, n).len(),
    ensures
        source_index(cm, cpus, n, p) < source_index(cm, cpus, n, q),
    decreases n,
{
    let prev = leaders_prefix(cm, cpus, n - 1);
    if q < prev.len() {
        lemma_prefix_order(cm, cpus, n - 1, p, q);
    } else {
        lemma_prefix_entry(cm, cpus, n - 1, p);
    }
}

proof fn lemma_prefix_cores(cm: Map<usize, u8>, cpus: Seq<usize>, n: int, p: int, q: int)
    requires
        0 <= n <= cpus.len(),
        0 <= p < q < leaders_prefix(cm, cpus, n).len(),
        cm.contains_key(leaders_prefix(cm, cpus, n)[p]),
        cm.contains_key(leaders_prefix(cm, cpus, n)[q]),
    ensures
        cm[leaders_prefix(cm, cpus, n)[p]] != cm[leaders_prefix(cm, cpus, n)[q]],
{
    lemma_prefix_entry(cm, cpus, n, p);
    lemma_prefix_entry(cm, cpus, n, q);
    lemma_prefix_order(cm, cpus, n, p, q);
    let j = source_index(cm, cpus, n, p);
    let k = source_index(cm, cpus, n, q);
    lemma_leader_of(cm, cpus, j);
    lemma_leader_of(cm, cpus, k);
    assert(kept(cm, cpus, k));
    assert(!(cm.contains_key(cpus[j]) && cm[cpus[j]] == cm[cpus[k]]));
}

/// Every leader is one of the CPUs asked about, there are never more
/// leaders than CPUs, no two leaders lie on one known core, and a list
/// without duplicates yields leaders without duplicates.
pub proof fn lemma_leaders_subset(sets: Option<Vec<CpuInfo>>, cpus: Seq<usize>)
    ensures
        spec_physical_leaders(sets, cpus).len() <= cpus.len(),
        forall|p: int|
            0 <= p < spec_physical_leaders(sets, cpus).len() ==> cpus.contains(
                #[trigger] spec_physical_leaders(sets, cpus)[p],
            ),
        no_duplicates(cpus) ==> no_duplicates(spec_physical_leaders(sets, cpus)),
{
    if let Some(s) = sets {
        let cm = core_map(s@);
        let n = cpus.len() as int;
        let l = spec_physical_leaders(sets, cpus);
        lemma_prefix_len(cm, cpus, n);
        assert forall|p: int| 0 <= p < l.len() implies cpus.contains(#[trigger] l[p]) by {
            lemma_prefix_entry(cm, cpus, n, p);
            lemma_leader_of(cm, cpus, source_index(cm, cpus, n, p));
        }
        if no_duplicates(cpus) {
            assert forall|p: int, q: int| 0 <= p < q < l.len() implies l[p] != l[q] by {
                lemma_prefix_entry(cm, cpus, n, p);
                lemma_prefix_entry(cm, cpus, n, q);
                lemma_prefix_order(cm, cpus, n, p, q);
                let j = source_index(cm, cpus, n, p);
                let k = source_index(cm, cpus, n, q);
                lemma_leader_of(cm, cpus, j);
                lemma_leader_of(cm, cpus, k);
                if cm.contains_key(l[p]) && cm.contains_key(l[q]) {
                    lemma_prefix_cores(cm, cpus, n, p, q);
                }
            }
        }
    } else {
        assert forall|p: int| 0 <= p < cpus.len() implies cpus.contains(#[trigger] cpus[p]) by {}
    }
}

/// Each core is represented by the lowest-numbered CPU of the input on it.
pub proof fn lemma_leader_is_lowest_sibling(table: Vec<CpuInfo>, cpus: Seq<usize>, p: int, j: int)
    requires
        0 <= p < spec_physical_leaders(Some(table), cpus).len(),
        0 <= j < cpus.len(),
        core_map(table@).contains_key(cpus[j]),
        core_map(table@).contains_key(spec_physical_leaders(Some(table), cpus)[p]),
        core_map(table@)[cpus[j]] == core_map(table@)[spec_physical_leaders(Some(table), cpus)[p]],
    ensures
        spec_physical_leaders(Some(table), cpus)[p] <= cpus[j],
{
    let cm = core_map(table@);
    lemma_prefix_entry(cm, cpus, cpus.len() as int, p);
    lemma_leader_of(cm, cpus, source_index(cm, cpus, cpus.len() as int, p));
}

/// Collapsing an already collapsed set changes nothing.
pub proof fn lemma_leaders_idempotent(sets: Option<Vec<CpuInfo>>, cpus: Seq<usize>)
    ensures
        spec_physical_leaders(sets, spec_physical_leaders(sets, cpus)) == spec_physical_leaders(
            sets,
            cpus,
        ),
{
    if let Some(s) = sets {
        let cm = core_map(s@);
        let l = spec_physical_leaders(sets, cpus);
        assert forall|p: int, q: int|
            0 <= p < q < l.len() && cm.contains_key(#[trigger] l[p]) && cm.contains_key(
                #[trigger] l[q],
            ) implies cm[l[p]] != cm[l[q]] by {
            lemma_prefix_cores(cm, cpus, cpus.len() as int, p, q);
        }
        lemma_idempotent_prefix(cm, l, l.len() as int);
        assert(l.take(l.len() as int) =~= l);
    }
}

proof fn lemma_idempotent_prefix(cm: Map<usize, u8>, l: Seq<usize>, m: int)
    requires
        0 <= m <= l.len(),
        forall|p: int, q: int|
            0 <= p < q < l.len() && cm.contains_key(#[trigger] l[p]) && cm.contains_key(
                #[trigger] l[q],
            ) ==> cm[l[p]] != cm[l[q]],
    ensures
        leaders_prefix(cm, l, m) == l.take(m),
    decreases m,
{
    if m > 0 {
        lemma_idempotent_prefix(cm, l, m - 1);
        let x = l[m - 1];
        assert(kept(cm, l, m - 1)) by {
            if cm.contains_key(x) {
                assert forall|j: int| 0 <= j < m - 1 implies !(cm.contains_key(#[trigger] l[j])
                    && cm[l[j]] == cm[l[m - 1]]) by {}
            }
        }
        if cm.contains_key(x) {
            lemma_lowest_on_core(cm, l, cm[x]);
            assert(cm.contains_key(l[m - 1]) && cm[l[m - 1]] == cm[x]);
            let mm = lowest_on_core(cm, l, cm[x])->0;
            let q = choose|q: int| 0 <= q < l.len() && l[q] == mm;
            if q < m - 1 {
                assert(cm[l[q]] != cm[l[m - 1]]);
            } else if q > m - 1 {
                assert(cm[l[m - 1]] != cm[l[q]]);
            }
        }
        assert(leader_of(cm, l, m - 1) == x);
        assert(l.take(m) =~= l.take(m - 1).push(x));
    }
}

proof fn lemma_prefix_len_monotone(cm: Map<usize, u8>, cpus: Seq<usize>, a: int, b: int)
    requires
        0 <= a <= b <= cpus.len(),
    ensures
        leaders_prefix(cm, cpus, a).len() <= leaders_prefix(cm, cpus, b).len(),
    decreases b - a,
{
    if a < b {
        lemma_prefix_len_monotone(cm, cpus, a, b - 1);
    }
}

proof fn lemma_prefix_len_extend(cm: Map<usize, u8>, xs: Seq<usize>, ys: Seq<usize>, n: int)
    requires
        0 <= n <= xs.len(),
    ensures
        leaders_prefix(cm, xs + ys, n).len() == leaders_prefix(cm, xs, n).len(),
    decreases n,
{
    if n > 0 {
        lemma_prefix_len_extend(cm, xs, ys, n - 1);
        let zs = xs + ys;
        assert forall|j: int| 0 <= j < n implies zs[j] == xs[j] by {}
        assert(kept(cm, zs, n - 1) == kept(cm, xs, n - 1)) by {
            assert forall|j: int| 0 <= j < n - 1 implies #[trigger] zs[j] == xs[j] by {}
        }
    }
}

/// Adding CPUs after a list never loses one of its cores: the leaders of
/// `xs` followed by `ys` are at least as many as those of `xs`.
pub proof fn lemma_leaders_grow_with_input(sets: Option<Vec<CpuInfo>>, xs: Seq<usize>, ys: Seq<usize>)
    ensures
        spec_physical_leaders(sets, xs).len() <= spec_physical_leaders(sets, xs + ys).len(),
{
    if let Some(s) = sets {
        let cm = core_map(s@);
        lemma_prefix_len_extend(cm, xs, ys, xs.len() as int);
        lemma_prefix_len_monotone(cm, xs + ys, xs.len() as int, (xs + ys).len() as int);
    }
}


/// What a CPU counts as: its core where the table knows it, else itself.
pub open spec fn core_id(cm: Map<usize, u8>, x: usize) -> (bool, usize) {
    if cm.contains_key(x) {
        (true, cm[x] as usize)
    } else {
        (false, x)
    }
}

/// The cores (or unknown CPUs) of the first `n` CPUs of `cpus`.
pub open spec fn core_ids(cm: Map<usize, u8>, cpus: Seq<usize>, n: int) -> Set<(bool, usize)>
    decreases n,
{
    if n <= 0 {
        Set::empty()
    } else {
        core_ids(cm, cpus, n - 1).insert(core_id(cm, cpus[n - 1]))
    }
}

proof fn lemma_core_ids(cm: Map<usize, u8>, cpus: Seq<usize>, n: int)
    requires
        0 <= n <= cpus.len(),
    ensures
        core_ids(cm, cpus, n).finite(),
        forall|k: (bool, usize)|
            #[trigger] core_ids(cm, cpus, n).contains(k) <==> exists|j: int|
                0 <= j < n && core_id(cm, #[trigger] cpus[j]) == k,
        core_ids(cm, cpus, n).len() <= leaders_prefix(cm, cpus, n).len(),
        no_duplicates(cpus) ==> core_ids(cm, cpus, n).len() == leaders_prefix(cm, cpus, n).len(),
    decreases n,
{
    if n > 0 {
        lemma_core_ids(cm, cpus, n - 1);
        let prev = core_ids(cm, cpus, n - 1);
        let x = cpus[n - 1];
        let k = core_id(cm, x);
        assert forall|y: (bool, usize)| #[trigger] core_ids(cm, cpus, n).contains(y) <==> exists|j: int|
            0 <= j < n && core_id(cm, #[trigger] cpus[j]) == y by {
            if y == k {
                assert(core_id(cm, cpus[n - 1]) == y);
            } else if exists|j: int| 0 <= j < n && core_id(cm, #[trigger] cpus[j]) == y {
                let j = choose|j: int| 0 <= j < n && core_id(cm, #[trigger] cpus[j]) == y;
                assert(j < n - 1);
            }
        }
        if !prev.contains(k) {
            assert(kept(cm, cpus, n - 1)) by {
                if cm.contains_key(x) {
                    assert forall|j: int| 0 <= j < n - 1 implies !(cm.contains_key(#[trigger] cpus[j])
                        && cm[cpus[j]] == cm[x]) by {
                        if cm.contains_key(cpus[j]) && cm[cpus[j]] == cm[x] {
                            assert(core_id(cm, cpus[j]) == k);
                        }
                    }
                }
            }
        } else if no_duplicates(cpus) {
            let j = choose|j: int| 0 <= j < n - 1 && core_id(cm, #[trigger] cpus[j]) == k;
            if !cm.contains_key(x) {
                assert(cpus[j] == x);
            }
            assert(!kept(cm, cpus, n - 1));
        }
    }
}

proof fn lemma_empty_table_keeps_input(cpus: Seq<usize>, n: int)
    requires
        0 <= n <= cpus.len(),
    ensures
        leaders_prefix(Map::empty(), cpus, n) == cpus.take(n),
    decreases n,
{
    if n > 0 {
        lemma_empty_table_keeps_input(cpus, n - 1);
        assert(cpus.take(n) =~= cpus.take(n - 1).push(cpus[n - 1]));
    }
}

/// A list without duplicates whose CPUs all appear in `zs` is no longer
/// than `zs`.
pub proof fn lemma_distinct_subset_not_longer(xs: Seq<usize>, zs: Seq<usize>)
    requires
        no_duplicates(xs),
        forall|j: int| 0 <= j < xs.len() ==> zs.contains(#[trigger] xs[j]),
    ensures
        xs.len() <= zs.len(),
{
    let cm = Map::<usize, u8>::empty();
    lemma_empty_table_keeps_input(xs, xs.len() as int);
    lemma_empty_table_keeps_input(zs, zs.len() as int);
    lemma_core_ids(cm, xs, xs.len() as int);
    lemma_core_ids(cm, zs, zs.len() as int);
    let a = core_ids(cm, xs, xs.len() as int);
    let b = core_ids(cm, zs, zs.len() as int);
    assert forall|k: (bool, usize)| a.contains(k) implies b.contains(k) by {
        let j = choose|j: int| 0 <= j < xs.len() && core_id(cm, #[trigger] xs[j]) == k;
        assert(zs.contains(xs[j]));
        let i = choose|i: int| 0 <= i < zs.len() && zs[i] == xs[j];
        assert(core_id(cm, zs[i]) == k);
    }
    vstd::set_lib::lemma_len_subset(a, b);
    assert(xs.take(xs.len() as int) =~= xs);
    assert(zs.take(zs.len() as int) =~= zs);
}

/// Leaders of distinct CPUs that all appear in `zs` are never more than
/// those of `zs`: each stands for a core, or for a CPU the table does not
/// know, and each of those is found in `zs` too.
pub proof fn lemma_leaders_count_subset(sets: Option<Vec<CpuInfo>>, xs: Seq<usize>, zs: Seq<usize>)
    requires
        no_duplicates(xs),
        forall|j: int| 0 <= j < xs.len() ==> zs.contains(#[trigger] xs[j]),
    ensures
        spec_physical_leaders(sets, xs).len() <= spec_physical_leaders(sets, zs).len(),
{
    match sets {
        None => lemma_distinct_subset_not_longer(xs, zs),
        Some(t) => {
            let cm = core_map(t@);
            lemma_core_ids(cm, xs, xs.len() as int);
            lemma_core_ids(cm, zs, zs.len() as int);
            let a = core_ids(cm, xs, xs.len() as int);
            let b = core_ids(cm, zs, zs.len() as int);
            assert forall|k: (bool, usize)| a.contains(k) implies b.contains(k) by {
                let j = choose|j: int| 0 <= j < xs.len() && core_id(cm, #[trigger] xs[j]) == k;
                assert(zs.contains(xs[j]));
                let i = choose|i: int| 0 <= i < zs.len() && zs[i] == xs[j];
                assert(core_id(cm, zs[i]) == k);
            }
            vstd::set_lib::lemma_len_subset(a, b);
        },
    }
}


/// Some processor of `s` is of a higher class than processor `i`.
pub open spec fn outranked(s: Seq<CpuInfo>, i: int) -> bool {
    exists|j: int| 0 <= j < s.len() && #[trigger] s[j].efficiency > s[i].efficiency
}

proof fn lemma_outranked_iff_below_max(s: Seq<CpuInfo>, i: int)
    requires
        0 <= i < s.len(),
    ensures
        outranked(s, i) <==> s[i].efficiency < max_class(s),
{
    lemma_class_bounds(s);
    if s[i].efficiency < max_class(s) {
        let a = choose|a: int| 0 <= a < s.len() && #[trigger] s[a].efficiency == max_class(s);
        assert(s[a].efficiency > s[i].efficiency);
    }
    if outranked(s, i) {
        let j = choose|j: int| 0 <= j < s.len() && #[trigger] s[j].efficiency > s[i].efficiency;
        assert(s[j].efficiency <= max_class(s));
    }
}

/// The efficiency cores are exactly the processors of the table that some
/// other processor outranks in efficiency class: every such processor is
/// reported, and nothing else is. Without a table there are none.
pub proof fn lemma_efficiency_cpus_are_outranked(sets: Option<Vec<CpuInfo>>)
    ensures
        sets is None ==> spec_efficiency_cpus(sets).len() == 0,
        sets matches Some(t) ==> forall|i: int|
            0 <= i < t@.len() && outranked(t@, i) ==> spec_efficiency_cpus(sets).contains(
                #[trigger] t@[i].logical,
            ),
        sets matches Some(t) ==> forall|x: usize|
            #[trigger] spec_efficiency_cpus(sets).contains(x) ==> exists|i: int|
                0 <= i < t@.len() && #[trigger] t@[i].logical == x && outranked(t@, i),
{
    if let Some(t) = sets {
        let s = t@;
        let m = max_class(s);
        lemma_ids_where_members(s, class_pred(m, true));
        assert forall|i: int| 0 <= i < s.len() && outranked(s, i) implies spec_efficiency_cpus(
            sets,
        ).contains(#[trigger] s[i].logical) by {
            lemma_outranked_iff_below_max(s, i);
            assert(class_pred(m, true)(s[i].efficiency));
        }
        assert forall|x: usize| #[trigger] spec_efficiency_cpus(sets).contains(x) implies exists|
            i: int,
        | 0 <= i < s.len() && #[trigger] s[i].logical == x && outranked(s, i) by {
            let i = choose|i: int|
                0 <= i < s.len() && class_pred(m, true)(#[trigger] s[i].efficiency) && s[i].logical
                    == x;
            lemma_outranked_iff_below_max(s, i);
        }
    }
}

/// The performance cores are exactly the processors of the table that no
/// other processor outranks in efficiency class.
pub proof fn lemma_performance_cpus_are_top_class(sets: Option<Vec<CpuInfo>>)
    ensures
        sets is None ==> spec_performance_cpus(sets).len() == 0,
        sets matches Some(t) ==> forall|i: int|
            0 <= i < t@.len() && !outranked(t@, i) ==> spec_performance_cpus(sets).contains(
                #[trigger] t@[i].logical,
            ),
        sets matches Some(t) ==> forall|x: usize|
            #[trigger] spec_performance_cpus(sets).contains(x) ==> exists|i: int|
                0 <= i < t@.len() && #[trigger] t@[i].logical == x && !outranked(t@, i),
{
    if let Some(t) = sets {
        let s = t@;
        let m = max_class(s);
        lemma_class_bounds(s);
        lemma_ids_where_members(s, class_pred(m, false));
        assert forall|i: int| 0 <= i < s.len() && !outranked(s, i) implies spec_performance_cpus(
            sets,
        ).contains(#[trigger] s[i].logical) by {
            lemma_outranked_iff_below_max(s, i);
            assert(class_pred(m, false)(s[i].efficiency));
        }
        assert forall|x: usize| #[trigger] spec_performance_cpus(sets).contains(x) implies exists|
            i: int,
        | 0 <= i < s.len() && #[trigger] s[i].logical == x && !outranked(s, i) by {
            let i = choose|i: int|
                0 <= i < s.len() && class_pred(m, false)(#[trigger] s[i].efficiency) && s[i].logical
                    == x;
            lemma_outranked_iff_below_max(s, i);
        }
    }
}

/// Performance and efficiency cores together cover every processor the
/// table lists.
pub proof fn lemma_performance_and_efficiency_cover_table(table: Vec<CpuInfo>, i: int)
    requires
        0 <= i < table@.len(),
    ensures
        spec_performance_cpus(Some(table)).contains(table@[i].logical)
            || spec_efficiency_cpus(Some(table)).contains(table@[i].logical),
{
    lemma_performance_cpus_are_top_class(Some(table));
    lemma_efficiency_cpus_are_outranked(Some(table));
}

} // verus!
