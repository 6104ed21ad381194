//! Performance ("P") vs efficiency ("E") cores on hybrid CPUs, computed
//! from what the operating system reports.

pub mod linux;
pub mod windows;
pub mod fallback;

use vstd::prelude::*;
use crate::affinity::linux::SysfsSnapshot;
use crate::affinity::windows::CpuInfo;

verus! {

/// Whether this machine exposes a hybrid P-core/E-core topology.
#[derive(Debug, Clone, Copy, PartialEq, Eq, Structural)]
pub enum Topology {
    /// No P/E distinction detected (or detection unavailable).
    Homogeneous,
    /// Hybrid P-core/E-core topology detected.
    Hybrid,
}

/// Why the calling thread could not be pinned to a CPU.
#[derive(Debug, Clone, Copy, PartialEq, Eq, Structural)]
pub enum PinError {
    /// This platform offers no way to pin a thread.
    Unsupported,
    /// The CPU lies outside the calling thread's processor group (IDs of 64
    /// and above, on Windows).
    OutsideProcessorGroup,
}

/// What the operating system reported about its CPUs.
pub enum Platform {
    /// Linux sysfs files.
    Linux(SysfsSnapshot),
    /// The Windows CPU-set table (`None` where the query failed).
    Windows(Option<Vec<CpuInfo>>),
    /// Any other platform: only the available parallelism is known.
    Other(usize),
}

/// The topology kind that `p` shows.
pub open spec fn spec_topology(p: Platform) -> Topology {
    match p {
        Platform::Linux(s) => if s.core_marker_openable {
            Topology::Hybrid
        } else {
            Topology::Homogeneous
        },
        Platform::Windows(sets) => if sets matches Some(t) && windows::mixed_classes(t@) {
            Topology::Hybrid
        } else {
            Topology::Homogeneous
        },
        Platform::Other(_) => Topology::Homogeneous,
    }
}

/// The performance cores that `p` lists.
pub open spec fn spec_performance_cpus(p: Platform) -> Seq<usize> {
    match p {
        Platform::Linux(s) => linux::spec_performance_cpus(s),
        Platform::Windows(sets) => windows::spec_performance_cpus(sets),
        Platform::Other(n) => Seq::new(n as nat, |i: int| i as usize),
    }
}

/// The efficiency cores that `p` lists.
pub open spec fn spec_efficiency_cpus(p: Platform) -> Seq<usize> {
    match p {
        Platform::Linux(s) => linux::or_empty(linux::text_list(s.atom_cpus)),
        Platform::Windows(sets) => windows::spec_efficiency_cpus(sets),
        Platform::Other(_) => Seq::empty(),
    }
}

/// One representative of `cpus` per physical core, as `p` describes the cores.
pub open spec fn spec_physical_core_leaders(p: Platform, cpus: Seq<usize>) -> Seq<usize> {
    match p {
        Platform::Linux(s) => linux::spec_physical_leaders(s, cpus),
        Platform::Windows(sets) => windows::spec_physical_leaders(sets, cpus),
        Platform::Other(_) => cpus,
    }
}

/// Detects this machine's CPU topology kind.
pub fn topology(p: &Platform) -> (t: Topology)
    ensures
        t == spec_topology(*p),
{
    match p {
        Platform::Linux(s) => linux::topology(s),
        Platform::Windows(sets) => windows::topology(sets),
        Platform::Other(_) => fallback::topology(),
    }
}

/// Logical CPU IDs of performance cores. On a non-hybrid system this is
/// every CPU the platform lists (there is no distinction to make): the
/// online CPUs on Linux, every processor of the table on Windows,
/// `0..available_parallelism` elsewhere. Where the platform could report
/// nothing (on Linux neither the P-core nor the online list is readable and
/// well formed; on Windows the table query failed), the list is empty.
pub fn performance_cpus(p: &Platform) -> (v: Vec<usize>)
    ensures
        v@ == spec_performance_cpus(*p),
{
    match p {
        Platform::Linux(s) => linux::performance_cpus(s),
        Platform::Windows(sets) => windows::performance_cpus(sets),
        Platform::Other(n) => fallback::performance_cpus(*n),
    }
}

/// Logical CPU IDs of efficiency cores. Empty on a non-hybrid system.
pub fn efficiency_cpus(p: &Platform) -> (v: Vec<usize>)
    ensures
        v@ == spec_efficiency_cpus(*p),
{
    match p {
        Platform::Linux(s) => linux::efficiency_cpus(s),
        Platform::Windows(sets) => windows::efficiency_cpus(sets),
        Platform::Other(_) => fallback::efficiency_cpus(),
    }
}

/// Collapses SMT siblings: one representative per distinct physical core
/// (the lowest-numbered sibling present in `cpus`), preserving first-seen
/// order. Where per-CPU topology is unknown, every CPU counts as its own
/// core.
pub fn physical_core_leaders(p: &Platform, cpus: &[usize]) -> (v: Vec<usize>)
    ensures
        v@ == spec_physical_core_leaders(*p, cpus@),
{
    match p {
        Platform::Linux(s) => linux::physical_leaders(s, cpus),
        Platform::Windows(sets) => windows::physical_leaders(sets, cpus),
        Platform::Other(_) => fallback::physical_leaders(cpus),
    }
}

/// One logical CPU per physical performance core (SMT siblings collapsed).
pub fn performance_physical_cpus(p: &Platform) -> (v: Vec<usize>)
    ensures
        v@ == spec_physical_core_leaders(*p, spec_performance_cpus(*p)),
{
    let cpus = performance_cpus(p);
    physical_core_leaders(p, cpus.as_slice())
}

/// One logical CPU per physical core across the whole machine: every
/// performance core and every efficiency core, SMT siblings collapsed.
pub fn all_physical_cpus(p: &Platform) -> (v: Vec<usize>)
    ensures
        v@ == spec_physical_core_leaders(*p, spec_performance_cpus(*p) + spec_efficiency_cpus(*p)),
{
    let mut cpus = performance_cpus(p);
    let mut e = efficiency_cpus(p);
    cpus.append(&mut e);
    physical_core_leaders(p, cpus.as_slice())
}

/// The reported sibling data for `cpus` is coherent: on Linux the sibling
/// lists describe a partition into cores (see
/// [`linux::siblings_consistent`]); the other platforms need nothing.
pub open spec fn platform_consistent(p: Platform, cpus: Seq<usize>) -> bool {
    match p {
        Platform::Linux(s) => linux::siblings_consistent(s, cpus),
        _ => true,
    }
}

/// Leaders are a subset of the CPUs asked about, never more of them.
pub proof fn lemma_leaders_subset(p: Platform, cpus: Seq<usize>)
    ensures
        spec_physical_core_leaders(p, cpus).len() <= cpus.len(),
        forall|i: int|
            0 <= i < spec_physical_core_leaders(p, cpus).len() ==> cpus.contains(
                #[trigger] spec_physical_core_leaders(p, cpus)[i],
            ),
{
    match p {
        Platform::Linux(s) => linux::lemma_leaders_subset(s, cpus),
        Platform::Windows(sets) => windows::lemma_leaders_subset(sets, cpus),
        Platform::Other(_) => {
            assert forall|i: int| 0 <= i < cpus.len() implies cpus.contains(#[trigger] cpus[i]) by {}
        },
    }
}

/// Collapsing an already collapsed set changes nothing.
pub proof fn lemma_leaders_idempotent(p: Platform, cpus: Seq<usize>)
    requires
        platform_consistent(p, cpus),
    ensures
        spec_physical_core_leaders(p, spec_physical_core_leaders(p, cpus))
            == spec_physical_core_leaders(p, cpus),
{
    match p {
        Platform::Linux(s) => linux::lemma_leaders_idempotent(s, cpus),
        Platform::Windows(sets) => windows::lemma_leaders_idempotent(sets, cpus),
        Platform::Other(_) => {},
    }
}

/// Leaders of a list without duplicates hold no CPU twice.
pub proof fn lemma_leaders_distinct(p: Platform, cpus: Seq<usize>)
    requires
        platform_consistent(p, cpus),
        crate::cpulist::no_duplicates(cpus),
    ensures
        crate::cpulist::no_duplicates(spec_physical_core_leaders(p, cpus)),
{
    match p {
        Platform::Linux(s) => linux::lemma_leaders_distinct(s, cpus),
        Platform::Windows(sets) => windows::lemma_leaders_subset(sets, cpus),
        Platform::Other(_) => {},
    }
}

/// Where the topology and the core lists come from one source (Windows,
/// and platforms without a topology source), a hybrid topology is exactly
/// one with efficiency cores to report.
pub proof fn lemma_hybrid_iff_efficiency_cores(p: Platform)
    requires
        !(p is Linux),
    ensures
        (spec_topology(p) == Topology::Hybrid) <==> spec_efficiency_cpus(p).len() > 0,
{
    if let Platform::Windows(sets) = p {
        windows::lemma_hybrid_iff_efficiency_cores(sets);
    }
}


/// Adding CPUs after a list never loses one of its cores.
pub proof fn lemma_leaders_grow_with_input(p: Platform, xs: Seq<usize>, ys: Seq<usize>)
    ensures
        spec_physical_core_leaders(p, xs).len() <= spec_physical_core_leaders(p, xs + ys).len(),
{
    match p {
        Platform::Linux(s) => linux::lemma_leaders_grow_with_input(s, xs, ys),
        Platform::Windows(sets) => windows::lemma_leaders_grow_with_input(sets, xs, ys),
        Platform::Other(_) => {},
    }
}

/// Adding the E-cores never loses a physical P-core: there are at least as
/// many physical cores in all than physical performance cores.
pub proof fn lemma_all_physical_keeps_performance_cores(p: Platform)
    ensures
        spec_physical_core_leaders(p, spec_performance_cpus(p)).len()
            <= spec_physical_core_leaders(p, spec_performance_cpus(p) + spec_efficiency_cpus(p)).len(),
{
    lemma_leaders_grow_with_input(p, spec_performance_cpus(p), spec_efficiency_cpus(p));
}


/// Leaders of CPUs that all appear in `zs` are never more than those of
/// `zs` (on Windows and elsewhere, for a list without duplicates, since
/// each CPU of unknown core there is kept each time it appears).
pub proof fn lemma_leaders_count_subset(p: Platform, xs: Seq<usize>, zs: Seq<usize>)
    requires
        forall|j: int| 0 <= j < xs.len() ==> zs.contains(#[trigger] xs[j]),
        p is Linux || crate::cpulist::no_duplicates(xs),
    ensures
        spec_physical_core_leaders(p, xs).len() <= spec_physical_core_leaders(p, zs).len(),
{
    match p {
        Platform::Linux(s) => linux::lemma_leaders_count_subset(s, xs, zs),
        Platform::Windows(sets) => windows::lemma_leaders_count_subset(sets, xs, zs),
        Platform::Other(_) => windows::lemma_distinct_subset_not_longer(xs, zs),
    }
}

} // verus!
