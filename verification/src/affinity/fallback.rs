//! Platforms with no topology source: every CPU is a performance core and
//! its own physical core, and threads cannot be pinned.

use vstd::prelude::*;
use crate::affinity::{PinError, Topology};

verus! {

/// Always homogeneous: there is nothing to tell P- and E-cores apart.
pub fn topology() -> (t: Topology)
    ensures
        t == Topology::Homogeneous,
{
    Topology::Homogeneous
}

/// Every available logical CPU: `0..available_parallelism`.
pub fn performance_cpus(available_parallelism: usize) -> (v: Vec<usize>)
    ensures
        v@ == Seq::new(available_parallelism as nat, |i: int| i as usize),
{
    let mut v: Vec<usize> = Vec::new();
    let mut i: usize = 0;
    while i < available_parallelism
        invariant
            i <= available_parallelism,
            v@ == Seq::new(i as nat, |k: int| k as usize),
        decreases available_parallelism - i,
    {
        v.push(i);
        assert(v@ =~= Seq::new((i + 1) as nat, |k: int| k as usize));
        i = i + 1;
    }
    v
}

/// No efficiency cores.
pub fn efficiency_cpus() -> (v: Vec<usize>)
    ensures
        v@ == Seq::<usize>::empty(),
{
    Vec::new()
}

/// Every CPU is its own core: the input, unchanged.
pub fn physical_leaders(cpus: &[usize]) -> (out: Vec<usize>)
    ensures
        out@ == cpus@,
{
    let mut out: Vec<usize> = Vec::new();
    let mut i: usize = 0;
    while i < cpus.len()
        invariant
            i <= cpus@.len(),
            out@ == cpus@.take(i as int),
        decreases cpus@.len() - i,
    {
        out.push(cpus[i]);
        assert(cpus@.take(i + 1) =~= cpus@.take(i as int).push(cpus@[i as int]));
        i = i + 1;
    }
    assert(cpus@.take(cpus@.len() as int) =~= cpus@);
    out
}

/// Pinning is not supported here.
pub fn pin_current_thread_to_cpu(cpu: usize) -> (r: Result<(), PinError>)
    ensures
        r == Err::<(), PinError>(PinError::Unsupported),
{
    Err(PinError::Unsupported)
}

} // verus!
