//! Which CPUs a hasher runs on, how its threads split between files, and
//! which CPUs each of its worker pools is pinned to.

use vstd::prelude::*;
use crate::affinity::{
    all_physical_cpus, performance_cpus, physical_core_leaders, spec_performance_cpus,
    spec_physical_core_leaders, spec_topology, topology, Platform, Topology,
};
use crate::split::{is_optimal_split, optimal_split, thread_budget};

verus! {

/// `0, 1, ..., n - 1`.
pub open spec fn first_ids(n: int) -> Seq<usize> {
    Seq::new(n as nat, |i: int| i as usize)
}

fn id_range_vec(n: usize) -> (v: Vec<usize>)
    ensures
        v@ == first_ids(n as int),
{
    let mut v: Vec<usize> = Vec::new();
    let mut i: usize = 0;
    while i < n
        invariant
            i <= n,
            v@ == first_ids(i as int),
        decreases n - i,
    {
        v.push(i);
        assert(v@ =~= first_ids(i + 1));
        i = i + 1;
    }
    v
}

/// The CPUs to hash on: the P-cores on a hybrid machine (where there are
/// any); otherwise every available CPU, `0..available_parallelism`.
pub open spec fn spec_default_cpus(p: Platform, available_parallelism: int) -> Seq<usize> {
    if spec_topology(p) == Topology::Hybrid && spec_performance_cpus(p).len() > 0 {
        spec_performance_cpus(p)
    } else {
        first_ids(available_parallelism)
    }
}

/// Which logical CPUs to hash on. Defaults to P-cores on a hybrid
/// machine, all available CPUs otherwise.
pub fn default_cpus(p: &Platform, available_parallelism: usize) -> (v: Vec<usize>)
    ensures
        v@ == spec_default_cpus(*p, available_parallelism as int),
        spec_topology(*p) == Topology::Homogeneous ==> v@.len() == available_parallelism && forall|
            i: int,
        | 0 <= i < available_parallelism ==> #[trigger] v@[i] == i,
        spec_topology(*p) == Topology::Hybrid && spec_performance_cpus(*p).len() > 0 ==> v@
            == spec_performance_cpus(*p),
{
    proof {
        lemma_default_cpus(*p, available_parallelism);
    }
    match topology(p) {
        Topology::Hybrid => {
            let cpus = performance_cpus(p);
            if cpus.len() == 0 {
                id_range_vec(available_parallelism)
            } else {
                cpus
            }
        },
        Topology::Homogeneous => id_range_vec(available_parallelism),
    }
}

/// The CPUs to hash on are the P-cores on a hybrid machine that lists
/// some, and otherwise exactly the available CPUs `0, 1, ...,
/// available_parallelism - 1`, whatever CPU lists the platform reports: on
/// a homogeneous machine in particular, never more CPUs than are available.
pub proof fn lemma_default_cpus(p: Platform, available_parallelism: usize)
    ensures
        spec_topology(p) == Topology::Hybrid && spec_performance_cpus(p).len() > 0 ==> spec_default_cpus(
            p,
            available_parallelism as int,
        ) == spec_performance_cpus(p),
        !(spec_topology(p) == Topology::Hybrid && spec_performance_cpus(p).len() > 0) ==> {
            &&& spec_default_cpus(p, available_parallelism as int).len() == available_parallelism
            &&& forall|i: int|
                0 <= i < available_parallelism ==> #[trigger] spec_default_cpus(
                    p,
                    available_parallelism as int,
                )[i] == i
        },
        spec_topology(p) == Topology::Homogeneous ==> forall|i: int|
            0 <= i < spec_default_cpus(p, available_parallelism as int).len() ==> #[trigger] spec_default_cpus(
                p,
                available_parallelism as int,
            )[i] < available_parallelism,
{
}

/// Like [`default_cpus`] but with SMT siblings collapsed: one logical CPU
/// per physical core.
pub fn default_physical_cpus(p: &Platform, available_parallelism: usize) -> (v: Vec<usize>)
    ensures
        v@ == spec_physical_core_leaders(*p, spec_default_cpus(*p, available_parallelism as int)),
{
    let cpus = default_cpus(p, available_parallelism);
    physical_core_leaders(p, cpus.as_slice())
}

/// The CPUs of pool `slot` when each pool takes `threads_per_file` CPUs in
/// turn: the slice `[slot * tpf, slot * tpf + tpf)` of `cpus`, cut off at
/// its end (and empty past it).
pub open spec fn slot_cpus(cpus: Seq<usize>, threads_per_file: int, slot: int) -> Seq<usize> {
    let start = if slot * threads_per_file <= cpus.len() {
        slot * threads_per_file
    } else {
        cpus.len() as int
    };
    let end = if start + threads_per_file <= cpus.len() {
        start + threads_per_file
    } else {
        cpus.len() as int
    };
    cpus.subrange(start, end)
}

/// The layout of a hasher's worker pools: `concurrent_files` pools of
/// `threads_per_file` threads each, pool `s` pinned to `pool_cpus[s]`.
pub struct PoolLayout {
    pub threads_per_file: usize,
    pub concurrent_files: usize,
    pub pool_cpus: Vec<Vec<usize>>,
}

impl PoolLayout {
    /// The pools of this layout take their CPUs from `cpus` in turn,
    /// `threads_per_file` each.
    pub open spec fn slices(&self, cpus: Seq<usize>) -> bool {
        &&& self.pool_cpus@.len() == self.concurrent_files
        &&& forall|s: int|
            0 <= s < self.concurrent_files ==> #[trigger] self.pool_cpus@[s]@ == slot_cpus(
                cpus,
                self.threads_per_file as int,
                s,
            )
    }

    /// `concurrent_files` pools, each of `threads_per_file` threads pinned
    /// to its own slice of `cpus`.
    fn build(cpus: &[usize], threads_per_file: usize, concurrent_files: usize) -> (l: Self)
        ensures
            l.threads_per_file == threads_per_file,
            l.concurrent_files == concurrent_files,
            l.slices(cpus@),
    {
        let len = cpus.len();
        let mut pool_cpus: Vec<Vec<usize>> = Vec::new();
        let mut slot: usize = 0;
        while slot < concurrent_files
            invariant
                slot <= concurrent_files,
                len == cpus@.len(),
                pool_cpus@.len() == slot,
                forall|s: int|
                    0 <= s < slot ==> #[trigger] pool_cpus@[s]@ == slot_cpus(
                        cpus@,
                        threads_per_file as int,
                        s,
                    ),
            decreases concurrent_files - slot,
        {
            assert((slot as int) * (threads_per_file as int) <= (usize::MAX as int) * (
            usize::MAX as int)) by (nonlinear_arith)
                requires
                    slot <= usize::MAX,
                    threads_per_file <= usize::MAX,
            ;
            let offset: u128 = (slot as u128) * (threads_per_file as u128);
            let start: usize = if offset <= len as u128 {
                offset as usize
            } else {
                len
            };
            let end: usize = if threads_per_file <= len - start {
                start + threads_per_file
            } else {
                len
            };
            let mut part: Vec<usize> = Vec::new();
            let mut i: usize = start;
            while i < end
                invariant
                    start <= i <= end <= len,
                    len == cpus@.len(),
                    part@ == cpus@.subrange(start as int, i as int),
                decreases end - i,
            {
                part.push(cpus[i]);
                assert(part@ =~= cpus@.subrange(start as int, i + 1));
                i = i + 1;
            }
            pool_cpus.push(part);
            slot = slot + 1;
        }
        PoolLayout { threads_per_file, concurrent_files, pool_cpus }
    }

    /// Pools pinned to the given CPUs, split by [`optimal_split`] of their
    /// count (at least 1).
    pub fn with_cpus(cpus: &[usize]) -> (l: Self)
        ensures
            is_layout_for(l, cpus@),
    {
        let n = if cpus.len() == 0 {
            1
        } else {
            cpus.len()
        };
        let (threads_per_file, concurrent_files) = optimal_split(n);
        Self::build(cpus, threads_per_file, concurrent_files)
    }

    /// How this layout split its threads: (threads per file, files hashed
    /// concurrently).
    pub fn split(&self) -> (r: (usize, usize))
        ensures
            r == (self.threads_per_file, self.concurrent_files),
    {
        (self.threads_per_file, self.concurrent_files)
    }

    /// Threads in each pool: `threads_per_file`, and at least one.
    pub fn pool_threads(&self) -> (n: usize)
        ensures
            n == if self.threads_per_file == 0 {
                1
            } else {
                self.threads_per_file
            },
    {
        if self.threads_per_file == 0 {
            1
        } else {
            self.threads_per_file
        }
    }
}

/// `l` is the layout of [`PoolLayout::with_cpus`] for `cpus`.
pub open spec fn is_layout_for(l: PoolLayout, cpus: Seq<usize>) -> bool {
    &&& is_optimal_split(
        thread_budget(cpus.len() as int),
        (l.threads_per_file, l.concurrent_files),
    )
    &&& l.slices(cpus)
}

/// The auto-detected CPUs, every hardware thread of them.
pub fn new_layout(p: &Platform, available_parallelism: usize) -> (l: PoolLayout)
    ensures
        is_layout_for(l, spec_default_cpus(*p, available_parallelism as int)),
{
    let cpus = default_cpus(p, available_parallelism);
    PoolLayout::with_cpus(cpus.as_slice())
}

/// The auto-detected CPUs with SMT siblings collapsed: one thread per
/// physical core.
pub fn new_physical_layout(p: &Platform, available_parallelism: usize) -> (l: PoolLayout)
    ensures
        is_layout_for(
            l,
            spec_physical_core_leaders(*p, spec_default_cpus(*p, available_parallelism as int)),
        ),
{
    let cpus = default_physical_cpus(p, available_parallelism);
    PoolLayout::with_cpus(cpus.as_slice())
}

/// One leader per physical core of the machine, P- and E-cores.
pub open spec fn spec_all_physical_cpus(p: Platform) -> Seq<usize> {
    spec_physical_core_leaders(
        p,
        crate::affinity::spec_performance_cpus(p) + crate::affinity::spec_efficiency_cpus(p),
    )
}

/// `l` is the layout of [`new_all_physical_layout`]: one pool of one
/// thread per physical core, or, where no core is known, the layout of
/// [`new_layout`].
pub open spec fn is_all_physical_layout(l: PoolLayout, p: Platform, available_parallelism: int) -> bool {
    let cpus = spec_all_physical_cpus(p);
    &&& cpus.len() > 0 ==> l.threads_per_file == 1 && l.concurrent_files == cpus.len() && l.slices(
        cpus,
    )
    &&& cpus.len() == 0 ==> is_layout_for(l, spec_default_cpus(p, available_parallelism))
}

/// One thread per physical core across the whole machine, P- and E-cores,
/// one file per core (`threads_per_file == 1`); where no core is known at
/// all, the layout of [`new_layout`].
pub fn new_all_physical_layout(p: &Platform, available_parallelism: usize) -> (l: PoolLayout)
    ensures
        is_all_physical_layout(l, *p, available_parallelism as int),
{
    let cpus = all_physical_cpus(p);
    if cpus.len() == 0 {
        return new_layout(p, available_parallelism);
    }
    PoolLayout::build(cpus.as_slice(), 1, cpus.len())
}

/// The CPU that worker `worker_index` of a pool pinned to `cpus` runs on:
/// round-robin through `cpus`; none where the pool is not pinned.
pub fn worker_cpu(cpus: &[usize], worker_index: usize) -> (r: Option<usize>)
    ensures
        cpus@.len() == 0 ==> r is None,
        cpus@.len() > 0 ==> r == Some(cpus@[worker_index as int % cpus@.len() as int]),
{
    if cpus.len() == 0 {
        None
    } else {
        Some(cpus[worker_index % cpus.len()])
    }
}

/// The value delivered last for index `i`, if any.
pub open spec fn last_delivery<T>(d: Seq<(usize, T)>, i: int) -> Option<T>
    decreases d.len(),
{
    if d.len() == 0 {
        None
    } else {
        match last_delivery(d.drop_first(), i) {
            Some(v) => Some(v),
            None => if d[0].0 == i {
                Some(d[0].1)
            } else {
                None
            },
        }
    }
}

/// Puts results that arrive as `(index, value)` pairs, in any order, back
/// into index order: entry `i` is the value delivered last for `i`, or
/// `None` where none was.
pub fn collect_in_order<T>(n: usize, delivered: Vec<(usize, T)>) -> (out: Vec<Option<T>>)
    requires
        forall|k: int| 0 <= k < delivered@.len() ==> (#[trigger] delivered@[k]).0 < n,
    ensures
        out@.len() == n,
        forall|i: int| 0 <= i < n ==> #[trigger] out@[i] == last_delivery(delivered@, i),
{
    let ghost d = delivered@;
    let mut out: Vec<Option<T>> = Vec::new();
    let mut i: usize = 0;
    while i < n
        invariant
            i <= n,
            out@.len() == i,
            forall|j: int| 0 <= j < i ==> (#[trigger] out@[j]) is None,
        decreases n - i,
    {
        out.push(None);
        i = i + 1;
    }
    let mut delivered = delivered;
    assert(d.subrange(d.len() as int, d.len() as int) =~= Seq::<(usize, T)>::empty());
    while delivered.len() > 0
        invariant
            out@.len() == n,
            delivered@ == d.subrange(0, delivered@.len() as int),
            delivered@.len() <= d.len(),
            forall|k: int| 0 <= k < d.len() ==> (#[trigger] d[k]).0 < n,
            forall|j: int|
                0 <= j < n ==> #[trigger] out@[j] == last_delivery(
                    d.subrange(delivered@.len() as int, d.len() as int),
                    j,
                ),
        decreases delivered@.len(),
    {
        let k = delivered.len() - 1;
        let (idx, value) = match delivered.pop() {
            Some(e) => e,
            None => {
                return out;
            },
        };
        let ghost before = out@;
        let ghost suffix = d.subrange(k as int, d.len() as int);
        assert(suffix.drop_first() =~= d.subrange(k + 1, d.len() as int));
        assert(suffix[0] == d[k as int]);
        if out[idx].is_none() {
            out[idx] = Some(value);
        }
        assert forall|j: int| 0 <= j < n implies #[trigger] out@[j] == last_delivery(suffix, j) by {
            if j != idx {
                assert(out@[j] == before[j]);
            }
        }
    }
    assert(d.subrange(0, d.len() as int) =~= d);
    out
}

/// The pools' CPUs, pools `0..k`, one after another.
pub open spec fn pools_concat(pools: Seq<Vec<usize>>, k: int) -> Seq<usize>
    decreases k,
{
    if k <= 0 {
        seq![]
    } else {
        pools_concat(pools, k - 1) + pools[k - 1]@
    }
}

/// The smaller of `a` and `b`.
pub open spec fn min_int(a: int, b: int) -> int {
    if a <= b {
        a
    } else {
        b
    }
}

proof fn lemma_concat_prefix(l: PoolLayout, cpus: Seq<usize>, k: int)
    requires
        l.slices(cpus),
        l.threads_per_file >= 1,
        0 <= k <= l.concurrent_files,
    ensures
        pools_concat(l.pool_cpus@, k) == cpus.take(
            min_int(k * l.threads_per_file, cpus.len() as int),
        ),
    decreases k,
{
    let t = l.threads_per_file as int;
    if k == 0 {
        assert(cpus.take(0) =~= Seq::<usize>::empty());
    } else {
        lemma_concat_prefix(l, cpus, k - 1);
        assert(l.pool_cpus@[k - 1]@ == slot_cpus(cpus, t, k - 1));
        assert((k - 1) * t + t == k * t) by (nonlinear_arith);
        assert((k - 1) * t >= 0) by (nonlinear_arith)
            requires
                k >= 1,
                t >= 1,
        ;
        assert(pools_concat(l.pool_cpus@, k) =~= cpus.take(min_int(k * t, cpus.len() as int)));
    }
}

/// The pools take disjoint slices of `cpus`, in order, `threads_per_file`
/// at most each: laid end to end they are `cpus` up to `concurrent_files *
/// threads_per_file` CPUs.
pub proof fn lemma_pools_are_consecutive_slices(l: PoolLayout, cpus: Seq<usize>)
    requires
        l.slices(cpus),
        l.threads_per_file >= 1,
    ensures
        pools_concat(l.pool_cpus@, l.concurrent_files as int) == cpus.take(
            min_int(l.concurrent_files * l.threads_per_file, cpus.len() as int),
        ),
        forall|s: int|
            0 <= s < l.concurrent_files ==> (#[trigger] l.pool_cpus@[s])@.len()
                <= l.threads_per_file,
{
    lemma_concat_prefix(l, cpus, l.concurrent_files as int);
    assert forall|s: int| 0 <= s < l.concurrent_files implies (#[trigger] l.pool_cpus@[
        s
    ])@.len() <= l.threads_per_file by {
        assert(l.pool_cpus@[s]@ == slot_cpus(cpus, l.threads_per_file as int, s));
    }
}

/// No CPU is shared by two pools, as long as `cpus` lists each CPU once.
pub proof fn lemma_pools_disjoint(l: PoolLayout, cpus: Seq<usize>, s1: int, s2: int, x: usize)
    requires
        l.slices(cpus),
        crate::cpulist::no_duplicates(cpus),
        0 <= s1 < s2 < l.concurrent_files,
    ensures
        !(l.pool_cpus@[s1]@.contains(x) && l.pool_cpus@[s2]@.contains(x)),
{
    let t = l.threads_per_file as int;
    let n = cpus.len() as int;
    assert(s1 * t <= s2 * t && s1 * t + t <= s2 * t) by (nonlinear_arith)
        requires
            0 <= s1 < s2,
            t >= 0,
    ;
    let start1 = min_int(s1 * t, n);
    let end1 = min_int(start1 + t, n);
    let start2 = min_int(s2 * t, n);
    assert(s1 * t >= 0) by (nonlinear_arith)
        requires
            s1 >= 0,
            t >= 0,
    ;
    assert(l.pool_cpus@[s1]@ == slot_cpus(cpus, t, s1));
    assert(l.pool_cpus@[s2]@ == slot_cpus(cpus, t, s2));
    if l.pool_cpus@[s1]@.contains(x) && l.pool_cpus@[s2]@.contains(x) {
        let a = choose|a: int| 0 <= a < l.pool_cpus@[s1]@.len() && l.pool_cpus@[s1]@[a] == x;
        let b = choose|b: int| 0 <= b < l.pool_cpus@[s2]@.len() && l.pool_cpus@[s2]@[b] == x;
        assert(cpus[start1 + a] == x);
        assert(cpus[start2 + b] == x);
        assert(start1 + a < end1 <= start2 + b);
    }
}

/// With the split of [`optimal_split`], the pools use every CPU exactly
/// once: laid end to end they are `cpus` itself.
pub proof fn lemma_layout_uses_every_cpu(l: PoolLayout, cpus: Seq<usize>)
    requires
        is_layout_for(l, cpus),
    ensures
        pools_concat(l.pool_cpus@, l.concurrent_files as int) == cpus,
{
    crate::split::lemma_split_uses_every_thread(
        thread_budget(cpus.len() as int),
        (l.threads_per_file, l.concurrent_files),
    );
    lemma_pools_are_consecutive_slices(l, cpus);
    assert(l.concurrent_files * l.threads_per_file == l.threads_per_file * l.concurrent_files)
        by (nonlinear_arith);
    assert(cpus.take(cpus.len() as int) =~= cpus);
}

/// The hasher that collapses SMT siblings never runs more threads in all
/// than the one that uses every hardware thread of the same CPUs.
pub proof fn lemma_physical_layout_not_more_threads(
    p: Platform,
    available_parallelism: int,
    all_threads: PoolLayout,
    physical: PoolLayout,
)
    requires
        is_layout_for(all_threads, spec_default_cpus(p, available_parallelism)),
        is_layout_for(
            physical,
            spec_physical_core_leaders(p, spec_default_cpus(p, available_parallelism)),
        ),
    ensures
        physical.threads_per_file * physical.concurrent_files <= all_threads.threads_per_file
            * all_threads.concurrent_files,
{
    let cpus = spec_default_cpus(p, available_parallelism);
    crate::affinity::lemma_leaders_subset(p, cpus);
    crate::split::lemma_split_uses_every_thread(
        thread_budget(cpus.len() as int),
        (all_threads.threads_per_file, all_threads.concurrent_files),
    );
    crate::split::lemma_split_uses_every_thread(
        thread_budget(spec_physical_core_leaders(p, cpus).len() as int),
        (physical.threads_per_file, physical.concurrent_files),
    );
}

/// One file per core: with one thread per file, pool `s` is pinned to
/// `cpus[s]` alone.
pub proof fn lemma_one_cpu_per_pool(l: PoolLayout, cpus: Seq<usize>, s: int)
    requires
        l.slices(cpus),
        l.threads_per_file == 1,
        l.concurrent_files == cpus.len(),
        0 <= s < cpus.len(),
    ensures
        l.pool_cpus@[s]@ == seq![cpus[s]],
{
    assert(l.pool_cpus@[s]@ == slot_cpus(cpus, 1, s));
    assert(slot_cpus(cpus, 1, s) =~= seq![cpus[s]]);
}

/// Results come back in input order: where index `i` was delivered exactly
/// once, entry `i` holds that delivery's value; where it never was, nothing.
pub proof fn lemma_delivered_once<T>(d: Seq<(usize, T)>, i: int, k: int)
    requires
        0 <= k < d.len(),
        d[k].0 == i,
        forall|j: int| 0 <= j < d.len() && j != k ==> (#[trigger] d[j]).0 != i,
    ensures
        last_delivery(d, i) == Some(d[k].1),
    decreases d.len(),
{
    if k > 0 {
        lemma_delivered_once(d.drop_first(), i, k - 1);
    } else {
        lemma_never_delivered(d.drop_first(), i);
    }
}

/// An index that was never delivered has no value.
pub proof fn lemma_never_delivered<T>(d: Seq<(usize, T)>, i: int)
    requires
        forall|j: int| 0 <= j < d.len() ==> (#[trigger] d[j]).0 != i,
    ensures
        last_delivery(d, i) is None,
    decreases d.len(),
{
    if d.len() > 0 {
        lemma_never_delivered(d.drop_first(), i);
    }
}


/// Where the hasher's CPUs all lie among the P- and E-cores and some
/// physical core is known, the all-physical layout hashes one file per
/// thread and at least as many files at once as the layout with one thread
/// per physical core of the hasher's CPUs.
pub proof fn lemma_all_physical_is_files_parallel(
    p: Platform,
    available_parallelism: usize,
    all_physical: PoolLayout,
    physical: PoolLayout,
)
    requires
        is_all_physical_layout(all_physical, p, available_parallelism as int),
        is_layout_for(
            physical,
            spec_physical_core_leaders(p, spec_default_cpus(p, available_parallelism as int)),
        ),
        spec_all_physical_cpus(p).len() > 0,
        forall|j: int|
            0 <= j < spec_default_cpus(p, available_parallelism as int).len() ==> (spec_performance_cpus(p)
                + crate::affinity::spec_efficiency_cpus(p)).contains(
                #[trigger] spec_default_cpus(p, available_parallelism as int)[j],
            ),
    ensures
        all_physical.threads_per_file == 1,
        all_physical.concurrent_files >= 1,
        all_physical.concurrent_files >= physical.concurrent_files,
{
    let defaults = spec_default_cpus(p, available_parallelism as int);
    let every = spec_performance_cpus(p) + crate::affinity::spec_efficiency_cpus(p);
    if defaults == spec_performance_cpus(p) {
        crate::affinity::lemma_all_physical_keeps_performance_cores(p);
    } else {
        assert(defaults == first_ids(available_parallelism as int));
        assert forall|a: int, b: int| 0 <= a < b < defaults.len() implies defaults[a] != defaults[b] by {
            assert(defaults[a] == a as usize && defaults[b] == b as usize);
        }
        crate::affinity::lemma_leaders_count_subset(p, defaults, every);
    }
    let leaders = spec_physical_core_leaders(p, defaults);
    crate::split::lemma_split_uses_every_thread(
        thread_budget(leaders.len() as int),
        (physical.threads_per_file, physical.concurrent_files),
    );
}

} // verus!
