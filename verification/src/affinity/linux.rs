//! Linux: the kernel's hybrid-core sysfs markers
//! (`/sys/devices/cpu_core/cpus`, `/sys/devices/cpu_atom/cpus`, present
//! since Linux 5.16 on Intel Alder Lake+), the online list, and each CPU's
//! `topology/thread_siblings_list`.

use std::collections::HashSet;
use vstd::prelude::*;
use crate::affinity::Topology;
use crate::cpulist::{cpu_list_from_sysfs, no_duplicates, spec_sysfs_list};

verus! {

broadcast use vstd::std_specs::hash::group_hash_axioms;

/// What sysfs reported: each file's text as read (`None` where it could
/// not be read as text).
pub struct SysfsSnapshot {
    /// Whether `/sys/devices/cpu_core/cpus` could be opened.
    pub core_marker_openable: bool,
    /// `/sys/devices/cpu_core/cpus`: the P-cores.
    pub core_cpus: Option<String>,
    /// `/sys/devices/cpu_atom/cpus`: the E-cores.
    pub atom_cpus: Option<String>,
    /// `/sys/devices/system/cpu/online`.
    pub online_cpus: Option<String>,
    /// Entry `c`: `/sys/devices/system/cpu/cpu<c>/topology/thread_siblings_list`.
    /// A CPU past the end counts as unreadable.
    pub thread_siblings: Vec<Option<String>>,
}

/// The IDs a sysfs cpulist file lists, if it was read and is well formed.
pub open spec fn text_list(text: Option<String>) -> Option<Seq<usize>> {
    match text {
        Some(t) => spec_sysfs_list(vstd::utf8::encode_utf8(t@)),
        None => None,
    }
}

/// An optional vector of IDs, by its view.
pub open spec fn ids_view(r: Option<Vec<usize>>) -> Option<Seq<usize>> {
    match r {
        Some(v) => Some(v@),
        None => None,
    }
}

/// The list, or the empty list where there is none.
pub open spec fn or_empty(l: Option<Seq<usize>>) -> Seq<usize> {
    match l {
        Some(v) => v,
        None => seq![],
    }
}

fn read_list(text: &Option<String>) -> (r: Option<Vec<usize>>)
    ensures
        ids_view(r) == text_list(*text),
{
    match text {
        Some(t) => {
            let r = cpu_list_from_sysfs(t.as_str());
            proof {
                if r is Some {
                    assert(text_list(*text) == Some(r->0@));
                }
            }
            r
        },
        None => None,
    }
}

/// Hybrid exactly when the P-core marker file could be opened.
pub fn topology(s: &SysfsSnapshot) -> (t: Topology)
    ensures
        t == (if s.core_marker_openable {
            Topology::Hybrid
        } else {
            Topology::Homogeneous
        }),
{
    if s.core_marker_openable {
        Topology::Hybrid
    } else {
        Topology::Homogeneous
    }
}

/// The P-core list; failing that, the online list; failing that, nothing.
pub open spec fn spec_performance_cpus(s: SysfsSnapshot) -> Seq<usize> {
    match text_list(s.core_cpus) {
        Some(l) => l,
        None => or_empty(text_list(s.online_cpus)),
    }
}

/// Logical CPU IDs of performance cores: the `cpu_core` list, or every
/// online CPU where there is none, or nothing where neither list could be
/// read and parsed.
pub fn performance_cpus(s: &SysfsSnapshot) -> (v: Vec<usize>)
    ensures
        v@ == spec_performance_cpus(*s),
{
    match read_list(&s.core_cpus) {
        Some(v) => v,
        None => match read_list(&s.online_cpus) {
            Some(v) => v,
            None => Vec::new(),
        },
    }
}

/// Logical CPU IDs of efficiency cores: the `cpu_atom` list, or nothing.
pub fn efficiency_cpus(s: &SysfsSnapshot) -> (v: Vec<usize>)
    ensures
        v@ == or_empty(text_list(s.atom_cpus)),
{
    match read_list(&s.atom_cpus) {
        Some(v) => v,
        None => Vec::new(),
    }
}

/// The thread-sibling list of `cpu`, if it was read and is well formed.
pub open spec fn sibling_list(s: SysfsSnapshot, cpu: usize) -> Option<Seq<usize>> {
    if cpu < s.thread_siblings@.len() {
        text_list(s.thread_siblings@[cpu as int])
    } else {
        None
    }
}

/// The logical CPUs sharing a physical core with `cpu` (including
/// itself), from `topology/thread_siblings_list`.
pub fn thread_siblings(s: &SysfsSnapshot, cpu: usize) -> (r: Option<Vec<usize>>)
    ensures
        ids_view(r) == sibling_list(*s, cpu),
{
    if cpu < s.thread_siblings.len() {
        read_list(&s.thread_siblings[cpu])
    } else {
        None
    }
}

/// The siblings of `cpu`, or `cpu` alone where they are unknown.
pub open spec fn effective_siblings(s: SysfsSnapshot, cpu: usize) -> Seq<usize> {
    match sibling_list(s, cpu) {
        Some(l) => l,
        None => seq![cpu],
    }
}

/// The smallest element of `xs` that lies in `want`, if any.
pub open spec fn min_member(xs: Seq<usize>, want: Set<usize>) -> Option<usize>
    decreases xs.len(),
{
    if xs.len() == 0 {
        None
    } else {
        let rest = min_member(xs.drop_last(), want);
        if want.contains(xs.last()) {
            match rest {
                Some(m) => Some(if m <= xs.last() { m } else { xs.last() }),
                None => Some(xs.last()),
            }
        } else {
            rest
        }
    }
}

/// A physical core is keyed by its lowest sibling, so the key is the same
/// whichever sibling is visited.
pub open spec fn core_key(s: SysfsSnapshot, cpu: usize) -> usize {
    match min_member(effective_siblings(s, cpu), Set::full()) {
        Some(m) => m,
        None => cpu,
    }
}

/// The lowest sibling of `cpu` that is in `want`, or `cpu` itself.
pub open spec fn representative(s: SysfsSnapshot, cpu: usize, want: Set<usize>) -> usize {
    match min_member(effective_siblings(s, cpu), want) {
        Some(m) => m,
        None => cpu,
    }
}

/// `cpus[i]` is the first of `cpus` on its physical core.
pub open spec fn first_on_core(s: SysfsSnapshot, cpus: Seq<usize>, i: int) -> bool {
    forall|j: int| 0 <= j < i ==> core_key(s, #[trigger] cpus[j]) != core_key(s, cpus[i])
}

/// The leaders chosen among the first `n` CPUs of `cpus`: one per physical
/// core, in first-seen order, each the lowest of its siblings in `cpus`.
pub open spec fn leaders_prefix(s: SysfsSnapshot, cpus: Seq<usize>, n: int) -> Seq<usize>
    decreases n,
{
    if n <= 0 {
        seq![]
    } else {
        let prev = leaders_prefix(s, cpus, n - 1);
        if first_on_core(s, cpus, n - 1) {
            prev.push(representative(s, cpus[n - 1], cpus.to_set()))
        } else {
            prev
        }
    }
}

/// One leader per physical core of `cpus`, in first-seen order.
pub open spec fn spec_physical_leaders(s: SysfsSnapshot, cpus: Seq<usize>) -> Seq<usize> {
    leaders_prefix(s, cpus, cpus.len() as int)
}

/// The smallest element of `xs`.
fn smallest(xs: &Vec<usize>) -> (r: Option<usize>)
    ensures
        r == min_member(xs@, Set::full()),
{
    let mut best: Option<usize> = None;
    let mut i: usize = 0;
    while i < xs.len()
        invariant
            i <= xs@.len(),
            best == min_member(xs@.take(i as int), Set::full()),
        decreases xs@.len() - i,
    {
        assert(xs@.take(i + 1).drop_last() =~= xs@.take(i as int));
        let x = xs[i];
        best = match best {
            Some(m) => Some(if m <= x { m } else { x }),
            None => Some(x),
        };
        i = i + 1;
    }
    assert(xs@.take(xs@.len() as int) =~= xs@);
    best
}

/// The smallest element of `xs` that is in `want`.
fn smallest_wanted(xs: &Vec<usize>, want: &HashSet<usize>) -> (r: Option<usize>)
    ensures
        r == min_member(xs@, want@),
{
    let mut best: Option<usize> = None;
    let mut i: usize = 0;
    while i < xs.len()
        invariant
            i <= xs@.len(),
            best == min_member(xs@.take(i as int), want@),
        decreases xs@.len() - i,
    {
        assert(xs@.take(i + 1).drop_last() =~= xs@.take(i as int));
        let x = xs[i];
        if want.contains(&x) {
            best = match best {
                Some(m) => Some(if m <= x { m } else { x }),
                None => Some(x),
            };
        }
        i = i + 1;
    }
    assert(xs@.take(xs@.len() as int) =~= xs@);
    best
}

/// Collapses SMT siblings: one representative per distinct physical core
/// (the lowest-numbered sibling present in `cpus`), in first-seen order.
/// A CPU whose sibling list is unknown is its own core.
pub fn physical_leaders(s: &SysfsSnapshot, cpus: &[usize]) -> (out: Vec<usize>)
    ensures
        out@ == spec_physical_leaders(*s, cpus@),
{
    let mut want: HashSet<usize> = HashSet::new();
    let mut i: usize = 0;
    while i < cpus.len()
        invariant
            i <= cpus@.len(),
            want@ == cpus@.take(i as int).to_set(),
        decreases cpus@.len() - i,
    {
        want.insert(cpus[i]);
        assert(cpus@.take(i + 1) =~= cpus@.take(i as int).push(cpus@[i as int]));
        proof {
            cpus@.take(i as int).lemma_push_to_set_commute(cpus@[i as int]);
        }
        i = i + 1;
    }
    assert(cpus@.take(cpus@.len() as int) =~= cpus@);
    let mut seen: HashSet<usize> = HashSet::new();
    let mut out: Vec<usize> = Vec::new();
    let mut i: usize = 0;
    while i < cpus.len()
        invariant
            i <= cpus@.len(),
            want@ == cpus@.to_set(),
            forall|k: usize|
                #[trigger] seen@.contains(k) <==> exists|j: int|
                    0 <= j < i && core_key(*s, #[trigger] cpus@[j]) == k,
            out@ == leaders_prefix(*s, cpus@, i as int),
        decreases cpus@.len() - i,
    {
        let cpu = cpus[i];
        let siblings = match thread_siblings(s, cpu) {
            Some(v) => v,
            None => vec![cpu],
        };
        assert(siblings@ == effective_siblings(*s, cpu)) by {
            if sibling_list(*s, cpu) is None {
                assert(siblings@ =~= seq![cpu]);
            }
        }
        let key = match smallest(&siblings) {
            Some(m) => m,
            None => cpu,
        };
        let ghost old_seen = seen@;
        let fresh = seen.insert(key);
        assert(fresh == first_on_core(*s, cpus@, i as int)) by {
            if !fresh {
                let j = choose|j: int| 0 <= j < i && core_key(*s, #[trigger] cpus@[j]) == key;
                assert(core_key(*s, cpus@[j]) == core_key(*s, cpus@[i as int]));
            } else {
                assert forall|j: int| 0 <= j < i implies core_key(*s, #[trigger] cpus@[j])
                    != core_key(*s, cpus@[i as int]) by {
                    if core_key(*s, cpus@[j]) == key {
                        assert(old_seen.contains(key));
                    }
                }
            }
        }
        if fresh {
            let rep = match smallest_wanted(&siblings, &want) {
                Some(m) => m,
                None => cpu,
            };
            out.push(rep);
        }
        assert forall|k: usize| #[trigger] seen@.contains(k) <==> exists|j: int|
            0 <= j < i + 1 && core_key(*s, #[trigger] cpus@[j]) == k by {
            if seen@.contains(k) && k != key {
                assert(old_seen.contains(k));
            }
            if k == key {
                assert(core_key(*s, cpus@[i as int]) == k);
            }
        }
        i = i + 1;
    }
    out
}

/// The sibling lists that sysfs reported for `cpus` describe a partition
/// into cores: each CPU is among its own siblings, and a CPU listed as a
/// sibling of another has the same set of siblings.
pub open spec fn siblings_consistent(s: SysfsSnapshot, cpus: Seq<usize>) -> bool {
    &&& forall|i: int|
        0 <= i < cpus.len() ==> #[trigger] effective_siblings(s, cpus[i]).contains(cpus[i])
    &&& forall|i: int, j: int|
        0 <= i < cpus.len() && 0 <= j < cpus.len() && #[trigger] effective_siblings(
            s,
            cpus[i],
        ).contains(#[trigger] cpus[j]) ==> effective_siblings(s, cpus[j]).to_set()
            == effective_siblings(s, cpus[i]).to_set()
}

pub proof fn lemma_min_member(xs: Seq<usize>, want: Set<usize>)
    ensures
        min_member(xs, want) is None <==> (forall|i: int|
            0 <= i < xs.len() ==> !want.contains(#[trigger] xs[i])),
        min_member(xs, want) matches Some(m) ==> {
            &&& xs.contains(m)
            &&& want.contains(m)
            &&& forall|i: int| 0 <= i < xs.len() && want.contains(#[trigger] xs[i]) ==> m <= xs[i]
        },
    decreases xs.len(),
{
    if xs.len() > 0 {
        let rest = xs.drop_last();
        lemma_min_member(rest, want);
        assert forall|i: int| 0 <= i < rest.len() implies rest[i] == xs[i] by {}
        if let Some(m) = min_member(rest, want) {
            let k = choose|k: int| 0 <= k < rest.len() && rest[k] == m;
            assert(xs[k] == m);
        }
        if want.contains(xs.last()) {
            assert(xs[xs.len() - 1] == xs.last());
        }
        if min_member(xs, want) is None {
            assert forall|i: int| 0 <= i < xs.len() implies !want.contains(#[trigger] xs[i]) by {
                if i < rest.len() {
                    assert(rest[i] == xs[i]);
                }
            }
        }
    }
}

/// The smallest wanted element depends only on the set of elements.
pub proof fn lemma_min_member_same_set(xs: Seq<usize>, ys: Seq<usize>, want: Set<usize>)
    requires
        xs.to_set() == ys.to_set(),
    ensures
        min_member(xs, want) == min_member(ys, want),
{
    lemma_min_member(xs, want);
    lemma_min_member(ys, want);
    assert forall|x: usize| xs.contains(x) <==> ys.contains(x) by {
        assert(xs.to_set().contains(x) == xs.contains(x));
        assert(ys.to_set().contains(x) == ys.contains(x));
    }
    if min_member(xs, want) is None && min_member(ys, want) is Some {
        let m = min_member(ys, want)->0;
        let k = choose|k: int| 0 <= k < xs.len() && xs[k] == m;
        assert(want.contains(xs[k]));
    }
    if min_member(ys, want) is None && min_member(xs, want) is Some {
        let m = min_member(xs, want)->0;
        let k = choose|k: int| 0 <= k < ys.len() && ys[k] == m;
        assert(want.contains(ys[k]));
    }
    if let (Some(a), Some(b)) = (min_member(xs, want), min_member(ys, want)) {
        let ka = choose|k: int| 0 <= k < ys.len() && ys[k] == a;
        let kb = choose|k: int| 0 <= k < xs.len() && xs[k] == b;
        assert(want.contains(ys[ka]));
        assert(want.contains(xs[kb]));
    }
}

proof fn lemma_prefix_in_input(s: SysfsSnapshot, cpus: Seq<usize>, n: int)
    requires
        0 <= n <= cpus.len(),
    ensures
        leaders_prefix(s, cpus, n).len() <= n,
        forall|p: int|
            0 <= p < leaders_prefix(s, cpus, n).len() ==> cpus.contains(
                #[trigger] leaders_prefix(s, cpus, n)[p],
            ),
    decreases n,
{
    if n > 0 {
        lemma_prefix_in_input(s, cpus, n - 1);
        let c = cpus[n - 1];
        lemma_min_member(effective_siblings(s, c), cpus.to_set());
        let l = leaders_prefix(s, cpus, n);
        let prev = leaders_prefix(s, cpus, n - 1);
        assert forall|p: int| 0 <= p < l.len() implies cpus.contains(#[trigger] l[p]) by {
            if p < prev.len() {
                assert(l[p] == prev[p]);
            } else {
                let r = representative(s, c, cpus.to_set());
                assert(l[p] == r);
                if min_member(effective_siblings(s, c), cpus.to_set()) is None {
                    assert(cpus[n - 1] == r);
                } else {
                    assert(cpus.to_set().contains(r));
                }
            }
        }
    }
}

/// Every leader is one of the CPUs asked about, and there are never more
/// leaders than CPUs.
pub proof fn lemma_leaders_subset(s: SysfsSnapshot, cpus: Seq<usize>)
    ensures
        spec_physical_leaders(s, cpus).len() <= cpus.len(),
        forall|p: int|
            0 <= p < spec_physical_leaders(s, cpus).len() ==> cpus.contains(
                #[trigger] spec_physical_leaders(s, cpus)[p],
            ),
{
    lemma_prefix_in_input(s, cpus, cpus.len() as int);
}

/// Under consistent sibling lists, a leader chosen for `cpus[i]` is on the
/// same core as `cpus[i]`.
proof fn lemma_representative_same_core(s: SysfsSnapshot, cpus: Seq<usize>, i: int)
    requires
        siblings_consistent(s, cpus),
        0 <= i < cpus.len(),
    ensures
        cpus.contains(representative(s, cpus[i], cpus.to_set())),
        core_key(s, representative(s, cpus[i], cpus.to_set())) == core_key(s, cpus[i]),
{
    let c = cpus[i];
    let sibs = effective_siblings(s, c);
    assert(sibs.contains(c));
    let ki = choose|k: int| 0 <= k < sibs.len() && sibs[k] == c;
    assert(cpus.to_set().contains(sibs[ki]));
    lemma_min_member(sibs, cpus.to_set());
    let r = representative(s, c, cpus.to_set());
    assert(cpus.to_set().contains(r));
    let j = choose|j: int| 0 <= j < cpus.len() && cpus[j] == r;
    assert(sibs.contains(cpus[j]));
    assert(effective_siblings(s, cpus[j]).to_set() == sibs.to_set());
    lemma_min_member_same_set(effective_siblings(s, cpus[j]), sibs, Set::full());
}

proof fn lemma_prefix_distinct_cores(s: SysfsSnapshot, cpus: Seq<usize>, n: int)
    requires
        siblings_consistent(s, cpus),
        0 <= n <= cpus.len(),
    ensures
        forall|p: int|
            0 <= p < leaders_prefix(s, cpus, n).len() ==> exists|j: int|
                0 <= j < n && core_key(s, #[trigger] leaders_prefix(s, cpus, n)[p]) == core_key(
                    s,
                    cpus[j],
                ),
        forall|p: int, q: int|
            0 <= p < q < leaders_prefix(s, cpus, n).len() ==> core_key(
                s,
                #[trigger] leaders_prefix(s, cpus, n)[p],
            ) != core_key(s, #[trigger] leaders_prefix(s, cpus, n)[q]),
    decreases n,
{
    if n > 0 {
        lemma_prefix_distinct_cores(s, cpus, n - 1);
        let l = leaders_prefix(s, cpus, n);
        let prev = leaders_prefix(s, cpus, n - 1);
        if first_on_core(s, cpus, n - 1) {
            lemma_representative_same_core(s, cpus, n - 1);
            assert forall|p: int| 0 <= p < l.len() implies exists|j: int|
                0 <= j < n && core_key(s, #[trigger] l[p]) == core_key(s, cpus[j]) by {
                if p < prev.len() {
                    assert(l[p] == prev[p]);
                    let j = choose|j: int| 0 <= j < n - 1 && core_key(s, prev[p]) == core_key(s, cpus[j]);
                } else {
                    assert(core_key(s, l[p]) == core_key(s, cpus[n - 1]));
                }
            }
            assert forall|p: int, q: int| 0 <= p < q < l.len() implies core_key(s, #[trigger] l[p])
                != core_key(s, #[trigger] l[q]) by {
                assert(l[p] == prev[p]);
                if q < prev.len() {
                    assert(l[q] == prev[q]);
                } else {
                    let j = choose|j: int| 0 <= j < n - 1 && core_key(s, prev[p]) == core_key(s, cpus[j]);
                    assert(core_key(s, cpus[j]) != core_key(s, cpus[n - 1]));
                }
            }
        } else {
            assert forall|p: int| 0 <= p < l.len() implies exists|j: int|
                0 <= j < n && core_key(s, #[trigger] l[p]) == core_key(s, cpus[j]) by {
                let j = choose|j: int| 0 <= j < n - 1 && core_key(s, prev[p]) == core_key(s, cpus[j]);
            }
        }
    }
}

/// With consistent sibling lists, no two leaders share a physical core,
/// so in particular no leader appears twice.
pub proof fn lemma_leaders_distinct(s: SysfsSnapshot, cpus: Seq<usize>)
    requires
        siblings_consistent(s, cpus),
    ensures
        forall|p: int, q: int|
            0 <= p < q < spec_physical_leaders(s, cpus).len() ==> core_key(
                s,
                #[trigger] spec_physical_leaders(s, cpus)[p],
            ) != core_key(s, #[trigger] spec_physical_leaders(s, cpus)[q]),
        no_duplicates(spec_physical_leaders(s, cpus)),
{
    lemma_prefix_distinct_cores(s, cpus, cpus.len() as int);
    let l = spec_physical_leaders(s, cpus);
    assert forall|p: int, q: int| 0 <= p < q < l.len() implies l[p] != l[q] by {
        assert(core_key(s, l[p]) != core_key(s, l[q]));
    }
}

/// With consistent sibling lists, collapsing an already collapsed set
/// changes nothing.
pub proof fn lemma_leaders_idempotent(s: SysfsSnapshot, cpus: Seq<usize>)
    requires
        siblings_consistent(s, cpus),
    ensures
        spec_physical_leaders(s, spec_physical_leaders(s, cpus)) == spec_physical_leaders(s, cpus),
{
    let l = spec_physical_leaders(s, cpus);
    lemma_leaders_subset(s, cpus);
    lemma_leaders_distinct(s, cpus);
    lemma_leaders_idempotent_prefix(s, cpus, l.len() as int);
    assert(l.take(l.len() as int) =~= l);
}

proof fn lemma_leaders_idempotent_prefix(s: SysfsSnapshot, cpus: Seq<usize>, m: int)
    requires
        siblings_consistent(s, cpus),
        0 <= m <= spec_physical_leaders(s, cpus).len(),
        forall|p: int|
            0 <= p < spec_physical_leaders(s, cpus).len() ==> cpus.contains(
                #[trigger] spec_physical_leaders(s, cpus)[p],
            ),
        forall|p: int, q: int|
            0 <= p < q < spec_physical_leaders(s, cpus).len() ==> core_key(
                s,
                #[trigger] spec_physical_leaders(s, cpus)[p],
            ) != core_key(s, #[trigger] spec_physical_leaders(s, cpus)[q]),
    ensures
        leaders_prefix(s, spec_physical_leaders(s, cpus), m) == spec_physical_leaders(s, cpus).take(
            m,
        ),
    decreases m,
{
    let l = spec_physical_leaders(s, cpus);
    if m > 0 {
        lemma_leaders_idempotent_prefix(s, cpus, m - 1);
        let r = l[m - 1];
        assert(first_on_core(s, l, m - 1)) by {
            assert forall|j: int| 0 <= j < m - 1 implies core_key(s, #[trigger] l[j]) != core_key(
                s,
                l[m - 1],
            ) by {}
        }
        assert(cpus.contains(r));
        let i = choose|i: int| 0 <= i < cpus.len() && cpus[i] == r;
        let sibs = effective_siblings(s, r);
        assert(sibs.contains(cpus[i]));
        let ki = choose|k: int| 0 <= k < sibs.len() && sibs[k] == r;
        assert(l.to_set().contains(l[m - 1]));
        assert(l.to_set().contains(sibs[ki]));
        lemma_min_member(sibs, l.to_set());
        let mm = min_member(sibs, l.to_set())->0;
        assert(l.to_set().contains(mm));
        let q = choose|q: int| 0 <= q < l.len() && l[q] == mm;
        assert(cpus.contains(l[q]));
        let jq = choose|j: int| 0 <= j < cpus.len() && cpus[j] == l[q];
        assert(sibs.contains(cpus[jq]));
        assert(effective_siblings(s, cpus[jq]).to_set() == effective_siblings(s, cpus[i]).to_set());
        lemma_min_member_same_set(effective_siblings(s, cpus[jq]), sibs, Set::full());
        assert(core_key(s, l[q]) == core_key(s, l[m - 1]));
        if q != m - 1 {
            if q < m - 1 {
                assert(core_key(s, l[q]) != core_key(s, l[m - 1]));
            } else {
                assert(core_key(s, l[m - 1]) != core_key(s, l[q]));
            }
        }
        assert(representative(s, r, l.to_set()) == r);
        assert(l.take(m) =~= l.take(m - 1).push(r));
    }
}

/// Without SMT (each CPU its own only sibling), the leaders of a list of
/// distinct CPUs are that list, unchanged.
pub proof fn lemma_no_smt_keeps_input(s: SysfsSnapshot, cpus: Seq<usize>)
    requires
        forall|i: int| 0 <= i < cpus.len() ==> effective_siblings(s, #[trigger] cpus[i]) == seq![cpus[i]],
        no_duplicates(cpus),
    ensures
        spec_physical_leaders(s, cpus) == cpus,
{
    lemma_no_smt_prefix(s, cpus, cpus.len() as int);
    assert(cpus.take(cpus.len() as int) =~= cpus);
}

proof fn lemma_no_smt_prefix(s: SysfsSnapshot, cpus: Seq<usize>, n: int)
    requires
        forall|i: int| 0 <= i < cpus.len() ==> effective_siblings(s, #[trigger] cpus[i]) == seq![cpus[i]],
        no_duplicates(cpus),
        0 <= n <= cpus.len(),
    ensures
        leaders_prefix(s, cpus, n) == cpus.take(n),
    decreases n,
{
    if n > 0 {
        lemma_no_smt_prefix(s, cpus, n - 1);
        let c = cpus[n - 1];
        assert(effective_siblings(s, c) == seq![c]);
        lemma_min_member(seq![c], Set::full());
        lemma_min_member(seq![c], cpus.to_set());
        assert(Set::<usize>::full().contains(c));
        assert(seq![c][0] == c);
        assert(core_key(s, c) == c);
        assert forall|j: int| 0 <= j < n - 1 implies core_key(s, #[trigger] cpus[j]) != core_key(
            s,
            cpus[n - 1],
        ) by {
            assert(effective_siblings(s, cpus[j]) == seq![cpus[j]]);
            lemma_min_member(seq![cpus[j]], Set::full());
            assert(Set::<usize>::full().contains(cpus[j]));
            assert(seq![cpus[j]][0] == cpus[j]);
        }
        assert(cpus.to_set().contains(cpus[n - 1]));
        assert(representative(s, c, cpus.to_set()) == c);
        assert(cpus.take(n) =~= cpus.take(n - 1).push(c));
    }
}


proof fn lemma_prefix_len_monotone(s: SysfsSnapshot, cpus: Seq<usize>, a: int, b: int)
    requires
        0 <= a <= b <= cpus.len(),
    ensures
        leaders_prefix(s, cpus, a).len() <= leaders_prefix(s, cpus, b).len(),
    decreases b - a,
{
    if a < b {
        lemma_prefix_len_monotone(s, cpus, a, b - 1);
    }
}

proof fn lemma_prefix_len_extend(s: SysfsSnapshot, xs: Seq<usize>, ys: Seq<usize>, n: int)
    requires
        0 <= n <= xs.len(),
    ensures
        leaders_prefix(s, xs + ys, n).len() == leaders_prefix(s, xs, n).len(),
    decreases n,
{
    if n > 0 {
        lemma_prefix_len_extend(s, xs, ys, n - 1);
        let zs = xs + ys;
        assert(zs[n - 1] == xs[n - 1]);
        if first_on_core(s, xs, n - 1) {
            assert forall|j: int| 0 <= j < n - 1 implies core_key(s, #[trigger] zs[j]) != core_key(
                s,
                zs[n - 1],
            ) by {
                assert(zs[j] == xs[j]);
                assert(core_key(s, xs[j]) != core_key(s, xs[n - 1]));
            }
        }
        if first_on_core(s, zs, n - 1) {
            assert forall|j: int| 0 <= j < n - 1 implies core_key(s, #[trigger] xs[j]) != core_key(
                s,
                xs[n - 1],
            ) by {
                assert(zs[j] == xs[j]);
                assert(core_key(s, zs[j]) != core_key(s, zs[n - 1]));
            }
        }
    }
}

/// Adding CPUs after a list never loses one of its cores: the leaders of
/// `xs` followed by `ys` are at least as many as those of `xs`.
pub proof fn lemma_leaders_grow_with_input(s: SysfsSnapshot, xs: Seq<usize>, ys: Seq<usize>)
    ensures
        spec_physical_leaders(s, xs).len() <= spec_physical_leaders(s, xs + ys).len(),
{
    lemma_prefix_len_extend(s, xs, ys, xs.len() as int);
    lemma_prefix_len_monotone(s, xs + ys, xs.len() as int, (xs + ys).len() as int);
}


/// The cores of the first `n` CPUs of `cpus`, by key.
pub open spec fn core_keys(s: SysfsSnapshot, cpus: Seq<usize>, n: int) -> Set<usize>
    decreases n,
{
    if n <= 0 {
        Set::empty()
    } else {
        core_keys(s, cpus, n - 1).insert(core_key(s, cpus[n - 1]))
    }
}

proof fn lemma_core_keys(s: SysfsSnapshot, cpus: Seq<usize>, n: int)
    requires
        0 <= n <= cpus.len(),
    ensures
        core_keys(s, cpus, n).finite(),
        forall|k: usize|
            #[trigger] core_keys(s, cpus, n).contains(k) <==> exists|j: int|
                0 <= j < n && core_key(s, #[trigger] cpus[j]) == k,
        leaders_prefix(s, cpus, n).len() == core_keys(s, cpus, n).len(),
    decreases n,
{
    if n > 0 {
        lemma_core_keys(s, cpus, n - 1);
        let prev = core_keys(s, cpus, n - 1);
        let k = core_key(s, cpus[n - 1]);
        assert forall|x: usize| #[trigger] core_keys(s, cpus, n).contains(x) <==> exists|j: int|
            0 <= j < n && core_key(s, #[trigger] cpus[j]) == x by {
            if x == k {
                assert(core_key(s, cpus[n - 1]) == x);
            } else if exists|j: int| 0 <= j < n && core_key(s, #[trigger] cpus[j]) == x {
                let j = choose|j: int| 0 <= j < n && core_key(s, #[trigger] cpus[j]) == x;
                assert(j < n - 1);
            }
        }
        assert(first_on_core(s, cpus, n - 1) == !prev.contains(k)) by {
            if prev.contains(k) {
                let j = choose|j: int| 0 <= j < n - 1 && core_key(s, #[trigger] cpus[j]) == k;
            }
        }
    }
}

/// Leaders of CPUs that all appear in `zs` are never more than those of
/// `zs`: each leader stands for a core, and every core of the first list
/// is a core of the second.
pub proof fn lemma_leaders_count_subset(s: SysfsSnapshot, xs: Seq<usize>, zs: Seq<usize>)
    requires
        forall|j: int| 0 <= j < xs.len() ==> zs.contains(#[trigger] xs[j]),
    ensures
        spec_physical_leaders(s, xs).len() <= spec_physical_leaders(s, zs).len(),
{
    lemma_core_keys(s, xs, xs.len() as int);
    lemma_core_keys(s, zs, zs.len() as int);
    let a = core_keys(s, xs, xs.len() as int);
    let b = core_keys(s, zs, zs.len() as int);
    assert forall|k: usize| a.contains(k) implies b.contains(k) by {
        let j = choose|j: int| 0 <= j < xs.len() && core_key(s, #[trigger] xs[j]) == k;
        assert(zs.contains(xs[j]));
        let i = choose|i: int| 0 <= i < zs.len() && zs[i] == xs[j];
        assert(core_key(s, zs[i]) == k);
    }
    vstd::set_lib::lemma_len_subset(a, b);
}

} // verus!
