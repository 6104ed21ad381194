//! How many threads go to one file's BLAKE3 tree, and how many files are
//! hashed at once.

use vstd::prelude::*;

verus! {

/// `d` divides `n` and lies in `1..=n`.
pub open spec fn is_divisor(d: int, n: int) -> bool {
    1 <= d <= n && n % d == 0
}

/// How far `d` threads per file are from half of `t` threads, doubled so
/// that it stays an integer: `|2d - t|`.
pub open spec fn distance_from_half(d: int, t: int) -> int {
    if 2 * d >= t {
        2 * d - t
    } else {
        t - 2 * d
    }
}

/// `d` is the divisor of `t` nearest to `t / 2`, the smallest one where
/// two are equally near.
pub open spec fn is_nearest_half_divisor(d: int, t: int) -> bool {
    &&& is_divisor(d, t)
    &&& forall|e: int|
        #![trigger is_divisor(e, t)]
        is_divisor(e, t) ==> distance_from_half(d, t) <= distance_from_half(e, t) && (e < d
            ==> distance_from_half(d, t) < distance_from_half(e, t))
}

/// `max(total_threads, 1)`, the thread count that [`optimal_split`] works with.
pub open spec fn thread_budget(total_threads: int) -> int {
    if total_threads <= 0 {
        1
    } else {
        total_threads
    }
}

/// What [`optimal_split`] returns for `total_threads`.
pub open spec fn is_optimal_split(total_threads: int, r: (usize, usize)) -> bool {
    let t = thread_budget(total_threads);
    &&& t <= 4 ==> r == (t as usize, 1usize)
    &&& t > 4 ==> is_nearest_half_divisor(r.0 as int, t) && r.1 == t / (r.0 as int)
}

/// All divisors of `n`, ascending (for `n == 0`, just `1`).
pub fn divisors(n: usize) -> (v: Vec<usize>)
    ensures
        forall|i: int, j: int| 0 <= i < j < v@.len() ==> v@[i] < v@[j],
        forall|i: int| 0 <= i < v@.len() ==> is_divisor(#[trigger] v@[i] as int, n as int) || (n
            == 0 && v@[i] == 1),
        forall|d: int| #[trigger] is_divisor(d, n as int) ==> v@.contains(d as usize),
        n == 0 ==> v@ == seq![1usize],
{
    let m = if n == 0 {
        1
    } else {
        n
    };
    let mut v: Vec<usize> = Vec::new();
    let mut k: usize = 0;
    while k < m
        invariant
            k <= m,
            m == if n == 0 {
                1
            } else {
                n
            },
            forall|i: int, j: int| 0 <= i < j < v@.len() ==> v@[i] < v@[j],
            forall|i: int| 0 <= i < v@.len() ==> 1 <= #[trigger] v@[i] <= k && n % v@[i] == 0,
            forall|e: usize| 1 <= e <= k && n % e == 0 ==> #[trigger] v@.contains(e),
        decreases m - k,
    {
        let d = k + 1;
        if n % d == 0 {
            let ghost old_v = v@;
            v.push(d);
            assert forall|e: usize| 1 <= e <= d && n % e == 0 implies #[trigger] v@.contains(e) by {
                if e < d {
                    assert(old_v.contains(e));
                    let j = choose|j: int| 0 <= j < old_v.len() && old_v[j] == e;
                    assert(v@[j] == e);
                } else {
                    assert(v@[v@.len() - 1] == d);
                }
            }
        }
        k = d;
    }
    proof {
        assert forall|d: int| #[trigger] is_divisor(d, n as int) implies v@.contains(d as usize) by {
            let e = d as usize;
            assert(1 <= e <= k && n % e == 0);
        }
        if n == 0 {
            assert(1 <= 1usize <= k && n % 1usize == 0);
            assert(v@.contains(1usize));
            if v@.len() >= 2 {
                assert(v@[0] < v@[1]);
            }
            assert(v@[0] == 1);
            assert(v@ =~= seq![1usize]);
        }
    }
    v
}

/// Splits `total_threads` into (threads devoted to one file's internal
/// BLAKE3 tree, how many files run concurrently).
///
/// With `t = max(total_threads, 1)`: at most 4 threads are never split
/// across files (`(t, 1)`); above that, the threads per file are the
/// divisor of `t` nearest to `t / 2` (the smaller one on a tie), and the
/// concurrent files are `t` divided by it.
pub fn optimal_split(total_threads: usize) -> (r: (usize, usize))
    ensures
        is_optimal_split(total_threads as int, r),
{
    let total_threads = if total_threads == 0 {
        1
    } else {
        total_threads
    };
    if total_threads <= 4 {
        return (total_threads, 1);
    }
    let divs = divisors(total_threads);
    let t = total_threads as u128;
    assert(divs@.contains(1usize)) by {
        assert(is_divisor(1, total_threads as int));
    }
    let mut best: usize = divs[0];
    let mut best_dist: u128 = if 2 * (best as u128) >= t {
        2 * (best as u128) - t
    } else {
        t - 2 * (best as u128)
    };
    let mut i: usize = 1;
    while i < divs.len()
        invariant
            1 <= i <= divs@.len(),
            t == total_threads as u128,
            total_threads > 4,
            forall|a: int, b: int| 0 <= a < b < divs@.len() ==> divs@[a] < divs@[b],
            forall|a: int|
                0 <= a < divs@.len() ==> is_divisor(#[trigger] divs@[a] as int, total_threads as int),
            is_divisor(best as int, total_threads as int),
            best_dist == distance_from_half(best as int, total_threads as int),
            exists|a: int| 0 <= a < i && divs@[a] == best,
            forall|a: int|
                0 <= a < i ==> distance_from_half(best as int, total_threads as int)
                    <= distance_from_half(#[trigger] divs@[a] as int, total_threads as int),
            forall|a: int|
                0 <= a < i && divs@[a] < best ==> distance_from_half(best as int, total_threads as int)
                    < distance_from_half(#[trigger] divs@[a] as int, total_threads as int),
        decreases divs@.len() - i,
    {
        let d = divs[i];
        let dist: u128 = if 2 * (d as u128) >= t {
            2 * (d as u128) - t
        } else {
            t - 2 * (d as u128)
        };
        if dist < best_dist {
            best = d;
            best_dist = dist;
        }
        i = i + 1;
    }
    proof {
        let tt = total_threads as int;
        assert forall|e: int| #[trigger] is_divisor(e, tt) implies distance_from_half(best as int, tt)
            <= distance_from_half(e, tt) && (e < best ==> distance_from_half(best as int, tt)
            < distance_from_half(e, tt)) by {
            assert(divs@.contains(e as usize));
            let k = choose|k: int| 0 <= k < divs@.len() && divs@[k] == e as usize;
            assert(divs@[k] as int == e);
        }
    }
    let concurrent_files = total_threads / best;
    assert(concurrent_files >= 1) by (nonlinear_arith)
        requires
            1 <= best <= total_threads,
            concurrent_files == total_threads / best,
    ;
    (best, if concurrent_files == 0 {
        1
    } else {
        concurrent_files
    })
}

/// The split is determined by the thread count: two splits that both meet
/// the contract of [`optimal_split`] are the same.
pub proof fn lemma_split_is_unique(total_threads: int, r1: (usize, usize), r2: (usize, usize))
    requires
        is_optimal_split(total_threads, r1),
        is_optimal_split(total_threads, r2),
    ensures
        r1 == r2,
{
    let t = thread_budget(total_threads);
    if t > 4 {
        assert(is_divisor(r1.0 as int, t));
        assert(is_divisor(r2.0 as int, t));
    }
}

/// Every thread is used and none twice: threads per file times concurrent
/// files is exactly `max(total_threads, 1)`, and both are at least 1.
pub proof fn lemma_split_uses_every_thread(total_threads: int, r: (usize, usize))
    requires
        is_optimal_split(total_threads, r),
    ensures
        r.0 as int * r.1 as int == thread_budget(total_threads),
        1 <= r.0 <= thread_budget(total_threads),
        1 <= r.1 <= thread_budget(total_threads),
{
    let t = thread_budget(total_threads);
    if t > 4 {
        let d = r.0 as int;
        assert(d * (t / d) == t && 1 <= t / d <= t) by (nonlinear_arith)
            requires
                1 <= d <= t,
                t % d == 0,
        ;
    }
}

/// Above 4 threads, files are always hashed concurrently: at least two at
/// a time.
pub proof fn lemma_split_above_threshold_splits_files(total_threads: int, r: (usize, usize))
    requires
        is_optimal_split(total_threads, r),
        total_threads > 4,
    ensures
        r.1 >= 2,
{
    let t = total_threads;
    assert(is_divisor(1, t));
    lemma_split_uses_every_thread(total_threads, r);
    if r.1 == 1 {
        assert(r.0 as int == t);
    }
}

/// Above 4 threads, an even thread count is split exactly in half: `t / 2`
/// threads per file, two files at a time.
pub proof fn lemma_split_even_is_half(total_threads: int, r: (usize, usize))
    requires
        is_optimal_split(total_threads, r),
        total_threads > 4,
        total_threads % 2 == 0,
    ensures
        r.0 as int == total_threads / 2,
        r.1 == 2,
{
    let t = total_threads;
    let h = t / 2;
    assert(is_divisor(h, t)) by {
        assert(t == 2 * h);
        assert((2 * h) % h == 0) by (nonlinear_arith)
            requires
                h >= 1,
        ;
    }
    assert(distance_from_half(h, t) == 0);
    assert((2 * h) / h == 2) by (nonlinear_arith)
        requires
            h >= 1,
    ;
}

} // verus!
