//! The Linux "cpulist" format ("0-3,8,10-11"), with a strict grammar.

use vstd::prelude::*;
use vstd::string::StringSliceAdditionalSpecFns;

verus! {

/// Largest CPU ID the cpulist parser accepts. Linux caps `NR_CPUS` at
/// 8192 on the largest configurations, so valid IDs are 0..=8191. The cap
/// also keeps a malformed range such as "0-999999999999" from asking for
/// a trillion-element vector.
pub const MAX_CPU_ID: usize = 8191;

/// An ASCII decimal digit.
pub open spec fn is_digit(b: u8) -> bool {
    48 <= b <= 57
}

pub open spec fn all_digits(t: Seq<u8>) -> bool {
    forall|i: int| 0 <= i < t.len() ==> is_digit(#[trigger] t[i])
}

/// The value of a string of decimal digits (most significant first).
pub open spec fn decimal_value(t: Seq<u8>) -> nat
    decreases t.len(),
{
    if t.len() == 0 {
        0
    } else {
        decimal_value(t.drop_last()) * 10 + (t.last() - 48) as nat
    }
}

/// `num := [0-9]+` with value at most `MAX_CPU_ID`.
pub open spec fn spec_num(t: Seq<u8>) -> Option<usize> {
    if t.len() > 0 && all_digits(t) && decimal_value(t) <= MAX_CPU_ID {
        Some(decimal_value(t) as usize)
    } else {
        None
    }
}

/// Index of the first `b` in `s`, or `s.len()` when there is none.
pub open spec fn first_index_of(s: Seq<u8>, b: u8) -> int
    decreases s.len(),
{
    if s.len() == 0 {
        0
    } else if s[0] == b {
        0
    } else {
        1 + first_index_of(s.drop_first(), b)
    }
}

/// The IDs `a, a+1, ..., b`.
pub open spec fn id_range(a: usize, b: usize) -> Seq<usize> {
    Seq::new((b - a + 1) as nat, |i: int| (a + i) as usize)
}

/// `term := num | num "-" num` with `low <= high`; the dash is the first one.
pub open spec fn spec_term(t: Seq<u8>) -> Option<Seq<usize>> {
    let k = first_index_of(t, 45);
    if k >= t.len() {
        match spec_num(t) {
            Some(v) => Some(seq![v]),
            None => None,
        }
    } else {
        match (spec_num(t.take(k)), spec_num(t.skip(k + 1))) {
            (Some(a), Some(b)) => if a <= b {
                Some(id_range(a, b))
            } else {
                None
            },
            _ => None,
        }
    }
}

/// `terms := term | term "," terms`, the IDs of all terms in order.
pub open spec fn spec_terms(s: Seq<u8>) -> Option<Seq<usize>>
    decreases s.len(),
{
    let k = first_index_of(s, 44);
    if k >= s.len() {
        spec_term(s)
    } else {
        proof {
            lemma_first_index_bounds(s, 44);
        }
        match spec_term(s.take(k)) {
            None => None,
            Some(v) => match spec_terms(s.skip(k + 1)) {
                Some(r) => Some(v + r),
                None => None,
            },
        }
    }
}

/// `list := "" | term ("," term)* [","]`: one trailing comma is tolerated.
/// Anything else (whitespace, signs, empty terms, values above
/// `MAX_CPU_ID`, a range whose low end exceeds its high end) is rejected.
pub open spec fn spec_cpu_list(s: Seq<u8>) -> Option<Seq<usize>> {
    if s.len() == 0 {
        Some(seq![])
    } else if s.last() == 44 {
        spec_terms(s.drop_last())
    } else {
        spec_terms(s)
    }
}

/// `s` with every trailing line-feed and carriage-return byte removed.
pub open spec fn strip_line_endings(s: Seq<u8>) -> Seq<u8>
    decreases s.len(),
{
    if s.len() > 0 && (s.last() == 10 || s.last() == 13) {
        strip_line_endings(s.drop_last())
    } else {
        s
    }
}

/// What a sysfs cpulist file holding `text` lists: its trailing newlines
/// stripped, then parsed strictly.
pub open spec fn spec_sysfs_list(text: Seq<u8>) -> Option<Seq<usize>> {
    spec_cpu_list(strip_line_endings(text))
}

pub proof fn lemma_first_index_bounds(s: Seq<u8>, b: u8)
    ensures
        0 <= first_index_of(s, b) <= s.len(),
        first_index_of(s, b) < s.len() ==> s[first_index_of(s, b)] == b,
        forall|j: int| 0 <= j < first_index_of(s, b) ==> s[j] != b,
    decreases s.len(),
{
    if s.len() > 0 && s[0] != b {
        lemma_first_index_bounds(s.drop_first(), b);
        assert forall|j: int| 0 <= j < first_index_of(s, b) implies s[j] != b by {
            if j > 0 {
                assert(s[j] == s.drop_first()[j - 1]);
            }
        }
    }
}

/// `xs` holds no ID twice.
pub open spec fn no_duplicates(xs: Seq<usize>) -> bool {
    forall|i: int, j: int| 0 <= i < j < xs.len() ==> xs[i] != xs[j]
}

/// Every ID in `ids` is at most `MAX_CPU_ID`.
pub open spec fn ids_bounded(ids: Seq<usize>) -> bool {
    forall|i: int| 0 <= i < ids.len() ==> #[trigger] ids[i] <= MAX_CPU_ID
}

/// Every ID a cpulist yields is at most `MAX_CPU_ID`.
pub proof fn lemma_cpu_list_bounded(s: Seq<u8>)
    ensures
        spec_cpu_list(s) is Some ==> ids_bounded(spec_cpu_list(s)->0),
{
    if s.len() > 0 {
        if s.last() == 44 {
            lemma_terms_bounded(s.drop_last());
        } else {
            lemma_terms_bounded(s);
        }
    }
}

proof fn lemma_terms_bounded(s: Seq<u8>)
    ensures
        spec_terms(s) is Some ==> ids_bounded(spec_terms(s)->0),
    decreases s.len(),
{
    lemma_first_index_bounds(s, 44);
    let k = first_index_of(s, 44);
    if k < s.len() {
        lemma_terms_bounded(s.skip(k + 1));
        lemma_term_bounded(s.take(k));
        if let Some(v) = spec_terms(s) {
            let a = spec_term(s.take(k))->0;
            let b = spec_terms(s.skip(k + 1))->0;
            assert forall|i: int| 0 <= i < v.len() implies #[trigger] v[i] <= MAX_CPU_ID by {
                if i >= a.len() {
                    assert(v[i] == b[i - a.len()]);
                }
            }
        }
    } else {
        lemma_term_bounded(s);
    }
}

proof fn lemma_term_bounded(t: Seq<u8>)
    ensures
        spec_term(t) is Some ==> ids_bounded(spec_term(t)->0),
{
}

proof fn lemma_first_index_is(s: Seq<u8>, b: u8, k: int)
    requires
        0 <= k <= s.len(),
        k < s.len() ==> s[k] == b,
        forall|j: int| 0 <= j < k ==> s[j] != b,
    ensures
        first_index_of(s, b) == k,
    decreases s.len(),
{
    if s.len() > 0 && k > 0 {
        assert forall|j: int| 0 <= j < k - 1 implies s.drop_first()[j] != b by {
            assert(s[j + 1] != b);
        }
        lemma_first_index_is(s.drop_first(), b, k - 1);
    }
}

proof fn lemma_decimal_grows(t: Seq<u8>, d: u8)
    requires
        is_digit(d),
    ensures
        decimal_value(t.push(d)) == decimal_value(t) * 10 + (d - 48) as nat,
{
    assert(t.push(d).drop_last() =~= t);
}

/// Parses the digits `bytes[lo..hi]` as a `num`.
fn parse_num(bytes: &[u8], lo: usize, hi: usize) -> (r: Option<usize>)
    requires
        lo <= hi <= bytes@.len(),
    ensures
        r == spec_num(bytes@.subrange(lo as int, hi as int)),
{
    if lo == hi {
        return None;
    }
    let mut acc: usize = 0;
    let mut i: usize = lo;
    while i < hi
        invariant
            lo <= i <= hi <= bytes@.len(),
            all_digits(bytes@.subrange(lo as int, i as int)),
            decimal_value(bytes@.subrange(lo as int, i as int)) <= MAX_CPU_ID ==> acc
                == decimal_value(bytes@.subrange(lo as int, i as int)),
            decimal_value(bytes@.subrange(lo as int, i as int)) > MAX_CPU_ID ==> acc
                == MAX_CPU_ID + 1,
        decreases hi - i,
    {
        let b = bytes[i];
        if b < 48 || b > 57 {
            assert(bytes@.subrange(lo as int, hi as int)[i - lo] == b);
            return None;
        }
        proof {
            let t = bytes@.subrange(lo as int, i as int);
            assert(bytes@.subrange(lo as int, i + 1) =~= t.push(b));
            lemma_decimal_grows(t, b);
        }
        if acc > MAX_CPU_ID {
            acc = MAX_CPU_ID + 1;
        } else {
            let v = acc * 10 + (b - 48) as usize;
            acc = if v > MAX_CPU_ID {
                MAX_CPU_ID + 1
            } else {
                v
            };
        }
        i = i + 1;
    }
    if acc <= MAX_CPU_ID {
        Some(acc)
    } else {
        None
    }
}

/// Index of the first `b` in `bytes[lo..hi]`, or `hi`.
fn find_byte(bytes: &[u8], lo: usize, hi: usize, b: u8) -> (k: usize)
    requires
        lo <= hi <= bytes@.len(),
    ensures
        lo <= k <= hi,
        k - lo == first_index_of(bytes@.subrange(lo as int, hi as int), b),
{
    let mut k: usize = lo;
    while k < hi && bytes[k] != b
        invariant
            lo <= k <= hi <= bytes@.len(),
            forall|j: int| lo <= j < k ==> bytes@[j] != b,
        decreases hi - k,
    {
        k = k + 1;
    }
    proof {
        let s = bytes@.subrange(lo as int, hi as int);
        assert forall|j: int| 0 <= j < k - lo implies s[j] != b by {
            assert(s[j] == bytes@[lo + j]);
        }
        lemma_first_index_is(s, b, k - lo);
    }
    k
}

/// Parses the term `bytes[lo..hi]` and appends its IDs to `out`.
fn parse_term(bytes: &[u8], lo: usize, hi: usize, out: &mut Vec<usize>) -> (ok: bool)
    requires
        lo <= hi <= bytes@.len(),
    ensures
        ok == spec_term(bytes@.subrange(lo as int, hi as int)) is Some,
        ok ==> final(out)@ == old(out)@ + spec_term(bytes@.subrange(lo as int, hi as int))->0,
{
    let ghost t = bytes@.subrange(lo as int, hi as int);
    let k = find_byte(bytes, lo, hi, 45);
    if k == hi {
        match parse_num(bytes, lo, hi) {
            Some(v) => {
                out.push(v);
                assert(out@ =~= old(out)@ + seq![v]);
                true
            },
            None => false,
        }
    } else {
        assert(t.take(k - lo) =~= bytes@.subrange(lo as int, k as int));
        assert(t.skip(k - lo + 1) =~= bytes@.subrange(k + 1, hi as int));
        let a = match parse_num(bytes, lo, k) {
            Some(a) => a,
            None => return false,
        };
        let b = match parse_num(bytes, k + 1, hi) {
            Some(b) => b,
            None => return false,
        };
        if b < a {
            return false;
        }
        let mut id: usize = a;
        while id <= b
            invariant
                a <= id <= b + 1,
                b <= MAX_CPU_ID,
                out@ =~= old(out)@ + Seq::new((id - a) as nat, |i: int| (a + i) as usize),
            decreases b + 1 - id,
        {
            out.push(id);
            id = id + 1;
        }
        assert(out@ =~= old(out)@ + id_range(a, b));
        true
    }
}

/// Parses `bytes[lo..hi]` as a cpulist.
fn parse_list(bytes: &[u8], lo: usize, hi: usize) -> (r: Option<Vec<usize>>)
    requires
        lo <= hi <= bytes@.len(),
    ensures
        match r {
            Some(v) => spec_cpu_list(bytes@.subrange(lo as int, hi as int)) == Some(v@),
            None => spec_cpu_list(bytes@.subrange(lo as int, hi as int)) is None,
        },
{
    let ghost whole = bytes@.subrange(lo as int, hi as int);
    if lo == hi {
        return Some(Vec::new());
    }
    let end = if bytes[hi - 1] == 44 {
        hi - 1
    } else {
        hi
    };
    assert(whole.drop_last() =~= bytes@.subrange(lo as int, hi - 1));
    let mut out: Vec<usize> = Vec::new();
    let mut start: usize = lo;
    loop
        invariant
            lo <= start <= end <= hi <= bytes@.len(),
            whole == bytes@.subrange(lo as int, hi as int),
            spec_cpu_list(whole) == match spec_terms(bytes@.subrange(start as int, end as int)) {
                Some(rest) => Some(out@ + rest),
                None => None,
            },
        decreases end - start,
    {
        let ghost s = bytes@.subrange(start as int, end as int);
        let k = find_byte(bytes, start, end, 44);
        if k == end {
            if parse_term(bytes, start, end, &mut out) {
                return Some(out);
            } else {
                return None;
            }
        }
        proof {
            lemma_first_index_bounds(s, 44);
            assert(s.take(k - start) =~= bytes@.subrange(start as int, k as int));
            assert(s.skip(k - start + 1) =~= bytes@.subrange(k + 1, end as int));
        }
        let ghost before = out@;
        if !parse_term(bytes, start, k, &mut out) {
            return None;
        }
        proof {
            let v = spec_term(bytes@.subrange(start as int, k as int))->0;
            match spec_terms(bytes@.subrange(k + 1, end as int)) {
                Some(rest) => {
                    assert(before + (v + rest) =~= out@ + rest);
                },
                None => {},
            }
        }
        start = k + 1;
    }
}

/// Parses a Linux cpulist string ("0-3,8,10-11") into individual CPU IDs,
/// by the strict grammar of [`spec_cpu_list`]: `None` for anything else.
/// The parser never trims; see [`cpu_list_from_sysfs`] for file contents.
pub fn parse_cpu_list(s: &str) -> (r: Option<Vec<usize>>)
    ensures
        match r {
            Some(v) => spec_cpu_list(s.spec_bytes()) == Some(v@),
            None => spec_cpu_list(s.spec_bytes()) is None,
        },
        r matches Some(v) ==> ids_bounded(v@),
{
    proof {
        lemma_cpu_list_bounded(s.spec_bytes());
    }
    let bytes = s.as_bytes();
    assert(bytes@.subrange(0, bytes@.len() as int) =~= bytes@);
    let r = parse_list(bytes, 0, bytes.len());
    proof {
        if r is Some {
            assert(spec_cpu_list(s.spec_bytes()) == Some(r->0@));
        }
    }
    r
}

/// Parses the contents of a sysfs cpulist file: only the trailing
/// newline(s) are stripped, then the strict parser applies.
pub fn cpu_list_from_sysfs(text: &str) -> (r: Option<Vec<usize>>)
    ensures
        match r {
            Some(v) => spec_sysfs_list(text.spec_bytes()) == Some(v@),
            None => spec_sysfs_list(text.spec_bytes()) is None,
        },
        r matches Some(v) ==> ids_bounded(v@),
{
    proof {
        lemma_cpu_list_bounded(strip_line_endings(text.spec_bytes()));
    }
    let bytes = text.as_bytes();
    let mut end: usize = bytes.len();
    assert(bytes@.subrange(0, end as int) =~= bytes@);
    while end > 0 && (bytes[end - 1] == 10 || bytes[end - 1] == 13)
        invariant
            end <= bytes@.len(),
            strip_line_endings(bytes@) == strip_line_endings(bytes@.subrange(0, end as int)),
        decreases end,
    {
        assert(bytes@.subrange(0, end as int).drop_last() =~= bytes@.subrange(0, end - 1));
        end = end - 1;
    }
    assert(strip_line_endings(bytes@.subrange(0, end as int)) == bytes@.subrange(0, end as int));
    let r = parse_list(bytes, 0, end);
    proof {
        if r is Some {
            assert(spec_sysfs_list(text.spec_bytes()) == Some(r->0@));
        }
    }
    r
}


/// Both lists, one after the other, where both are well formed.
pub open spec fn join_lists(a: Option<Seq<usize>>, b: Option<Seq<usize>>) -> Option<Seq<usize>> {
    match (a, b) {
        (Some(x), Some(y)) => Some(x + y),
        _ => None,
    }
}

proof fn lemma_terms_join(a: Seq<u8>, c: Seq<u8>)
    ensures
        spec_terms(a + seq![44u8] + c) == join_lists(spec_terms(a), spec_terms(c)),
    decreases a.len(),
{
    let s = a + seq![44u8] + c;
    lemma_first_index_bounds(a, 44);
    let k = first_index_of(a, 44);
    assert forall|j: int| 0 <= j < a.len() implies s[j] == a[j] by {}
    assert(s[a.len() as int] == 44);
    if k < a.len() {
        lemma_first_index_is(s, 44, k);
        assert(s.take(k) =~= a.take(k));
        assert(s.skip(k + 1) =~= a.skip(k + 1) + seq![44u8] + c);
        lemma_first_index_bounds(a, 44);
        lemma_terms_join(a.skip(k + 1), c);
        if let (Some(v), Some(r), Some(y)) = (
            spec_term(a.take(k)),
            spec_terms(a.skip(k + 1)),
            spec_terms(c),
        ) {
            assert(v + (r + y) =~= (v + r) + y);
        }
    } else {
        lemma_first_index_is(s, 44, a.len() as int);
        assert(s.take(a.len() as int) =~= a);
        assert(s.skip(a.len() as int + 1) =~= c);
    }
}

/// Joining two well-formed cpulists with a comma lists the IDs of both,
/// in order; the join is rejected where either list is. The first list
/// must be non-empty and must not already end in its tolerated trailing
/// comma (",1" and "5,,1" are rejected).
pub proof fn lemma_cpu_list_join(a: Seq<u8>, b: Seq<u8>)
    requires
        a.len() > 0,
        a.last() != 44,
    ensures
        spec_cpu_list(a + seq![44u8] + b) == join_lists(spec_cpu_list(a), spec_cpu_list(b)),
{
    let s = a + seq![44u8] + b;
    if b.len() == 0 {
        assert(s.last() == 44);
        assert(s.drop_last() =~= a);
        if let Some(x) = spec_terms(a) {
            assert(x + Seq::<usize>::empty() =~= x);
        }
    } else {
        assert(s.last() == b.last());
        if b.last() == 44 {
            assert(s.drop_last() =~= a + seq![44u8] + b.drop_last());
            lemma_terms_join(a, b.drop_last());
        } else {
            lemma_terms_join(a, b);
        }
    }
}

} // verus!
