//! Retention: which points a sweep keeps.
//!
//! A sweep over one ledger looks at the server timestamps of its points. The
//! candidates are those no older than the age bound, if one is given. The
//! keep threshold is the `max_count`-th newest candidate timestamp (the
//! oldest candidate when there are fewer), and every point strictly older
//! than it is expired. Ties at the threshold are all kept.
use vstd::prelude::*;

verus! {

/// Number of entries of `s` that are at least `t`.
pub open spec fn num_at_least(s: Seq<i32>, t: int) -> nat
    decreases s.len(),
{
    if s.len() == 0 {
        0
    } else {
        num_at_least(s.drop_last(), t) + if s.last() >= t { 1nat } else { 0nat }
    }
}

/// Holds of the timestamps no older than `o`.
pub open spec fn at_least(o: int) -> spec_fn(i32) -> bool {
    |t: i32| t >= o
}

/// The timestamps that the age bound admits as candidates for keeping.
pub open spec fn candidates(ts: Seq<i32>, oldest: Option<int>) -> Seq<i32> {
    match oldest {
        Some(o) => ts.filter(at_least(o)),
        None => ts,
    }
}

/// `theta` is the `k`-th largest entry of `c` (counting repeats).
pub open spec fn is_kth_largest(c: Seq<i32>, k: nat, theta: i32) -> bool {
    num_at_least(c, theta as int) >= k && num_at_least(c, theta + 1) < k
}

/// The keep threshold of a sweep: `None` when there is nothing to keep by,
/// that is when no candidate remains or `max_count` is zero.
pub open spec fn threshold_spec(ts: Seq<i32>, oldest: Option<int>, max_count: nat, r: Option<i32>) -> bool {
    let c = candidates(ts, oldest);
    let k = if max_count < c.len() { max_count } else { c.len() };
    match r {
        None => k == 0,
        Some(theta) => k > 0 && is_kth_largest(c, k, theta),
    }
}

/// An optional bound, as an integer.
pub open spec fn opt_int(o: Option<i64>) -> Option<int> {
    match o {
        Some(v) => Some(v as int),
        None => None,
    }
}

/// The keep threshold of a sweep over the receipt times `ts` of one log, with
/// candidates no older than `oldest`: the `max_count`-th newest candidate, or
/// the oldest candidate when there are fewer; `None` when there is no
/// candidate or `max_count` is zero.
pub open spec fn keep_threshold(ts: Seq<i32>, oldest: Option<int>, max_count: nat) -> Option<i32> {
    let c = candidates(ts, oldest);
    let k = if max_count < c.len() { max_count } else { c.len() };
    if k == 0 {
        None
    } else {
        Some(choose|t: i32| is_kth_largest(c, k, t))
    }
}

/// Counting from a lower bound counts at least as many entries.
pub proof fn lemma_num_at_least_mono(s: Seq<i32>, a: int, b: int)
    requires
        a <= b,
    ensures
        num_at_least(s, a) >= num_at_least(s, b),
    decreases s.len(),
{
    if s.len() > 0 {
        lemma_num_at_least_mono(s.drop_last(), a, b);
    }
}

/// There is one `k`-th largest entry.
pub proof fn lemma_kth_largest_unique(c: Seq<i32>, k: nat, a: i32, b: i32)
    requires
        is_kth_largest(c, k, a),
    ensures
        is_kth_largest(c, k, b) ==> a == b,
{
    if is_kth_largest(c, k, b) {
        if a < b {
            lemma_num_at_least_mono(c, a + 1, b as int);
        } else if b < a {
            lemma_num_at_least_mono(c, b + 1, a as int);
        }
    }
}

pub proof fn lemma_num_at_least_bound(s: Seq<i32>, t: int)
    ensures
        num_at_least(s, t) <= s.len(),
    decreases s.len(),
{
    if s.len() > 0 {
        lemma_num_at_least_bound(s.drop_last(), t);
    }
}

/// Two bounds that no entry of `s` falls between count the same entries.
proof fn lemma_num_at_least_agree(s: Seq<i32>, a: int, b: int)
    requires
        forall|i: int| 0 <= i < s.len() ==> (s[i] >= a <==> s[i] >= b),
    ensures
        num_at_least(s, a) == num_at_least(s, b),
    decreases s.len(),
{
    if s.len() > 0 {
        assert forall|i: int| 0 <= i < s.drop_last().len() implies (s.drop_last()[i] >= a
            <==> s.drop_last()[i] >= b) by {
            assert(s.drop_last()[i] == s[i]);
        }
        lemma_num_at_least_agree(s.drop_last(), a, b);
    }
}

/// When every entry is at least `t`, all of them count.
pub proof fn lemma_num_at_least_all(s: Seq<i32>, t: int)
    requires
        forall|i: int| 0 <= i < s.len() ==> s[i] >= t,
    ensures
        num_at_least(s, t) == s.len(),
    decreases s.len(),
{
    if s.len() > 0 {
        lemma_num_at_least_all(s.drop_last(), t);
    }
}

/// When no entry reaches `t`, none counts.
pub proof fn lemma_num_at_least_none(s: Seq<i32>, t: int)
    requires
        forall|i: int| 0 <= i < s.len() ==> s[i] < t,
    ensures
        num_at_least(s, t) == 0,
    decreases s.len(),
{
    if s.len() > 0 {
        lemma_num_at_least_none(s.drop_last(), t);
    }
}

/// Some entry of `c` is its `k`-th largest, for `k` from one to its length.
pub proof fn lemma_kth_largest_exists(c: Seq<i32>, k: nat)
    requires
        0 < k <= c.len(),
    ensures
        exists|t: i32| is_kth_largest(c, k, t),
{
    lemma_num_at_least_none(c, i32::MAX + 1);
    lemma_kth_exists_from(c, k, i32::MAX as int);
}

proof fn lemma_kth_exists_from(c: Seq<i32>, k: nat, cur: int)
    requires
        0 < k <= c.len(),
        i32::MIN <= cur <= i32::MAX,
        num_at_least(c, cur + 1) < k,
    ensures
        exists|t: i32| is_kth_largest(c, k, t),
    decreases cur - i32::MIN,
{
    if num_at_least(c, cur) >= k {
        assert(is_kth_largest(c, k, cur as i32));
    } else if cur == i32::MIN {
        lemma_num_at_least_all(c, cur);
    } else {
        lemma_kth_exists_from(c, k, cur - 1);
    }
}

/// Keeping the entries at least `o` keeps, of those at least `t`, the ones
/// at least both.
pub proof fn lemma_num_at_least_filter(c: Seq<i32>, o: int, t: int)
    ensures
        num_at_least(c.filter(at_least(o)), t) == num_at_least(c, if t > o { t } else { o }),
        c.filter(at_least(o)).len() == num_at_least(c, o),
    decreases c.len(),
{
    if c.len() > 0 {
        let d = c.drop_last();
        lemma_num_at_least_filter(d, o, t);
        assert(c =~= d.push(c.last()));
        d.lemma_filter_push(c.last(), at_least(o));
        let f = d.filter(at_least(o));
        assert(f.push(c.last()).drop_last() =~= f);
    }
}

/// The count from the lowest value is the length.
pub proof fn lemma_num_at_least_min(c: Seq<i32>)
    ensures
        num_at_least(c, i32::MIN as int) == c.len(),
{
    lemma_num_at_least_all(c, i32::MIN as int);
}

/// No two entries are equal.
pub open spec fn distinct(c: Seq<i32>) -> bool {
    forall|i: int, j: int| 0 <= i < j < c.len() ==> c[i] != c[j]
}

/// With distinct entries, at most one is exactly `t`.
pub proof fn lemma_num_at_least_distinct(c: Seq<i32>, t: int)
    requires
        distinct(c),
    ensures
        num_at_least(c, t) <= num_at_least(c, t + 1) + 1,
        !c.contains(t as i32) && i32::MIN <= t <= i32::MAX ==> num_at_least(c, t) == num_at_least(c, t + 1),
    decreases c.len(),
{
    if c.len() > 0 {
        let d = c.drop_last();
        assert(distinct(d));
        lemma_num_at_least_distinct(d, t);
        if c.last() == t {
            assert forall|k: int| 0 <= k < d.len() implies d[k] != t by {
                assert(c[k] != c[c.len() - 1]);
            }
            lemma_num_at_least_distinct_absent(d, t);
        } else if i32::MIN <= t <= i32::MAX && !c.contains(t as i32) {
            assert forall|k: int| 0 <= k < d.len() implies d[k] != t by {
                assert(c[k] == d[k]);
            }
            lemma_num_at_least_distinct_absent(d, t);
        }
    }
}

proof fn lemma_num_at_least_distinct_absent(c: Seq<i32>, t: int)
    requires
        forall|k: int| 0 <= k < c.len() ==> c[k] != t,
    ensures
        num_at_least(c, t) == num_at_least(c, t + 1),
    decreases c.len(),
{
    if c.len() > 0 {
        lemma_num_at_least_distinct_absent(c.drop_last(), t);
    }
}

/// Counts the entries of `c` that are at least `t`.
fn count_at_least(c: &Vec<i32>, t: i32) -> (r: usize)
    ensures
        r == num_at_least(c@, t as int),
{
    let mut n: usize = 0;
    let mut i: usize = 0;
    while i < c.len()
        invariant
            i <= c.len(),
            n == num_at_least(c@.subrange(0, i as int), t as int),
        decreases c.len() - i,
    {
        proof {
            let s = c@.subrange(0, i as int + 1);
            assert(s.drop_last() =~= c@.subrange(0, i as int));
            lemma_num_at_least_bound(c@.subrange(0, i as int), t as int);
        }
        if c[i] >= t {
            n = n + 1;
        }
        i = i + 1;
    }
    assert(c@.subrange(0, c.len() as int) =~= c@);
    n
}

/// The largest entry of `c` below `bound` (below nothing, when `bound` is
/// `None`).
fn max_below(c: &Vec<i32>, bound: Option<i32>) -> (r: Option<i32>)
    ensures
        r is Some ==> c@.contains(r->0),
        r is Some && bound is Some ==> r->0 < bound->0,
        r is Some ==> forall|i: int|
            0 <= i < c.len() && (bound is Some ==> c[i] < bound->0) ==> c[i] <= r->0,
        r is None ==> forall|i: int| #![trigger c[i]] 0 <= i < c.len() ==> (bound is Some && c[i] >= bound->0),
{
    let mut best: Option<i32> = None;
    let mut i: usize = 0;
    while i < c.len()
        invariant
            i <= c.len(),
            best is Some ==> c@.contains(best->0),
            best is Some && bound is Some ==> best->0 < bound->0,
            best is Some ==> forall|j: int|
                0 <= j < i && (bound is Some ==> c[j] < bound->0) ==> c[j] <= best->0,
            best is None ==> (i == 0 || bound is Some),
            best is None ==> forall|j: int| #![trigger c[j]] 0 <= j < i ==> (bound is Some && c[j] >= bound->0),
        decreases c.len() - i,
    {
        let x = c[i];
        let admitted = match bound {
            Some(b) => x < b,
            None => true,
        };
        if admitted {
            match best {
                Some(y) => {
                    if x > y {
                        best = Some(x);
                    }
                },
                None => {
                    best = Some(x);
                },
            }
        }
        proof {
            if best is Some {
                assert(c@[i as int] == x);
            }
        }
        i = i + 1;
    }
    best
}

/// The keep threshold among the candidate timestamps `c`: the
/// `k`-th largest of them.
fn kth_largest(c: &Vec<i32>, k: usize) -> (theta: i32)
    requires
        0 < k <= c.len(),
    ensures
        is_kth_largest(c@, k as nat, theta),
{
    let first = max_below(c, None);
    let mut cur: i32 = match first {
        Some(y) => y,
        None => c[0],
    };
    proof {
        lemma_num_at_least_none(c@, cur + 1);
    }
    while count_at_least(c, cur) < k
        invariant
            0 < k <= c.len(),
            num_at_least(c@, cur + 1) < k,
        decreases cur - i32::MIN,
    {
        let below = max_below(c, Some(cur));
        match below {
            Some(y) => {
                proof {
                    assert forall|i: int| 0 <= i < c.len() implies (c[i] >= y + 1 <==> c[i]
                        >= cur) by {}
                    lemma_num_at_least_agree(c@, y + 1, cur as int);
                }
                cur = y;
            },
            None => {
                // every candidate is at least `cur`, so all of them count
                proof {
                    lemma_num_at_least_all(c@, cur as int);
                    assert(false);
                }
            },
        }
    }
    cur
}

/// The timestamps of `ts` that are at least `oldest`, in their order.
fn admitted(ts: &Vec<i32>, oldest: Option<i64>) -> (c: Vec<i32>)
    ensures
        c@ == candidates(ts@, opt_int(oldest)),
{
    match oldest {
        None => ts.clone(),
        Some(o) => {
            let mut c: Vec<i32> = Vec::new();
            let mut i: usize = 0;
            while i < ts.len()
                invariant
                    i <= ts.len(),
                    c@ == ts@.subrange(0, i as int).filter(at_least(o as int)),
                decreases ts.len() - i,
            {
                proof {
                    let s = ts@.subrange(0, i as int);
                    assert(ts@.subrange(0, i as int + 1) =~= s.push(ts@[i as int]));
                    s.lemma_filter_push(ts@[i as int], at_least(o as int));
                }
                if ts[i] as i64 >= o {
                    c.push(ts[i]);
                }
                i = i + 1;
            }
            assert(ts@.subrange(0, ts.len() as int) =~= ts@);
            c
        },
    }
}

/// The keep threshold of a sweep over the server timestamps `ts` of one
/// ledger: the `max_count`-th newest timestamp among those at least
/// `oldest` (all of them when `oldest` is `None`), or the oldest of those
/// when there are fewer. `None` when no timestamp qualifies or `max_count`
/// is zero: such a sweep expires nothing.
pub fn retention_threshold(ts: &Vec<i32>, max_count: usize, oldest: Option<i64>) -> (r: Option<i32>)
    ensures
        threshold_spec(ts@, opt_int(oldest), max_count as nat, r),
        r == keep_threshold(ts@, opt_int(oldest), max_count as nat),
{
    let c = admitted(ts, oldest);
    let k: usize = if max_count < c.len() { max_count } else { c.len() };
    if k == 0 {
        None
    } else {
        let theta = kth_largest(&c, k);
        proof {
            lemma_kth_largest_unique(c@, k as nat, theta, choose|t: i32| is_kth_largest(c@, k as nat, t));
        }
        Some(theta)
    }
}

} // verus!
