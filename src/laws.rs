//! Properties that hold across the ledger's operations, stated over the
//! models that the operations' contracts use.
use vstd::prelude::*;
use crate::ledger::{take_newest, swept, age_floor};
use crate::models::Stored;
use crate::retention::{
    at_least, candidates, distinct, is_kth_largest, keep_threshold, lemma_kth_largest_exists,
    lemma_kth_largest_unique, lemma_num_at_least_distinct, lemma_num_at_least_filter,
    lemma_num_at_least_min, num_at_least,
};
use crate::series::{arrival_ordered, kept_by, newest_first, receipt_times, survivors};

verus! {

/// Every point that `newest_first` yields is a point of the run, of the log
/// asked for.
pub proof fn lemma_newest_first_members<T: Stored>(s: Seq<T>, uid: i32)
    ensures
        forall|i: int| 0 <= i < newest_first(s, uid).len() ==> {
            &&& s.contains(#[trigger] newest_first(s, uid)[i])
            &&& newest_first(s, uid)[i].owner() == uid
        },
        newest_first(s, uid).len() <= s.len(),
    decreases s.len(),
{
    if s.len() > 0 {
        let d = s.drop_last();
        lemma_newest_first_members(d, uid);
        let nf = newest_first(s, uid);
        assert forall|i: int| 0 <= i < nf.len() implies {
            &&& s.contains(#[trigger] nf[i])
            &&& nf[i].owner() == uid
        } by {
            if s.last().owner() == uid {
                if i == 0 {
                    assert(s[s.len() - 1] == nf[i]);
                } else {
                    assert(nf[i] == newest_first(d, uid)[i - 1]);
                    let k = choose|k: int| 0 <= k < d.len() && d[k] == nf[i];
                    assert(s[k] == nf[i]);
                }
            } else {
                assert(nf[i] == newest_first(d, uid)[i]);
                let k = choose|k: int| 0 <= k < d.len() && d[k] == nf[i];
                assert(s[k] == nf[i]);
            }
        }
    }
}

/// A fix just appended to a log is what a fetch of one fix of that log
/// returns.
pub proof fn lemma_appended_is_newest<T: Stored>(s: Seq<T>, p: T)
    ensures
        take_newest(newest_first(s.push(p), p.owner()), 1) == seq![p],
{
    let all = newest_first(s.push(p), p.owner());
    assert(s.push(p).drop_last() =~= s);
    assert(all == seq![p] + newest_first(s, p.owner()));
    if all.len() > 1 {
        assert(all.take(1) =~= seq![p]);
    } else {
        assert(all =~= seq![p]);
    }
}

/// A fetch of `n` fixes of log `uid` returns `min(n, size)` of them, where
/// `size` is how many fixes the log has (all of them when `n` is negative),
/// all of that log, newest first by arrival id.
pub proof fn lemma_fetch_size_and_order<T: Stored>(s: Seq<T>, uid: i32, n: i64, next: i32)
    requires
        arrival_ordered(s, next),
    ensures
        ({
            let all = newest_first(s, uid);
            let sel = take_newest(all, n);
            &&& sel.len() == if 0 <= n < all.len() { n as int } else { all.len() as int }
            &&& forall|i: int| 0 <= i < sel.len() ==> (#[trigger] sel[i]).owner() == uid
            &&& forall|i: int, j: int| 0 <= i < j < sel.len() ==> sel[i].arrival_id() > sel[j].arrival_id()
        }),
{
    lemma_newest_first_decreasing(s, uid, next);
    lemma_newest_first_members(s, uid);
    let all = newest_first(s, uid);
    let sel = take_newest(all, n);
    assert forall|i: int| 0 <= i < sel.len() implies (#[trigger] sel[i]).owner() == uid by {
        assert(sel[i] == all[i]);
    }
    assert forall|i: int, j: int| 0 <= i < j < sel.len() implies sel[i].arrival_id() > sel[j].arrival_id() by {
        assert(sel[i] == all[i] && sel[j] == all[j]);
    }
}

proof fn lemma_newest_first_decreasing<T: Stored>(s: Seq<T>, uid: i32, next: i32)
    requires
        arrival_ordered(s, next),
    ensures
        forall|i: int, j: int| 0 <= i < j < newest_first(s, uid).len() ==>
            newest_first(s, uid)[i].arrival_id() > newest_first(s, uid)[j].arrival_id(),
    decreases s.len(),
{
    if s.len() > 0 {
        let d = s.drop_last();
        assert(arrival_ordered(d, next));
        lemma_newest_first_decreasing(d, uid, next);
        lemma_newest_first_members(d, uid);
        let nf = newest_first(s, uid);
        let nd = newest_first(d, uid);
        if s.last().owner() == uid {
            assert forall|i: int, j: int| 0 <= i < j < nf.len() implies nf[i].arrival_id() > nf[j].arrival_id() by {
                assert(nf[j] == nd[j - 1]);
                if i == 0 {
                    let k = choose|k: int| 0 <= k < d.len() && d[k] == nd[j - 1];
                    assert(s[k] == d[k]);
                } else {
                    assert(nf[i] == nd[i - 1]);
                }
            }
        }
    }
}

/// What a sweep with threshold `theta` leaves of a log's receipt times: those
/// at least `theta`.
pub proof fn lemma_receipt_times_survivors<T: Stored>(s: Seq<T>, uid: i32, theta: i32)
    ensures
        receipt_times(survivors(s, seq![uid], Some(theta)), uid) == receipt_times(s, uid).filter(
            at_least(theta as int),
        ),
    decreases s.len(),
{
    let keep = kept_by::<T>(seq![uid], Some(theta));
    if s.len() == 0 {
        assert(survivors(s, seq![uid], Some(theta)) =~= Seq::<T>::empty());
        assert(receipt_times(s, uid).filter(at_least(theta as int)) =~= Seq::<i32>::empty());
    } else {
        let d = s.drop_last();
        let x = s.last();
        lemma_receipt_times_survivors(d, uid, theta);
        assert(s =~= d.push(x));
        d.lemma_filter_push(x, keep);
        let fd = d.filter(keep);
        assert(fd.push(x).drop_last() =~= fd);
        assert(seq![uid].contains(x.owner()) <==> x.owner() == uid) by {
            if x.owner() == uid {
                assert(seq![uid][0] == uid);
            }
        }
        let rd = receipt_times(d, uid);
        rd.lemma_filter_push(x.receipt_ts(), at_least(theta as int));
    }
}

/// Keeping twice by the same test keeps the same.
proof fn lemma_filter_twice<A>(s: Seq<A>, p: spec_fn(A) -> bool)
    ensures
        s.filter(p).filter(p) == s.filter(p),
    decreases s.len(),
{
    if s.len() > 0 {
        let d = s.drop_last();
        lemma_filter_twice(d, p);
        assert(s =~= d.push(s.last()));
        d.lemma_filter_push(s.last(), p);
        d.filter(p).lemma_filter_push(s.last(), p);
    } else {
        assert(s.filter(p) =~= Seq::<A>::empty());
        assert(s.filter(p).filter(p) =~= Seq::<A>::empty());
    }
}

/// A retention sweep without an age bound keeps exactly `max_count` fixes
/// of its log (all of them when it has fewer), when the log's receipt times
/// are distinct.
pub proof fn lemma_sweep_keeps_count<T: Stored>(s: Seq<T>, uid: i32, max_count: nat, now: i32)
    requires
        max_count > 0,
        distinct(receipt_times(s, uid)),
    ensures
        ({
            let n = receipt_times(s, uid).len();
            receipt_times(swept(s, uid, max_count, now, None), uid).len() == if max_count < n {
                max_count
            } else {
                n
            }
        }),
{
    let c = receipt_times(s, uid);
    let k = if max_count < c.len() { max_count } else { c.len() };
    assert(candidates(c, age_floor(now, None)) == c);
    if k > 0 {
        lemma_kth_largest_exists(c, k);
        let theta = choose|t: i32| is_kth_largest(c, k, t);
        assert(keep_threshold(c, None, max_count) == Some(theta));
        lemma_receipt_times_survivors(s, uid, theta);
        lemma_num_at_least_filter(c, theta as int, theta as int);
        lemma_num_at_least_distinct(c, theta as int);
    }
}

/// A second retention sweep with the same bounds, at the same time,
/// expires nothing more.
pub proof fn lemma_sweep_idempotent<T: Stored>(
    s: Seq<T>,
    uid: i32,
    max_count: nat,
    now: i32,
    max_age: Option<i32>,
)
    ensures
        swept(swept(s, uid, max_count, now, max_age), uid, max_count, now, max_age) == swept(
            s,
            uid,
            max_count,
            now,
            max_age,
        ),
{
    let floor = age_floor(now, max_age);
    let c = receipt_times(s, uid);
    let cand = candidates(c, floor);
    let k = if max_count < cand.len() { max_count } else { cand.len() };
    if k > 0 {
        lemma_kth_largest_exists(cand, k);
        let theta = choose|t: i32| is_kth_largest(cand, k, t);
        assert(keep_threshold(c, floor, max_count) == Some(theta));
        let s1 = survivors(s, seq![uid], Some(theta));
        lemma_receipt_times_survivors(s, uid, theta);
        let c1 = c.filter(at_least(theta as int));
        let cand1 = candidates(c1, floor);
        // counts from `theta` up agree before and after the sweep
        assert forall|t: int| t >= theta implies num_at_least(cand1, t) == num_at_least(cand, t) by {
            lemma_num_at_least_filter(c, theta as int, t);
            match floor {
                Some(o) => {
                    lemma_num_at_least_filter(c1, o, t);
                    lemma_num_at_least_filter(c, o, t);
                    lemma_num_at_least_filter(c, theta as int, if t > o { t } else { o });
                    lemma_num_at_least_filter(c, o, theta as int + 1);
                    lemma_num_at_least_filter(c, o, i32::MIN as int);
                    lemma_num_at_least_min(cand);
                    if theta < o {
                        assert(num_at_least(cand, theta + 1) == num_at_least(c, o));
                    }
                },
                None => {},
            }
        }
        lemma_num_at_least_min(cand1);
        lemma_num_at_least_min(cand);
        match floor {
            Some(o) => {
                lemma_num_at_least_filter(c1, o, i32::MIN as int);
                lemma_num_at_least_filter(c, theta as int, o);
                lemma_num_at_least_filter(c, o, theta as int);
                lemma_num_at_least_filter(c, o, i32::MIN as int);
                lemma_num_at_least_filter(c, o, theta as int + 1);
                if theta < o {
                    assert(num_at_least(cand, theta + 1) == num_at_least(c, o));
                }
            },
            None => {
                lemma_num_at_least_filter(c, theta as int, i32::MIN as int);
            },
        }
        crate::retention::lemma_num_at_least_bound(cand1, theta as int);
        crate::retention::lemma_num_at_least_mono(cand, i32::MIN as int, theta as int);
        assert(num_at_least(cand, theta as int) >= k);
        assert(cand1.len() == num_at_least(cand, theta as int));
        let k1 = if max_count < cand1.len() { max_count } else { cand1.len() };
        assert(k1 == k);
        assert(is_kth_largest(cand1, k, theta));
        let theta1 = choose|t: i32| is_kth_largest(cand1, k, t);
        lemma_kth_largest_unique(cand1, k, theta, theta1);
        assert(keep_threshold(receipt_times(s1, uid), floor, max_count) == Some(theta));
        lemma_filter_twice(s, kept_by::<T>(seq![uid], Some(theta)));
    }
}

/// A retention sweep with an age bound, over a log with some fix no older
/// than the bound, leaves that log only fixes no older than the bound.
pub proof fn lemma_sweep_age_bound<T: Stored>(s: Seq<T>, uid: i32, max_count: nat, now: i32, max_age: i32)
    requires
        max_count > 0,
        candidates(receipt_times(s, uid), age_floor(now, Some(max_age))).len() > 0,
    ensures
        forall|i: int| 0 <= i < receipt_times(swept(s, uid, max_count, now, Some(max_age)), uid).len()
            ==> #[trigger] receipt_times(swept(s, uid, max_count, now, Some(max_age)), uid)[i] >= now - max_age,
{
    let o = now - max_age;
    let c = receipt_times(s, uid);
    let cand = candidates(c, Some(o));
    let k = if max_count < cand.len() { max_count } else { cand.len() };
    lemma_kth_largest_exists(cand, k);
    let theta = choose|t: i32| is_kth_largest(cand, k, t);
    lemma_receipt_times_survivors(s, uid, theta);
    lemma_num_at_least_filter(c, o, theta as int + 1);
    lemma_num_at_least_filter(c, o, o);
    if theta < o {
        assert(num_at_least(cand, theta + 1) == num_at_least(c, o));
    }
    let r = c.filter(at_least(theta as int));
    assert forall|i: int| 0 <= i < r.len() implies #[trigger] r[i] >= o by {
        c.lemma_filter_pred(at_least(theta as int), i);
    }
}

/// When every entry counts, every entry is at least the bound.
proof fn lemma_num_at_least_full(c: Seq<i32>, t: int)
    requires
        num_at_least(c, t) == c.len(),
    ensures
        forall|i: int| 0 <= i < c.len() ==> c[i] >= t,
    decreases c.len(),
{
    if c.len() > 0 {
        let d = c.drop_last();
        crate::retention::lemma_num_at_least_bound(d, t);
        lemma_num_at_least_full(d, t);
        assert forall|i: int| 0 <= i < c.len() implies c[i] >= t by {
            if i < d.len() {
                assert(c[i] == d[i]);
            }
        }
    }
}

/// The receipt time of each fix of log `uid` is among the log's receipt
/// times.
proof fn lemma_receipt_times_member<T: Stored>(s: Seq<T>, uid: i32, i: int)
    requires
        0 <= i < s.len(),
        s[i].owner() == uid,
    ensures
        receipt_times(s, uid).contains(s[i].receipt_ts()),
    decreases s.len(),
{
    let d = s.drop_last();
    let r = receipt_times(s, uid);
    if i == s.len() - 1 {
        assert(r[r.len() - 1] == s[i].receipt_ts());
    } else {
        assert(s[i] == d[i]);
        lemma_receipt_times_member(d, uid, i);
        let rd = receipt_times(d, uid);
        let k = choose|k: int| 0 <= k < rd.len() && rd[k] == s[i].receipt_ts();
        if s.last().owner() == uid {
            assert(r[k] == rd[k]);
        }
    }
}

/// Keeping by a test that every entry passes keeps everything.
proof fn lemma_filter_all<A>(s: Seq<A>, p: spec_fn(A) -> bool)
    requires
        forall|i: int| 0 <= i < s.len() ==> p(s[i]),
    ensures
        s.filter(p) == s,
    decreases s.len(),
{
    if s.len() > 0 {
        let d = s.drop_last();
        assert forall|i: int| 0 <= i < d.len() implies p(d[i]) by {
            assert(d[i] == s[i]);
        }
        lemma_filter_all(d, p);
        assert(s =~= d.push(s.last()));
        d.lemma_filter_push(s.last(), p);
    } else {
        assert(s.filter(p) =~= s);
    }
}

/// A retention sweep without an age bound never expires a fix of a log that
/// holds no more than `max_count` fixes.
pub proof fn lemma_sweep_spares_small_logs<T: Stored>(s: Seq<T>, uid: i32, max_count: nat, now: i32)
    requires
        receipt_times(s, uid).len() <= max_count,
    ensures
        swept(s, uid, max_count, now, None) == s,
{
    let c = receipt_times(s, uid);
    assert(candidates(c, age_floor(now, None)) == c);
    if c.len() > 0 {
        lemma_kth_largest_exists(c, c.len());
        let theta = choose|t: i32| is_kth_largest(c, c.len(), t);
        assert(keep_threshold(c, None, max_count) == Some(theta));
        crate::retention::lemma_num_at_least_bound(c, theta as int);
        lemma_num_at_least_full(c, theta as int);
        let keep = kept_by::<T>(seq![uid], Some(theta));
        assert forall|i: int| 0 <= i < s.len() implies keep(s[i]) by {
            if s[i].owner() == uid {
                lemma_receipt_times_member(s, uid, i);
            }
        }
        lemma_filter_all(s, keep);
    }
}

} // verus!
