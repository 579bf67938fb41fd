//! A run of stored points in arrival order, as the ledger keeps one: the
//! selections and removals that the ledger's operations are made of.
use vstd::prelude::*;
use crate::models::{Stored, Timestamped};

verus! {

/// The points of log `uid` in `s`, newest first.
pub open spec fn newest_first<T: Stored>(s: Seq<T>, uid: i32) -> Seq<T>
    decreases s.len(),
{
    if s.len() == 0 {
        Seq::empty()
    } else if s.last().owner() == uid {
        seq![s.last()] + newest_first(s.drop_last(), uid)
    } else {
        newest_first(s.drop_last(), uid)
    }
}

/// The receipt times of the points of log `uid` in `s`, in arrival order.
pub open spec fn receipt_times<T: Stored>(s: Seq<T>, uid: i32) -> Seq<i32>
    decreases s.len(),
{
    if s.len() == 0 {
        Seq::empty()
    } else if s.last().owner() == uid {
        receipt_times(s.drop_last(), uid).push(s.last().receipt_ts())
    } else {
        receipt_times(s.drop_last(), uid)
    }
}

/// `a` holds copies of the records of `b`, in the same order.
pub open spec fn copies<T: Stored>(a: Seq<T>, b: Seq<T>) -> bool {
    &&& a.len() == b.len()
    &&& forall|i: int|
        0 <= i < a.len() ==> {
            &&& (#[trigger] a[i]).same_as(&b[i])
            &&& a[i].owner() == b[i].owner()
            &&& a[i].receipt_ts() == b[i].receipt_ts()
            &&& a[i].order_ts_spec() == b[i].order_ts_spec()
        }
}

/// Arrival ranks rise along `s`, and stay below `next`.
pub open spec fn arrival_ordered<T: Stored>(s: Seq<T>, next: i32) -> bool {
    &&& forall|i: int, j: int| 0 <= i < j < s.len() ==> s[i].arrival_id() < s[j].arrival_id()
    &&& forall|i: int| 0 <= i < s.len() ==> s[i].arrival_id() < next
}

/// Whether arrival ranks rise along `s` and stay below `next`.
pub fn ordered_below<T: Stored>(s: &Vec<T>, next: i32) -> (r: bool)
    ensures
        r == arrival_ordered(s@, next),
{
    let mut k: usize = 0;
    while k < s.len()
        invariant
            k <= s@.len(),
            forall|i: int, j: int| 0 <= i < j < k ==> s@[i].arrival_id() < s@[j].arrival_id(),
            forall|i: int| 0 <= i < k ==> s@[i].arrival_id() < next,
        decreases s@.len() - k,
    {
        let a = s[k].arrival();
        if a >= next {
            return false;
        }
        if k > 0 && s[k - 1].arrival() >= a {
            return false;
        }
        k = k + 1;
    }
    true
}

/// Keeping some points of a run keeps their order of arrival.
pub proof fn lemma_filter_ordered<T: Stored>(s: Seq<T>, pred: spec_fn(T) -> bool, next: i32)
    requires
        arrival_ordered(s, next),
    ensures
        arrival_ordered(s.filter(pred), next),
    decreases s.len(),
{
    if s.len() > 0 {
        let d = s.drop_last();
        assert(arrival_ordered(d, next));
        lemma_filter_ordered(d, pred, next);
        assert(s =~= d.push(s.last()));
        d.lemma_filter_push(s.last(), pred);
        let f = d.filter(pred);
        assert forall|i: int| 0 <= i < f.len() implies f[i].arrival_id() < s.last().arrival_id() by {
            d.lemma_filter_contains_rev(pred, f[i]);
            assert(f.contains(f[i]));
        }
    }
}

/// Whether a sweep removes `p`: it belongs to one of `owners` and, when a
/// bound is given, came strictly before it.
pub open spec fn removed_by<T: Stored>(p: T, owners: Seq<i32>, before: Option<i32>) -> bool {
    owners.contains(p.owner()) && match before {
        Some(b) => p.receipt_ts() < b,
        None => true,
    }
}

/// Holds of the points that a sweep keeps.
pub open spec fn kept_by<T: Stored>(owners: Seq<i32>, before: Option<i32>) -> spec_fn(T) -> bool {
    |p: T| !removed_by(p, owners, before)
}

/// The points that a sweep keeps.
pub open spec fn survivors<T: Stored>(s: Seq<T>, owners: Seq<i32>, before: Option<i32>) -> Seq<T> {
    s.filter(kept_by(owners, before))
}

/// Copies of the newest points of log `uid`, newest first: at most `limit`
/// of them, all when `limit` is `None`.
pub fn recent<T: Stored>(s: &Vec<T>, uid: i32, limit: Option<usize>) -> (r: Vec<T>)
    ensures
        copies(
            r@,
            match limit {
                Some(n) => if n < newest_first(s@, uid).len() {
                    newest_first(s@, uid).take(n as int)
                } else {
                    newest_first(s@, uid)
                },
                None => newest_first(s@, uid),
            },
        ),
{
    let ghost all = newest_first(s@, uid);
    let mut r: Vec<T> = Vec::new();
    let mut i: usize = s.len();
    let (bounded, cap) = match limit {
        Some(n) => (true, n),
        None => (false, 0),
    };
    assert(s@.subrange(0, i as int) =~= s@);
    assert(all.skip(0) =~= all);
    while i > 0 && (!bounded || r.len() < cap)
        invariant
            bounded == limit is Some,
            limit matches Some(n) ==> cap == n,
            i <= s.len(),
            all == newest_first(s@, uid),
            r@.len() + newest_first(s@.subrange(0, i as int), uid).len() == all.len(),
            copies(r@, all.take(r@.len() as int)),
            all.skip(r@.len() as int) == newest_first(s@.subrange(0, i as int), uid),
            limit matches Some(n) ==> r@.len() <= n,
        decreases i,
    {
        let ghost pre = s@.subrange(0, i as int);
        assert(pre.drop_last() =~= s@.subrange(0, i as int - 1));
        assert(pre.last() == s@[i as int - 1]);
        if s[i - 1].owner_id() == uid {
            let ghost k = r@.len() as int;
            let c = s[i - 1].duplicate();
            r.push(c);
            proof {
                assert(all.skip(k)[0] == s@[i as int - 1]);
                assert(all.skip(k + 1) =~= all.skip(k).drop_first());
                assert(all.skip(k).drop_first() =~= newest_first(s@.subrange(0, i as int - 1), uid));
                assert forall|j: int| 0 <= j < r@.len() implies {
                    &&& (#[trigger] r@[j]).same_as(&all.take(r@.len() as int)[j])
                    &&& r@[j].owner() == all.take(r@.len() as int)[j].owner()
                    &&& r@[j].receipt_ts() == all.take(r@.len() as int)[j].receipt_ts()
                    &&& r@[j].order_ts_spec() == all.take(r@.len() as int)[j].order_ts_spec()
                } by {
                    if j < k {
                        assert(all.take(k)[j] == all.take(k + 1)[j]);
                    } else {
                        assert(all.take(k + 1)[j] == all.skip(k)[0]);
                    }
                }
            }
        }
        i = i - 1;
    }
    proof {
        if let Some(n) = limit {
            if n < all.len() {
                assert(r@.len() == n);
            } else {
                assert(r@.len() == all.len());
                assert(all.take(r@.len() as int) =~= all);
            }
        } else {
            assert(all.take(r@.len() as int) =~= all);
        }
    }
    r
}

/// The receipt times of the points of log `uid`, in arrival order.
pub fn log_receipt_times<T: Stored>(s: &Vec<T>, uid: i32) -> (r: Vec<i32>)
    ensures
        r@ == receipt_times(s@, uid),
{
    let mut r: Vec<i32> = Vec::new();
    let mut i: usize = 0;
    while i < s.len()
        invariant
            i <= s.len(),
            r@ == receipt_times(s@.subrange(0, i as int), uid),
        decreases s.len() - i,
    {
        let ghost pre = s@.subrange(0, i as int + 1);
        assert(pre.drop_last() =~= s@.subrange(0, i as int));
        assert(pre.last() == s@[i as int]);
        if s[i].owner_id() == uid {
            r.push(s[i].receipt_time());
        }
        i = i + 1;
    }
    assert(s@.subrange(0, s.len() as int) =~= s@);
    r
}

/// Whether `x` is one of `v`.
pub fn contains_id(v: &Vec<i32>, x: i32) -> (r: bool)
    ensures
        r == v@.contains(x),
{
    let mut i: usize = 0;
    while i < v.len()
        invariant
            i <= v.len(),
            forall|j: int| 0 <= j < i ==> v@[j] != x,
        decreases v.len() - i,
    {
        if v[i] == x {
            assert(v@[i as int] == x);
            return true;
        }
        i = i + 1;
    }
    false
}

/// Removes the points of the logs `owners` that came before `before` (all
/// of them, when `before` is `None`), keeping the others in order. Returns
/// how many went.
pub fn remove_points<T: Stored>(s: &mut Vec<T>, owners: &Vec<i32>, before: Option<i32>) -> (n: usize)
    ensures
        final(s)@ == survivors(old(s)@, owners@, before),
        n == old(s)@.len() - final(s)@.len(),
{
    let ghost orig = s@;
    let ghost keep = kept_by::<T>(owners@, before);
    let total: usize = s.len();
    let mut i: usize = 0;
    let mut j: usize = 0;
    while j < total
        invariant
            total == orig.len(),
            keep == kept_by::<T>(owners@, before),
            i <= j <= orig.len(),
            s@.len() == i + (orig.len() - j),
            s@.subrange(0, i as int) == orig.subrange(0, j as int).filter(keep),
            s@.subrange(i as int, s@.len() as int) == orig.subrange(j as int, orig.len() as int),
        decreases orig.len() - j,
    {
        proof {
            assert(orig.subrange(0, j as int + 1) =~= orig.subrange(0, j as int).push(orig[j as int]));
            orig.subrange(0, j as int).lemma_filter_push(orig[j as int], keep);
            assert(s@[i as int] == s@.subrange(i as int, s@.len() as int)[0]);
        }
        let owner = s[i].owner_id();
        let at = s[i].receipt_time();
        let gone = contains_id(owners, owner) && match before {
            Some(b) => at < b,
            None => true,
        };
        assert(gone == removed_by(s@[i as int], owners@, before));
        let ghost prev = s@;
        assert(orig.subrange(j as int, orig.len() as int)[0] == orig[j as int]);
        assert(orig[j as int] == s@[i as int]);
        assert(keep(orig[j as int]) == !gone);
        if gone {
            s.remove(i);
            assert(s@.subrange(0, i as int) =~= prev.subrange(0, i as int));
            assert(s@.subrange(i as int, s@.len() as int) =~= prev.subrange(i as int + 1, prev.len() as int));
            assert(orig.subrange(j as int + 1, orig.len() as int) =~= orig.subrange(j as int, orig.len() as int).drop_first());
        } else {
            assert(s@.subrange(0, i as int + 1) =~= prev.subrange(0, i as int).push(prev[i as int]));
            assert(s@.subrange(i as int + 1, s@.len() as int) =~= prev.subrange(i as int, prev.len() as int).drop_first());
            assert(orig.subrange(j as int + 1, orig.len() as int) =~= orig.subrange(j as int, orig.len() as int).drop_first());
            i = i + 1;
        }
        j = j + 1;
    }
    assert(orig.subrange(0, orig.len() as int) =~= orig);
    assert(s@ =~= s@.subrange(0, i as int));
    assert(survivors(orig, owners@, before) == orig.filter(keep));
    total - s.len()
}

} // verus!
