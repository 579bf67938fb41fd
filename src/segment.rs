//! Trip segmentation: keeping only the newest contiguous trip of a
//! newest-first run of points.
use vstd::prelude::*;
use crate::models::Timestamped;

verus! {

/// Twelve hours: the gap beyond which two fixes belong to different trips.
pub const TRIP_GAP_SECS: i32 = 12 * 3600;

/// The ordering timestamps of a run of points.
pub open spec fn ts_of<T: Timestamped>(s: Seq<T>) -> Seq<i32> {
    s.map_values(|p: T| p.order_ts_spec())
}

/// `k` is the length of the newest trip of the newest-first timestamps
/// `ts`: the longest prefix in which each point is at most `gap` seconds
/// older than the one before it.
pub open spec fn is_last_trip(ts: Seq<i32>, gap: int, k: nat) -> bool {
    &&& k <= ts.len()
    &&& (ts.len() > 0 ==> k > 0)
    &&& forall|i: int| 0 < i < k ==> ts[i - 1] - #[trigger] ts[i] <= gap
    &&& (k < ts.len() ==> ts[k - 1] - ts[k as int] > gap)
}

/// Keeps the newest trip of `values` (newest first): it stops at the first
/// point that is more than `time_gap_secs` older than the point before it.
pub fn segment<T: Timestamped>(values: Vec<T>, time_gap_secs: i32) -> (r: Vec<T>)
    ensures
        is_last_trip(ts_of(values@), time_gap_secs as int, r.len() as nat),
        r@ == values@.subrange(0, r.len() as int),
{
    let mut values = values;
    let ghost ts = ts_of(values@);
    if values.len() == 0 {
        return values;
    }
    let mut k: usize = 1;
    let mut prev: i32 = values[0].order_ts();
    assert(ts.len() == values.len() && ts[0] == values@[0].order_ts_spec());
    while k < values.len()
        invariant
            ts == ts_of(values@),
            1 <= k <= values.len(),
            prev == ts[k - 1],
            forall|i: int| 0 < i < k ==> ts[i - 1] - #[trigger] ts[i] <= time_gap_secs,
        ensures
            1 <= k <= values.len(),
            forall|i: int| 0 < i < k ==> ts[i - 1] - #[trigger] ts[i] <= time_gap_secs,
            k < values.len() ==> ts[k - 1] - ts[k as int] > time_gap_secs,
        decreases values.len() - k,
    {
        let cur = values[k].order_ts();
        assert(ts[k as int] == values@[k as int].order_ts_spec());
        if prev as i64 - cur as i64 > time_gap_secs as i64 {
            break;
        }
        prev = cur;
        k = k + 1;
    }
    let ghost whole = values@;
    values.truncate(k);
    assert(values@ =~= whole.subrange(0, k as int));
    values
}

} // verus!
