//! What the transport layer hands in and gets back: the request parameters,
//! the records as shown to readers, and the handlers' decisions.
use vstd::prelude::*;
use crate::hexcodec::{decode_hex, hex_decoded, is_hex_text};
use crate::ledger::{
    lemma_found_exists,
    add_info, add_info_sec, find_log, get_last_info, get_last_info_sec, get_log_from_token,
    get_log_from_url, has_log, stored_point, take_newest, token_is, url_is, Ledger,
};
use crate::models::{LogInfo, LogLocationPoint, LogLocationPointSec, NewInfo, NewInfoSec, Stored};
use crate::segment::{is_last_trip, ts_of, TRIP_GAP_SECS};
use crate::series::{copies, newest_first};

verus! {

/// A log as shown to its owner: without its id.
#[derive(Debug)]
pub struct APILogInfo {
    pub priv_token: Option<String>,
    pub unique_url: Option<String>,
    pub last_activity: Option<i32>,
}

impl From<LogInfo> for APILogInfo {
    fn from(item: LogInfo) -> (r: APILogInfo) {
        APILogInfo {
            priv_token: item.priv_token,
            unique_url: item.unique_url,
            last_activity: item.last_activity,
        }
    }
}

impl vstd::std_specs::convert::FromSpecImpl<LogInfo> for APILogInfo {
    open spec fn obeys_from_spec() -> bool {
        true
    }

    open spec fn from_spec(item: LogInfo) -> APILogInfo {
        APILogInfo {
            priv_token: item.priv_token,
            unique_url: item.unique_url,
            last_activity: item.last_activity,
        }
    }
}

/// A plaintext fix as shown to readers.
#[derive(Debug)]
pub struct APILogLocationPoint {
    pub device_timestamp: i32,
    pub server_timestamp: i32,
    pub lat: i64,
    pub lon: i64,
    pub altitude: Option<i64>,
    pub speed: Option<i64>,
    pub direction: Option<i64>,
    pub accuracy: Option<i64>,
    pub loc_provider: Option<String>,
    pub battery: Option<i64>,
}

/// The fix `p` as shown to readers.
pub open spec fn api_point(p: LogLocationPoint) -> APILogLocationPoint {
    APILogLocationPoint {
        device_timestamp: p.device_timestamp,
        server_timestamp: p.server_timestamp,
        lat: p.lat,
        lon: p.lon,
        altitude: p.altitude,
        speed: p.speed,
        direction: p.direction,
        accuracy: p.accuracy,
        loc_provider: p.loc_provider,
        battery: p.battery,
    }
}

impl From<LogLocationPoint> for APILogLocationPoint {
    fn from(item: LogLocationPoint) -> (r: APILogLocationPoint) {
        APILogLocationPoint {
            device_timestamp: item.device_timestamp,
            server_timestamp: item.server_timestamp,
            lat: item.lat,
            lon: item.lon,
            altitude: item.altitude,
            speed: item.speed,
            direction: item.direction,
            accuracy: item.accuracy,
            loc_provider: item.loc_provider,
            battery: item.battery,
        }
    }
}

impl vstd::std_specs::convert::FromSpecImpl<LogLocationPoint> for APILogLocationPoint {
    open spec fn obeys_from_spec() -> bool {
        true
    }

    open spec fn from_spec(item: LogLocationPoint) -> APILogLocationPoint {
        api_point(item)
    }
}

/// A sealed fix as shown to readers.
#[derive(Debug)]
pub struct APILogLocationPointSec {
    pub server_timestamp: i32,
    pub data: Vec<u8>,
}

impl From<LogLocationPointSec> for APILogLocationPointSec {
    fn from(item: LogLocationPointSec) -> (r: APILogLocationPointSec) {
        APILogLocationPointSec { server_timestamp: item.server_timestamp, data: item.data }
    }
}

impl vstd::std_specs::convert::FromSpecImpl<LogLocationPointSec> for APILogLocationPointSec {
    open spec fn obeys_from_spec() -> bool {
        true
    }

    open spec fn from_spec(item: LogLocationPointSec) -> APILogLocationPointSec {
        APILogLocationPointSec { server_timestamp: item.server_timestamp, data: item.data }
    }
}

/// Why a request fails.
#[derive(Clone, Copy, Debug, PartialEq, Eq, Structural)]
pub enum ApiError {
    /// No such log, or nothing to show.
    NotFound,
    /// The fix was refused.
    BadRequest,
}

/// The log a read request names: by id or by public URL, exactly one of
/// the two.
pub open spec fn requested_log(logs: Seq<LogInfo>, uid: Option<i32>, url: Option<String>) -> Option<i32> {
    match (uid, url) {
        (Some(u), None) => Some(u),
        (None, Some(s)) => match find_log(logs, url_is(s@)) {
            Some(l) => Some(l.id),
            None => None,
        },
        _ => None,
    }
}

fn resolve_log(db: &Ledger, uid: Option<i32>, url: Option<String>) -> (r: Option<i32>)
    ensures
        r == requested_log(db.logs(), uid, url),
{
    match (uid, url) {
        (Some(u), None) => Some(u),
        (None, Some(s)) => match get_log_from_url(db, s.as_str()) {
            Some(l) => Some(l.id),
            None => None,
        },
        _ => None,
    }
}

/// What a read request returns from the newest-first fixes `sel` of its
/// log: all of them, or with `cut` the newest trip among them.
pub open spec fn shows<T>(sel: Seq<T>, ts: Seq<i32>, cut: bool, n: nat) -> bool {
    &&& 0 < n <= sel.len()
    &&& if cut {
        is_last_trip(ts, TRIP_GAP_SECS as int, n)
    } else {
        n == sel.len()
    }
}

/// Reads the newest plaintext fixes of a log named by id or by public URL:
/// `count` of them (one by default), with `cut_last_segment` (off by
/// default) only the newest trip among them. `NotFound` when the request
/// names no log, or the log has no fix.
pub fn get_last_location(
    db: &Ledger,
    uid: Option<i32>,
    url: Option<String>,
    count: Option<i64>,
    cut_last_segment: Option<bool>,
) -> (r: Result<Vec<APILogLocationPoint>, ApiError>)
    ensures
        ({
            let cut = match cut_last_segment { Some(c) => c, None => false };
            let n = match count { Some(c) => c, None => 1 };
            match requested_log(db.logs(), uid, url) {
                None => r == Err::<Vec<APILogLocationPoint>, ApiError>(ApiError::NotFound),
                Some(id) => {
                    let sel = take_newest(newest_first(db.points(), id), n);
                    &&& (r is Err <==> sel.len() == 0)
                    &&& (r is Err ==> r == Err::<Vec<APILogLocationPoint>, ApiError>(ApiError::NotFound))
                    &&& (r matches Ok(v) ==> {
                        &&& shows(sel, ts_of(sel), cut, v@.len() as nat)
                        &&& v@ == sel.take(v@.len() as int).map_values(|p: LogLocationPoint| api_point(p))
                    })
                },
            }
        }),
{
    let id = match resolve_log(db, uid, url) {
        Some(i) => i,
        None => {
            return Err(ApiError::NotFound);
        },
    };
    let n: i64 = match count {
        Some(c) => c,
        None => 1,
    };
    let cut: bool = match cut_last_segment {
        Some(c) => c,
        None => false,
    };
    match get_last_info(db, id, n, cut) {
        None => Err(ApiError::NotFound),
        Some(found) => {
            let mut out: Vec<APILogLocationPoint> = Vec::new();
            let mut i: usize = 0;
            while i < found.len()
                invariant
                    i <= found@.len(),
                    out@ == found@.subrange(0, i as int).map_values(|p: LogLocationPoint| api_point(p)),
                decreases found@.len() - i,
            {
                out.push(APILogLocationPoint::from(found[i].clone()));
                assert(found@.subrange(0, i as int + 1) =~= found@.subrange(0, i as int).push(found@[i as int]));
                assert(out@ =~= found@.subrange(0, i as int + 1).map_values(|p: LogLocationPoint| api_point(p)));
                i = i + 1;
            }
            assert(found@.subrange(0, i as int) =~= found@);
            Ok(out)
        },
    }
}

/// `a` shows the sealed fix `p`.
pub open spec fn shows_sealed(a: APILogLocationPointSec, p: LogLocationPointSec) -> bool {
    a.server_timestamp == p.server_timestamp && a.data@ == p.data@
}

/// Reads the newest sealed fixes of a log named by id or by public URL, as
/// `get_last_location` reads plaintext ones; trips are cut by receipt time.
pub fn get_last_location_secure(
    db: &Ledger,
    uid: Option<i32>,
    url: Option<String>,
    count: Option<i64>,
    cut_last_segment: Option<bool>,
) -> (r: Result<Vec<APILogLocationPointSec>, ApiError>)
    ensures
        ({
            let cut = match cut_last_segment { Some(c) => c, None => false };
            let n = match count { Some(c) => c, None => 1 };
            match requested_log(db.logs(), uid, url) {
                None => r == Err::<Vec<APILogLocationPointSec>, ApiError>(ApiError::NotFound),
                Some(id) => {
                    let sel = take_newest(newest_first(db.sealed(), id), n);
                    &&& (r is Err <==> sel.len() == 0)
                    &&& (r is Err ==> r == Err::<Vec<APILogLocationPointSec>, ApiError>(ApiError::NotFound))
                    &&& (r matches Ok(v) ==> {
                        &&& shows(sel, ts_of(sel), cut, v@.len() as nat)
                        &&& forall|i: int| 0 <= i < v@.len() ==> shows_sealed(#[trigger] v@[i], sel[i])
                    })
                },
            }
        }),
{
    let id = match resolve_log(db, uid, url) {
        Some(i) => i,
        None => {
            return Err(ApiError::NotFound);
        },
    };
    let n: i64 = match count {
        Some(c) => c,
        None => 1,
    };
    let cut: bool = match cut_last_segment {
        Some(c) => c,
        None => false,
    };
    match get_last_info_sec(db, id, n, cut) {
        None => Err(ApiError::NotFound),
        Some(found) => {
            let ghost sel = take_newest(newest_first(db.sealed(), id), n);
            let ghost src = if cut { sel.take(found@.len() as int) } else { sel };
            let mut out: Vec<APILogLocationPointSec> = Vec::new();
            let mut i: usize = 0;
            while i < found.len()
                invariant
                    i <= found@.len(),
                    copies(found@, src),
                    out@.len() == i,
                    forall|j: int| 0 <= j < i ==> shows_sealed(#[trigger] out@[j], src[j]),
                decreases found@.len() - i,
            {
                let c = found[i].clone();
                out.push(APILogLocationPointSec::from(c));
                assert(found@[i as int].same_as(&src[i as int]));
                i = i + 1;
            }
            proof {
                assert forall|j: int| 0 <= j < out@.len() implies shows_sealed(#[trigger] out@[j], sel[j]) by {
                    assert(shows_sealed(out@[j], src[j]));
                }
            }
            Ok(out)
        },
    }
}

/// A plaintext fix as a client sends it, with the write token of its log.
#[derive(Debug)]
pub struct SetLastLocParams {
    pub priv_token: String,
    pub device_timestamp: i32,
    pub server_timestamp: Option<i32>,
    pub lat: i64,
    pub lon: i64,
    pub altitude: Option<i64>,
    pub speed: Option<i64>,
    pub direction: Option<i64>,
    pub accuracy: Option<i64>,
    pub loc_provider: Option<String>,
    pub battery: Option<i64>,
}

/// The fix that `p` asks to append to log `log_id`.
pub open spec fn new_info_of(p: SetLastLocParams, log_id: i32) -> NewInfo {
    NewInfo {
        log_id: log_id,
        device_timestamp: p.device_timestamp,
        server_timestamp: p.server_timestamp,
        lat: p.lat,
        lon: p.lon,
        altitude: p.altitude,
        speed: p.speed,
        direction: p.direction,
        accuracy: p.accuracy,
        loc_provider: p.loc_provider,
        battery: p.battery,
    }
}

impl SetLastLocParams {
    /// The fix for the log that the token opens; `None` when it opens none.
    pub fn to_newinfo(&self, db: &Ledger) -> (r: Option<NewInfo>)
        ensures
            match find_log(db.logs(), token_is(self.priv_token@)) {
                Some(l) => r == Some(new_info_of(*self, l.id)),
                None => r is None,
            },
    {
        match get_log_from_token(db, self.priv_token.as_str()) {
            Some(uinfo) => Some(NewInfo {
                log_id: uinfo.id,
                device_timestamp: self.device_timestamp,
                server_timestamp: self.server_timestamp,
                lat: self.lat,
                lon: self.lon,
                altitude: self.altitude,
                speed: self.speed,
                direction: self.direction,
                accuracy: self.accuracy,
                loc_provider: match &self.loc_provider {
                    Some(p) => Some(p.clone()),
                    None => None,
                },
                battery: self.battery,
            }),
            None => None,
        }
    }
}

/// Appends the fix a client sends, received at `now`, to the log its token
/// opens. `NotFound` when the token opens no log; `BadRequest`, changing
/// nothing, when the store refuses the fix.
pub fn set_last_location(db: &mut Ledger, new_info: SetLastLocParams, now: i32) -> (r: Result<LogLocationPoint, ApiError>)
    requires
        old(db).wf(),
    ensures
        final(db).wf(),
        r is Err ==> *final(db) == *old(db),
        match find_log(old(db).logs(), token_is(new_info.priv_token@)) {
            None => r == Err::<LogLocationPoint, ApiError>(ApiError::NotFound),
            Some(l) => {
                let n = NewInfo { server_timestamp: Some(now), ..new_info_of(new_info, l.id) };
                &&& (r is Ok <==> n.valid() && has_log(old(db).logs(), l.id) && old(db).point_ids_left())
                &&& (r is Err ==> r == Err::<LogLocationPoint, ApiError>(ApiError::BadRequest))
                &&& (r matches Ok(p) ==> p == stored_point(n, p.id, now) && final(db).points() == old(db).points().push(p))
            },
        },
{
    let pinfo = new_info.to_newinfo(db);
    let mut pinfo = match pinfo {
        Some(p) => p,
        None => {
            return Err(ApiError::NotFound);
        },
    };
    pinfo.server_timestamp = Some(now);
    proof {
        if let Some(l) = find_log(old(db).logs(), token_is(new_info.priv_token@)) {
            lemma_found_exists(old(db).logs(), token_is(new_info.priv_token@));
        }
    }
    match add_info(db, pinfo) {
        Ok(p) => Ok(p),
        Err(_) => Err(ApiError::BadRequest),
    }
}

/// A sealed fix as a client sends it: hex text, with the write token of its
/// log.
#[derive(Debug)]
pub struct SetLastLocSecParams {
    pub priv_token: String,
    pub data: String,
}

impl SetLastLocSecParams {
    /// The sealed fix for the log that the token opens, with its hex text
    /// decoded; `None` when the text is not hex or the token opens no log.
    pub fn to_newinfo(&self, db: &Ledger) -> (r: Option<NewInfoSec>)
        ensures
            !is_hex_text(self.data@) ==> r is None,
            is_hex_text(self.data@) ==> match find_log(db.logs(), token_is(self.priv_token@)) {
                Some(l) => r matches Some(n) && n.log_id == l.id && n.server_timestamp is None
                    && n.data@ == hex_decoded(self.data@),
                None => r is None,
            },
    {
        match decode_hex(self.data.as_str()) {
            Ok(byte_data) => match get_log_from_token(db, self.priv_token.as_str()) {
                Some(uinfo) => Some(NewInfoSec { log_id: uinfo.id, server_timestamp: None, data: byte_data }),
                None => None,
            },
            Err(_) => None,
        }
    }
}

/// Appends the sealed fix a client sends, received at `now`, to the log its
/// token opens. `NotFound`, changing nothing, when the text is not hex, the
/// token opens no log, or the store refuses the fix.
pub fn set_last_location_secure(db: &mut Ledger, new_info: SetLastLocSecParams, now: i32) -> (r: Result<(), ApiError>)
    requires
        old(db).wf(),
    ensures
        final(db).wf(),
        r is Err ==> r == Err::<(), ApiError>(ApiError::NotFound) && *final(db) == *old(db),
        r is Ok <==> is_hex_text(new_info.data@) && crate::sealed::sealed_fits(hex_decoded(new_info.data@))
            && find_log(old(db).logs(), token_is(new_info.priv_token@)) is Some
            && old(db).sealed_ids_left(),
        r is Ok ==> {
            &&& final(db).sealed().drop_last() == old(db).sealed()
            &&& final(db).sealed().last().data@ == hex_decoded(new_info.data@)
            &&& final(db).sealed().last().server_timestamp == now
            &&& final(db).sealed().last().log_id == find_log(old(db).logs(), token_is(new_info.priv_token@))->0.id
            &&& final(db).points() == old(db).points()
        },
{
    let pinfo = new_info.to_newinfo(db);
    let mut pinfo = match pinfo {
        Some(p) => p,
        None => {
            return Err(ApiError::NotFound);
        },
    };
    proof {
        let l = find_log(old(db).logs(), token_is(new_info.priv_token@))->0;
        lemma_found_exists(old(db).logs(), token_is(new_info.priv_token@));
    }
    pinfo.server_timestamp = Some(now);
    match add_info_sec(db, pinfo) {
        Ok(()) => Ok(()),
        Err(_) => Err(ApiError::NotFound),
    }
}

} // verus!
