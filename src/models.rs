//! The records kept by the ledger.
//!
//! Angles are held as fixed-point integers in units of 10^-7 degree, and the
//! other measures (altitude in metres, speed, direction, accuracy, battery)
//! in thousandths of their unit.
use vstd::prelude::*;

verus! {

/// Units of 10^-7 degree per degree.
pub const COORD_SCALE: i64 = 10_000_000;

/// Thousandths per unit, for altitude and the other measures.
pub const MEASURE_SCALE: i64 = 1000;

pub open spec fn lat_ok(lat: i64) -> bool {
    -90 * COORD_SCALE <= lat <= 90 * COORD_SCALE
}

pub open spec fn lon_ok(lon: i64) -> bool {
    -180 * COORD_SCALE <= lon <= 180 * COORD_SCALE
}

pub open spec fn altitude_ok(altitude: Option<i64>) -> bool {
    match altitude {
        Some(a) => -500 * MEASURE_SCALE <= a <= 10000 * MEASURE_SCALE,
        None => true,
    }
}

/// A fix as submitted by a client, before the store gives it an id.
#[derive(Clone, Debug)]
pub struct NewInfo {
    pub log_id: i32,
    pub device_timestamp: i32,
    pub server_timestamp: Option<i32>,
    pub lat: i64,
    pub lon: i64,
    pub altitude: Option<i64>,
    pub speed: Option<i64>,
    pub direction: Option<i64>,
    pub accuracy: Option<i64>,
    pub loc_provider: Option<String>,
    pub battery: Option<i64>,
}

impl NewInfo {
    /// The geographic bounds that every stored fix meets.
    pub open spec fn valid(&self) -> bool {
        lat_ok(self.lat) && lon_ok(self.lon) && altitude_ok(self.altitude)
    }

    pub fn is_valid(&self) -> (r: bool)
        ensures
            r == self.valid(),
    {
        if self.lat < -90 * COORD_SCALE || self.lat > 90 * COORD_SCALE {
            return false;
        }
        if self.lon < -180 * COORD_SCALE || self.lon > 180 * COORD_SCALE {
            return false;
        }
        if let Some(alt) = self.altitude {
            if alt < -500 * MEASURE_SCALE || alt > 10000 * MEASURE_SCALE {
                return false;
            }
        }
        true
    }
}

/// A sealed fix as submitted: an opaque payload for one log.
#[derive(Clone, Debug)]
pub struct NewInfoSec {
    pub log_id: i32,
    pub server_timestamp: Option<i32>,
    pub data: Vec<u8>,
}

/// A log: the unit that owns points, with its write token, its public read
/// URL and the time of its last accepted point.
#[derive(Debug)]
pub struct LogInfo {
    pub id: i32,
    pub priv_token: Option<String>,
    pub unique_url: Option<String>,
    pub last_activity: Option<i32>,
}

impl Clone for LogInfo {
    fn clone(&self) -> (r: Self)
        ensures
            r == *self,
    {
        LogInfo {
            id: self.id,
            priv_token: match &self.priv_token {
                Some(t) => Some(t.clone()),
                None => None,
            },
            unique_url: match &self.unique_url {
                Some(u) => Some(u.clone()),
                None => None,
            },
            last_activity: self.last_activity,
        }
    }
}

/// A stored plaintext fix. `id` is its arrival rank in the store.
#[derive(Debug)]
pub struct LogLocationPoint {
    pub log_id: i32,
    pub id: i32,
    pub device_timestamp: i32,
    pub server_timestamp: i32,
    pub lat: i64,
    pub lon: i64,
    pub altitude: Option<i64>,
    pub speed: Option<i64>,
    pub direction: Option<i64>,
    pub accuracy: Option<i64>,
    pub loc_provider: Option<String>,
    pub battery: Option<i64>,
}

impl Clone for LogLocationPoint {
    fn clone(&self) -> (r: Self)
        ensures
            r == *self,
    {
        LogLocationPoint {
            log_id: self.log_id,
            id: self.id,
            device_timestamp: self.device_timestamp,
            server_timestamp: self.server_timestamp,
            lat: self.lat,
            lon: self.lon,
            altitude: self.altitude,
            speed: self.speed,
            direction: self.direction,
            accuracy: self.accuracy,
            loc_provider: match &self.loc_provider {
                Some(p) => Some(p.clone()),
                None => None,
            },
            battery: self.battery,
        }
    }
}

/// A stored sealed fix: the server knows only when it came.
#[derive(Debug)]
pub struct LogLocationPointSec {
    pub log_id: i32,
    pub id: i32,
    pub server_timestamp: i32,
    pub data: Vec<u8>,
}

/// What a sealed fix holds, with its payload as a sequence of bytes.
pub struct SealedRecord {
    pub log_id: i32,
    pub id: i32,
    pub server_timestamp: i32,
    pub data: Seq<u8>,
}

impl View for LogLocationPointSec {
    type V = SealedRecord;

    open spec fn view(&self) -> SealedRecord {
        SealedRecord {
            log_id: self.log_id,
            id: self.id,
            server_timestamp: self.server_timestamp,
            data: self.data@,
        }
    }
}

impl Clone for LogLocationPointSec {
    fn clone(&self) -> (r: Self)
        ensures
            r@ == self@,
    {
        LogLocationPointSec {
            log_id: self.log_id,
            id: self.id,
            server_timestamp: self.server_timestamp,
            data: self.data.clone(),
        }
    }
}

/// A point with the timestamp that orders it within a trip: the device time
/// of a plaintext fix, the receipt time of a sealed one.
pub trait Timestamped {
    spec fn order_ts_spec(&self) -> i32;

    fn order_ts(&self) -> (r: i32)
        ensures
            r == self.order_ts_spec(),
    ;
}

impl Timestamped for LogLocationPoint {
    open spec fn order_ts_spec(&self) -> i32 {
        self.device_timestamp
    }

    fn order_ts(&self) -> (r: i32) {
        self.device_timestamp
    }
}

impl Timestamped for LogLocationPointSec {
    open spec fn order_ts_spec(&self) -> i32 {
        self.server_timestamp
    }

    fn order_ts(&self) -> (r: i32) {
        self.server_timestamp
    }
}

/// A stored point: it belongs to one log, came at a receipt time, and can
/// be copied.
pub trait Stored: Sized + Timestamped {
    spec fn owner(&self) -> i32;

    spec fn receipt_ts(&self) -> i32;

    /// Its rank in the order of arrival.
    spec fn arrival_id(&self) -> i32;

    /// The two hold the same record.
    spec fn same_as(&self, other: &Self) -> bool;

    fn owner_id(&self) -> (r: i32)
        ensures
            r == self.owner(),
    ;

    fn receipt_time(&self) -> (r: i32)
        ensures
            r == self.receipt_ts(),
    ;

    fn arrival(&self) -> (r: i32)
        ensures
            r == self.arrival_id(),
    ;

    fn duplicate(&self) -> (r: Self)
        ensures
            r.same_as(self),
            r.owner() == self.owner(),
            r.receipt_ts() == self.receipt_ts(),
            r.order_ts_spec() == self.order_ts_spec(),
            r.arrival_id() == self.arrival_id(),
    ;
}

impl Stored for LogLocationPoint {
    open spec fn owner(&self) -> i32 {
        self.log_id
    }

    open spec fn receipt_ts(&self) -> i32 {
        self.server_timestamp
    }

    open spec fn arrival_id(&self) -> i32 {
        self.id
    }

    open spec fn same_as(&self, other: &Self) -> bool {
        *self == *other
    }

    fn owner_id(&self) -> (r: i32) {
        self.log_id
    }

    fn receipt_time(&self) -> (r: i32) {
        self.server_timestamp
    }

    fn arrival(&self) -> (r: i32) {
        self.id
    }

    fn duplicate(&self) -> (r: Self) {
        self.clone()
    }
}

impl Stored for LogLocationPointSec {
    open spec fn owner(&self) -> i32 {
        self.log_id
    }

    open spec fn receipt_ts(&self) -> i32 {
        self.server_timestamp
    }

    open spec fn arrival_id(&self) -> i32 {
        self.id
    }

    open spec fn same_as(&self, other: &Self) -> bool {
        self@ == other@
    }

    fn owner_id(&self) -> (r: i32) {
        self.log_id
    }

    fn receipt_time(&self) -> (r: i32) {
        self.server_timestamp
    }

    fn arrival(&self) -> (r: i32) {
        self.id
    }

    fn duplicate(&self) -> (r: Self) {
        self.clone()
    }
}

} // verus!
