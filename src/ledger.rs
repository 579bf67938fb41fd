//! The ledger: logs, and for each log an append-only run of plaintext fixes
//! and one of sealed fixes, in order of arrival.
use vstd::prelude::*;
use crate::models::{LogInfo, LogLocationPoint, LogLocationPointSec, NewInfo, NewInfoSec, Stored, Timestamped};
use crate::series::{
    arrival_ordered, lemma_filter_ordered, newest_first, receipt_times, survivors, copies,
    recent, log_receipt_times, remove_points,
};
use crate::retention::{retention_threshold, keep_threshold, opt_int};
use crate::segment::{segment, is_last_trip, ts_of, TRIP_GAP_SECS};
use crate::sealed::{MAX_SEALED_LEN, sealed_fits};
use rand::Rng;

verus! {

/// What can go wrong in a ledger operation.
#[derive(Clone, Copy, Debug, PartialEq, Eq, Structural)]
pub enum Error {
    /// The store refused a change that would break one of its constraints.
    DatabaseError,
    /// Nothing matched.
    NotFound,
    /// The log does not exist.
    LogNotFound,
    /// The fix is out of bounds, or the sealed payload too large.
    ValidationError,
    /// Anything else, such as a fix without a receipt time.
    Undefined,
}

/// The optional text of a log field, as characters.
pub open spec fn opt_chars(o: Option<String>) -> Option<Seq<char>> {
    match o {
        Some(s) => Some(s@),
        None => None,
    }
}

/// Holds of the logs with id `id`.
pub open spec fn id_is(id: i32) -> spec_fn(LogInfo) -> bool {
    |l: LogInfo| l.id == id
}

/// Holds of the logs whose public URL is `url`.
pub open spec fn url_is(url: Seq<char>) -> spec_fn(LogInfo) -> bool {
    |l: LogInfo| opt_chars(l.unique_url) == Some(url)
}

/// Holds of the logs whose private token is `token`.
pub open spec fn token_is(token: Seq<char>) -> spec_fn(LogInfo) -> bool {
    |l: LogInfo| opt_chars(l.priv_token) == Some(token)
}

/// `i` is the first log that `pred` holds of.
pub open spec fn is_first(logs: Seq<LogInfo>, i: int, pred: spec_fn(LogInfo) -> bool) -> bool {
    &&& 0 <= i < logs.len()
    &&& pred(logs[i])
    &&& forall|j: int| 0 <= j < i ==> !pred(#[trigger] logs[j])
}

/// The first log that `pred` holds of, if any.
pub open spec fn find_log(logs: Seq<LogInfo>, pred: spec_fn(LogInfo) -> bool) -> Option<LogInfo> {
    if exists|i: int| is_first(logs, i, pred) {
        Some(logs[choose|i: int| is_first(logs, i, pred)])
    } else {
        None
    }
}

proof fn lemma_first_unique(logs: Seq<LogInfo>, i: int, pred: spec_fn(LogInfo) -> bool)
    requires
        is_first(logs, i, pred),
    ensures
        find_log(logs, pred) == Some(logs[i]),
{
    let k = choose|k: int| is_first(logs, k, pred);
    assert(is_first(logs, k, pred));
    if k < i {
        assert(!pred(logs[k]));
    } else if k > i {
        assert(!pred(logs[i]));
    }
}

/// A log that a search finds is one of the logs.
pub proof fn lemma_found_exists(logs: Seq<LogInfo>, pred: spec_fn(LogInfo) -> bool)
    ensures
        find_log(logs, pred) matches Some(l) ==> has_log(logs, l.id) && pred(l),
{
    if exists|i: int| is_first(logs, i, pred) {
        let k = choose|k: int| is_first(logs, k, pred);
        assert(logs[k].id == logs[k].id);
    }
}

proof fn lemma_none_found(logs: Seq<LogInfo>, pred: spec_fn(LogInfo) -> bool)
    requires
        forall|j: int| 0 <= j < logs.len() ==> !pred(#[trigger] logs[j]),
    ensures
        find_log(logs, pred) is None,
{
    if exists|i: int| is_first(logs, i, pred) {
        let k = choose|k: int| is_first(logs, k, pred);
        assert(pred(logs[k]));
    }
}

/// Length of a private token.
pub const TOKEN_LEN: usize = 30;

/// An ASCII letter or digit.
pub open spec fn is_alnum(c: char) -> bool {
    ('a' <= c <= 'z') || ('A' <= c <= 'Z') || ('0' <= c <= '9')
}

/// Relies on rand's thread_rng sampled through
/// rand::distributions::Alphanumeric: `n` characters, each an ASCII letter
/// or digit.
#[verifier::external_body]
fn random_alphanumeric(n: usize) -> (r: String)
    ensures
        r@.len() == n,
        forall|i: int| 0 <= i < r@.len() ==> is_alnum(#[trigger] r@[i]),
{
    rand::thread_rng().sample_iter(&rand::distributions::Alphanumeric).take(n).map(char::from).collect()
}

/// A change to the logs that carry one id.
enum LogChange {
    Url(String),
    Token(String),
    Activity(i32),
}

/// A change to a log, with text as characters.
pub enum Edit {
    Url(Seq<char>),
    Token(Seq<char>),
    Activity(i32),
}

impl LogChange {
    spec fn edit(&self) -> Edit {
        match self {
            LogChange::Url(u) => Edit::Url(u@),
            LogChange::Token(t) => Edit::Token(t@),
            LogChange::Activity(ts) => Edit::Activity(*ts),
        }
    }
}

/// `new` is `old` with `change` made.
pub open spec fn changed(old: LogInfo, new: LogInfo, change: Edit) -> bool {
    &&& new.id == old.id
    &&& match change {
        Edit::Url(u) => {
            &&& opt_chars(new.unique_url) == Some(u)
            &&& new.priv_token == old.priv_token
            &&& new.last_activity == old.last_activity
        },
        Edit::Token(t) => {
            &&& opt_chars(new.priv_token) == Some(t)
            &&& new.unique_url == old.unique_url
            &&& new.last_activity == old.last_activity
        },
        Edit::Activity(ts) => {
            &&& new.last_activity == Some(ts)
            &&& new.unique_url == old.unique_url
            &&& new.priv_token == old.priv_token
        },
    }
}

/// `new` is `old` with `change` made to every log with id `id`.
pub open spec fn changed_where(old: Seq<LogInfo>, new: Seq<LogInfo>, id: i32, change: Edit) -> bool {
    &&& new.len() == old.len()
    &&& forall|j: int|
        0 <= j < old.len() ==> if old[j].id == id {
            changed(old[j], #[trigger] new[j], change)
        } else {
            new[j] == old[j]
        }
}

/// Some log with id `id` exists.
pub open spec fn has_log(logs: Seq<LogInfo>, id: i32) -> bool {
    exists|j: int| 0 <= j < logs.len() && (#[trigger] logs[j]).id == id
}

/// Another log than `id` has the public URL `url`.
pub open spec fn url_taken(logs: Seq<LogInfo>, id: i32, url: Seq<char>) -> bool {
    exists|j: int| 0 <= j < logs.len() && (#[trigger] logs[j]).id != id && url_is(url)(logs[j])
}

/// The store of logs and their fixes.
pub struct Ledger {
    logs: Vec<LogInfo>,
    points: Vec<LogLocationPoint>,
    sealed: Vec<LogLocationPointSec>,
    next_log_id: i32,
    next_point_id: i32,
    next_sealed_id: i32,
}

impl Ledger {
    /// The logs, in order of creation.
    pub closed spec fn logs(&self) -> Seq<LogInfo> {
        self.logs@
    }

    /// The plaintext fixes of all logs, in order of arrival.
    pub closed spec fn points(&self) -> Seq<LogLocationPoint> {
        self.points@
    }

    /// The sealed fixes of all logs, in order of arrival.
    pub closed spec fn sealed(&self) -> Seq<LogLocationPointSec> {
        self.sealed@
    }

    /// The id the next log gets; none before it is given again.
    pub closed spec fn next_log_id(&self) -> i32 {
        self.next_log_id
    }

    /// Log ids stay below the next one; fixes rise in arrival id.
    pub closed spec fn wf(&self) -> bool {
        &&& self.next_log_id >= 1
        &&& forall|i: int| 0 <= i < self.logs@.len() ==> #[trigger] self.logs@[i].id < self.next_log_id
        &&& arrival_ordered(self.points@, self.next_point_id)
        &&& arrival_ordered(self.sealed@, self.next_sealed_id)
    }

    /// An empty ledger.
    pub fn new() -> (r: Ledger)
        ensures
            r.wf(),
            r.logs().len() == 0,
            r.points().len() == 0,
            r.sealed().len() == 0,
            r.next_log_id() == 1,
            r.log_ids_left(),
            r.point_ids_left(),
            r.sealed_ids_left(),
    {
        Ledger {
            logs: Vec::new(),
            points: Vec::new(),
            sealed: Vec::new(),
            next_log_id: 1,
            next_point_id: 1,
            next_sealed_id: 1,
        }
    }
}

fn index_of_id(logs: &Vec<LogInfo>, id: i32) -> (r: Option<usize>)
    ensures
        r matches Some(i) ==> is_first(logs@, i as int, id_is(id)),
        r is None ==> forall|j: int| 0 <= j < logs@.len() ==> !id_is(id)(#[trigger] logs@[j]),
{
    let mut i: usize = 0;
    while i < logs.len()
        invariant
            i <= logs.len(),
            forall|j: int| 0 <= j < i ==> !id_is(id)(#[trigger] logs@[j]),
        decreases logs.len() - i,
    {
        if logs[i].id == id {
            return Some(i);
        }
        i = i + 1;
    }
    None
}

fn index_of_url(logs: &Vec<LogInfo>, url: &String) -> (r: Option<usize>)
    ensures
        r matches Some(i) ==> is_first(logs@, i as int, url_is(url@)),
        r is None ==> forall|j: int| 0 <= j < logs@.len() ==> !url_is(url@)(#[trigger] logs@[j]),
{
    let mut i: usize = 0;
    while i < logs.len()
        invariant
            i <= logs.len(),
            forall|j: int| 0 <= j < i ==> !url_is(url@)(#[trigger] logs@[j]),
        decreases logs.len() - i,
    {
        if let Some(u) = &logs[i].unique_url {
            if *u == *url {
                return Some(i);
            }
        }
        i = i + 1;
    }
    None
}

fn index_of_token(logs: &Vec<LogInfo>, token: &String) -> (r: Option<usize>)
    ensures
        r matches Some(i) ==> is_first(logs@, i as int, token_is(token@)),
        r is None ==> forall|j: int| 0 <= j < logs@.len() ==> !token_is(token@)(#[trigger] logs@[j]),
{
    let mut i: usize = 0;
    while i < logs.len()
        invariant
            i <= logs.len(),
            forall|j: int| 0 <= j < i ==> !token_is(token@)(#[trigger] logs@[j]),
        decreases logs.len() - i,
    {
        if let Some(t) = &logs[i].priv_token {
            if *t == *token {
                return Some(i);
            }
        }
        i = i + 1;
    }
    None
}

/// All the logs, in order of creation.
pub fn get_all_logs(db: &Ledger) -> (r: Option<Vec<LogInfo>>)
    ensures
        r matches Some(v) && v@ == db.logs(),
{
    let mut v: Vec<LogInfo> = Vec::new();
    let mut i: usize = 0;
    while i < db.logs.len()
        invariant
            i <= db.logs@.len(),
            v@ == db.logs@.subrange(0, i as int),
        decreases db.logs@.len() - i,
    {
        v.push(db.logs[i].clone());
        assert(db.logs@.subrange(0, i as int + 1) =~= db.logs@.subrange(0, i as int).push(db.logs@[i as int]));
        i = i + 1;
    }
    assert(db.logs@.subrange(0, i as int) =~= db.logs@);
    Some(v)
}

/// The log with id `uid`.
pub fn get_log_from_id(db: &Ledger, uid: i32) -> (r: Option<LogInfo>)
    ensures
        r == find_log(db.logs(), id_is(uid)),
{
    match index_of_id(&db.logs, uid) {
        Some(i) => {
            proof { lemma_first_unique(db.logs@, i as int, id_is(uid)); }
            Some(db.logs[i].clone())
        },
        None => {
            proof { lemma_none_found(db.logs@, id_is(uid)); }
            None
        },
    }
}

/// The log with id `log_id`.
pub fn get_log(db: &Ledger, log_id: i32) -> (r: Option<LogInfo>)
    ensures
        r == find_log(db.logs(), id_is(log_id)),
{
    get_log_from_id(db, log_id)
}

/// The log whose public URL is `uniq_url`.
pub fn get_log_from_url(db: &Ledger, uniq_url: &str) -> (r: Option<LogInfo>)
    ensures
        r == find_log(db.logs(), url_is(uniq_url@)),
{
    let url = uniq_url.to_owned();
    match index_of_url(&db.logs, &url) {
        Some(i) => {
            proof { lemma_first_unique(db.logs@, i as int, url_is(uniq_url@)); }
            Some(db.logs[i].clone())
        },
        None => {
            proof { lemma_none_found(db.logs@, url_is(uniq_url@)); }
            None
        },
    }
}

/// The log whose private token is `token`.
pub fn get_log_from_token(db: &Ledger, token: &str) -> (r: Option<LogInfo>)
    ensures
        r == find_log(db.logs(), token_is(token@)),
{
    let t = token.to_owned();
    match index_of_token(&db.logs, &t) {
        Some(i) => {
            proof { lemma_first_unique(db.logs@, i as int, token_is(token@)); }
            Some(db.logs[i].clone())
        },
        None => {
            proof { lemma_none_found(db.logs@, token_is(token@)); }
            None
        },
    }
}

impl Ledger {
    /// Makes `change` to every log with id `id`.
    fn change_logs(&mut self, id: i32, change: LogChange)
        requires
            old(self).wf(),
        ensures
            final(self).wf(),
            changed_where(old(self).logs(), final(self).logs(), id, change.edit()),
            final(self).same_fixes(old(self)),
    {
        let ghost before = self.logs@;
        let mut i: usize = 0;
        while i < self.logs.len()
            invariant
                i <= self.logs@.len(),
                self.logs@.len() == before.len(),
                self.points@ == old(self).points@,
                self.sealed@ == old(self).sealed@,
                self.next_log_id == old(self).next_log_id,
                self.next_point_id == old(self).next_point_id,
                self.next_sealed_id == old(self).next_sealed_id,
                forall|j: int| 0 <= j < i ==> if before[j].id == id {
                    changed(before[j], #[trigger] self.logs@[j], change.edit())
                } else {
                    self.logs@[j] == before[j]
                },
                forall|j: int| i <= j < before.len() ==> #[trigger] self.logs@[j] == before[j],
            decreases before.len() - i,
        {
            if self.logs[i].id == id {
                let cur = self.logs[i].clone();
                let next = match &change {
                    LogChange::Url(u) => LogInfo {
                        id: cur.id,
                        priv_token: cur.priv_token,
                        unique_url: Some(u.clone()),
                        last_activity: cur.last_activity,
                    },
                    LogChange::Token(t) => LogInfo {
                        id: cur.id,
                        priv_token: Some(t.clone()),
                        unique_url: cur.unique_url,
                        last_activity: cur.last_activity,
                    },
                    LogChange::Activity(ts) => LogInfo {
                        id: cur.id,
                        priv_token: cur.priv_token,
                        unique_url: cur.unique_url,
                        last_activity: Some(*ts),
                    },
                };
                self.logs.set(i, next);
            }
            i = i + 1;
        }
    }

    /// Log ids are not yet used up.
    pub closed spec fn log_ids_left(&self) -> bool {
        self.next_log_id < i32::MAX
    }

    /// Point ids are not yet used up.
    pub closed spec fn point_ids_left(&self) -> bool {
        self.next_point_id < i32::MAX
    }

    /// Sealed point ids are not yet used up.
    pub closed spec fn sealed_ids_left(&self) -> bool {
        self.next_sealed_id < i32::MAX
    }
}

/// Some log other than `id` has the public URL `url`.
fn url_in_use(logs: &Vec<LogInfo>, id: i32, url: &String) -> (r: bool)
    ensures
        r == url_taken(logs@, id, url@),
{
    let mut i: usize = 0;
    while i < logs.len()
        invariant
            i <= logs@.len(),
            forall|j: int| 0 <= j < i ==> !((#[trigger] logs@[j]).id != id && url_is(url@)(logs@[j])),
        decreases logs@.len() - i,
    {
        if logs[i].id != id {
            if let Some(u) = &logs[i].unique_url {
                if *u == *url {
                    assert(url_is(url@)(logs@[i as int]));
                    return true;
                }
            }
        }
        i = i + 1;
    }
    false
}

fn log_exists(logs: &Vec<LogInfo>, id: i32) -> (r: bool)
    ensures
        r == has_log(logs@, id),
{
    match index_of_id(logs, id) {
        Some(i) => {
            assert(logs@[i as int].id == id);
            true
        },
        None => {
            assert forall|j: int| 0 <= j < logs@.len() implies (#[trigger] logs@[j]).id != id by {
                assert(!id_is(id)(logs@[j]));
            }
            false
        },
    }
}

/// Sets the public URL of log `log_id`. Fails with `LogNotFound` when there
/// is no such log, and with `DatabaseError` when another log has that URL.
pub fn set_unique_url(db: &mut Ledger, log_id: i32, uniq_url: &str) -> (r: Result<(), Error>)
    requires
        old(db).wf(),
    ensures
        final(db).wf(),
        !has_log(old(db).logs(), log_id) ==> r == Err::<(), Error>(Error::LogNotFound),
        has_log(old(db).logs(), log_id) && url_taken(old(db).logs(), log_id, uniq_url@) ==> r
            == Err::<(), Error>(Error::DatabaseError),
        r is Ok <==> has_log(old(db).logs(), log_id) && !url_taken(old(db).logs(), log_id, uniq_url@),
        r is Ok ==> changed_where(old(db).logs(), final(db).logs(), log_id, Edit::Url(uniq_url@)),
        r is Err ==> *final(db) == *old(db),
        final(db).same_fixes(old(db)),
{
    let url = uniq_url.to_owned();
    if !log_exists(&db.logs, log_id) {
        return Err(Error::LogNotFound);
    }
    if url_in_use(&db.logs, log_id, &url) {
        return Err(Error::DatabaseError);
    }
    db.change_logs(log_id, LogChange::Url(url));
    Ok(())
}

/// Sets the private token of log `log_id` to `token`, and returns it.
pub fn set_log_token(db: &mut Ledger, log_id: i32, token: String) -> (r: Result<String, Error>)
    requires
        old(db).wf(),
    ensures
        final(db).wf(),
        r is Ok <==> has_log(old(db).logs(), log_id),
        !has_log(old(db).logs(), log_id) ==> r == Err::<String, Error>(Error::LogNotFound) && *final(db) == *old(db),
        r matches Ok(t) ==> t@ == token@ && changed_where(old(db).logs(), final(db).logs(), log_id, Edit::Token(token@)),
        final(db).same_fixes(old(db)),
{
    if !log_exists(&db.logs, log_id) {
        return Err(Error::LogNotFound);
    }
    db.change_logs(log_id, LogChange::Token(token.clone()));
    Ok(token)
}

/// Gives log `log_id` a fresh random private token of `TOKEN_LEN` letters
/// and digits, and returns it.
pub fn generate_log_token(db: &mut Ledger, log_id: i32) -> (r: Result<String, Error>)
    requires
        old(db).wf(),
    ensures
        final(db).wf(),
        r is Ok <==> has_log(old(db).logs(), log_id),
        !has_log(old(db).logs(), log_id) ==> r == Err::<String, Error>(Error::LogNotFound) && *final(db) == *old(db),
        r matches Ok(t) ==> {
            &&& t@.len() == TOKEN_LEN
            &&& forall|i: int| 0 <= i < t@.len() ==> is_alnum(#[trigger] t@[i])
            &&& changed_where(old(db).logs(), final(db).logs(), log_id, Edit::Token(t@))
        },
        final(db).same_fixes(old(db)),
{
    let token = random_alphanumeric(TOKEN_LEN);
    set_log_token(db, log_id, token)
}

/// How many candidate URLs a log is offered before giving up.
pub const URL_ATTEMPTS: usize = 49;

/// `i` is the first of the first `n` candidates that no other log than
/// `id` holds.
pub open spec fn first_free(logs: Seq<LogInfo>, id: i32, cands: Seq<String>, n: int, i: int) -> bool {
    &&& 0 <= i < n
    &&& i < cands.len()
    &&& !url_taken(logs, id, cands[i]@)
    &&& forall|j: int| 0 <= j < i ==> url_taken(logs, id, (#[trigger] cands[j])@)
}

/// Gives log `log_id` the first URL among the first `URL_ATTEMPTS` of
/// `candidates` that no other log holds; fails with `Undefined` when there
/// is no such log or no such URL.
pub fn generate_random_url(db: &mut Ledger, log_id: i32, candidates: &Vec<String>) -> (r: Result<(), Error>)
    requires
        old(db).wf(),
    ensures
        final(db).wf(),
        r is Ok <==> has_log(old(db).logs(), log_id) && exists|i: int|
            first_free(old(db).logs(), log_id, candidates@, URL_ATTEMPTS as int, i),
        r is Err ==> r == Err::<(), Error>(Error::Undefined) && *final(db) == *old(db),
        r is Ok ==> exists|i: int|
            first_free(old(db).logs(), log_id, candidates@, URL_ATTEMPTS as int, i)
            && changed_where(old(db).logs(), final(db).logs(), log_id, Edit::Url(candidates@[i]@)),
        final(db).same_fixes(old(db)),
{
    let mut i: usize = 0;
    while i < URL_ATTEMPTS && i < candidates.len()
        invariant
            *db == *old(db),
            old(db).wf(),
            i <= URL_ATTEMPTS,
            i <= candidates@.len(),
            has_log(old(db).logs(), log_id) ==> forall|j: int| 0 <= j < i ==> url_taken(old(db).logs(), log_id, (#[trigger] candidates@[j])@),
            !has_log(old(db).logs(), log_id) ==> i == 0,
        decreases URL_ATTEMPTS - i,
    {
        let res = set_unique_url(db, log_id, candidates[i].as_str());
        match res {
            Ok(()) => {
                assert(first_free(old(db).logs(), log_id, candidates@, URL_ATTEMPTS as int, i as int));
                return Ok(());
            },
            Err(e) => {
                if e == Error::LogNotFound {
                    return Err(Error::Undefined);
                }
            },
        }
        i = i + 1;
    }
    assert forall|k: int| !first_free(old(db).logs(), log_id, candidates@, URL_ATTEMPTS as int, k) by {
        if first_free(old(db).logs(), log_id, candidates@, URL_ATTEMPTS as int, k) && has_log(old(db).logs(), log_id) {
            assert(url_taken(old(db).logs(), log_id, candidates@[k]@));
        }
    }
    Err(Error::Undefined)
}

impl Ledger {
    /// The two ledgers hold the same fixes and give the same ids next.
    pub closed spec fn same_fixes(&self, other: &Ledger) -> bool {
        &&& self.points@ == other.points@
        &&& self.sealed@ == other.sealed@
        &&& self.next_log_id == other.next_log_id
        &&& self.next_point_id == other.next_point_id
        &&& self.next_sealed_id == other.next_sealed_id
    }
}

/// Sets the last activity of log `log_id` to `timestamp`. Never fails:
/// with no such log, nothing changes.
pub fn set_last_activity(db: &mut Ledger, log_id: i32, timestamp: i32) -> (r: Result<(), Error>)
    requires
        old(db).wf(),
    ensures
        final(db).wf(),
        r is Ok,
        changed_where(old(db).logs(), final(db).logs(), log_id, Edit::Activity(timestamp)),
        final(db).same_fixes(old(db)),
{
    db.change_logs(log_id, LogChange::Activity(timestamp));
    Ok(())
}

/// The fix that the ledger stores for `n`, with arrival id `id` and receipt
/// time `ts`.
pub open spec fn stored_point(n: NewInfo, id: i32, ts: i32) -> LogLocationPoint {
    LogLocationPoint {
        log_id: n.log_id,
        id: id,
        device_timestamp: n.device_timestamp,
        server_timestamp: ts,
        lat: n.lat,
        lon: n.lon,
        altitude: n.altitude,
        speed: n.speed,
        direction: n.direction,
        accuracy: n.accuracy,
        loc_provider: n.loc_provider,
        battery: n.battery,
    }
}

/// Appends a plaintext fix to its log, and sets the log's last activity to
/// the fix's receipt time. Fails, changing nothing, with `ValidationError`
/// for a fix out of bounds, `LogNotFound` for a log that does not exist,
/// `Undefined` for a fix without a receipt time, and `DatabaseError` when
/// arrival ids are used up.
pub fn add_info(db: &mut Ledger, new_info: NewInfo) -> (r: Result<LogLocationPoint, Error>)
    requires
        old(db).wf(),
    ensures
        final(db).wf(),
        !new_info.valid() ==> r == Err::<LogLocationPoint, Error>(Error::ValidationError),
        new_info.valid() && !has_log(old(db).logs(), new_info.log_id) ==> r == Err::<
            LogLocationPoint,
            Error,
        >(Error::LogNotFound),
        new_info.valid() && has_log(old(db).logs(), new_info.log_id)
            && new_info.server_timestamp is None ==> r == Err::<LogLocationPoint, Error>(
            Error::Undefined,
        ),
        r is Ok <==> new_info.valid() && has_log(old(db).logs(), new_info.log_id)
            && new_info.server_timestamp is Some && old(db).point_ids_left(),
        r is Err ==> *final(db) == *old(db),
        r matches Ok(p) ==> {
            &&& p == stored_point(new_info, p.id, new_info.server_timestamp->0)
            &&& final(db).points() == old(db).points().push(p)
            &&& forall|i: int| 0 <= i < old(db).points().len() ==> (#[trigger] old(db).points()[i]).id < p.id
            &&& changed_where(old(db).logs(), final(db).logs(), new_info.log_id, Edit::Activity(new_info.server_timestamp->0))
            &&& final(db).sealed() == old(db).sealed()
        },
{
    if !new_info.is_valid() {
        return Err(Error::ValidationError);
    }
    if !log_exists(&db.logs, new_info.log_id) {
        return Err(Error::LogNotFound);
    }
    let ts = match new_info.server_timestamp {
        Some(t) => t,
        None => {
            return Err(Error::Undefined);
        },
    };
    if db.next_point_id == i32::MAX {
        return Err(Error::DatabaseError);
    }
    let id = db.next_point_id;
    let log_id = new_info.log_id;
    let point = LogLocationPoint {
        log_id: new_info.log_id,
        id: id,
        device_timestamp: new_info.device_timestamp,
        server_timestamp: ts,
        lat: new_info.lat,
        lon: new_info.lon,
        altitude: new_info.altitude,
        speed: new_info.speed,
        direction: new_info.direction,
        accuracy: new_info.accuracy,
        loc_provider: new_info.loc_provider,
        battery: new_info.battery,
    };
    let copy = point.clone();
    db.points.push(point);
    db.next_point_id = id + 1;
    proof {
        assert forall|i: int, j: int| 0 <= i < j < db.points@.len() implies db.points@[i].id < db.points@[j].id by {
            if j < old(db).points@.len() {
                assert(old(db).points@[i] == db.points@[i]);
            } else {
                assert(db.points@[i] == old(db).points@[i]);
            }
        }
    }
    db.change_logs(log_id, LogChange::Activity(ts));
    Ok(copy)
}

/// The sealed fix that the ledger stores for `n`, with arrival id `id` and
/// receipt time `ts`.
pub open spec fn stored_sealed(n: NewInfoSec, id: i32, ts: i32) -> LogLocationPointSec {
    LogLocationPointSec { log_id: n.log_id, id: id, server_timestamp: ts, data: n.data }
}

/// Appends a sealed fix to its log, and sets the log's last activity to the
/// fix's receipt time. Fails, changing nothing, with `ValidationError` for a
/// payload over `MAX_SEALED_LEN` bytes, `LogNotFound` for a log that does not
/// exist, `Undefined` for a fix without a receipt time, and `DatabaseError`
/// when arrival ids are used up.
pub fn add_info_sec(db: &mut Ledger, new_info: NewInfoSec) -> (r: Result<(), Error>)
    requires
        old(db).wf(),
    ensures
        final(db).wf(),
        !sealed_fits(new_info.data@) ==> r == Err::<(), Error>(Error::ValidationError),
        sealed_fits(new_info.data@) && !has_log(old(db).logs(), new_info.log_id) ==> r == Err::<(), Error>(Error::LogNotFound),
        sealed_fits(new_info.data@) && has_log(old(db).logs(), new_info.log_id)
            && new_info.server_timestamp is None ==> r == Err::<(), Error>(Error::Undefined),
        r is Ok <==> sealed_fits(new_info.data@) && has_log(old(db).logs(), new_info.log_id)
            && new_info.server_timestamp is Some && old(db).sealed_ids_left(),
        r is Err ==> *final(db) == *old(db),
        r is Ok ==> {
            &&& final(db).sealed().len() == old(db).sealed().len() + 1
            &&& final(db).sealed().drop_last() == old(db).sealed()
            &&& final(db).sealed().last() == stored_sealed(new_info, final(db).sealed().last().id, new_info.server_timestamp->0)
            &&& forall|i: int| 0 <= i < old(db).sealed().len() ==> (#[trigger] old(db).sealed()[i]).id < final(db).sealed().last().id
            &&& changed_where(old(db).logs(), final(db).logs(), new_info.log_id, Edit::Activity(new_info.server_timestamp->0))
            &&& final(db).points() == old(db).points()
        },
{
    if new_info.data.len() > MAX_SEALED_LEN {
        return Err(Error::ValidationError);
    }
    if !log_exists(&db.logs, new_info.log_id) {
        return Err(Error::LogNotFound);
    }
    let ts = match new_info.server_timestamp {
        Some(t) => t,
        None => {
            return Err(Error::Undefined);
        },
    };
    if db.next_sealed_id == i32::MAX {
        return Err(Error::DatabaseError);
    }
    let id = db.next_sealed_id;
    let log_id = new_info.log_id;
    let point = LogLocationPointSec { log_id: new_info.log_id, id: id, server_timestamp: ts, data: new_info.data };
    db.sealed.push(point);
    db.next_sealed_id = id + 1;
    proof {
        assert(db.sealed@.drop_last() =~= old(db).sealed@);
        assert forall|i: int, j: int| 0 <= i < j < db.sealed@.len() implies db.sealed@[i].id < db.sealed@[j].id by {
            assert(db.sealed@[i] == old(db).sealed@[i]);
        }
    }
    db.change_logs(log_id, LogChange::Activity(ts));
    Ok(())
}

/// The newest `count` of `all` (all of them when `count` is negative or
/// there are fewer).
pub open spec fn take_newest<T>(all: Seq<T>, count: i64) -> Seq<T> {
    if count < 0 || count >= all.len() {
        all
    } else {
        all.take(count as int)
    }
}

/// What a fetch returns, from the newest-first points `sel` of a log.
pub open spec fn fetched<T: Stored>(sel: Seq<T>, cut_last_segment: bool, r: Option<Vec<T>>) -> bool {
    &&& (r is None <==> sel.len() == 0)
    &&& (r matches Some(v) ==> if cut_last_segment {
        &&& is_last_trip(ts_of(sel), TRIP_GAP_SECS as int, v@.len() as nat)
        &&& copies(v@, sel.take(v@.len() as int))
    } else {
        copies(v@, sel)
    })
}

fn fetch<T: Stored>(s: &Vec<T>, uid: i32, count: i64, cut_last_segment: bool) -> (r: Option<Vec<T>>)
    ensures
        fetched(take_newest(newest_first(s@, uid), count), cut_last_segment, r),
{
    let limit: Option<usize> = if count < 0 || count as u64 >= s.len() as u64 {
        None
    } else {
        Some(count as usize)
    };
    let found = recent(s, uid, limit);
    let ghost all = newest_first(s@, uid);
    let ghost sel = take_newest(all, count);
    proof {
        lemma_newest_first_len(s@, uid);
        if count >= 0 && count < all.len() {
            assert(limit == Some(count as usize));
        }
    }
    assert(copies(found@, sel));
    if found.len() == 0 {
        return None;
    }
    if cut_last_segment {
        let ghost whole = found@;
        assert(ts_of(whole) =~= ts_of(sel));
        let kept = segment(found, TRIP_GAP_SECS);
        proof {
            assert forall|i: int| 0 <= i < kept@.len() implies {
                &&& (#[trigger] kept@[i]).same_as(&sel.take(kept@.len() as int)[i])
                &&& kept@[i].owner() == sel.take(kept@.len() as int)[i].owner()
                &&& kept@[i].receipt_ts() == sel.take(kept@.len() as int)[i].receipt_ts()
                &&& kept@[i].order_ts_spec() == sel.take(kept@.len() as int)[i].order_ts_spec()
            } by {
                assert(kept@[i] == whole[i]);
            }
        }
        Some(kept)
    } else {
        Some(found)
    }
}

proof fn lemma_newest_first_len<T: Stored>(s: Seq<T>, uid: i32)
    ensures
        newest_first(s, uid).len() <= s.len(),
    decreases s.len(),
{
    if s.len() > 0 {
        lemma_newest_first_len(s.drop_last(), uid);
    }
}

/// The newest `count` plaintext fixes of log `uid` (all of them when `count`
/// is negative), newest first by arrival; with `cut_last_segment`, only those
/// of them in the newest trip. `None` when the log has no fix.
pub fn get_last_info(db: &Ledger, uid: i32, count: i64, cut_last_segment: bool) -> (r: Option<Vec<LogLocationPoint>>)
    ensures
        ({
            let sel = take_newest(newest_first(db.points(), uid), count);
            &&& (r is None <==> sel.len() == 0)
            &&& (r matches Some(v) ==> if cut_last_segment {
                &&& is_last_trip(ts_of(sel), TRIP_GAP_SECS as int, v@.len() as nat)
                &&& v@ == sel.take(v@.len() as int)
            } else {
                v@ == sel
            })
        }),
{
    let r = fetch(&db.points, uid, count, cut_last_segment);
    proof {
        let sel = take_newest(newest_first(db.points(), uid), count);
        if r is Some {
            let v = r->0;
            if cut_last_segment {
                assert(v@ =~= sel.take(v@.len() as int));
            } else {
                assert(v@ =~= sel);
            }
        }
    }
    r
}

/// The newest `count` sealed fixes of log `uid` (all of them when `count` is
/// negative), newest first by arrival; with `cut_last_segment`, only those of
/// them in the newest trip by receipt time. `None` when the log has no
/// sealed fix.
pub fn get_last_info_sec(db: &Ledger, uid: i32, count: i64, cut_last_segment: bool) -> (r: Option<Vec<LogLocationPointSec>>)
    ensures
        fetched(take_newest(newest_first(db.sealed(), uid), count), cut_last_segment, r),
{
    fetch(&db.sealed, uid, count, cut_last_segment)
}

/// The oldest receipt time that a sweep at `now` with age bound `max_age`
/// keeps as a candidate; `None` without an age bound.
pub open spec fn age_floor(now: i32, max_age: Option<i32>) -> Option<int> {
    match max_age {
        Some(a) => Some(now - a),
        None => None,
    }
}

/// What a sweep over log `uid` of the run `old` leaves.
pub open spec fn swept<T: Stored>(old: Seq<T>, uid: i32, max_count: nat, now: i32, max_age: Option<i32>) -> Seq<T> {
    match keep_threshold(receipt_times(old, uid), age_floor(now, max_age), max_count) {
        Some(theta) => survivors(old, seq![uid], Some(theta)),
        None => old,
    }
}

fn sweep<T: Stored>(s: &mut Vec<T>, uid: i32, max_count: usize, now: i32, max_age: Option<i32>, Ghost(next): Ghost<i32>) -> (n: usize)
    requires
        arrival_ordered(old(s)@, next),
    ensures
        final(s)@ == swept(old(s)@, uid, max_count as nat, now, max_age),
        arrival_ordered(final(s)@, next),
        n == old(s)@.len() - final(s)@.len(),
{
    let ts = log_receipt_times(s, uid);
    let oldest: Option<i64> = match max_age {
        Some(a) => Some(now as i64 - a as i64),
        None => None,
    };
    assert(opt_int(oldest) == age_floor(now, max_age));
    match retention_threshold(&ts, max_count, oldest) {
        Some(theta) => {
            let owners: Vec<i32> = vec![uid];
            assert(owners@ =~= seq![uid]);
            let ghost before = s@;
            let n = remove_points(s, &owners, Some(theta));
            proof {
                lemma_filter_ordered(before, crate::series::kept_by::<T>(seq![uid], Some(theta)), next);
            }
            n
        },
        None => 0,
    }
}

/// Retention sweep over the plaintext fixes of log `log_id` at time `now`:
/// keeps the `max_count` newest by receipt time among those no older than
/// `max_age` seconds (all, without an age bound), with ties at the cut all
/// kept, and expires every older fix of the log. Returns how many went.
pub fn expire_points(db: &mut Ledger, log_id: i32, max_count: usize, max_age: Option<i32>, now: i32) -> (n: usize)
    requires
        old(db).wf(),
    ensures
        final(db).wf(),
        final(db).points() == swept(old(db).points(), log_id, max_count as nat, now, max_age),
        n == old(db).points().len() - final(db).points().len(),
        final(db).logs() == old(db).logs(),
        final(db).sealed() == old(db).sealed(),
{
    sweep(&mut db.points, log_id, max_count, now, max_age, Ghost(db.next_point_id))
}

/// Retention sweep over the sealed fixes of log `log_id`, as `expire_points`
/// does over the plaintext ones.
pub fn expire_points_sec(db: &mut Ledger, log_id: i32, max_count: usize, max_age: Option<i32>, now: i32) -> (n: usize)
    requires
        old(db).wf(),
    ensures
        final(db).wf(),
        final(db).sealed() == swept(old(db).sealed(), log_id, max_count as nat, now, max_age),
        n == old(db).sealed().len() - final(db).sealed().len(),
        final(db).logs() == old(db).logs(),
        final(db).points() == old(db).points(),
{
    sweep(&mut db.sealed, log_id, max_count, now, max_age, Ghost(db.next_sealed_id))
}

/// Holds of the logs that a removal of the ids `ids` keeps.
pub open spec fn log_kept(ids: Seq<i32>) -> spec_fn(LogInfo) -> bool {
    |l: LogInfo| !ids.contains(l.id)
}

impl Ledger {
    /// Removes the logs whose id is one of `ids`, with all their fixes.
    fn remove_logs(&mut self, ids: &Vec<i32>)
        requires
            old(self).wf(),
        ensures
            final(self).wf(),
            final(self).logs() == old(self).logs().filter(log_kept(ids@)),
            final(self).points() == survivors(old(self).points(), ids@, None),
            final(self).sealed() == survivors(old(self).sealed(), ids@, None),
            final(self).next_log_id() == old(self).next_log_id(),
    {
        let ghost orig = self.logs@;
        let ghost keep = log_kept(ids@);
        let total: usize = self.logs.len();
        let mut i: usize = 0;
        let mut j: usize = 0;
        while j < total
            invariant
                total == orig.len(),
                keep == log_kept(ids@),
                i <= j <= orig.len(),
                self.logs@.len() == i + (orig.len() - j),
                self.logs@.subrange(0, i as int) == orig.subrange(0, j as int).filter(keep),
                self.logs@.subrange(i as int, self.logs@.len() as int) == orig.subrange(j as int, orig.len() as int),
                self.next_log_id == old(self).next_log_id,
                self.points@ == old(self).points@,
                self.sealed@ == old(self).sealed@,
                self.next_point_id == old(self).next_point_id,
                self.next_sealed_id == old(self).next_sealed_id,
            decreases orig.len() - j,
        {
            proof {
                assert(orig.subrange(0, j as int + 1) =~= orig.subrange(0, j as int).push(orig[j as int]));
                orig.subrange(0, j as int).lemma_filter_push(orig[j as int], keep);
                assert(self.logs@[i as int] == self.logs@.subrange(i as int, self.logs@.len() as int)[0]);
                assert(orig.subrange(j as int, orig.len() as int)[0] == orig[j as int]);
            }
            let gone = crate::series::contains_id(ids, self.logs[i].id);
            let ghost prev = self.logs@;
            assert(keep(orig[j as int]) == !gone);
            if gone {
                self.logs.remove(i);
                assert(self.logs@.subrange(0, i as int) =~= prev.subrange(0, i as int));
                assert(self.logs@.subrange(i as int, self.logs@.len() as int) =~= prev.subrange(i as int + 1, prev.len() as int));
                assert(orig.subrange(j as int + 1, orig.len() as int) =~= orig.subrange(j as int, orig.len() as int).drop_first());
            } else {
                assert(self.logs@.subrange(0, i as int + 1) =~= prev.subrange(0, i as int).push(prev[i as int]));
                assert(self.logs@.subrange(i as int + 1, self.logs@.len() as int) =~= prev.subrange(i as int, prev.len() as int).drop_first());
                assert(orig.subrange(j as int + 1, orig.len() as int) =~= orig.subrange(j as int, orig.len() as int).drop_first());
                i = i + 1;
            }
            j = j + 1;
        }
        assert(orig.subrange(0, orig.len() as int) =~= orig);
        assert(self.logs@ =~= self.logs@.subrange(0, i as int));
        proof {
            assert forall|k: int| 0 <= k < self.logs@.len() implies #[trigger] self.logs@[k].id < self.next_log_id by {
                orig.lemma_filter_contains_rev(keep, self.logs@[k]);
                assert(self.logs@.contains(self.logs@[k]));
            }
        }
        let ghost pts = self.points@;
        let ghost sls = self.sealed@;
        remove_points(&mut self.points, ids, None);
        remove_points(&mut self.sealed, ids, None);
        proof {
            lemma_filter_ordered(pts, crate::series::kept_by::<LogLocationPoint>(ids@, None), self.next_point_id);
            lemma_filter_ordered(sls, crate::series::kept_by::<LogLocationPointSec>(ids@, None), self.next_sealed_id);
        }
    }
}

/// Deletes log `log_id` with all its fixes. Fails with `LogNotFound`,
/// changing nothing, when there is no such log.
pub fn delete_log(db: &mut Ledger, log_id: i32) -> (r: Result<(), Error>)
    requires
        old(db).wf(),
    ensures
        final(db).wf(),
        r is Ok <==> has_log(old(db).logs(), log_id),
        r is Err ==> r == Err::<(), Error>(Error::LogNotFound) && *final(db) == *old(db),
        r is Ok ==> {
            &&& final(db).logs() == old(db).logs().filter(log_kept(seq![log_id]))
            &&& final(db).points() == survivors(old(db).points(), seq![log_id], None)
            &&& final(db).sealed() == survivors(old(db).sealed(), seq![log_id], None)
        },
{
    if !log_exists(&db.logs, log_id) {
        return Err(Error::LogNotFound);
    }
    let ids: Vec<i32> = vec![log_id];
    assert(ids@ =~= seq![log_id]);
    db.remove_logs(&ids);
    Ok(())
}

/// A log that a log sweep at `oldest` expires: its last activity is known
/// and came before `oldest`.
pub open spec fn log_expired(l: LogInfo, oldest: int) -> bool {
    l.last_activity matches Some(a) && a < oldest
}

pub open spec fn is_expired(oldest: int) -> spec_fn(LogInfo) -> bool {
    |l: LogInfo| log_expired(l, oldest)
}

/// The ids of the logs that a log sweep at `oldest` expires.
pub open spec fn expired_ids(logs: Seq<LogInfo>, oldest: int) -> Seq<i32> {
    logs.filter(is_expired(oldest)).map_values(|l: LogInfo| l.id)
}

/// Log sweep at time `now`: deletes, with all their fixes, the logs whose
/// last activity came more than `max_lifetime` seconds before. Returns how
/// many logs went.
pub fn expire_logs(db: &mut Ledger, max_lifetime: i32, now: i32) -> (n: usize)
    requires
        old(db).wf(),
    ensures
        final(db).wf(),
        ({
            let ids = expired_ids(old(db).logs(), now - max_lifetime);
            &&& final(db).logs() == old(db).logs().filter(log_kept(ids))
            &&& final(db).points() == survivors(old(db).points(), ids, None)
            &&& final(db).sealed() == survivors(old(db).sealed(), ids, None)
            &&& n == ids.len()
        }),
{
    let oldest: i64 = now as i64 - max_lifetime as i64;
    let ghost pred = is_expired(oldest as int);
    let mut ids: Vec<i32> = Vec::new();
    let mut i: usize = 0;
    while i < db.logs.len()
        invariant
            i <= db.logs@.len(),
            pred == is_expired(oldest as int),
            ids@ == db.logs@.subrange(0, i as int).filter(pred).map_values(|l: LogInfo| l.id),
        decreases db.logs@.len() - i,
    {
        proof {
            let pre = db.logs@.subrange(0, i as int);
            assert(db.logs@.subrange(0, i as int + 1) =~= pre.push(db.logs@[i as int]));
            pre.lemma_filter_push(db.logs@[i as int], pred);
        }
        let expired = match db.logs[i].last_activity {
            Some(a) => (a as i64) < oldest,
            None => false,
        };
        if expired {
            let ghost f = db.logs@.subrange(0, i as int).filter(pred);
            ids.push(db.logs[i].id);
            assert(f.push(db.logs@[i as int]).map_values(|l: LogInfo| l.id) =~= f.map_values(|l: LogInfo| l.id).push(db.logs@[i as int].id));
        }
        i = i + 1;
    }
    assert(db.logs@.subrange(0, db.logs@.len() as int) =~= db.logs@);
    db.remove_logs(&ids);
    ids.len()
}

/// Creates a log whose last activity is `now`. With `with_token_and_url`,
/// the log also gets a random private token and the first of the first
/// `URL_ATTEMPTS` of `url_candidates` that no other log holds; when none is
/// free the log stays, with its token, and the call fails with `Undefined`.
/// Fails with `Undefined`, changing nothing, when log ids are used up.
pub fn generate_new_log(db: &mut Ledger, with_token_and_url: bool, url_candidates: &Vec<String>, now: i32) -> (r: Result<LogInfo, Error>)
    requires
        old(db).wf(),
    ensures
        final(db).wf(),
        !old(db).log_ids_left() ==> r == Err::<LogInfo, Error>(Error::Undefined) && *final(db) == *old(db),
        old(db).log_ids_left() ==> {
            &&& final(db).logs().len() == old(db).logs().len() + 1
            &&& final(db).logs().drop_last() == old(db).logs()
            &&& final(db).logs().last().id == old(db).next_log_id()
            &&& final(db).next_log_id() == old(db).next_log_id() + 1
            &&& final(db).same_fixes_but_log_id(old(db))
            &&& final(db).points() == old(db).points()
            &&& final(db).sealed() == old(db).sealed()
            &&& final(db).point_ids_left() == old(db).point_ids_left()
            &&& final(db).sealed_ids_left() == old(db).sealed_ids_left()
        },
        old(db).log_ids_left() && !with_token_and_url ==> r is Ok,
        old(db).log_ids_left() && with_token_and_url ==> (r is Ok <==> exists|i: int|
            first_free(old(db).logs(), old(db).next_log_id(), url_candidates@, URL_ATTEMPTS as int, i)),
        r is Err ==> r == Err::<LogInfo, Error>(Error::Undefined),
        r matches Ok(l) ==> {
            &&& l == final(db).logs().last()
            &&& l.last_activity == Some(now)
            &&& !with_token_and_url ==> l.priv_token is None && l.unique_url is None
            &&& with_token_and_url ==> {
                &&& l.priv_token matches Some(t) && t@.len() == TOKEN_LEN
                &&& exists|i: int| first_free(old(db).logs(), old(db).next_log_id(), url_candidates@, URL_ATTEMPTS as int, i)
                    && opt_chars(l.unique_url) == Some(url_candidates@[i]@)
            }
        },
{
    if db.next_log_id == i32::MAX {
        return Err(Error::Undefined);
    }
    let id = db.next_log_id;
    db.logs.push(LogInfo { id: id, priv_token: None, unique_url: None, last_activity: None });
    db.next_log_id = id + 1;
    proof {
        assert(db.logs@.drop_last() =~= old(db).logs@);
        assert forall|k: int| 0 <= k < old(db).logs@.len() implies #[trigger] db.logs@[k] == old(db).logs@[k] by {}
        assert forall|k: int| 0 <= k < db.logs@.len() implies #[trigger] db.logs@[k].id < db.next_log_id by {
            if k < old(db).logs@.len() {
                assert(db.logs@[k] == old(db).logs@[k]);
            }
        }
    }
    let ghost created = db.logs@;
    let ghost olds = old(db).logs@;
    let ghost mut wi: int = 0;
    if with_token_and_url {
        let tok = generate_log_token(db, id);
        let ghost after_token = db.logs@;
        proof {
            assert(created[created.len() - 1].id == id);
            assert(has_log(created, id));
            assert forall|k: int| 0 <= k < olds.len() implies #[trigger] after_token[k] == olds[k] by {
                assert(created[k] == olds[k]);
                assert(created[k].id != id);
            }
            // the other logs, which a url check looks at, are as they were
            assert forall|u: Seq<char>| url_taken(after_token, id, u) == url_taken(olds, id, u) by {
                if url_taken(after_token, id, u) {
                    let j = choose|j: int| 0 <= j < after_token.len() && (#[trigger] after_token[j]).id != id && url_is(u)(after_token[j]);
                    assert(j < olds.len());
                    assert(olds[j] == after_token[j]);
                }
                if url_taken(olds, id, u) {
                    let j = choose|j: int| 0 <= j < olds.len() && (#[trigger] olds[j]).id != id && url_is(u)(olds[j]);
                    assert(after_token[j] == olds[j]);
                }
            }
        }
        let res = generate_random_url(db, id, url_candidates);
        if res.is_err() {
            proof {
                assert forall|i: int| !first_free(olds, id, url_candidates@, URL_ATTEMPTS as int, i) by {
                    if first_free(olds, id, url_candidates@, URL_ATTEMPTS as int, i) {
                        assert(first_free(after_token, id, url_candidates@, URL_ATTEMPTS as int, i));
                    }
                }
                assert(db.logs@.drop_last() =~= olds);
            }
            return Err(Error::Undefined);
        }
        proof {
            let i = choose|i: int| first_free(after_token, id, url_candidates@, URL_ATTEMPTS as int, i)
                && changed_where(after_token, db.logs@, id, Edit::Url(url_candidates@[i]@));
            assert(first_free(olds, id, url_candidates@, URL_ATTEMPTS as int, i));
            wi = i;
            let last = db.logs@.len() - 1;
            assert(after_token[last].id == id);
            assert(opt_chars(db.logs@[last].unique_url) == Some(url_candidates@[i]@));
        }
    }
    let ghost before_touch = db.logs@;
    let _ = set_last_activity(db, id, now);
    proof {
        assert forall|k: int| 0 <= k < olds.len() implies #[trigger] db.logs@[k] == olds[k] by {
            assert(created[k].id != id);
        }
        assert(db.logs@.drop_last() =~= olds);
    }
    let l = db.logs[db.logs.len() - 1].clone();
    proof {
        let last = db.logs@.len() - 1;
        assert(before_touch[last].id == id);
        if with_token_and_url {
            assert(first_free(olds, id, url_candidates@, URL_ATTEMPTS as int, wi));
            assert(opt_chars(l.unique_url) == Some(url_candidates@[wi]@));
            assert(first_free(olds, id, url_candidates@, URL_ATTEMPTS as int, wi)
                && opt_chars(l.unique_url) == Some(url_candidates@[wi]@));
        }
        assert(olds == old(db).logs());
        assert(id == old(db).next_log_id());
        if with_token_and_url {
            assert(first_free(old(db).logs(), old(db).next_log_id(), url_candidates@, URL_ATTEMPTS as int, wi));
        }
    }
    Ok(l)
}

impl Ledger {
    /// The two ledgers hold the same fixes and give the same fix ids next.
    pub closed spec fn same_fixes_but_log_id(&self, other: &Ledger) -> bool {
        &&& self.points@ == other.points@
        &&& self.sealed@ == other.sealed@
        &&& self.next_point_id == other.next_point_id
        &&& self.next_sealed_id == other.next_sealed_id
    }
}

/// Copies of all the plaintext fixes, in order of arrival.
pub fn all_points(db: &Ledger) -> (r: Vec<LogLocationPoint>)
    ensures
        r@ == db.points(),
{
    let mut v: Vec<LogLocationPoint> = Vec::new();
    let mut i: usize = 0;
    while i < db.points.len()
        invariant
            i <= db.points@.len(),
            v@ == db.points@.subrange(0, i as int),
        decreases db.points@.len() - i,
    {
        v.push(db.points[i].clone());
        assert(db.points@.subrange(0, i as int + 1) =~= db.points@.subrange(0, i as int).push(db.points@[i as int]));
        i = i + 1;
    }
    assert(db.points@.subrange(0, i as int) =~= db.points@);
    v
}

/// Copies of all the sealed fixes, in order of arrival.
pub fn all_sealed(db: &Ledger) -> (r: Vec<LogLocationPointSec>)
    ensures
        r@.len() == db.sealed().len(),
        forall|i: int| 0 <= i < r@.len() ==> (#[trigger] r@[i])@ == db.sealed()[i]@,
{
    let mut v: Vec<LogLocationPointSec> = Vec::new();
    let mut i: usize = 0;
    while i < db.sealed.len()
        invariant
            i <= db.sealed@.len(),
            v@.len() == i,
            forall|j: int| 0 <= j < i ==> (#[trigger] v@[j])@ == db.sealed@[j]@,
        decreases db.sealed@.len() - i,
    {
        v.push(db.sealed[i].clone());
        i = i + 1;
    }
    v
}

/// The ids that the next log, plaintext fix and sealed fix get.
pub fn next_ids(db: &Ledger) -> (r: (i32, i32, i32))
    ensures
        r.0 == db.next_log_id(),
{
    (db.next_log_id, db.next_point_id, db.next_sealed_id)
}

impl Ledger {
    /// A ledger holding the given logs and fixes, which will give the given
    /// ids next; `None` unless log ids stay below theirs, and fixes rise in
    /// arrival id and stay below theirs.
    pub fn restore(
        logs: Vec<LogInfo>,
        points: Vec<LogLocationPoint>,
        sealed: Vec<LogLocationPointSec>,
        next_log_id: i32,
        next_point_id: i32,
        next_sealed_id: i32,
    ) -> (r: Option<Ledger>)
        ensures
            r is Some <==> next_log_id >= 1
                && (forall|i: int| 0 <= i < logs@.len() ==> #[trigger] logs@[i].id < next_log_id)
                && arrival_ordered(points@, next_point_id)
                && arrival_ordered(sealed@, next_sealed_id),
            r matches Some(db) ==> {
                &&& db.wf()
                &&& db.logs() == logs@
                &&& db.points() == points@
                &&& db.sealed() == sealed@
                &&& db.next_log_id() == next_log_id
            },
    {
        if next_log_id < 1 {
            return None;
        }
        let mut i: usize = 0;
        while i < logs.len()
            invariant
                i <= logs@.len(),
                forall|j: int| 0 <= j < i ==> #[trigger] logs@[j].id < next_log_id,
            decreases logs@.len() - i,
        {
            if logs[i].id >= next_log_id {
                return None;
            }
            i = i + 1;
        }
        if !crate::series::ordered_below(&points, next_point_id) {
            return None;
        }
        if !crate::series::ordered_below(&sealed, next_sealed_id) {
            return None;
        }
        Some(Ledger { logs, points, sealed, next_log_id, next_point_id, next_sealed_id })
    }
}

} // verus!
