//! The registry of devices, pending pairing requests and commands, with the
//! pairing state machine: a request issues a short code, a confirmation that
//! quotes it in time mints a token, and the token then identifies the device.
//!
//! Each operation is stated as a function of the store's view, so that what
//! holds across several calls can be proved from the contracts alone.

use vstd::prelude::*;
use crate::codes::{code_for, code_index, code_symbol, generate_code, is_code_char, lemma_code_alphabet};
use crate::text::{ascii_upper, ascii_upper_char, eq_upper, str_eq};

verus! {

/// Seconds for which a pairing code stays valid.
pub const PAIRING_TTL: i64 = 300;

/// Battery charge of a device that has not reported yet, in millionths of a
/// percent.
pub const FULL_BATTERY: i64 = 100_000_000;

/// A pending pairing request.
pub struct PairingRequest {
    pub device_id: String,
    pub name: String,
    pub device_type: String,
    pub code: String,
    pub expires_at: i64,
    pub created_at: i64,
}

pub struct RequestView {
    pub device_id: Seq<char>,
    pub name: Seq<char>,
    pub device_type: Seq<char>,
    pub code: Seq<char>,
    pub expires_at: int,
    pub created_at: int,
}

impl View for PairingRequest {
    type V = RequestView;

    open spec fn view(&self) -> RequestView {
        RequestView {
            device_id: self.device_id@,
            name: self.name@,
            device_type: self.device_type@,
            code: self.code@,
            expires_at: self.expires_at as int,
            created_at: self.created_at as int,
        }
    }
}

impl PairingRequest {
    pub fn copy(&self) -> (r: PairingRequest)
        ensures
            r@ == self@,
    {
        PairingRequest {
            device_id: self.device_id.clone(),
            name: self.name.clone(),
            device_type: self.device_type.clone(),
            code: self.code.clone(),
            expires_at: self.expires_at,
            created_at: self.created_at,
        }
    }
}

/// Connection status of a device; `Revoked` once its token is withdrawn.
#[derive(Debug, Clone, Copy, PartialEq, Eq, Structural)]
pub enum DeviceStatus {
    Offline,
    Online,
    Revoked,
}

pub open spec fn status_name(s: DeviceStatus) -> Seq<char> {
    match s {
        DeviceStatus::Offline => "offline"@,
        DeviceStatus::Online => "online"@,
        DeviceStatus::Revoked => "revoked"@,
    }
}

impl DeviceStatus {
    /// The status as it is stored and sent.
    pub fn as_str(&self) -> (r: &'static str)
        ensures
            r@ == status_name(*self),
    {
        match self {
            DeviceStatus::Offline => "offline",
            DeviceStatus::Online => "online",
            DeviceStatus::Revoked => "revoked",
        }
    }
}

/// Last known position and state of a device, in millionths of a degree,
/// metre, metre per second or percent.
#[derive(Debug, Clone, Copy, PartialEq, Eq, Structural)]
pub struct Pose {
    pub latitude: i64,
    pub longitude: i64,
    pub altitude: i64,
    pub heading: i64,
    pub speed: i64,
    pub battery: i64,
}

/// What the operator consoles see of a device.
pub struct DeviceInfo {
    pub id: String,
    pub name: String,
    pub device_type: String,
    pub status: DeviceStatus,
    pub pose: Pose,
    pub last_seen: i64,
}

pub struct DeviceInfoView {
    pub id: Seq<char>,
    pub name: Seq<char>,
    pub device_type: Seq<char>,
    pub status: DeviceStatus,
    pub pose: Pose,
    pub last_seen: int,
}

impl View for DeviceInfo {
    type V = DeviceInfoView;

    open spec fn view(&self) -> DeviceInfoView {
        DeviceInfoView {
            id: self.id@,
            name: self.name@,
            device_type: self.device_type@,
            status: self.status,
            pose: self.pose,
            last_seen: self.last_seen as int,
        }
    }
}

impl DeviceInfo {
    pub fn copy(&self) -> (r: DeviceInfo)
        ensures
            r@ == self@,
    {
        DeviceInfo {
            id: self.id.clone(),
            name: self.name.clone(),
            device_type: self.device_type.clone(),
            status: self.status,
            pose: self.pose,
            last_seen: self.last_seen,
        }
    }
}

/// A stored device: its public record, its token (present iff paired) and
/// when it was paired.
pub struct DeviceRecord {
    pub info: DeviceInfo,
    pub token: Option<String>,
    pub paired_at: i64,
}

pub struct DeviceRecordView {
    pub info: DeviceInfoView,
    pub token: Option<Seq<char>>,
    pub paired_at: int,
}

impl View for DeviceRecord {
    type V = DeviceRecordView;

    open spec fn view(&self) -> DeviceRecordView {
        DeviceRecordView {
            info: self.info@,
            token: match self.token {
                Some(t) => Some(t@),
                None => None,
            },
            paired_at: self.paired_at as int,
        }
    }
}

/// A command sent to a device and its last known status.
pub struct CommandRecord {
    pub id: String,
    pub device_id: String,
    pub command_type: String,
    pub payload: String,
    pub status: String,
    pub created_at: i64,
}

pub struct CommandView {
    pub id: Seq<char>,
    pub device_id: Seq<char>,
    pub command_type: Seq<char>,
    pub payload: Seq<char>,
    pub status: Seq<char>,
    pub created_at: int,
}

impl View for CommandRecord {
    type V = CommandView;

    open spec fn view(&self) -> CommandView {
        CommandView {
            id: self.id@,
            device_id: self.device_id@,
            command_type: self.command_type@,
            payload: self.payload@,
            status: self.status@,
            created_at: self.created_at as int,
        }
    }
}

pub struct StoreView {
    pub requests: Seq<RequestView>,
    pub devices: Seq<DeviceRecordView>,
    pub commands: Seq<CommandView>,
}

/// The store behind the pairing API and the router.
pub struct StateDb {
    pub requests: Vec<PairingRequest>,
    pub devices: Vec<DeviceRecord>,
    pub commands: Vec<CommandRecord>,
}

impl View for StateDb {
    type V = StoreView;

    open spec fn view(&self) -> StoreView {
        StoreView {
            requests: self.requests@.map_values(|r: PairingRequest| r@),
            devices: self.devices@.map_values(|d: DeviceRecord| d@),
            commands: self.commands@.map_values(|c: CommandRecord| c@),
        }
    }
}

// ---------------------------------------------------------------------------
// The model
// ---------------------------------------------------------------------------

pub open spec fn request_index(rs: Seq<RequestView>, id: Seq<char>) -> int {
    if exists|i: int| 0 <= i < rs.len() && (#[trigger] rs[i]).device_id == id {
        choose|i: int| 0 <= i < rs.len() && (#[trigger] rs[i]).device_id == id
    } else {
        -1
    }
}

pub open spec fn device_index(ds: Seq<DeviceRecordView>, id: Seq<char>) -> int {
    if exists|i: int| 0 <= i < ds.len() && (#[trigger] ds[i]).info.id == id {
        choose|i: int| 0 <= i < ds.len() && (#[trigger] ds[i]).info.id == id
    } else {
        -1
    }
}

pub open spec fn token_index(ds: Seq<DeviceRecordView>, token: Seq<char>) -> int {
    if exists|i: int| 0 <= i < ds.len() && (#[trigger] ds[i]).token == Some(token) {
        choose|i: int| 0 <= i < ds.len() && (#[trigger] ds[i]).token == Some(token)
    } else {
        -1
    }
}

pub open spec fn command_index(cs: Seq<CommandView>, id: Seq<char>) -> int {
    if exists|i: int| 0 <= i < cs.len() && (#[trigger] cs[i]).id == id {
        choose|i: int| 0 <= i < cs.len() && (#[trigger] cs[i]).id == id
    } else {
        -1
    }
}

impl StoreView {
    /// At most one request per device, each valid for the pairing window; at
    /// most one record per device id and per token; command ids unique.
    pub open spec fn wf(self) -> bool {
        &&& forall|i: int, j: int|
            0 <= i < j < self.requests.len() ==> (#[trigger] self.requests[i]).device_id
                != (#[trigger] self.requests[j]).device_id
        &&& forall|i: int|
            0 <= i < self.requests.len() ==> (#[trigger] self.requests[i]).expires_at
                == self.requests[i].created_at + PAIRING_TTL
        &&& forall|i: int, j: int|
            0 <= i < j < self.devices.len() ==> (#[trigger] self.devices[i]).info.id != (
            #[trigger] self.devices[j]).info.id
        &&& forall|i: int, j: int|
            0 <= i < j < self.devices.len() && (#[trigger] self.devices[i]).token is Some ==> (
            #[trigger] self.devices[j]).token != self.devices[i].token
        &&& forall|i: int, j: int|
            0 <= i < j < self.commands.len() ==> (#[trigger] self.commands[i]).id != (
            #[trigger] self.commands[j]).id
    }
}

pub open spec fn without_request(rs: Seq<RequestView>, id: Seq<char>) -> Seq<RequestView> {
    if request_index(rs, id) >= 0 {
        rs.remove(request_index(rs, id))
    } else {
        rs
    }
}

pub open spec fn spec_request(
    s: StoreView,
    id: Seq<char>,
    name: Seq<char>,
    device_type: Seq<char>,
    code: Seq<char>,
    now: int,
) -> StoreView {
    StoreView {
        requests: without_request(s.requests, id).push(
            RequestView {
                device_id: id,
                name,
                device_type,
                code,
                expires_at: now + PAIRING_TTL,
                created_at: now,
            },
        ),
        ..s
    }
}

pub open spec fn spec_dismiss(s: StoreView, id: Seq<char>) -> StoreView {
    StoreView { requests: without_request(s.requests, id), ..s }
}


pub open spec fn fresh_pose() -> Pose {
    Pose { latitude: 0, longitude: 0, altitude: 0, heading: 0, speed: 0, battery: FULL_BATTERY }
}

/// A request for the device exists, quotes `code` (ASCII letters of the
/// input raised to upper case) and has not expired at `now`.
pub open spec fn confirm_matches(s: StoreView, id: Seq<char>, code: Seq<char>, now: int) -> bool {
    let i = request_index(s.requests, id);
    &&& i >= 0
    &&& s.requests[i].code == ascii_upper(code)
    &&& s.requests[i].expires_at > now
}

/// No device other than `id` holds `token`.
pub open spec fn token_free(s: StoreView, id: Seq<char>, token: Seq<char>) -> bool {
    let t = token_index(s.devices, token);
    t < 0 || s.devices[t].info.id == id
}

/// The record of a device once paired with `token` at `now`: name and type
/// from the request, offline, a new token; a known device keeps its pose.
pub open spec fn paired_record(
    s: StoreView,
    id: Seq<char>,
    name: Seq<char>,
    device_type: Seq<char>,
    token: Seq<char>,
    now: int,
) -> DeviceRecordView {
    let d = device_index(s.devices, id);
    if d >= 0 {
        DeviceRecordView {
            info: DeviceInfoView {
                name,
                device_type,
                status: DeviceStatus::Offline,
                ..s.devices[d].info
            },
            token: Some(token),
            paired_at: now,
        }
    } else {
        DeviceRecordView {
            info: DeviceInfoView {
                id,
                name,
                device_type,
                status: DeviceStatus::Offline,
                pose: fresh_pose(),
                last_seen: now,
            },
            token: Some(token),
            paired_at: now,
        }
    }
}

/// Replaces the record with the same device id, or appends it.
pub open spec fn upsert_record(ds: Seq<DeviceRecordView>, rec: DeviceRecordView) -> Seq<
    DeviceRecordView,
> {
    let d = device_index(ds, rec.info.id);
    if d >= 0 {
        ds.update(d, rec)
    } else {
        ds.push(rec)
    }
}

pub open spec fn spec_confirm(
    s: StoreView,
    id: Seq<char>,
    now: int,
    token: Seq<char>,
) -> StoreView {
    let r = s.requests[request_index(s.requests, id)];
    StoreView {
        requests: without_request(s.requests, id),
        devices: upsert_record(s.devices, paired_record(s, id, r.name, r.device_type, token, now)),
        commands: s.commands,
    }
}

/// The device that a token identifies.
pub open spec fn spec_validate(s: StoreView, token: Seq<char>) -> Option<Seq<char>> {
    let t = token_index(s.devices, token);
    if t >= 0 {
        Some(s.devices[t].info.id)
    } else {
        None
    }
}

/// No other device than the record's own holds the record's token.
pub open spec fn token_unshared(ds: Seq<DeviceRecordView>, rec: DeviceRecordView) -> bool {
    rec.token is Some ==> forall|j: int|
        0 <= j < ds.len() && (#[trigger] ds[j]).info.id != rec.info.id ==> ds[j].token != rec.token
}

proof fn lemma_request_wf(
    s: StoreView,
    id: Seq<char>,
    name: Seq<char>,
    device_type: Seq<char>,
    code: Seq<char>,
    now: int,
)
    requires
        s.wf(),
    ensures
        spec_request(s, id, name, device_type, code, now).wf(),
        request_index(spec_request(s, id, name, device_type, code, now).requests, id)
            == without_request(s.requests, id).len(),
{
    lemma_without_request(s.requests, id);
    let w = without_request(s.requests, id);
    let s1 = spec_request(s, id, name, device_type, code, now);
    let rs = s1.requests;
    assert forall|i: int, j: int| 0 <= i < j < rs.len() implies (#[trigger] rs[i]).device_id != (
    #[trigger] rs[j]).device_id by {
        if j == w.len() {
            assert(w[i].device_id != id);
        } else {
            assert(w[i].device_id != w[j].device_id);
        }
    }
    assert forall|i: int| 0 <= i < rs.len() implies (#[trigger] rs[i]).expires_at
        == rs[i].created_at + PAIRING_TTL by {
        if i < w.len() {
            assert(rs[i] == w[i]);
        }
    }
    let last = w.len() as int;
    assert(0 <= last < rs.len() && rs[last].device_id == id);
    let c = request_index(rs, id);
    assert(0 <= c < rs.len() && rs[c].device_id == id);
    if c < last {
        assert(w[c].device_id != id);
    }
}

proof fn lemma_code_is_upper(t: u128)
    ensures
        ascii_upper(code_for(t)) == code_for(t),
{
    lemma_code_alphabet();
    let c = code_for(t);
    assert forall|i: int| 0 <= i < c.len() implies #[trigger] ascii_upper_char(c[i]) == c[i] by {
        let k = code_index(t, i);
        assert(0 <= k < 32);
        assert(is_code_char(code_symbol(k)));
    }
    assert(ascii_upper(c) =~= c);
}

/// Pairing round trip: the code that a request issues, quoted before the
/// request expires, is exchanged for a token that then identifies the
/// device; afterwards no code is accepted for that device, at any time,
/// until it asks again.
pub proof fn lemma_pairing_round_trip(
    s: StoreView,
    id: Seq<char>,
    name: Seq<char>,
    device_type: Seq<char>,
    entropy: u128,
    now: int,
    at: int,
    token: Seq<char>,
    other_code: Seq<char>,
    later: int,
)
    requires
        s.wf(),
        now <= at < now + PAIRING_TTL,
        token_free(spec_request(s, id, name, device_type, code_for(entropy), now), id, token),
    ensures
        confirm_matches(
            spec_request(s, id, name, device_type, code_for(entropy), now),
            id,
            code_for(entropy),
            at,
        ),
        spec_validate(
            spec_confirm(spec_request(s, id, name, device_type, code_for(entropy), now), id, at, token),
            token,
        ) == Some(id),
        !confirm_matches(
            spec_confirm(spec_request(s, id, name, device_type, code_for(entropy), now), id, at, token),
            id,
            other_code,
            later,
        ),
{
    let code = code_for(entropy);
    let s1 = spec_request(s, id, name, device_type, code, now);
    lemma_request_wf(s, id, name, device_type, code, now);
    lemma_code_is_upper(entropy);
    let s2 = spec_confirm(s1, id, at, token);
    let rq = s1.requests[request_index(s1.requests, id)];
    let rec = paired_record(s1, id, rq.name, rq.device_type, token, at);
    let ds = s1.devices;
    let ns = s2.devices;
    let d = device_index(ds, id);
    // the new record is the only one holding the token
    let pos = if d >= 0 {
        d
    } else {
        ds.len() as int
    };
    if d >= 0 {
        assert(0 <= d < ds.len() && ds[d].info.id == id);
    }
    assert(ns[pos] == rec);
    assert(0 <= pos < ns.len() && ns[pos].token == Some(token));
    let t = token_index(ns, token);
    assert(0 <= t < ns.len() && ns[t].token == Some(token));
    if t != pos {
        assert(ns[t] == ds[t]);
        let ot = token_index(ds, token);
        assert(0 <= t < ds.len() && ds[t].token == Some(token));
        assert(0 <= ot < ds.len() && ds[ot].token == Some(token));
        assert(ds[ot].info.id == id);
        if ot != t {
            if ot < t {
                assert(ds[t].token != ds[ot].token);
            } else {
                assert(ds[ot].token != ds[t].token);
            }
        }
        if d >= 0 {
            if d < t {
                assert(ds[d].info.id != ds[t].info.id);
            } else {
                assert(ds[t].info.id != ds[d].info.id);
            }
        } else {
            assert(!(0 <= t < ds.len() && ds[t].info.id == id));
        }
    }
    // the request is gone
    lemma_without_request(s1.requests, id);
    let w = s2.requests;
    if request_index(w, id) >= 0 {
        let c = request_index(w, id);
        assert(0 <= c < w.len() && w[c].device_id == id);
    }
}

/// A request is still live at `now` while it has not expired.
pub open spec fn live_at(now: int) -> spec_fn(RequestView) -> bool {
    |r: RequestView| r.expires_at > now
}

pub open spec fn spec_sweep(s: StoreView, now: int) -> StoreView {
    StoreView { requests: s.requests.filter(live_at(now)), ..s }
}

/// The public records of the paired devices (those holding a token), in
/// store order.
pub open spec fn paired_infos(ds: Seq<DeviceRecordView>) -> Seq<DeviceInfoView>
    decreases ds.len(),
{
    if ds.len() == 0 {
        Seq::empty()
    } else {
        let rest = paired_infos(ds.drop_last());
        if ds.last().token is Some {
            rest.push(ds.last().info)
        } else {
            rest
        }
    }
}

/// Applies `f` to the record of device `id`, if there is one.
pub open spec fn with_device(
    s: StoreView,
    id: Seq<char>,
    f: spec_fn(DeviceRecordView) -> DeviceRecordView,
) -> StoreView {
    let d = device_index(s.devices, id);
    if d >= 0 {
        StoreView { devices: s.devices.update(d, f(s.devices[d])), ..s }
    } else {
        s
    }
}

pub open spec fn spec_revoke(s: StoreView, id: Seq<char>) -> StoreView {
    with_device(
        s,
        id,
        |r: DeviceRecordView|
            DeviceRecordView {
                info: DeviceInfoView { status: DeviceStatus::Revoked, ..r.info },
                token: None,
                ..r
            },
    )
}

pub open spec fn spec_set_status(
    s: StoreView,
    id: Seq<char>,
    status: DeviceStatus,
    now: int,
) -> StoreView {
    with_device(
        s,
        id,
        |r: DeviceRecordView|
            DeviceRecordView { info: DeviceInfoView { status, last_seen: now, ..r.info }, ..r },
    )
}

pub open spec fn spec_telemetry(s: StoreView, id: Seq<char>, pose: Pose, now: int) -> StoreView {
    with_device(
        s,
        id,
        |r: DeviceRecordView|
            DeviceRecordView {
                info: DeviceInfoView {
                    pose,
                    status: DeviceStatus::Online,
                    last_seen: now,
                    ..r.info
                },
                ..r
            },
    )
}

pub open spec fn spec_delete_device(s: StoreView, id: Seq<char>) -> StoreView {
    let d = device_index(s.devices, id);
    if d >= 0 {
        StoreView { devices: s.devices.remove(d), ..s }
    } else {
        s
    }
}

/// Registers or refreshes a device's public record; a known device keeps its
/// token and pairing time, a new one has neither.
pub open spec fn spec_upsert(s: StoreView, info: DeviceInfoView) -> StoreView {
    let d = device_index(s.devices, info.id);
    let rec = if d >= 0 {
        DeviceRecordView { info, ..s.devices[d] }
    } else {
        DeviceRecordView { info, token: None, paired_at: 0 }
    };
    StoreView { devices: upsert_record(s.devices, rec), ..s }
}

pub open spec fn spec_save_command(s: StoreView, c: CommandView) -> StoreView {
    StoreView { commands: s.commands.push(c), ..s }
}

pub open spec fn spec_command_status(s: StoreView, id: Seq<char>, status: Seq<char>) -> StoreView {
    let c = command_index(s.commands, id);
    if c >= 0 {
        StoreView { commands: s.commands.update(c, CommandView { status, ..s.commands[c] }), ..s }
    } else {
        s
    }
}

/// Every record in a device listing belongs to a paired device.
pub proof fn lemma_listed_are_paired(ds: Seq<DeviceRecordView>)
    ensures
        forall|k: int|
            0 <= k < paired_infos(ds).len() ==> exists|j: int|
                0 <= j < ds.len() && (#[trigger] ds[j]).info == #[trigger] paired_infos(ds)[k]
                    && ds[j].token is Some,
    decreases ds.len(),
{
    if ds.len() > 0 {
        let init = ds.drop_last();
        lemma_listed_are_paired(init);
        let p = paired_infos(ds);
        assert forall|k: int| 0 <= k < p.len() implies exists|j: int|
            0 <= j < ds.len() && (#[trigger] ds[j]).info == #[trigger] p[k]
                && ds[j].token is Some by {
            if k < paired_infos(init).len() {
                let j = choose|j: int|
                    0 <= j < init.len() && (#[trigger] init[j]).info == paired_infos(init)[k]
                        && init[j].token is Some;
                assert(ds[j] == init[j]);
            } else {
                assert(ds[ds.len() - 1].info == p[k]);
            }
        }
    }
}

/// A stored request is, at any time from its creation on, either inside its
/// validity window or removed by a sweep at that time.
pub proof fn lemma_request_live_or_swept(s: StoreView, t: int, i: int)
    requires
        s.wf(),
        0 <= i < s.requests.len(),
        s.requests[i].created_at <= t,
    ensures
        s.requests[i].created_at <= t < s.requests[i].expires_at || !spec_sweep(
            s,
            t,
        ).requests.contains(s.requests[i]),
{
    broadcast use vstd::seq_lib::group_filter_ensures;

    let r = s.requests[i];
    if r.expires_at <= t && spec_sweep(s, t).requests.contains(r) {
        let f = spec_sweep(s, t).requests;
        let k = choose|k: int| 0 <= k < f.len() && f[k] == r;
        assert(live_at(t)(f[k]));
    }
}

/// A code is refused from the second its request expires on: at
/// `now == expires_at` the request no longer matches.
pub proof fn lemma_confirm_at_expiry_fails(s: StoreView, id: Seq<char>, code: Seq<char>)
    requires
        request_index(s.requests, id) >= 0,
    ensures
        !confirm_matches(s, id, code, s.requests[request_index(s.requests, id)].expires_at),
{
}

/// Newest request first: `created_at` never increases along the sequence.
pub open spec fn newest_first(v: Seq<RequestView>) -> bool {
    forall|i: int, j: int|
        0 <= i < j < v.len() ==> (#[trigger] v[i]).created_at >= (#[trigger] v[j]).created_at
}

/// Most recently seen device first: `last_seen` never increases along the
/// sequence.
pub open spec fn recent_first(v: Seq<DeviceInfoView>) -> bool {
    forall|i: int, j: int|
        0 <= i < j < v.len() ==> (#[trigger] v[i]).last_seen >= (#[trigger] v[j]).last_seen
}

/// The live requests at `now`, each exactly once, newest first.
pub open spec fn pending_listing(v: Seq<RequestView>, s: StoreView, now: int) -> bool {
    &&& v.to_multiset() == s.requests.filter(live_at(now)).to_multiset()
    &&& newest_first(v)
}

/// The paired devices, each exactly once, most recently seen first.
pub open spec fn device_listing(v: Seq<DeviceInfoView>, s: StoreView) -> bool {
    &&& v.to_multiset() == paired_infos(s.devices).to_multiset()
    &&& recent_first(v)
}

proof fn lemma_insert_multiset<A>(s: Seq<A>, p: int, x: A)
    requires
        0 <= p <= s.len(),
    ensures
        s.insert(p, x).to_multiset() =~= s.to_multiset().insert(x),
{
    broadcast use vstd::seq_lib::group_to_multiset_ensures;

    let t = s.insert(p, x);
    s.insert_ensures(p, x);
    assert(t.remove(p) =~= s);
    assert(t.remove(p).to_multiset() =~= t.to_multiset().remove(t[p]));
    assert(t.contains(x));
    assert(t.to_multiset().count(x) > 0);
}

fn sort_requests(v: Vec<PairingRequest>) -> (r: Vec<PairingRequest>)
    ensures
        r@.map_values(|q: PairingRequest| q@).to_multiset() == v@.map_values(
            |q: PairingRequest| q@,
        ).to_multiset(),
        newest_first(r@.map_values(|q: PairingRequest| q@)),
{
    broadcast use vstd::seq_lib::group_to_multiset_ensures;

    let ghost vv = v@.map_values(|q: PairingRequest| q@);
    let n = v.len();
    let mut out: Vec<PairingRequest> = Vec::new();
    let mut i: usize = 0;
    while i < n
        invariant
            n == v@.len(),
            vv == v@.map_values(|q: PairingRequest| q@),
            i <= n,
            out@.map_values(|q: PairingRequest| q@).to_multiset() == vv.subrange(
                0,
                i as int,
            ).to_multiset(),
            newest_first(out@.map_values(|q: PairingRequest| q@)),
        decreases n - i,
    {
        let x = v[i].copy();
        let ghost ov = out@.map_values(|q: PairingRequest| q@);
        let m = out.len();
        let mut p: usize = 0;
        while p < m && out[p].created_at >= x.created_at
            invariant
                m == out@.len(),
                ov == out@.map_values(|q: PairingRequest| q@),
                p <= m,
                forall|k: int| 0 <= k < p ==> (#[trigger] ov[k]).created_at >= x.created_at,
            decreases m - p,
        {
            p = p + 1;
        }
        out.insert(p, x);
        proof {
            let nv = out@.map_values(|q: PairingRequest| q@);
            assert(nv =~= ov.insert(p as int, vv[i as int]));
            ov.insert_ensures(p as int, vv[i as int]);
            lemma_insert_multiset(ov, p as int, vv[i as int]);
            assert(vv.subrange(0, i + 1) =~= vv.subrange(0, i as int).push(vv[i as int]));
            vstd::seq_lib::to_multiset_build(vv.subrange(0, i as int), vv[i as int]);
            assert(nv.to_multiset() =~= vv.subrange(0, i + 1).to_multiset());
            assert forall|a: int, b: int| 0 <= a < b < nv.len() implies (#[trigger] nv[a]).created_at
                >= (#[trigger] nv[b]).created_at by {
                if b < p {
                    assert(nv[a] == ov[a] && nv[b] == ov[b]);
                } else if b == p {
                    assert(nv[a] == ov[a]);
                } else if a == p {
                    assert(nv[b] == ov[b - 1]);
                    if p < m {
                        assert(ov[p as int].created_at < vv[i as int].created_at);
                        if b - 1 > p {
                            assert(ov[p as int].created_at >= ov[b - 1].created_at);
                        }
                    }
                } else if a < p {
                    assert(nv[a] == ov[a] && nv[b] == ov[b - 1]);
                } else {
                    assert(nv[a] == ov[a - 1] && nv[b] == ov[b - 1]);
                }
            }
        }
        i = i + 1;
    }
    assert(vv.subrange(0, n as int) =~= vv);
    out
}

fn sort_devices(v: Vec<DeviceInfo>) -> (r: Vec<DeviceInfo>)
    ensures
        r@.map_values(|d: DeviceInfo| d@).to_multiset() == v@.map_values(
            |d: DeviceInfo| d@,
        ).to_multiset(),
        recent_first(r@.map_values(|d: DeviceInfo| d@)),
{
    broadcast use vstd::seq_lib::group_to_multiset_ensures;

    let ghost vv = v@.map_values(|d: DeviceInfo| d@);
    let n = v.len();
    let mut out: Vec<DeviceInfo> = Vec::new();
    let mut i: usize = 0;
    while i < n
        invariant
            n == v@.len(),
            vv == v@.map_values(|d: DeviceInfo| d@),
            i <= n,
            out@.map_values(|d: DeviceInfo| d@).to_multiset() == vv.subrange(
                0,
                i as int,
            ).to_multiset(),
            recent_first(out@.map_values(|d: DeviceInfo| d@)),
        decreases n - i,
    {
        let x = v[i].copy();
        let ghost ov = out@.map_values(|d: DeviceInfo| d@);
        let m = out.len();
        let mut p: usize = 0;
        while p < m && out[p].last_seen >= x.last_seen
            invariant
                m == out@.len(),
                ov == out@.map_values(|d: DeviceInfo| d@),
                p <= m,
                forall|k: int| 0 <= k < p ==> (#[trigger] ov[k]).last_seen >= x.last_seen,
            decreases m - p,
        {
            p = p + 1;
        }
        out.insert(p, x);
        proof {
            let nv = out@.map_values(|d: DeviceInfo| d@);
            assert(nv =~= ov.insert(p as int, vv[i as int]));
            ov.insert_ensures(p as int, vv[i as int]);
            lemma_insert_multiset(ov, p as int, vv[i as int]);
            assert(vv.subrange(0, i + 1) =~= vv.subrange(0, i as int).push(vv[i as int]));
            vstd::seq_lib::to_multiset_build(vv.subrange(0, i as int), vv[i as int]);
            assert(nv.to_multiset() =~= vv.subrange(0, i + 1).to_multiset());
            assert forall|a: int, b: int| 0 <= a < b < nv.len() implies (#[trigger] nv[a]).last_seen
                >= (#[trigger] nv[b]).last_seen by {
                if b < p {
                    assert(nv[a] == ov[a] && nv[b] == ov[b]);
                } else if b == p {
                    assert(nv[a] == ov[a]);
                } else if a == p {
                    assert(nv[b] == ov[b - 1]);
                    if p < m {
                        assert(ov[p as int].last_seen < vv[i as int].last_seen);
                        if b - 1 > p {
                            assert(ov[p as int].last_seen >= ov[b - 1].last_seen);
                        }
                    }
                } else if a < p {
                    assert(nv[a] == ov[a] && nv[b] == ov[b - 1]);
                } else {
                    assert(nv[a] == ov[a - 1] && nv[b] == ov[b - 1]);
                }
            }
        }
        i = i + 1;
    }
    assert(vv.subrange(0, n as int) =~= vv);
    out
}

/// A request issued at `now` is inside its window for every `t` from `now`
/// up to 300 seconds later, and from then on a sweep at `t` removes it.
pub proof fn lemma_request_window(
    s: StoreView,
    id: Seq<char>,
    name: Seq<char>,
    device_type: Seq<char>,
    code: Seq<char>,
    now: int,
    t: int,
)
    requires
        s.wf(),
        now <= t,
    ensures
        ({
            let s1 = spec_request(s, id, name, device_type, code, now);
            let r = s1.requests[request_index(s1.requests, id)];
            &&& r.created_at == now
            &&& r.expires_at == now + PAIRING_TTL
            &&& t < now + PAIRING_TTL ==> r.created_at <= t < r.expires_at && spec_sweep(
                s1,
                t,
            ).requests.contains(r)
            &&& t >= now + PAIRING_TTL ==> !spec_sweep(s1, t).requests.contains(r)
        }),
{
    broadcast use vstd::seq_lib::group_filter_ensures;

    lemma_request_wf(s, id, name, device_type, code, now);
    let s1 = spec_request(s, id, name, device_type, code, now);
    let k = request_index(s1.requests, id);
    let r = s1.requests[k];
    if t < now + PAIRING_TTL {
        assert(live_at(t)(s1.requests[k]));
    } else {
        lemma_request_live_or_swept(s1, t, k);
    }
}

proof fn lemma_paired_infos_ids(ds: Seq<DeviceRecordView>)
    requires
        forall|i: int, j: int| 0 <= i < j < ds.len() ==> (#[trigger] ds[i]).info.id != (#[trigger] ds[j]).info.id,
    ensures
        forall|a: int, b: int|
            0 <= a < b < paired_infos(ds).len() ==> (#[trigger] paired_infos(ds)[a]).id != (
            #[trigger] paired_infos(ds)[b]).id,
        forall|j: int|
            0 <= j < ds.len() && (#[trigger] ds[j]).token is Some ==> paired_infos(ds).contains(
                ds[j].info,
            ),
    decreases ds.len(),
{
    if ds.len() > 0 {
        let init = ds.drop_last();
        assert forall|i: int, j: int| 0 <= i < j < init.len() implies (#[trigger] init[i]).info.id
            != (#[trigger] init[j]).info.id by {
            assert(init[i] == ds[i] && init[j] == ds[j]);
        }
        lemma_paired_infos_ids(init);
        lemma_listed_are_paired(init);
        let rest = paired_infos(init);
        let p = paired_infos(ds);
        let n = ds.len() - 1;
        assert forall|a: int, b: int| 0 <= a < b < p.len() implies (#[trigger] p[a]).id != (
        #[trigger] p[b]).id by {
            assert(p[a] == rest[a]);
            if b < rest.len() {
                assert(p[b] == rest[b]);
            } else {
                let j = choose|j: int|
                    0 <= j < init.len() && (#[trigger] init[j]).info == paired_infos(init)[a]
                        && init[j].token is Some;
                assert(ds[j] == init[j]);
                assert(ds[j].info.id != ds[n].info.id);
            }
        }
        assert forall|j: int| 0 <= j < ds.len() && (#[trigger] ds[j]).token is Some implies p.contains(
            ds[j].info,
        ) by {
            if j < n {
                assert(init[j] == ds[j]);
                let k = choose|k: int| 0 <= k < rest.len() && rest[k] == init[j].info;
                assert(p[k] == rest[k]);
            } else {
                assert(p[p.len() - 1] == ds[j].info);
            }
        }
    }
}

/// A device listing names every paired device, each exactly once, and
/// nothing else.
pub proof fn lemma_device_listing_exact(v: Seq<DeviceInfoView>, s: StoreView)
    requires
        s.wf(),
        device_listing(v, s),
    ensures
        forall|a: int, b: int| 0 <= a < b < v.len() ==> (#[trigger] v[a]).id != (#[trigger] v[b]).id,
        forall|j: int|
            0 <= j < s.devices.len() && (#[trigger] s.devices[j]).token is Some ==> v.contains(
                s.devices[j].info,
            ),
        forall|a: int|
            0 <= a < v.len() ==> exists|j: int|
                0 <= j < s.devices.len() && (#[trigger] s.devices[j]).info == #[trigger] v[a]
                    && s.devices[j].token is Some,
{
    broadcast use vstd::seq_lib::group_to_multiset_ensures;

    let ds = s.devices;
    let p = paired_infos(ds);
    lemma_paired_infos_ids(ds);
    lemma_listed_are_paired(ds);
    assert(p.no_duplicates()) by {
        assert forall|i: int, j: int| 0 <= i < p.len() && 0 <= j < p.len() && i != j implies p[i]
            != p[j] by {
            if i < j {
                assert(p[i].id != p[j].id);
            } else {
                assert(p[j].id != p[i].id);
            }
        }
    }
    p.lemma_multiset_has_no_duplicates();
    v.lemma_multiset_has_no_duplicates_conv();
    assert forall|a: int| 0 <= a < v.len() implies p.contains(#[trigger] v[a]) by {
        assert(v.contains(v[a]));
        assert(v.to_multiset().count(v[a]) > 0);
    }
    assert forall|a: int, b: int| 0 <= a < b < v.len() implies (#[trigger] v[a]).id != (
    #[trigger] v[b]).id by {
        assert(p.contains(v[a]));
        assert(p.contains(v[b]));
        let x = choose|x: int| 0 <= x < p.len() && p[x] == v[a];
        let y = choose|y: int| 0 <= y < p.len() && p[y] == v[b];
        assert(v[a] != v[b]);
        if x < y {
            assert(p[x].id != p[y].id);
        } else if y < x {
            assert(p[y].id != p[x].id);
        }
    }
    assert forall|j: int| 0 <= j < ds.len() && (#[trigger] ds[j]).token is Some implies v.contains(
        ds[j].info,
    ) by {
        assert(p.contains(ds[j].info));
        assert(p.to_multiset().count(ds[j].info) > 0);
    }
    assert forall|a: int| 0 <= a < v.len() implies exists|j: int|
        0 <= j < ds.len() && (#[trigger] ds[j]).info == #[trigger] v[a] && ds[j].token is Some by {
        assert(p.contains(v[a]));
        let x = choose|x: int| 0 <= x < p.len() && p[x] == v[a];
        let j = choose|j: int| 0 <= j < ds.len() && (#[trigger] ds[j]).info == #[trigger] p[x] && ds[j].token is Some;
    }
}

proof fn lemma_without_request(rs: Seq<RequestView>, id: Seq<char>)
    requires
        forall|i: int, j: int|
            0 <= i < j < rs.len() ==> (#[trigger] rs[i]).device_id != (#[trigger] rs[j]).device_id,
        forall|i: int|
            0 <= i < rs.len() ==> (#[trigger] rs[i]).expires_at == rs[i].created_at + PAIRING_TTL,
    ensures
        forall|k: int|
            0 <= k < without_request(rs, id).len() ==> (#[trigger] without_request(
                rs,
                id,
            )[k]).device_id != id,
        forall|i: int, j: int|
            0 <= i < j < without_request(rs, id).len() ==> (#[trigger] without_request(
                rs,
                id,
            )[i]).device_id != (#[trigger] without_request(rs, id)[j]).device_id,
        forall|i: int|
            0 <= i < without_request(rs, id).len() ==> (#[trigger] without_request(
                rs,
                id,
            )[i]).expires_at == without_request(rs, id)[i].created_at + PAIRING_TTL,
{
    let w = without_request(rs, id);
    let x = request_index(rs, id);
    if x >= 0 {
        assert forall|k: int| 0 <= k < w.len() implies (#[trigger] w[k]).device_id != id by {
            if k < x {
                assert(w[k] == rs[k]);
            } else {
                assert(w[k] == rs[k + 1]);
            }
        }
        assert forall|i: int, j: int| 0 <= i < j < w.len() implies (#[trigger] w[i]).device_id
            != (#[trigger] w[j]).device_id by {
            let i2 = if i < x {
                i
            } else {
                i + 1
            };
            let j2 = if j < x {
                j
            } else {
                j + 1
            };
            assert(w[i] == rs[i2]);
            assert(w[j] == rs[j2]);
        }
        assert forall|i: int| 0 <= i < w.len() implies (#[trigger] w[i]).expires_at
            == w[i].created_at + PAIRING_TTL by {
            if i < x {
                assert(w[i] == rs[i]);
            } else {
                assert(w[i] == rs[i + 1]);
            }
        }
    }
}

impl StateDb {
    /// An empty store.
    pub fn new() -> (r: StateDb)
        ensures
            r@.wf(),
            r@.requests.len() == 0,
            r@.devices.len() == 0,
            r@.commands.len() == 0,
    {
        StateDb { requests: Vec::new(), devices: Vec::new(), commands: Vec::new() }
    }

    fn find_request(&self, id: &str) -> (r: Option<usize>)
        requires
            self@.wf(),
        ensures
            r matches Some(i) ==> i as int == request_index(self@.requests, id@) && i
                < self.requests@.len(),
            r is None ==> request_index(self@.requests, id@) == -1,
    {
        let n = self.requests.len();
        let mut i: usize = 0;
        while i < n
            invariant
                self@.wf(),
                n == self.requests@.len(),
                i <= n,
                forall|j: int| 0 <= j < i ==> (#[trigger] self@.requests[j]).device_id != id@,
            decreases n - i,
        {
            if str_eq(self.requests[i].device_id.as_str(), id) {
                proof {
                    let rs = self@.requests;
                    assert(rs[i as int].device_id == id@);
                    assert(0 <= i < rs.len() && rs[i as int].device_id == id@);
                    let c = request_index(rs, id@);
                    assert(0 <= c < rs.len() && rs[c].device_id == id@);
                    if c != i as int {
                        if c < i {
                            assert(rs[c].device_id != rs[i as int].device_id);
                        } else {
                            assert(rs[i as int].device_id != rs[c].device_id);
                        }
                    }
                }
                return Some(i);
            }
            i = i + 1;
        }
        None
    }

    /// Dismisses the pending request of a device, if there is one.
    pub fn delete_pairing_request(&mut self, device_id: &str)
        requires
            old(self)@.wf(),
        ensures
            final(self)@ == spec_dismiss(old(self)@, device_id@),
            final(self)@.wf(),
    {
        proof {
            lemma_without_request(self@.requests, device_id@);
        }
        match self.find_request(device_id) {
            Some(i) => {
                let ghost before = self.requests@;
                self.requests.remove(i);
                assert(self@.requests =~= before.map_values(|r: PairingRequest| r@).remove(
                    i as int,
                ));
            },
            None => {},
        }
        assert(self@ =~= spec_dismiss(old(self)@, device_id@));
    }

    /// Issues a fresh code for a device, replacing any request it had; the
    /// request expires `PAIRING_TTL` seconds after `now`.
    pub fn create_pairing_request(
        &mut self,
        device_id: &str,
        name: &str,
        device_type: &str,
        now: i64,
        entropy: u128,
    ) -> (code: String)
        requires
            old(self)@.wf(),
            now <= i64::MAX - PAIRING_TTL,
        ensures
            code@ == code_for(entropy),
            final(self)@ == spec_request(
                old(self)@,
                device_id@,
                name@,
                device_type@,
                code@,
                now as int,
            ),
            final(self)@.wf(),
    {
        let code = generate_code(entropy);
        self.delete_pairing_request(device_id);
        let ghost mid = self@;
        self.requests.push(
            PairingRequest {
                device_id: String::from_str(device_id),
                name: String::from_str(name),
                device_type: String::from_str(device_type),
                code: code.clone(),
                expires_at: now + PAIRING_TTL,
                created_at: now,
            },
        );
        proof {
            lemma_without_request(old(self)@.requests, device_id@);
            assert(self@.requests =~= mid.requests.push(self.requests@.last()@));
        }
        assert(self@ =~= spec_request(
            old(self)@,
            device_id@,
            name@,
            device_type@,
            code@,
            now as int,
        ));
        code
    }
    fn find_device(&self, id: &str) -> (r: Option<usize>)
        requires
            self@.wf(),
        ensures
            r matches Some(i) ==> i as int == device_index(self@.devices, id@) && i
                < self.devices@.len(),
            r is None ==> device_index(self@.devices, id@) == -1,
    {
        let n = self.devices.len();
        let mut i: usize = 0;
        while i < n
            invariant
                self@.wf(),
                n == self.devices@.len(),
                i <= n,
                forall|j: int| 0 <= j < i ==> (#[trigger] self@.devices[j]).info.id != id@,
            decreases n - i,
        {
            if str_eq(self.devices[i].info.id.as_str(), id) {
                proof {
                    let ds = self@.devices;
                    assert(0 <= i < ds.len() && ds[i as int].info.id == id@);
                    let c = device_index(ds, id@);
                    assert(0 <= c < ds.len() && ds[c].info.id == id@);
                    if c > i {
                        assert(ds[i as int].info.id != ds[c].info.id);
                    }
                }
                return Some(i);
            }
            i = i + 1;
        }
        None
    }

    fn find_token(&self, token: &str) -> (r: Option<usize>)
        requires
            self@.wf(),
        ensures
            r matches Some(i) ==> i as int == token_index(self@.devices, token@) && i
                < self.devices@.len(),
            r is None ==> token_index(self@.devices, token@) == -1,
    {
        let n = self.devices.len();
        let mut i: usize = 0;
        while i < n
            invariant
                self@.wf(),
                n == self.devices@.len(),
                i <= n,
                forall|j: int|
                    0 <= j < i ==> (#[trigger] self@.devices[j]).token != Some(token@),
            decreases n - i,
        {
            let hit = match &self.devices[i].token {
                Some(t) => str_eq(t.as_str(), token),
                None => false,
            };
            if hit {
                proof {
                    let ds = self@.devices;
                    assert(0 <= i < ds.len() && ds[i as int].token == Some(token@));
                    let c = token_index(ds, token@);
                    assert(0 <= c < ds.len() && ds[c].token == Some(token@));
                    if c > i {
                        assert(ds[c].token != ds[i as int].token);
                    }
                }
                return Some(i);
            }
            i = i + 1;
        }
        None
    }

    fn put_device(&mut self, rec: DeviceRecord)
        requires
            old(self)@.wf(),
            token_unshared(old(self)@.devices, rec@),
        ensures
            final(self)@ == (StoreView {
                devices: upsert_record(old(self)@.devices, rec@),
                ..old(self)@
            }),
            final(self)@.wf(),
    {
        let ghost ds = old(self)@.devices;
        let ghost rv = rec@;
        match self.find_device(rec.info.id.as_str()) {
            Some(i) => {
                self.devices[i] = rec;
                assert(self@.devices =~= ds.update(i as int, rv));
                proof {
                    let ns = self@.devices;
                    assert forall|a: int, b: int| 0 <= a < b < ns.len() implies (
                    #[trigger] ns[a]).info.id != (#[trigger] ns[b]).info.id by {
                        if a != i && b != i {
                            assert(ds[a].info.id != ds[b].info.id);
                        }
                    }
                    assert forall|a: int, b: int|
                        0 <= a < b < ns.len() && (#[trigger] ns[a]).token is Some implies (
                        #[trigger] ns[b]).token != ns[a].token by {
                        if a != i && b != i {
                            assert(ds[b].token != ds[a].token);
                        } else if a == i {
                            assert(ds[b].info.id != ds[a].info.id);
                        } else {
                            assert(ds[a].info.id != ds[b].info.id);
                        }
                    }
                }
            },
            None => {
                self.devices.push(rec);
                assert(self@.devices =~= ds.push(rv));
                proof {
                    let ns = self@.devices;
                    let last = ds.len() as int;
                    assert forall|a: int, b: int| 0 <= a < b < ns.len() implies (
                    #[trigger] ns[a]).info.id != (#[trigger] ns[b]).info.id by {
                        if b == last {
                            assert(ds[a].info.id != rv.info.id);
                        } else {
                            assert(ds[a].info.id != ds[b].info.id);
                        }
                    }
                    assert forall|a: int, b: int|
                        0 <= a < b < ns.len() && (#[trigger] ns[a]).token is Some implies (
                        #[trigger] ns[b]).token != ns[a].token by {
                        if b == last {
                            assert(ds[a].info.id != rv.info.id);
                        } else {
                            assert(ds[b].token != ds[a].token);
                        }
                    }
                }
            },
        }
        assert(self@ =~= (StoreView { devices: upsert_record(ds, rv), ..old(self)@ }));
    }

    /// Exchanges a valid code for a token. Succeeds iff a request for the
    /// device quotes the code (case-insensitively) and has not expired at
    /// `now`, and no other device holds `token`. On success the device is
    /// stored as paired with `token` and its request is gone; on failure the
    /// store is unchanged.
    pub fn confirm_pairing(&mut self, device_id: &str, code: &str, now: i64, token: String) -> (r:
        Result<String, String>)
        requires
            old(self)@.wf(),
        ensures
            r is Ok <==> confirm_matches(old(self)@, device_id@, code@, now as int) && token_free(
                old(self)@,
                device_id@,
                token@,
            ),
            r matches Ok(t) ==> t@ == token@ && final(self)@ == spec_confirm(
                old(self)@,
                device_id@,
                now as int,
                token@,
            ),
            r is Err ==> final(self)@ == old(self)@,
            !confirm_matches(old(self)@, device_id@, code@, now as int) ==> (r matches Err(e)
                && e@ == "Invalid or expired code"@),
            confirm_matches(old(self)@, device_id@, code@, now as int) && !token_free(
                old(self)@,
                device_id@,
                token@,
            ) ==> (r matches Err(e) && e@ == "Token already in use"@),
            final(self)@.wf(),
    {
        let ri = match self.find_request(device_id) {
            Some(i) => i,
            None => {
                return Err(String::from_str("Invalid or expired code"));
            },
        };
        if !eq_upper(self.requests[ri].code.as_str(), code) || self.requests[ri].expires_at
            <= now {
            return Err(String::from_str("Invalid or expired code"));
        }
        match self.find_token(token.as_str()) {
            Some(t) => {
                if !str_eq(self.devices[t].info.id.as_str(), device_id) {
                    return Err(String::from_str("Token already in use"));
                }
            },
            None => {},
        }
        let ghost s0 = self@;
        let name = self.requests[ri].name.clone();
        let device_type = self.requests[ri].device_type.clone();
        let rec = match self.find_device(device_id) {
            Some(d) => {
                let old_info = &self.devices[d].info;
                DeviceRecord {
                    info: DeviceInfo {
                        id: old_info.id.clone(),
                        name,
                        device_type,
                        status: DeviceStatus::Offline,
                        pose: old_info.pose,
                        last_seen: old_info.last_seen,
                    },
                    token: Some(token.clone()),
                    paired_at: now,
                }
            },
            None => DeviceRecord {
                info: DeviceInfo {
                    id: String::from_str(device_id),
                    name,
                    device_type,
                    status: DeviceStatus::Offline,
                    pose: Pose {
                        latitude: 0,
                        longitude: 0,
                        altitude: 0,
                        heading: 0,
                        speed: 0,
                        battery: FULL_BATTERY,
                    },
                    last_seen: now,
                },
                token: Some(token.clone()),
                paired_at: now,
            },
        };
        proof {
            let rq = s0.requests[request_index(s0.requests, device_id@)];
            assert(rec@ == paired_record(s0, device_id@, rq.name, rq.device_type, token@, now as int));
            let ds = s0.devices;
            let t = token_index(ds, token@);
            assert forall|j: int|
                0 <= j < ds.len() && (#[trigger] ds[j]).info.id != rec@.info.id implies ds[j].token
                != rec@.token by {
                if ds[j].token == rec@.token {
                    assert(0 <= j < ds.len() && ds[j].token == Some(token@));
                    assert(0 <= t < ds.len() && ds[t].token == Some(token@));
                    if t < j {
                        assert(ds[j].token != ds[t].token);
                    } else if j < t {
                        assert(ds[t].token != ds[j].token);
                    }
                }
            }
        }
        self.put_device(rec);
        self.delete_pairing_request(device_id);
        Ok(token)
    }

    /// The device that a token identifies, if any.
    pub fn validate_token(&self, token: &str) -> (r: Option<String>)
        requires
            self@.wf(),
        ensures
            match r {
                Some(id) => spec_validate(self@, token@) == Some(id@),
                None => spec_validate(self@, token@) is None,
            },
    {
        match self.find_token(token) {
            Some(t) => Some(self.devices[t].info.id.clone()),
            None => None,
        }
    }
    fn replace_device(&mut self, d: usize, rec: DeviceRecord)
        requires
            old(self)@.wf(),
            d < old(self)@.devices.len(),
            rec@.info.id == old(self)@.devices[d as int].info.id,
            rec@.token is None || rec@.token == old(self)@.devices[d as int].token,
        ensures
            final(self)@ == (StoreView {
                devices: old(self)@.devices.update(d as int, rec@),
                ..old(self)@
            }),
            final(self)@.wf(),
    {
        let ghost ds = old(self)@.devices;
        let ghost rv = rec@;
        self.devices[d] = rec;
        assert(self@.devices =~= ds.update(d as int, rv));
        proof {
            let ns = self@.devices;
            let i = d as int;
            assert forall|a: int, b: int| 0 <= a < b < ns.len() implies (#[trigger] ns[a]).info.id
                != (#[trigger] ns[b]).info.id by {
                assert(ds[a].info.id != ds[b].info.id);
            }
            assert forall|a: int, b: int|
                0 <= a < b < ns.len() && (#[trigger] ns[a]).token is Some implies (
                #[trigger] ns[b]).token != ns[a].token by {
                if a != i && b != i {
                    assert(ds[b].token != ds[a].token);
                } else if a == i {
                    assert(ds[a].token is Some);
                    assert(ds[b].token != ds[a].token);
                } else {
                    if ns[b].token is Some {
                        assert(ds[b].token is Some);
                        assert(ds[b].token != ds[a].token);
                    }
                }
            }
        }
        assert(self@ =~= (StoreView { devices: ds.update(d as int, rv), ..old(self)@ }));
    }

    fn copy_record(&self, d: usize) -> (r: DeviceRecord)
        requires
            d < self.devices@.len(),
        ensures
            r@ == self@.devices[d as int],
    {
        let cur = &self.devices[d];
        DeviceRecord {
            info: cur.info.copy(),
            token: match &cur.token {
                Some(t) => Some(t.clone()),
                None => None,
            },
            paired_at: cur.paired_at,
        }
    }

    /// Withdraws a device's token and marks it revoked; it leaves the
    /// listing of paired devices.
    pub fn revoke_device(&mut self, device_id: &str)
        requires
            old(self)@.wf(),
        ensures
            final(self)@ == spec_revoke(old(self)@, device_id@),
            final(self)@.wf(),
    {
        match self.find_device(device_id) {
            Some(d) => {
                let mut rec = self.copy_record(d);
                rec.token = None;
                rec.info.status = DeviceStatus::Revoked;
                self.replace_device(d, rec);
            },
            None => {},
        }
    }

    /// Sets a device's status and last-seen time.
    pub fn set_status(&mut self, device_id: &str, status: DeviceStatus, now: i64)
        requires
            old(self)@.wf(),
        ensures
            final(self)@ == spec_set_status(old(self)@, device_id@, status, now as int),
            final(self)@.wf(),
    {
        match self.find_device(device_id) {
            Some(d) => {
                let mut rec = self.copy_record(d);
                rec.info.status = status;
                rec.info.last_seen = now;
                self.replace_device(d, rec);
            },
            None => {},
        }
    }

    /// Records a position report: the pose, online, seen at `now`.
    pub fn update_telemetry(&mut self, device_id: &str, pose: Pose, now: i64)
        requires
            old(self)@.wf(),
        ensures
            final(self)@ == spec_telemetry(old(self)@, device_id@, pose, now as int),
            final(self)@.wf(),
    {
        match self.find_device(device_id) {
            Some(d) => {
                let mut rec = self.copy_record(d);
                rec.info.pose = pose;
                rec.info.status = DeviceStatus::Online;
                rec.info.last_seen = now;
                self.replace_device(d, rec);
            },
            None => {},
        }
    }

    /// Registers or refreshes a device's public record.
    pub fn upsert_device(&mut self, device: &DeviceInfo)
        requires
            old(self)@.wf(),
        ensures
            final(self)@ == spec_upsert(old(self)@, device@),
            final(self)@.wf(),
    {
        match self.find_device(device.id.as_str()) {
            Some(d) => {
                let mut rec = self.copy_record(d);
                rec.info = device.copy();
                self.replace_device(d, rec);
            },
            None => {
                let rec = DeviceRecord { info: device.copy(), token: None, paired_at: 0 };
                self.put_device(rec);
            },
        }
    }

    /// Removes a device entirely.
    pub fn delete_device(&mut self, device_id: &str)
        requires
            old(self)@.wf(),
        ensures
            final(self)@ == spec_delete_device(old(self)@, device_id@),
            final(self)@.wf(),
    {
        match self.find_device(device_id) {
            Some(d) => {
                let ghost ds = self@.devices;
                self.devices.remove(d);
                assert(self@.devices =~= ds.remove(d as int));
                proof {
                    let ns = self@.devices;
                    let x = d as int;
                    assert forall|a: int, b: int| 0 <= a < b < ns.len() implies (
                    #[trigger] ns[a]).info.id != (#[trigger] ns[b]).info.id by {
                        let a2 = if a < x {
                            a
                        } else {
                            a + 1
                        };
                        let b2 = if b < x {
                            b
                        } else {
                            b + 1
                        };
                        assert(ns[a] == ds[a2]);
                        assert(ns[b] == ds[b2]);
                    }
                    assert forall|a: int, b: int|
                        0 <= a < b < ns.len() && (#[trigger] ns[a]).token is Some implies (
                        #[trigger] ns[b]).token != ns[a].token by {
                        let a2 = if a < x {
                            a
                        } else {
                            a + 1
                        };
                        let b2 = if b < x {
                            b
                        } else {
                            b + 1
                        };
                        assert(ns[a] == ds[a2]);
                        assert(ns[b] == ds[b2]);
                    }
                }
            },
            None => {},
        }
        assert(self@ =~= spec_delete_device(old(self)@, device_id@));
    }

    /// The public record of a device, if it is known.
    pub fn get_device(&self, device_id: &str) -> (r: Option<DeviceInfo>)
        requires
            self@.wf(),
        ensures
            match r {
                Some(info) => device_index(self@.devices, device_id@) >= 0 && info@
                    == self@.devices[device_index(self@.devices, device_id@)].info,
                None => device_index(self@.devices, device_id@) < 0,
            },
    {
        match self.find_device(device_id) {
            Some(d) => Some(self.devices[d].info.copy()),
            None => None,
        }
    }

    fn paired_devices(&self) -> (r: Vec<DeviceInfo>)
        ensures
            r@.map_values(|d: DeviceInfo| d@) == paired_infos(self@.devices),
    {
        let n = self.devices.len();
        let mut out: Vec<DeviceInfo> = Vec::new();
        let mut i: usize = 0;
        while i < n
            invariant
                n == self.devices@.len(),
                i <= n,
                out@.map_values(|d: DeviceInfo| d@) == paired_infos(
                    self@.devices.subrange(0, i as int),
                ),
            decreases n - i,
        {
            let ghost prev = out@;
            let ghost ds = self@.devices;
            assert(ds.subrange(0, i + 1).drop_last() =~= ds.subrange(0, i as int));
            if self.devices[i].token.is_some() {
                out.push(self.devices[i].info.copy());
                assert(out@.map_values(|d: DeviceInfo| d@) =~= prev.map_values(
                    |d: DeviceInfo| d@,
                ).push(ds[i as int].info));
            }
            i = i + 1;
        }
        assert(self@.devices.subrange(0, n as int) =~= self@.devices);
        out
    }

    /// The requests that are still live at `now`, in store order.
    fn live_requests(&self, now: i64) -> (r: Vec<PairingRequest>)
        requires
            self@.wf(),
        ensures
            r@.map_values(|q: PairingRequest| q@) == self@.requests.filter(live_at(now as int)),
            forall|i: int, j: int|
                0 <= i < j < r@.len() ==> (#[trigger] r@[i]).device_id@ != (#[trigger] r@[j]).device_id@,
            forall|i: int| 0 <= i < r@.len() ==> self@.requests.contains(#[trigger] r@[i]@),
    {
        let n = self.requests.len();
        let ghost rs = self@.requests;
        let ghost pred = live_at(now as int);
        let mut out: Vec<PairingRequest> = Vec::new();
        let mut i: usize = 0;
        while i < n
            invariant
                self@.wf(),
                rs == self@.requests,
                pred == live_at(now as int),
                n == rs.len(),
                i <= n,
                out@.map_values(|q: PairingRequest| q@) == rs.subrange(0, i as int).filter(pred),
                forall|a: int| 0 <= a < out@.len() ==> exists|j: int|
                    0 <= j < i && rs[j] == (#[trigger] out@[a])@,
                forall|a: int, b: int|
                    0 <= a < b < out@.len() ==> (#[trigger] out@[a]).device_id@ != (
                    #[trigger] out@[b]).device_id@,
            decreases n - i,
        {
            let ghost prev = out@;
            proof {
                rs.subrange(0, i as int).lemma_filter_push(rs[i as int], pred);
                assert(rs.subrange(0, i + 1) =~= rs.subrange(0, i as int).push(rs[i as int]));
            }
            if self.requests[i].expires_at > now {
                let q = self.requests[i].copy();
                out.push(q);
                assert(out@.map_values(|q: PairingRequest| q@) =~= prev.map_values(
                    |q: PairingRequest| q@,
                ).push(rs[i as int]));
                proof {
                    assert forall|a: int, b: int| 0 <= a < b < out@.len() implies (
                    #[trigger] out@[a]).device_id@ != (#[trigger] out@[b]).device_id@ by {
                        if b == prev.len() {
                            let j = choose|j: int| 0 <= j < i && #[trigger] rs[j] == prev[a]@;
                            assert(out@[a] == prev[a]);
                            assert(rs[j].device_id != rs[i as int].device_id);
                        } else {
                            assert(out@[a] == prev[a]);
                            assert(out@[b] == prev[b]);
                        }
                    }
                    assert forall|a: int| 0 <= a < out@.len() implies exists|j: int|
                        0 <= j < i + 1 && rs[j] == (#[trigger] out@[a])@ by {
                        if a == prev.len() {
                            assert(rs[i as int] == out@[a]@);
                        } else {
                            assert(out@[a] == prev[a]);
                            let j = choose|j: int| 0 <= j < i && #[trigger] rs[j] == prev[a]@;
                            assert(rs[j] == out@[a]@);
                        }
                    }
                }
            }
            i = i + 1;
        }
        assert(rs.subrange(0, n as int) =~= rs);
        assert forall|a: int| 0 <= a < out@.len() implies self@.requests.contains(
            #[trigger] out@[a]@,
        ) by {
            let j = choose|j: int| 0 <= j < n && #[trigger] rs[j] == out@[a]@;
            assert(self@.requests[j] == out@[a]@);
        }
        out
    }

    /// The live pairing requests at `now`, newest first.
    pub fn get_pending_pairing_requests(&self, now: i64) -> (r: Vec<PairingRequest>)
        requires
            self@.wf(),
        ensures
            pending_listing(r@.map_values(|q: PairingRequest| q@), self@, now as int),
    {
        sort_requests(self.live_requests(now))
    }

    /// The public records of all paired devices, most recently seen first.
    pub fn get_all_devices(&self) -> (r: Vec<DeviceInfo>)
        ensures
            device_listing(r@.map_values(|d: DeviceInfo| d@), self@),
    {
        sort_devices(self.paired_devices())
    }

    /// Drops every request that has expired at `now` (`expires_at <= now`)
    /// and says how many went.
    pub fn cleanup_expired_requests(&mut self, now: i64) -> (r: usize)
        requires
            old(self)@.wf(),
        ensures
            final(self)@ == spec_sweep(old(self)@, now as int),
            r == old(self)@.requests.len() - final(self)@.requests.len(),
            final(self)@.wf(),
            forall|i: int|
                0 <= i < final(self)@.requests.len() ==> (#[trigger] final(self)@.requests[i]).expires_at
                    > now,
    {
        let before = self.requests.len();
        let live = self.live_requests(now);
        proof {
            broadcast use vstd::seq_lib::group_filter_ensures;

            let rs = old(self)@.requests;
            assert(rs.filter(live_at(now as int)).len() <= rs.len());
        }
        let ghost rs = old(self)@.requests;
        self.requests = live;
        proof {
            let nr = self@.requests;
            assert forall|i: int| 0 <= i < nr.len() implies (#[trigger] nr[i]).expires_at
                == nr[i].created_at + PAIRING_TTL by {
                let q = self.requests@[i];
                assert(nr[i] == q@);
                assert(rs.contains(q@));
                let j = choose|j: int| 0 <= j < rs.len() && #[trigger] rs[j] == q@;
                assert(rs[j].expires_at == rs[j].created_at + PAIRING_TTL);
            }
            assert forall|i: int, j: int| 0 <= i < j < nr.len() implies (#[trigger] nr[i]).device_id
                != (#[trigger] nr[j]).device_id by {
                assert(nr[i] == self.requests@[i]@);
                assert(nr[j] == self.requests@[j]@);
            }
            assert forall|i: int| 0 <= i < nr.len() implies (#[trigger] nr[i]).expires_at > now by {
                broadcast use vstd::seq_lib::group_filter_ensures;

                assert(nr == rs.filter(live_at(now as int)));
                assert(live_at(now as int)(nr[i]));
            }
        }
        assert(self@ =~= spec_sweep(old(self)@, now as int));
        before - self.requests.len()
    }

    fn find_command(&self, id: &str) -> (r: Option<usize>)
        requires
            self@.wf(),
        ensures
            r matches Some(i) ==> i as int == command_index(self@.commands, id@) && i
                < self.commands@.len(),
            r is None ==> command_index(self@.commands, id@) == -1,
    {
        let n = self.commands.len();
        let mut i: usize = 0;
        while i < n
            invariant
                self@.wf(),
                n == self.commands@.len(),
                i <= n,
                forall|j: int| 0 <= j < i ==> (#[trigger] self@.commands[j]).id != id@,
            decreases n - i,
        {
            if str_eq(self.commands[i].id.as_str(), id) {
                proof {
                    let cs = self@.commands;
                    assert(0 <= i < cs.len() && cs[i as int].id == id@);
                    let c = command_index(cs, id@);
                    assert(0 <= c < cs.len() && cs[c].id == id@);
                    if c > i {
                        assert(cs[i as int].id != cs[c].id);
                    }
                }
                return Some(i);
            }
            i = i + 1;
        }
        None
    }

    /// Stores a new command; its id must not be taken.
    pub fn save_command(
        &mut self,
        id: &str,
        device_id: &str,
        command_type: &str,
        payload: &str,
        status: &str,
        now: i64,
    ) -> (r: Result<(), String>)
        requires
            old(self)@.wf(),
        ensures
            r is Ok <==> command_index(old(self)@.commands, id@) < 0,
            r is Ok ==> final(self)@ == spec_save_command(
                old(self)@,
                CommandView {
                    id: id@,
                    device_id: device_id@,
                    command_type: command_type@,
                    payload: payload@,
                    status: status@,
                    created_at: now as int,
                },
            ),
            r is Err ==> final(self)@ == old(self)@,
            final(self)@.wf(),
    {
        if self.find_command(id).is_some() {
            return Err(String::from_str("command id already exists"));
        }
        let ghost cs = self@.commands;
        self.commands.push(
            CommandRecord {
                id: String::from_str(id),
                device_id: String::from_str(device_id),
                command_type: String::from_str(command_type),
                payload: String::from_str(payload),
                status: String::from_str(status),
                created_at: now,
            },
        );
        proof {
            let ns = self@.commands;
            assert(ns =~= cs.push(self.commands@.last()@));
            assert forall|a: int, b: int| 0 <= a < b < ns.len() implies (#[trigger] ns[a]).id != (
            #[trigger] ns[b]).id by {
                if b == cs.len() {
                    assert(!(0 <= a < cs.len() && cs[a].id == id@));
                } else {
                    assert(cs[a].id != cs[b].id);
                }
            }
        }
        assert(self@ =~= spec_save_command(
            old(self)@,
            CommandView {
                id: id@,
                device_id: device_id@,
                command_type: command_type@,
                payload: payload@,
                status: status@,
                created_at: now as int,
            },
        ));
        Ok(())
    }

    /// Sets the status of a stored command, if it exists.
    pub fn update_command_status(&mut self, id: &str, status: &str)
        requires
            old(self)@.wf(),
        ensures
            final(self)@ == spec_command_status(old(self)@, id@, status@),
            final(self)@.wf(),
    {
        match self.find_command(id) {
            Some(c) => {
                let ghost cs = self@.commands;
                let cur = &self.commands[c];
                let rec = CommandRecord {
                    id: cur.id.clone(),
                    device_id: cur.device_id.clone(),
                    command_type: cur.command_type.clone(),
                    payload: cur.payload.clone(),
                    status: String::from_str(status),
                    created_at: cur.created_at,
                };
                self.commands[c] = rec;
                proof {
                    let ns = self@.commands;
                    assert(ns =~= cs.update(c as int, CommandView { status: status@, ..cs[c as int] }));
                    assert forall|a: int, b: int| 0 <= a < b < ns.len() implies (
                    #[trigger] ns[a]).id != (#[trigger] ns[b]).id by {
                        assert(cs[a].id != cs[b].id);
                    }
                }
            },
            None => {},
        }
        assert(self@ =~= spec_command_status(old(self)@, id@, status@));
    }
    /// Adds a request read back from storage, unless its device already has
    /// one or its window is not the pairing window.
    pub fn restore_request(&mut self, r: PairingRequest) -> (ok: bool)
        requires
            old(self)@.wf(),
        ensures
            final(self)@.wf(),
            ok <==> request_index(old(self)@.requests, r@.device_id) < 0 && r@.expires_at
                == r@.created_at + PAIRING_TTL,
            ok ==> final(self)@ == (StoreView {
                requests: old(self)@.requests.push(r@),
                ..old(self)@
            }),
            !ok ==> final(self)@ == old(self)@,
    {
        if self.find_request(r.device_id.as_str()).is_some() {
            return false;
        }
        if r.created_at > i64::MAX - PAIRING_TTL || r.expires_at != r.created_at + PAIRING_TTL {
            return false;
        }
        let ghost rs = self@.requests;
        let ghost rv = r@;
        self.requests.push(r);
        proof {
            let ns = self@.requests;
            assert(ns =~= rs.push(rv));
            assert forall|a: int, b: int| 0 <= a < b < ns.len() implies (#[trigger] ns[a]).device_id
                != (#[trigger] ns[b]).device_id by {
                if b == rs.len() {
                    assert(!(0 <= a < rs.len() && rs[a].device_id == rv.device_id));
                } else {
                    assert(rs[a].device_id != rs[b].device_id);
                }
            }
            assert forall|a: int| 0 <= a < ns.len() implies (#[trigger] ns[a]).expires_at
                == ns[a].created_at + PAIRING_TTL by {
                if a < rs.len() {
                    assert(ns[a] == rs[a]);
                }
            }
        }
        assert(self@ =~= (StoreView { requests: rs.push(rv), ..old(self)@ }));
        true
    }

    /// Adds a device read back from storage, unless its id or its token is
    /// already taken.
    pub fn restore_device(&mut self, rec: DeviceRecord) -> (ok: bool)
        requires
            old(self)@.wf(),
        ensures
            final(self)@.wf(),
            ok <==> device_index(old(self)@.devices, rec@.info.id) < 0 && match rec@.token {
                Some(t) => token_index(old(self)@.devices, t) < 0,
                None => true,
            },
            ok ==> final(self)@ == (StoreView {
                devices: old(self)@.devices.push(rec@),
                ..old(self)@
            }),
            !ok ==> final(self)@ == old(self)@,
    {
        if self.find_device(rec.info.id.as_str()).is_some() {
            return false;
        }
        let taken = match &rec.token {
            Some(t) => {
                let found = self.find_token(t.as_str());
                proof {
                    if found is None {
                        let ds = self@.devices;
                        assert forall|j: int|
                            0 <= j < ds.len() && (#[trigger] ds[j]).info.id != rec@.info.id implies ds[j].token
                            != rec@.token by {
                            if ds[j].token == Some(t@) {
                                assert(0 <= j < ds.len() && ds[j].token == Some(t@));
                                assert(token_index(ds, t@) >= 0);
                            }
                        }
                    }
                }
                found.is_some()
            },
            None => false,
        };
        if taken {
            return false;
        }
        self.put_device(rec);
        true
    }

    /// Adds a command read back from storage, unless its id is taken.
    pub fn restore_command(&mut self, c: CommandRecord) -> (ok: bool)
        requires
            old(self)@.wf(),
        ensures
            final(self)@.wf(),
            ok <==> command_index(old(self)@.commands, c@.id) < 0,
            ok ==> final(self)@ == spec_save_command(old(self)@, c@),
            !ok ==> final(self)@ == old(self)@,
    {
        if self.find_command(c.id.as_str()).is_some() {
            return false;
        }
        let ghost cs = self@.commands;
        let ghost cv = c@;
        self.commands.push(c);
        proof {
            let ns = self@.commands;
            assert(ns =~= cs.push(cv));
            assert forall|a: int, b: int| 0 <= a < b < ns.len() implies (#[trigger] ns[a]).id != (
            #[trigger] ns[b]).id by {
                if b == cs.len() {
                    assert(!(0 <= a < cs.len() && cs[a].id == cv.id));
                } else {
                    assert(cs[a].id != cs[b].id);
                }
            }
        }
        assert(self@ =~= spec_save_command(old(self)@, cv));
        true
    }
}

} // verus!
