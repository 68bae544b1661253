//! The connection registry and the message router. Connections are known by
//! number; what the router decides is returned as deliveries (an event and
//! the connections it goes to, in order) for the owner of the sockets to
//! write.

use vstd::prelude::*;
use crate::codes::{command_id_for, generate_id, rand_u16};
use crate::store::{
    command_index, device_listing, live_at, pending_listing, spec_command_status, spec_save_command, spec_sweep,
    CommandView, spec_delete_device, spec_dismiss, spec_set_status,
    spec_telemetry, spec_upsert, spec_validate, DeviceInfo, DeviceInfoView, DeviceStatus,
    PairingRequest, Pose, StateDb, FULL_BATTERY,
};
use crate::text::str_eq;

verus! {

/// What a connection has shown itself to be.
#[derive(Debug, Clone, Copy, PartialEq, Eq, Structural)]
pub enum ClientType {
    Unknown,
    Device,
    Ui,
}

/// One live connection: its number, its role and the device it speaks for.
pub struct Client {
    pub id: usize,
    pub client_type: ClientType,
    pub device_id: Option<String>,
}

pub struct ClientView {
    pub id: int,
    pub client_type: ClientType,
    pub device_id: Option<Seq<char>>,
}

impl View for Client {
    type V = ClientView;

    open spec fn view(&self) -> ClientView {
        ClientView {
            id: self.id as int,
            client_type: self.client_type,
            device_id: match self.device_id {
                Some(d) => Some(d@),
                None => None,
            },
        }
    }
}

/// A message from a connection, as the router reads it.
pub enum Message {
    Register {
        token: Option<String>,
        device_id: String,
        name: String,
        device_type: String,
        pose: Pose,
    },
    Telemetry { pose: Pose },
    GetDevices,
    DismissPairing(Option<String>),
    RevokeDevice(Option<String>),
    SendCommand { device_id: String, command_type: String, payload: String },
    CommandReport { command_id: Option<String>, status: Option<String>, raw: String },
    Unknown,
}

/// A message from the server.
pub enum Event {
    Registered(DeviceInfo),
    Error { code: String, message: String },
    DeviceOnline(DeviceInfo),
    DeviceOffline(String),
    DeviceUpdate { device_id: String, pose: Pose },
    DevicesList(Vec<DeviceInfo>),
    PairingRequests(Vec<PairingRequest>),
    DeviceRevoked(String),
    Command { command_id: String, command_type: String, payload: String },
    CommandSent { command_id: String, device_id: String, status: String },
    Forward(String),
}

/// One event and the connections that it is written to.
pub struct Delivery {
    pub peers: Vec<usize>,
    pub event: Event,
}

pub open spec fn client_pos(cs: Seq<ClientView>, id: int) -> int {
    if exists|i: int| 0 <= i < cs.len() && (#[trigger] cs[i]).id == id {
        choose|i: int| 0 <= i < cs.len() && (#[trigger] cs[i]).id == id
    } else {
        -1
    }
}

pub open spec fn bound_pos(cs: Seq<ClientView>, device_id: Seq<char>) -> int {
    if exists|i: int| 0 <= i < cs.len() && (#[trigger] cs[i]).device_id == Some(device_id) {
        choose|i: int| 0 <= i < cs.len() && (#[trigger] cs[i]).device_id == Some(device_id)
    } else {
        -1
    }
}

/// The numbers of the operator consoles, in registry order.
pub open spec fn ui_peers(cs: Seq<ClientView>) -> Seq<usize>
    decreases cs.len(),
{
    if cs.len() == 0 {
        Seq::empty()
    } else {
        let rest = ui_peers(cs.drop_last());
        if cs.last().client_type == ClientType::Ui {
            rest.push(cs.last().id as usize)
        } else {
            rest
        }
    }
}

/// The registry and the store that the router works on.
pub struct Server {
    pub db: StateDb,
    pub clients: Vec<Client>,
    pub next_id: usize,
}

/// What a successful registration stores: the message's fields, the token's
/// own device id where the message names none, online, seen at `now`.
pub open spec fn register_info(
    stored: Seq<char>,
    device_id: Seq<char>,
    name: Seq<char>,
    device_type: Seq<char>,
    pose: Pose,
    now: int,
) -> DeviceInfoView {
    DeviceInfoView {
        id: if device_id.len() == 0 {
            stored
        } else {
            device_id
        },
        name,
        device_type,
        status: DeviceStatus::Online,
        pose: Pose { heading: 0, speed: 0, battery: FULL_BATTERY, ..pose },
        last_seen: now,
    }
}

pub open spec fn error_reply(r: Seq<Delivery>, cid: int, code: Seq<char>) -> bool {
    &&& r.len() == 1
    &&& r[0].peers@ == seq![cid as usize]
    &&& r[0].event matches Event::Error { code: c, .. } && c@ == code
}

/// The outcome of a `register` message from connection `cid`.
pub open spec fn register_outcome(
    old: Server,
    new: Server,
    cid: int,
    token: Option<Seq<char>>,
    device_id: Seq<char>,
    name: Seq<char>,
    device_type: Seq<char>,
    pose: Pose,
    now: int,
    r: Seq<Delivery>,
) -> bool {
    let t = match token {
        Some(t) => t,
        None => Seq::empty(),
    };
    if t.len() == 0 {
        &&& new.db@ == old.db@
        &&& new.cv() == old.cv()
        &&& error_reply(r, cid, "no_token"@)
    } else if spec_validate(old.db@, t) is None {
        &&& new.db@ == old.db@
        &&& new.cv() == old.cv()
        &&& error_reply(r, cid, "invalid_token"@)
    } else {
        let info = register_info(
            spec_validate(old.db@, t)->0,
            device_id,
            name,
            device_type,
            pose,
            now,
        );
        let q = bound_pos(old.cv(), info.id);
        let replaced = q >= 0 && old.cv()[q].id != cid;
        let p = client_pos(new.cv(), cid);
        &&& new.db@ == (if replaced {
            spec_upsert(spec_set_status(old.db@, info.id, DeviceStatus::Offline, now), info)
        } else {
            spec_upsert(old.db@, info)
        })
        &&& p >= 0
        &&& new.cv()[p] == ClientView {
            id: cid,
            client_type: ClientType::Device,
            device_id: Some(info.id),
        }
        &&& bound_pos(new.cv(), info.id) == p
        &&& r.len() == (if replaced {
            3int
        } else {
            2int
        })
        &&& replaced ==> (r[0].event matches Event::DeviceOffline(x) && x@ == info.id)
        &&& r[r.len() - 2].peers@ == seq![cid as usize]
        &&& r[r.len() - 2].event matches Event::Registered(d) && d@ == info
        &&& r[r.len() - 1].peers@ == ui_peers(new.cv())
        &&& r[r.len() - 1].event matches Event::DeviceOnline(d) && d@ == info
    }
}

/// The outcome of a position report from connection `cid`: accepted only
/// from a connection bound to a device.
pub open spec fn telemetry_outcome(
    old: Server,
    new: Server,
    cid: int,
    pose: Pose,
    now: int,
    r: Seq<Delivery>,
) -> bool {
    let c = old.cv()[client_pos(old.cv(), cid)];
    &&& new.cv() == old.cv()
    &&& match c.device_id {
        Some(d) => {
            &&& new.db@ == spec_telemetry(old.db@, d, pose, now)
            &&& r.len() == 1
            &&& r[0].peers@ == ui_peers(new.cv())
            &&& r[0].event matches Event::DeviceUpdate { device_id: x, pose: ps } && x@ == d && ps
                == pose
        },
        None => new.db@ == old.db@ && r.len() == 0,
    }
}

/// The outcome of `getDevices`: the connection becomes a console and gets
/// the paired devices, then the live pairing requests.
pub open spec fn list_outcome(old: Server, new: Server, cid: int, now: int, r: Seq<Delivery>) -> bool {
    let p = client_pos(old.cv(), cid);
    &&& new.db@ == old.db@
    &&& new.cv() == old.cv().update(p, ClientView { client_type: ClientType::Ui, ..old.cv()[p] })
    &&& r.len() == 2
    &&& r[0].peers@ == seq![cid as usize]
    &&& r[0].event matches Event::DevicesList(l) && device_listing(
        l@.map_values(|d: DeviceInfo| d@),
        old.db@,
    )
    &&& r[1].peers@ == seq![cid as usize]
    &&& r[1].event matches Event::PairingRequests(l) && pending_listing(
        l@.map_values(|q: PairingRequest| q@),
        old.db@,
        now,
    )
}

/// The outcome of `sendCommand`: a new command is stored as pending under an
/// id made of the time and entropy (unless that id is taken), it goes to the
/// connection bound to the device if there is one, and its dispatch waits
/// for the delivery to be reported.
pub open spec fn send_outcome(
    old: Server,
    new: Server,
    cid: int,
    device_id: Seq<char>,
    command_type: Seq<char>,
    payload: Seq<char>,
    now: int,
    entropy: u128,
    r: Reaction,
) -> bool {
    let id = command_id_for(now as u64, (((entropy >> 16u128) ^ entropy) % 0x10000) as u16);
    let b = bound_pos(old.cv(), device_id);
    &&& new.cv() == old.cv()
    &&& new.db@ == (if command_index(old.db@.commands, id) < 0 {
        spec_save_command(
            old.db@,
            CommandView {
                id,
                device_id,
                command_type,
                payload,
                status: "pending"@,
                created_at: now,
            },
        )
    } else {
        old.db@
    })
    &&& b < 0 ==> r.deliveries@.len() == 0
    &&& b >= 0 ==> {
        &&& r.deliveries@.len() == 1
        &&& r.deliveries@[0].peers@ == seq![old.cv()[b].id as usize]
        &&& r.deliveries@[0].event matches Event::Command { command_id: c, command_type: t, payload: pl }
            && c@ == id && t@ == command_type && pl@ == payload
    }
    &&& r.dispatch matches Some(d) && d.command_id@ == id && d.device_id@ == device_id && d.origin
        == cid
}

/// The outcome of a command report: the stored status becomes the reported
/// one (`acknowledged` when none is given) and the report goes to every
/// console. A report without a command id is ignored.
pub open spec fn report_outcome(
    old: Server,
    new: Server,
    command_id: Option<Seq<char>>,
    status: Option<Seq<char>>,
    raw: Seq<char>,
    r: Seq<Delivery>,
) -> bool {
    &&& new.cv() == old.cv()
    &&& match command_id {
        Some(c) => {
            &&& new.db@ == spec_command_status(
                old.db@,
                c,
                match status {
                    Some(st) => st,
                    None => "acknowledged"@,
                },
            )
            &&& r.len() == 1
            &&& r[0].peers@ == ui_peers(old.cv())
            &&& r[0].event matches Event::Forward(x) && x@ == raw
        },
        None => new.db@ == old.db@ && r.len() == 0,
    }
}

pub open spec fn opt_view(o: Option<String>) -> Option<Seq<char>> {
    match o {
        Some(s) => Some(s@),
        None => None,
    }
}

/// What handling one message does, by kind of message.
pub open spec fn message_outcome(
    old: Server,
    new: Server,
    cid: int,
    msg: Message,
    now: int,
    entropy: u128,
    r: Reaction,
) -> bool {
    match msg {
        Message::Register { token, device_id, name, device_type, pose } => r.dispatch is None
            && register_outcome(
            old,
            new,
            cid,
            opt_view(token),
            device_id@,
            name@,
            device_type@,
            pose,
            now,
            r.deliveries@,
        ),
        Message::Telemetry { pose } => r.dispatch is None && telemetry_outcome(
            old,
            new,
            cid,
            pose,
            now,
            r.deliveries@,
        ),
        Message::GetDevices => r.dispatch is None && list_outcome(
            old,
            new,
            cid,
            now,
            r.deliveries@,
        ),
        Message::DismissPairing(target) => {
            &&& r.dispatch is None
            &&& r.deliveries@.len() == 0
            &&& new.cv() == old.cv()
            &&& new.db@ == match target {
                Some(d) => spec_dismiss(old.db@, d@),
                None => old.db@,
            }
        },
        Message::RevokeDevice(target) => {
            &&& r.dispatch is None
            &&& new.cv() == old.cv()
            &&& match target {
                Some(d) => {
                    &&& new.db@ == spec_delete_device(old.db@, d@)
                    &&& r.deliveries@.len() == 1
                    &&& r.deliveries@[0].peers@ == ui_peers(old.cv())
                    &&& r.deliveries@[0].event matches Event::DeviceRevoked(x) && x@ == d@
                },
                None => new.db@ == old.db@ && r.deliveries@.len() == 0,
            }
        },
        Message::SendCommand { device_id, command_type, payload } => send_outcome(
            old,
            new,
            cid,
            device_id@,
            command_type@,
            payload@,
            now,
            entropy,
            r,
        ),
        Message::CommandReport { command_id, status, raw } => r.dispatch is None
            && report_outcome(
            old,
            new,
            opt_view(command_id),
            opt_view(status),
            raw@,
            r.deliveries@,
        ),
        Message::Unknown => {
            &&& r.dispatch is None
            &&& r.deliveries@.len() == 0
            &&& new.cv() == old.cv()
            &&& new.db@ == old.db@
        },
    }
}

/// A device is bound to at most one connection at any time: two entries of
/// a well-formed registry that speak for the same device are the same entry.
pub proof fn lemma_one_connection_per_device(s: Server, device_id: Seq<char>, i: int, j: int)
    requires
        s.wf(),
        0 <= i < s.cv().len(),
        0 <= j < s.cv().len(),
        s.cv()[i].device_id == Some(device_id),
        s.cv()[j].device_id == Some(device_id),
    ensures
        i == j,
{
    let cs = s.cv();
    if i < j {
        assert(cs[j].device_id != cs[i].device_id);
    } else if j < i {
        assert(cs[i].device_id != cs[j].device_id);
    }
}

/// A `register` message without a token, or with an empty one, leaves the
/// registry and the store as they were and gets exactly one `no_token`
/// error on its own connection; nothing is broadcast.
pub proof fn lemma_register_needs_token(
    old: Server,
    new: Server,
    cid: int,
    msg: Message,
    now: int,
    entropy: u128,
    r: Reaction,
)
    requires
        message_outcome(old, new, cid, msg, now, entropy, r),
        msg matches Message::Register { token, .. } && match token {
            Some(t) => t@.len() == 0,
            None => true,
        },
    ensures
        new.cv() == old.cv(),
        new.db@ == old.db@,
        r.dispatch is None,
        error_reply(r.deliveries@, cid, "no_token"@),
{
}

/// A `register` message with a token that identifies a device binds its
/// connection to that device (the token's own device when the message names
/// none), as the only connection bound to it; the connection gets
/// `Registered` before any console gets `DeviceOnline`, and both carry the
/// bound id.
pub proof fn lemma_register_binds(
    old: Server,
    new: Server,
    cid: int,
    msg: Message,
    now: int,
    entropy: u128,
    r: Reaction,
    stored: Seq<char>,
)
    requires
        new.wf(),
        message_outcome(old, new, cid, msg, now, entropy, r),
        msg matches Message::Register { token, .. } && (token matches Some(t) && t@.len() > 0
            && spec_validate(old.db@, t@) == Some(stored)),
    ensures
        msg matches Message::Register { device_id, .. } && ({
            let d = if device_id@.len() == 0 {
                stored
            } else {
                device_id@
            };
            let p = client_pos(new.cv(), cid);
            let k = r.deliveries@.len();
            &&& p >= 0
            &&& new.cv()[p].client_type == ClientType::Device
            &&& new.cv()[p].device_id == Some(d)
            &&& forall|j: int|
                0 <= j < new.cv().len() && (#[trigger] new.cv()[j]).device_id == Some(d) ==> j
                    == p
            &&& k >= 2
            &&& r.deliveries@[k - 2].peers@ == seq![cid as usize]
            &&& r.deliveries@[k - 2].event matches Event::Registered(x) && x@.id == d
            &&& r.deliveries@[k - 1].event matches Event::DeviceOnline(x) && x@.id == d && x@.status
                == DeviceStatus::Online
            &&& forall|j: int|
                0 <= j < k - 1 ==> !(#[trigger] r.deliveries@[j].event is DeviceOnline)
        }),
{
    if let Message::Register { token, device_id, name, device_type, pose } = msg {
        let d = if device_id@.len() == 0 {
            stored
        } else {
            device_id@
        };
        let p = client_pos(new.cv(), cid);
        assert forall|j: int|
            0 <= j < new.cv().len() && (#[trigger] new.cv()[j]).device_id == Some(d) implies j
            == p by {
            lemma_one_connection_per_device(new, d, j, p);
        }
    }
}

/// A delivery addressed to the consoles of a well-formed registry (as the
/// `device:offline` of `remove_client` is) reaches each console exactly once
/// and no other connection.
pub proof fn lemma_console_delivery(s: Server, d: Delivery)
    requires
        s.wf(),
        d.peers@ == ui_peers(s.cv()),
    ensures
        forall|k: int, l: int| 0 <= k < l < d.peers@.len() ==> #[trigger] d.peers@[k] != #[trigger] d.peers@[l],
        forall|k: int| 0 <= k < d.peers@.len() ==> is_console(s.cv(), #[trigger] d.peers@[k] as int),
        forall|j: int|
            0 <= j < s.cv().len() && (#[trigger] s.cv()[j]).client_type == ClientType::Ui
                ==> d.peers@.contains(s.cv()[j].id as usize),
{
    let cs = s.cv();
    assert forall|i: int| 0 <= i < cs.len() implies 0 <= (#[trigger] cs[i]).id <= usize::MAX by {
        assert(cs[i] == s.clients@[i]@);
    }
    lemma_ui_peers_distinct(cs);
}

/// Connection `id` is in the registry as a console.
pub open spec fn is_console(cs: Seq<ClientView>, id: int) -> bool {
    exists|j: int| 0 <= j < cs.len() && (#[trigger] cs[j]).id == id && cs[j].client_type == ClientType::Ui
}

/// The consoles of a registry with distinct connection numbers are listed
/// each exactly once, every console is listed, and every listed number is a
/// console's.
pub proof fn lemma_ui_peers_distinct(cs: Seq<ClientView>)
    requires
        forall|i: int, j: int| 0 <= i < j < cs.len() ==> (#[trigger] cs[i]).id != (#[trigger] cs[j]).id,
        forall|i: int| 0 <= i < cs.len() ==> 0 <= (#[trigger] cs[i]).id <= usize::MAX,
    ensures
        forall|k: int, l: int|
            0 <= k < l < ui_peers(cs).len() ==> #[trigger] ui_peers(cs)[k] != #[trigger] ui_peers(
                cs,
            )[l],
        forall|k: int|
            0 <= k < ui_peers(cs).len() ==> is_console(cs, #[trigger] ui_peers(cs)[k] as int),
        forall|j: int|
            0 <= j < cs.len() && (#[trigger] cs[j]).client_type == ClientType::Ui ==> ui_peers(
                cs,
            ).contains(cs[j].id as usize),
    decreases cs.len(),
{
    if cs.len() > 0 {
        let init = cs.drop_last();
        assert forall|i: int, j: int| 0 <= i < j < init.len() implies (#[trigger] init[i]).id != (
        #[trigger] init[j]).id by {
            assert(init[i] == cs[i] && init[j] == cs[j]);
        }
        assert forall|i: int| 0 <= i < init.len() implies 0 <= (#[trigger] init[i]).id
            <= usize::MAX by {
            assert(init[i] == cs[i]);
        }
        lemma_ui_peers_distinct(init);
        let rest = ui_peers(init);
        let u = ui_peers(cs);
        let n = cs.len() - 1;
        assert(0 <= cs[n].id <= usize::MAX);
        assert forall|k: int| 0 <= k < u.len() implies is_console(cs, #[trigger] u[k] as int) by {
            if k < rest.len() {
                assert(u[k] == rest[k]);
                assert(is_console(init, rest[k] as int));
                let j = choose|j: int|
                    0 <= j < init.len() && (#[trigger] init[j]).id == rest[k] as int
                        && init[j].client_type == ClientType::Ui;
                assert(cs[j] == init[j]);
            } else {
                assert(u[k] == cs[n].id as usize);
                assert(cs[n].id == u[k] as int);
            }
        }
        assert forall|k: int, l: int| 0 <= k < l < u.len() implies #[trigger] u[k] != #[trigger] u[l] by {
            assert(u[k] == rest[k]);
            if l < rest.len() {
                assert(u[l] == rest[l]);
            } else {
                assert(is_console(init, rest[k] as int));
                let j = choose|j: int|
                    0 <= j < init.len() && (#[trigger] init[j]).id == rest[k] as int
                        && init[j].client_type == ClientType::Ui;
                assert(cs[j] == init[j]);
                assert(cs[j].id != cs[n].id);
                assert(u[l] == cs[n].id as usize);
                assert(0 <= cs[j].id <= usize::MAX);
            }
        }
        assert forall|j: int|
            0 <= j < cs.len() && (#[trigger] cs[j]).client_type == ClientType::Ui implies u.contains(
            cs[j].id as usize) by {
            if j < n {
                assert(init[j] == cs[j]);
                let k = choose|k: int| 0 <= k < rest.len() && rest[k] == init[j].id as usize;
                assert(u[k] == rest[k]);
            } else {
                assert(u[u.len() - 1] == cs[j].id as usize);
            }
        }
    }
}

/// A command waiting for its delivery to be attempted.
pub struct Dispatch {
    pub command_id: String,
    pub device_id: String,
    pub origin: usize,
}

/// What the router asks of the connection owner: write the deliveries in
/// order; for a dispatched command, report whether it reached the device.
pub struct Reaction {
    pub deliveries: Vec<Delivery>,
    pub dispatch: Option<Dispatch>,
}

impl Server {
    pub open spec fn cv(&self) -> Seq<ClientView> {
        self.clients@.map_values(|c: Client| c@)
    }

    /// Connection numbers are unique and below the next one to be handed
    /// out; a device is bound to at most one connection.
    pub open spec fn wf(&self) -> bool {
        let cs = self.cv();
        &&& self.db@.wf()
        &&& forall|i: int| 0 <= i < cs.len() ==> (#[trigger] cs[i]).id < self.next_id
        &&& forall|i: int, j: int|
            0 <= i < j < cs.len() ==> (#[trigger] cs[i]).id != (#[trigger] cs[j]).id
        &&& forall|i: int, j: int|
            0 <= i < j < cs.len() && (#[trigger] cs[i]).device_id is Some ==> (
            #[trigger] cs[j]).device_id != cs[i].device_id
    }

    pub fn new() -> (r: Server)
        ensures
            r.wf(),
            r.cv().len() == 0,
            r.db@.requests.len() == 0,
            r.db@.devices.len() == 0,
    {
        Server { db: StateDb::new(), clients: Vec::new(), next_id: 0 }
    }

    /// Registers a new connection, of unknown role and bound to no device,
    /// under the next number.
    pub fn add_client(&mut self) -> (id: usize)
        requires
            old(self).wf(),
            old(self).next_id < usize::MAX,
        ensures
            final(self).wf(),
            id == old(self).next_id,
            final(self).next_id == id + 1,
            final(self).cv() == old(self).cv().push(
                ClientView { id: id as int, client_type: ClientType::Unknown, device_id: None },
            ),
            final(self).db == old(self).db,
    {
        let id = self.next_id;
        let ghost cs = self.cv();
        self.clients.push(Client { id, client_type: ClientType::Unknown, device_id: None });
        self.next_id = id + 1;
        assert(self.cv() =~= cs.push(
            ClientView { id: id as int, client_type: ClientType::Unknown, device_id: None },
        ));
        id
    }

    fn find_client(&self, id: usize) -> (r: Option<usize>)
        requires
            self.wf(),
        ensures
            r matches Some(i) ==> i as int == client_pos(self.cv(), id as int) && i
                < self.clients@.len(),
            r is None ==> client_pos(self.cv(), id as int) == -1,
    {
        let n = self.clients.len();
        let mut i: usize = 0;
        while i < n
            invariant
                self.wf(),
                n == self.clients@.len(),
                i <= n,
                forall|j: int| 0 <= j < i ==> (#[trigger] self.cv()[j]).id != id as int,
            decreases n - i,
        {
            if self.clients[i].id == id {
                proof {
                    let cs = self.cv();
                    assert(0 <= i < cs.len() && cs[i as int].id == id as int);
                    let c = client_pos(cs, id as int);
                    assert(0 <= c < cs.len() && cs[c].id == id as int);
                    if c > i {
                        assert(cs[i as int].id != cs[c].id);
                    }
                }
                return Some(i);
            }
            i = i + 1;
        }
        None
    }

    fn find_bound(&self, device_id: &str) -> (r: Option<usize>)
        requires
            self.wf(),
        ensures
            r matches Some(i) ==> i as int == bound_pos(self.cv(), device_id@) && i
                < self.clients@.len(),
            r is None ==> bound_pos(self.cv(), device_id@) == -1,
    {
        let n = self.clients.len();
        let mut i: usize = 0;
        while i < n
            invariant
                self.wf(),
                n == self.clients@.len(),
                i <= n,
                forall|j: int|
                    0 <= j < i ==> (#[trigger] self.cv()[j]).device_id != Some(device_id@),
            decreases n - i,
        {
            let hit = match &self.clients[i].device_id {
                Some(d) => str_eq(d.as_str(), device_id),
                None => false,
            };
            if hit {
                proof {
                    let cs = self.cv();
                    assert(0 <= i < cs.len() && cs[i as int].device_id == Some(device_id@));
                    let c = bound_pos(cs, device_id@);
                    assert(0 <= c < cs.len() && cs[c].device_id == Some(device_id@));
                    if c > i {
                        assert(cs[c].device_id != cs[i as int].device_id);
                    }
                }
                return Some(i);
            }
            i = i + 1;
        }
        None
    }

    /// The numbers of the operator consoles.
    pub fn ui_clients(&self) -> (r: Vec<usize>)
        ensures
            r@ == ui_peers(self.cv()),
    {
        let n = self.clients.len();
        let mut out: Vec<usize> = Vec::new();
        let mut i: usize = 0;
        while i < n
            invariant
                n == self.clients@.len(),
                i <= n,
                out@ == ui_peers(self.cv().subrange(0, i as int)),
            decreases n - i,
        {
            let ghost cs = self.cv();
            assert(cs.subrange(0, i + 1).drop_last() =~= cs.subrange(0, i as int));
            if self.clients[i].client_type == ClientType::Ui {
                out.push(self.clients[i].id);
            }
            i = i + 1;
        }
        assert(self.cv().subrange(0, n as int) =~= self.cv());
        out
    }

    /// The event addressed to every operator console.
    pub fn broadcast_to_uis(&self, event: Event) -> (r: Delivery)
        ensures
            r.peers@ == ui_peers(self.cv()),
            r.event == event,
    {
        Delivery { peers: self.ui_clients(), event }
    }

    /// The event addressed to the connection bound to `device_id`, if any.
    pub fn send_to_device(&self, device_id: &str, event: Event) -> (r: Option<Delivery>)
        requires
            self.wf(),
        ensures
            bound_pos(self.cv(), device_id@) < 0 <==> r is None,
            r matches Some(d) ==> d.peers@ == seq![
                self.cv()[bound_pos(self.cv(), device_id@)].id as usize,
            ] && d.event == event,
    {
        match self.find_bound(device_id) {
            Some(i) => {
                let mut peers: Vec<usize> = Vec::new();
                peers.push(self.clients[i].id);
                assert(peers@ =~= seq![self.cv()[i as int].id as usize]);
                Some(Delivery { peers, event })
            },
            None => None,
        }
    }
    /// Drops a connection. A connection bound to a device marks the device
    /// offline and yields exactly one `DeviceOffline` event for the consoles.
    pub fn remove_client(&mut self, id: usize, now: i64) -> (r: Vec<Delivery>)
        requires
            old(self).wf(),
        ensures
            final(self).wf(),
            final(self).next_id == old(self).next_id,
            client_pos(old(self).cv(), id as int) < 0 ==> {
                &&& final(self).cv() == old(self).cv()
                &&& final(self).db@ == old(self).db@
                &&& r@.len() == 0
            },
            client_pos(old(self).cv(), id as int) >= 0 ==> {
                let c = old(self).cv()[client_pos(old(self).cv(), id as int)];
                &&& final(self).cv() == old(self).cv().remove(client_pos(old(self).cv(), id as int))
                &&& c.device_id is None ==> final(self).db@ == old(self).db@ && r@.len() == 0
                &&& c.device_id matches Some(d) ==> {
                    &&& final(self).db@ == spec_set_status(
                        old(self).db@,
                        d,
                        DeviceStatus::Offline,
                        now as int,
                    )
                    &&& r@.len() == 1
                    &&& r@[0].peers@ == ui_peers(final(self).cv())
                    &&& r@[0].event matches Event::DeviceOffline(x) && x@ == d
                }
            },
    {
        let mut out: Vec<Delivery> = Vec::new();
        match self.find_client(id) {
            Some(p) => {
                let ghost cs = self.cv();
                let gone = self.clients.remove(p);
                assert(self.cv() =~= cs.remove(p as int));
                proof {
                    let ns = self.cv();
                    let x = p as int;
                    assert forall|a: int, b: int| 0 <= a < b < ns.len() implies (
                    #[trigger] ns[a]).id != (#[trigger] ns[b]).id by {
                        let a2 = if a < x {
                            a
                        } else {
                            a + 1
                        };
                        let b2 = if b < x {
                            b
                        } else {
                            b + 1
                        };
                        assert(ns[a] == cs[a2]);
                        assert(ns[b] == cs[b2]);
                    }
                    assert forall|a: int, b: int|
                        0 <= a < b < ns.len() && (#[trigger] ns[a]).device_id is Some implies (
                        #[trigger] ns[b]).device_id != ns[a].device_id by {
                        let a2 = if a < x {
                            a
                        } else {
                            a + 1
                        };
                        let b2 = if b < x {
                            b
                        } else {
                            b + 1
                        };
                        assert(ns[a] == cs[a2]);
                        assert(ns[b] == cs[b2]);
                    }
                    assert forall|a: int| 0 <= a < ns.len() implies (#[trigger] ns[a]).id
                        < self.next_id by {
                        if a < x {
                            assert(ns[a] == cs[a]);
                        } else {
                            assert(ns[a] == cs[a + 1]);
                        }
                    }
                }
                match gone.device_id {
                    Some(d) => {
                        self.db.set_status(d.as_str(), DeviceStatus::Offline, now);
                        out.push(self.broadcast_to_uis(Event::DeviceOffline(d)));
                    },
                    None => {},
                }
            },
            None => {},
        }
        out
    }

    fn bind(&mut self, p: usize, device_id: String)
        requires
            old(self).wf(),
            p < old(self).clients@.len(),
            forall|j: int|
                0 <= j < old(self).cv().len() && j != p ==> (#[trigger] old(self).cv()[j]).device_id
                    != Some(device_id@),
        ensures
            final(self).wf(),
            final(self).db == old(self).db,
            final(self).next_id == old(self).next_id,
            final(self).cv() == old(self).cv().update(
                p as int,
                ClientView {
                    id: old(self).cv()[p as int].id,
                    client_type: ClientType::Device,
                    device_id: Some(device_id@),
                },
            ),
    {
        let ghost cs = self.cv();
        let ghost dv = device_id@;
        let cid = self.clients[p].id;
        self.clients[p] = Client { id: cid, client_type: ClientType::Device, device_id: Some(device_id) };
        proof {
            let ns = self.cv();
            assert(ns =~= cs.update(
                p as int,
                ClientView { id: cs[p as int].id, client_type: ClientType::Device, device_id: Some(dv) },
            ));
            assert forall|a: int, b: int| 0 <= a < b < ns.len() implies (#[trigger] ns[a]).id != (
            #[trigger] ns[b]).id by {
                assert(cs[a].id != cs[b].id);
            }
            assert forall|a: int, b: int|
                0 <= a < b < ns.len() && (#[trigger] ns[a]).device_id is Some implies (
                #[trigger] ns[b]).device_id != ns[a].device_id by {
                if a != p && b != p {
                    assert(cs[b].device_id != cs[a].device_id);
                }
            }
            assert forall|a: int| 0 <= a < ns.len() implies (#[trigger] ns[a]).id < self.next_id by {
                assert(cs[a].id < self.next_id);
            }
        }
    }
    /// Whether connection `id` is registered.
    pub fn has_client(&self, id: usize) -> (r: bool)
        requires
            self.wf(),
        ensures
            r == (client_pos(self.cv(), id as int) >= 0),
    {
        self.find_client(id).is_some()
    }

    fn reply(cid: usize, event: Event) -> (r: Vec<Delivery>)
        ensures
            r@.len() == 1,
            r@[0].peers@ == seq![cid],
            r@[0].event == event,
    {
        let mut peers: Vec<usize> = Vec::new();
        peers.push(cid);
        let mut out: Vec<Delivery> = Vec::new();
        out.push(Delivery { peers, event });
        out
    }

    /// Drops the connection bound to `device_id`, unless it is `cid`, so that
    /// `cid` can take the binding over.
    fn drop_previous(&mut self, cid: usize, device_id: &String, now: i64) -> (r: Vec<Delivery>)
        requires
            old(self).wf(),
            client_pos(old(self).cv(), cid as int) >= 0,
        ensures
            final(self).wf(),
            final(self).next_id == old(self).next_id,
            ({
                let q = bound_pos(old(self).cv(), device_id@);
                let replaced = q >= 0 && old(self).cv()[q].id != cid as int;
                &&& replaced ==> {
                    &&& final(self).cv() == old(self).cv().remove(q)
                    &&& final(self).db@ == spec_set_status(
                        old(self).db@,
                        device_id@,
                        DeviceStatus::Offline,
                        now as int,
                    )
                    &&& r@.len() == 1
                    &&& r@[0].event matches Event::DeviceOffline(x) && x@ == device_id@
                }
                &&& !replaced ==> final(self).cv() == old(self).cv() && final(self).db@ == old(
                    self,
                ).db@ && r@.len() == 0
            }),
            client_pos(final(self).cv(), cid as int) >= 0,
            forall|j: int|
                0 <= j < final(self).cv().len() && (#[trigger] final(self).cv()[j]).id != cid as int
                    ==> final(self).cv()[j].device_id != Some(device_id@),
    {
        let ghost s0 = *self;
        let ghost q = bound_pos(s0.cv(), device_id@);
        let mut out: Vec<Delivery> = Vec::new();
        match self.find_bound(device_id.as_str()) {
            Some(b) => {
                let qid = self.clients[b].id;
                if qid != cid {
                    proof {
                        let cs = s0.cv();
                        assert(0 <= b < cs.len() && cs[b as int].id == qid as int);
                        let c = client_pos(cs, qid as int);
                        assert(0 <= c < cs.len() && cs[c].id == qid as int);
                        if c < b {
                            assert(cs[c].id != cs[b as int].id);
                        } else if c > b {
                            assert(cs[b as int].id != cs[c].id);
                        }
                    }
                    out = self.remove_client(qid, now);
                }
            },
            None => {},
        }
        proof {
            let cs = s0.cv();
            let ns = self.cv();
            assert forall|j: int|
                0 <= j < ns.len() && (#[trigger] ns[j]).id != cid as int implies ns[j].device_id
                != Some(device_id@) by {
                if q >= 0 && cs[q].id != cid as int {
                    let j2 = if j < q {
                        j
                    } else {
                        j + 1
                    };
                    assert(ns[j] == cs[j2]);
                    if cs[j2].device_id == Some(device_id@) {
                        if j2 < q {
                            assert(cs[q].device_id != cs[j2].device_id);
                        } else {
                            assert(cs[j2].device_id != cs[q].device_id);
                        }
                    }
                } else {
                    assert(ns[j] == cs[j]);
                    if cs[j].device_id == Some(device_id@) {
                        assert(0 <= j < cs.len() && cs[j].device_id == Some(device_id@));
                        assert(0 <= q < cs.len() && cs[q].device_id == Some(device_id@));
                        if j < q {
                            assert(cs[q].device_id != cs[j].device_id);
                        } else if q < j {
                            assert(cs[j].device_id != cs[q].device_id);
                        }
                    }
                }
            }
            let c0 = client_pos(cs, cid as int);
            assert(0 <= c0 < cs.len() && cs[c0].id == cid as int);
            if q >= 0 && cs[q].id != cid as int {
                let c1 = if c0 < q {
                    c0
                } else {
                    c0 - 1
                };
                assert(ns[c1] == cs[c0]);
                assert(0 <= c1 < ns.len() && ns[c1].id == cid as int);
            } else {
                assert(ns[c0] == cs[c0]);
                assert(0 <= c0 < ns.len() && ns[c0].id == cid as int);
            }
        }
        out
    }

    /// A device presents its token. Without a token, or with one that
    /// identifies no device, the connection gets an error and nothing
    /// changes. Otherwise the device is stored as online, a connection that
    /// was bound to it before is dropped (last registration wins), this
    /// connection is bound to it, gets `Registered`, and then the consoles
    /// get `DeviceOnline`.
    #[verifier::rlimit(30)]
    pub fn register(
        &mut self,
        cid: usize,
        token: Option<String>,
        device_id: String,
        name: String,
        device_type: String,
        pose: Pose,
        now: i64,
    ) -> (r: Vec<Delivery>)
        requires
            old(self).wf(),
            client_pos(old(self).cv(), cid as int) >= 0,
        ensures
            final(self).wf(),
            final(self).next_id == old(self).next_id,
            register_outcome(
                *old(self),
                *final(self),
                cid as int,
                match token {
                    Some(t) => Some(t@),
                    None => None,
                },
                device_id@,
                name@,
                device_type@,
                pose,
                now as int,
                r@,
            ),
    {
        let tok = match token {
            Some(t) => t,
            None => String::new(),
        };
        if tok.as_str().unicode_len() == 0 {
            return Self::reply(
                cid,
                Event::Error {
                    code: String::from_str("no_token"),
                    message: String::from_str(
                        "Authentication required. Use /api/pair/request to get a token.",
                    ),
                },
            );
        }
        let stored = match self.db.validate_token(tok.as_str()) {
            Some(d) => d,
            None => {
                return Self::reply(
                    cid,
                    Event::Error {
                        code: String::from_str("invalid_token"),
                        message: String::from_str(
                            "Invalid or expired token. Please re-pair the device.",
                        ),
                    },
                );
            },
        };
        let id = if device_id.as_str().unicode_len() == 0 {
            stored
        } else {
            device_id
        };
        let ghost info = register_info(stored@, device_id@, name@, device_type@, pose, now as int);
        assert(id@ == info.id);
        let mut out = self.drop_previous(cid, &id, now);
        let ghost s1 = *self;
        let info_x = DeviceInfo {
            id: id.clone(),
            name,
            device_type,
            status: DeviceStatus::Online,
            pose: Pose { heading: 0, speed: 0, battery: FULL_BATTERY, ..pose },
            last_seen: now,
        };
        self.db.upsert_device(&info_x);
        let p = match self.find_client(cid) {
            Some(p) => p,
            None => {
                return out;
            },
        };
        proof {
            let ns = s1.cv();
            assert forall|j: int|
                0 <= j < ns.len() && j != p implies (#[trigger] ns[j]).device_id != Some(id@) by {
                if ns[j].id == cid as int {
                    assert(ns[p as int].id == cid as int);
                    if j < p {
                        assert(ns[j].id != ns[p as int].id);
                    } else {
                        assert(ns[p as int].id != ns[j].id);
                    }
                }
            }
        }
        self.bind(p, id);
        proof {
            let ns = self.cv();
            assert(ns[p as int].id == cid as int);
            assert(ns[p as int].device_id == Some(info.id));
            let c = client_pos(ns, cid as int);
            assert(0 <= p < ns.len() && ns[p as int].id == cid as int);
            if c != p {
                if c < p {
                    assert(ns[c].id != ns[p as int].id);
                } else {
                    assert(ns[p as int].id != ns[c].id);
                }
            }
            let b = bound_pos(ns, info.id);
            assert(0 <= p < ns.len() && ns[p as int].device_id == Some(info.id));
            if b != p {
                if b < p {
                    assert(ns[p as int].device_id != ns[b].device_id);
                } else {
                    assert(ns[b].device_id != ns[p as int].device_id);
                }
            }
        }
        let mut peers: Vec<usize> = Vec::new();
        peers.push(cid);
        out.push(Delivery { peers, event: Event::Registered(info_x.copy()) });
        let online = self.broadcast_to_uis(Event::DeviceOnline(info_x));
        out.push(online);
        out
    }
    /// A position report from connection `cid`.
    pub fn telemetry(&mut self, cid: usize, pose: Pose, now: i64) -> (r: Vec<Delivery>)
        requires
            old(self).wf(),
            client_pos(old(self).cv(), cid as int) >= 0,
        ensures
            final(self).wf(),
            final(self).next_id == old(self).next_id,
            telemetry_outcome(*old(self), *final(self), cid as int, pose, now as int, r@),
    {
        let mut out: Vec<Delivery> = Vec::new();
        let p = match self.find_client(cid) {
            Some(p) => p,
            None => {
                return out;
            },
        };
        let bound = match &self.clients[p].device_id {
            Some(d) => Some(d.clone()),
            None => None,
        };
        match bound {
            Some(d) => {
                self.db.update_telemetry(d.as_str(), pose, now);
                out.push(self.broadcast_to_uis(Event::DeviceUpdate { device_id: d, pose }));
            },
            None => {},
        }
        out
    }

    /// A console asks for the device list.
    pub fn get_devices(&mut self, cid: usize, now: i64) -> (r: Vec<Delivery>)
        requires
            old(self).wf(),
            client_pos(old(self).cv(), cid as int) >= 0,
        ensures
            final(self).wf(),
            final(self).next_id == old(self).next_id,
            list_outcome(*old(self), *final(self), cid as int, now as int, r@),
    {
        let p = match self.find_client(cid) {
            Some(p) => p,
            None => {
                return Vec::new();
            },
        };
        let ghost cs = self.cv();
        let bound = match &self.clients[p].device_id {
            Some(d) => Some(d.clone()),
            None => None,
        };
        self.clients[p] = Client { id: cid, client_type: ClientType::Ui, device_id: bound };
        proof {
            let ns = self.cv();
            assert(ns =~= cs.update(p as int, ClientView { client_type: ClientType::Ui, ..cs[p as int] }));
            assert forall|a: int, b: int| 0 <= a < b < ns.len() implies (#[trigger] ns[a]).id != (
            #[trigger] ns[b]).id by {
                assert(cs[a].id != cs[b].id);
            }
            assert forall|a: int, b: int|
                0 <= a < b < ns.len() && (#[trigger] ns[a]).device_id is Some implies (
                #[trigger] ns[b]).device_id != ns[a].device_id by {
                assert(cs[b].device_id != cs[a].device_id);
            }
            assert forall|a: int| 0 <= a < ns.len() implies (#[trigger] ns[a]).id < self.next_id by {
                assert(cs[a].id < self.next_id);
            }
        }
        let list = self.db.get_all_devices();
        let pending = self.db.get_pending_pairing_requests(now);
        let mut out = Self::reply(cid, Event::DevicesList(list));
        let mut second = Self::reply(cid, Event::PairingRequests(pending));
        out.append(&mut second);
        out
    }

    /// A console sends a command to a device.
    pub fn send_command(
        &mut self,
        cid: usize,
        device_id: String,
        command_type: String,
        payload: String,
        now: i64,
        entropy: u128,
    ) -> (r: Reaction)
        requires
            old(self).wf(),
            now >= 0,
        ensures
            final(self).wf(),
            final(self).next_id == old(self).next_id,
            send_outcome(
                *old(self),
                *final(self),
                cid as int,
                device_id@,
                command_type@,
                payload@,
                now as int,
                entropy,
                r,
            ),
    {
        let command_id = generate_id(now as u64, rand_u16(entropy));
        let _ = self.db.save_command(
            command_id.as_str(),
            device_id.as_str(),
            command_type.as_str(),
            payload.as_str(),
            "pending",
            now,
        );
        let mut deliveries: Vec<Delivery> = Vec::new();
        match self.send_to_device(
            device_id.as_str(),
            Event::Command { command_id: command_id.clone(), command_type, payload },
        ) {
            Some(d) => deliveries.push(d),
            None => {},
        }
        Reaction { deliveries, dispatch: Some(Dispatch { command_id, device_id, origin: cid }) }
    }

    /// Records whether a dispatched command reached its device and tells the
    /// console that sent it.
    pub fn finish_command(&mut self, dispatch: Dispatch, sent: bool) -> (r: Delivery)
        requires
            old(self).wf(),
        ensures
            final(self).wf(),
            final(self).next_id == old(self).next_id,
            final(self).cv() == old(self).cv(),
            final(self).db@ == spec_command_status(
                old(self).db@,
                dispatch.command_id@,
                if sent {
                    "sent"@
                } else {
                    "failed"@
                },
            ),
            r.peers@ == seq![dispatch.origin],
            r.event matches Event::CommandSent { command_id: c, device_id: d, status: st } && c@
                == dispatch.command_id@ && d@ == dispatch.device_id@ && st@ == (if sent {
                "sent"@
            } else {
                "failed"@
            }),
    {
        let status = if sent {
            "sent"
        } else {
            "failed"
        };
        self.db.update_command_status(dispatch.command_id.as_str(), status);
        let mut peers: Vec<usize> = Vec::new();
        peers.push(dispatch.origin);
        Delivery {
            peers,
            event: Event::CommandSent {
                command_id: dispatch.command_id,
                device_id: dispatch.device_id,
                status: String::from_str(status),
            },
        }
    }

    /// A device reports progress on a command.
    pub fn command_report(
        &mut self,
        command_id: Option<String>,
        status: Option<String>,
        raw: String,
    ) -> (r: Vec<Delivery>)
        requires
            old(self).wf(),
        ensures
            final(self).wf(),
            final(self).next_id == old(self).next_id,
            report_outcome(
                *old(self),
                *final(self),
                opt_view(command_id),
                opt_view(status),
                raw@,
                r@,
            ),
    {
        let mut out: Vec<Delivery> = Vec::new();
        match command_id {
            Some(c) => {
                let st = match status {
                    Some(st) => st,
                    None => String::from_str("acknowledged"),
                };
                self.db.update_command_status(c.as_str(), st.as_str());
                out.push(self.broadcast_to_uis(Event::Forward(raw)));
            },
            None => {},
        }
        out
    }

    /// Routes one message from connection `cid`.
    pub fn handle_message(&mut self, cid: usize, msg: Message, now: i64, entropy: u128) -> (r:
        Reaction)
        requires
            old(self).wf(),
            client_pos(old(self).cv(), cid as int) >= 0,
            now >= 0,
        ensures
            final(self).wf(),
            final(self).next_id == old(self).next_id,
            message_outcome(*old(self), *final(self), cid as int, msg, now as int, entropy, r),
    {
        match msg {
            Message::Register { token, device_id, name, device_type, pose } => {
                let deliveries = self.register(cid, token, device_id, name, device_type, pose, now);
                Reaction { deliveries, dispatch: None }
            },
            Message::Telemetry { pose } => {
                let deliveries = self.telemetry(cid, pose, now);
                Reaction { deliveries, dispatch: None }
            },
            Message::GetDevices => {
                let deliveries = self.get_devices(cid, now);
                Reaction { deliveries, dispatch: None }
            },
            Message::DismissPairing(target) => {
                match target {
                    Some(d) => self.db.delete_pairing_request(d.as_str()),
                    None => {},
                }
                Reaction { deliveries: Vec::new(), dispatch: None }
            },
            Message::RevokeDevice(target) => {
                let mut deliveries: Vec<Delivery> = Vec::new();
                match target {
                    Some(d) => {
                        self.db.delete_device(d.as_str());
                        deliveries.push(self.broadcast_to_uis(Event::DeviceRevoked(d)));
                    },
                    None => {},
                }
                Reaction { deliveries, dispatch: None }
            },
            Message::SendCommand { device_id, command_type, payload } => {
                self.send_command(cid, device_id, command_type, payload, now, entropy)
            },
            Message::CommandReport { command_id, status, raw } => {
                let deliveries = self.command_report(command_id, status, raw);
                Reaction { deliveries, dispatch: None }
            },
            Message::Unknown => Reaction { deliveries: Vec::new(), dispatch: None },
        }
    }

    /// The live pairing requests for every console, when there are any.
    pub fn broadcast_pairing_requests(&self, now: i64) -> (r: Vec<Delivery>)
        requires
            self.wf(),
        ensures
            self.db@.requests.filter(live_at(now as int)).len() == 0 ==> r@.len() == 0,
            self.db@.requests.filter(live_at(now as int)).len() > 0 ==> {
                &&& r@.len() == 1
                &&& r@[0].peers@ == ui_peers(self.cv())
                &&& r@[0].event matches Event::PairingRequests(l) && pending_listing(
                    l@.map_values(|q: PairingRequest| q@),
                    self.db@,
                    now as int,
                )
            },
    {
        let pending = self.db.get_pending_pairing_requests(now);
        proof {
            broadcast use vstd::seq_lib::group_to_multiset_ensures;

            let l = pending@.map_values(|q: PairingRequest| q@);
            let f = self.db@.requests.filter(live_at(now as int));
            assert(l.len() == l.to_multiset().len());
            assert(f.len() == f.to_multiset().len());
        }
        let mut out: Vec<Delivery> = Vec::new();
        if pending.len() > 0 {
            out.push(self.broadcast_to_uis(Event::PairingRequests(pending)));
        }
        out
    }

    /// One tick of the pairing broadcaster: announce the live requests, then
    /// sweep the expired ones.
    pub fn tick(&mut self, now: i64) -> (r: Vec<Delivery>)
        requires
            old(self).wf(),
        ensures
            final(self).wf(),
            final(self).next_id == old(self).next_id,
            final(self).cv() == old(self).cv(),
            final(self).db@ == spec_sweep(old(self).db@, now as int),
            old(self).db@.requests.filter(live_at(now as int)).len() == 0 ==> r@.len() == 0,
            old(self).db@.requests.filter(live_at(now as int)).len() > 0 ==> {
                &&& r@.len() == 1
                &&& r@[0].peers@ == ui_peers(old(self).cv())
                &&& r@[0].event matches Event::PairingRequests(l) && pending_listing(
                    l@.map_values(|q: PairingRequest| q@),
                    old(self).db@,
                    now as int,
                )
            },
    {
        let out = self.broadcast_pairing_requests(now);
        let _ = self.db.cleanup_expired_requests(now);
        out
    }
}

} // verus!
