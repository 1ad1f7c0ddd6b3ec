//! The scenario engine: walks a playbook and turns each phase's events into
//! attack frames.
//!
//! Each announce burst, the engine renders the current phase's events, resolved
//! against the sealed plant ledger, and advances the timeline once the phase's
//! events are spent and its dwell has elapsed. A long event sequence spreads
//! across bursts under the per-burst frame cap. On exhaustion a one-shot campaign
//! holds the final phase; a loop restarts.

use vstd::prelude::*;
use crate::config::validate::{fault, first_fault, lemma_fault_ahead, verdict};
use crate::config::{Campaign, IocFidelity, TargetCfg};
use crate::ledger::{DeviceRecord, Session};
use crate::mac::{mac_of, parse_mac};
use crate::net::{cidr_net, ip_of, ip_string, ip_text, parse_ip, parse_net};
use crate::proto::l3::{host_mac, stable_mac};
use crate::scenario::action::{Action, ActionModel, Link, LinkModel};
use crate::scenario::hex::{decode_hex_strict, decoded, hex_message, payload_bytes, payload_of};
use crate::scenario::document::Read;
use crate::scenario::playbook::{emit_tag, loaded_playbook, ref_shown, DeviceRef, EmitKind, Event, Phase, Playbook};
use crate::simulate::roles::{firewall, firewall_addr, station, station_addr};
use crate::text::{clone_strings, dec, opt_is, opt_ref, opt_text, push_dec, quote, quoted, str_eq};
use crate::vuln::{model_place, VulnDb};

verus! {

/// A playbook, the actor's network identity, and where the timeline stands.
pub struct ScenarioEngine {
    pub name: String,
    pub playbook: Playbook,
    pub external_cidrs: Vec<String>,
    pub c2_domains: Vec<String>,
    pub c2_ips: Vec<String>,
    pub fidelity: IocFidelity,
    pub campaign: Campaign,
    pub max_frames_per_burst: usize,
    pub seed: u64,
    pub phase_idx: usize,
    pub event_cursor: usize,
    pub bursts_in_phase: u64,
    /// Frames already emitted from the event at `event_cursor` when it is spilling
    /// across bursts. 0 means the event has not started, or drained exactly on a
    /// burst boundary.
    pub event_frame_offset: usize,
    /// The nonce the spilling event was first rendered with. Rendering with this
    /// pinned value again gives the frames being sliced, so the carried slice is an
    /// exact continuation. None when no event is spilling.
    pub spill_nonce: Option<u64>,
}

/// The first record that a predicate picks, or the length where none is.
pub open spec fn first_where(ds: Seq<DeviceRecord>, f: spec_fn(DeviceRecord) -> bool) -> int
    decreases ds.len(),
{
    if ds.len() == 0 {
        0
    } else if f(ds[0]) {
        0
    } else {
        1 + first_where(ds.drop_first(), f)
    }
}

pub proof fn lemma_first_where(ds: Seq<DeviceRecord>, f: spec_fn(DeviceRecord) -> bool)
    ensures
        0 <= first_where(ds, f) <= ds.len(),
        first_where(ds, f) < ds.len() ==> f(ds[first_where(ds, f)]),
        forall|i: int| 0 <= i < first_where(ds, f) ==> !f(#[trigger] ds[i]),
    decreases ds.len(),
{
    if ds.len() > 0 && !f(ds[0]) {
        lemma_first_where(ds.drop_first(), f);
        assert forall|i: int| 0 <= i < first_where(ds, f) implies !f(#[trigger] ds[i]) by {
            if i > 0 {
                assert(ds[i] == ds.drop_first()[i - 1]);
            }
        }
    }
}

proof fn lemma_first_where_is(ds: Seq<DeviceRecord>, f: spec_fn(DeviceRecord) -> bool, i: int)
    requires
        0 <= i <= ds.len(),
        forall|k: int| 0 <= k < i ==> !f(#[trigger] ds[k]),
        i < ds.len() ==> f(ds[i]),
    ensures
        first_where(ds, f) == i,
{
    lemma_first_where(ds, f);
    let p = first_where(ds, f);
    if p < i {
        assert(!f(ds[p]));
    }
    if i < p {
        assert(!f(ds[i]));
    }
}

/// The device with the address.
pub open spec fn at_ip(ip: Seq<char>) -> spec_fn(DeviceRecord) -> bool {
    |d: DeviceRecord| d.ip@ == ip
}

/// A device of the model.
pub open spec fn of_model(m: Seq<char>) -> spec_fn(DeviceRecord) -> bool {
    |d: DeviceRecord| d.model@ == m
}

/// A device of the asset type.
pub open spec fn of_type(t: Seq<char>) -> spec_fn(DeviceRecord) -> bool {
    |d: DeviceRecord| opt_text(d.asset_type) == Some(t)
}

/// A device that one way of selecting picks.
pub open spec fn selected(
    ds: Seq<DeviceRecord>,
    by: Option<String>,
    f: spec_fn(Seq<char>) -> spec_fn(DeviceRecord) -> bool,
) -> Option<int> {
    match by {
        Some(s) => if first_where(ds, f(s@)) < ds.len() {
            Some(first_where(ds, f(s@)))
        } else {
            None
        },
        None => None,
    }
}

/// The device that a reference means: the first with its address, else the first
/// of its model, else the first of its asset type.
pub open spec fn resolved(ds: Seq<DeviceRecord>, t: Option<DeviceRef>) -> Option<int> {
    match t {
        None => None,
        Some(t) => match selected(ds, t.ip, |s: Seq<char>| at_ip(s)) {
            Some(i) => Some(i),
            None => match selected(ds, t.model, |s: Seq<char>| of_model(s)) {
                Some(i) => Some(i),
                None => selected(ds, t.asset_type, |s: Seq<char>| of_type(s)),
            },
        },
    }
}

fn find_ip(ds: &Vec<DeviceRecord>, ip: &str) -> (r: usize)
    ensures
        r == first_where(ds@, at_ip(ip@)),
        r <= ds@.len(),
{
    let mut i: usize = 0;
    while i < ds.len() && !str_eq(ds[i].ip.as_str(), ip)
        invariant
            i <= ds@.len(),
            forall|k: int| 0 <= k < i ==> !at_ip(ip@)(#[trigger] ds@[k]),
        decreases ds@.len() - i,
    {
        i += 1;
    }
    proof {
        lemma_first_where_is(ds@, at_ip(ip@), i as int);
    }
    i
}

fn find_model(ds: &Vec<DeviceRecord>, model: &str) -> (r: usize)
    ensures
        r == first_where(ds@, of_model(model@)),
        r <= ds@.len(),
{
    let mut i: usize = 0;
    while i < ds.len() && !str_eq(ds[i].model.as_str(), model)
        invariant
            i <= ds@.len(),
            forall|k: int| 0 <= k < i ==> !of_model(model@)(#[trigger] ds@[k]),
        decreases ds@.len() - i,
    {
        i += 1;
    }
    proof {
        lemma_first_where_is(ds@, of_model(model@), i as int);
    }
    i
}

fn find_type(ds: &Vec<DeviceRecord>, asset_type: &str) -> (r: usize)
    ensures
        r == first_where(ds@, of_type(asset_type@)),
        r <= ds@.len(),
{
    let mut i: usize = 0;
    while i < ds.len() && !opt_is(&ds[i].asset_type, asset_type)
        invariant
            i <= ds@.len(),
            forall|k: int| 0 <= k < i ==> !of_type(asset_type@)(#[trigger] ds@[k]),
        decreases ds@.len() - i,
    {
        i += 1;
    }
    proof {
        lemma_first_where_is(ds@, of_type(asset_type@), i as int);
    }
    i
}

/// The device that a reference means. First match wins, checked by address,
/// model and asset type in turn.
pub fn resolve<'a>(ledger: &'a Session, t: &Option<DeviceRef>) -> (r: Option<&'a DeviceRecord>)
    ensures
        match r {
            Some(d) => resolved(ledger.devices@, *t) is Some && *d == ledger.devices@[resolved(
                ledger.devices@,
                *t,
            )->0],
            None => resolved(ledger.devices@, *t) is None,
        },
        resolved(ledger.devices@, *t) is Some ==> 0 <= resolved(ledger.devices@, *t)->0
            < ledger.devices@.len(),
{
    match t {
        None => None,
        Some(t) => {
            let ds: &Vec<DeviceRecord> = &ledger.devices;
            if let Some(ip) = &t.ip {
                let i: usize = find_ip(ds, ip.as_str());
                if i < ds.len() {
                    return Some(&ds[i]);
                }
            }
            if let Some(m) = &t.model {
                let i: usize = find_model(ds, m.as_str());
                if i < ds.len() {
                    return Some(&ds[i]);
                }
            }
            if let Some(a) = &t.asset_type {
                let i: usize = find_type(ds, a.as_str());
                if i < ds.len() {
                    return Some(&ds[i]);
                }
            }
            None
        },
    }
}

/// A device's address and hardware address, where its address is one.
pub open spec fn endpoint_of(d: DeviceRecord) -> Option<(u32, Seq<u8>)> {
    match ip_of(d.ip@) {
        Some(ip) => Some((ip, mac_of(d.mac@))),
        None => None,
    }
}

fn endpoint(dev: &DeviceRecord) -> (r: Option<(u32, [u8; 6])>)
    ensures
        match r {
            Some(e) => endpoint_of(*dev) == Some((e.0, e.1@)),
            None => endpoint_of(*dev) is None,
        },
{
    match parse_ip(dev.ip.as_str()) {
        Some(ip) => Some((ip, parse_mac(dev.mac.as_str()))),
        None => None,
    }
}

/// The tenth host of a range, where it has as many.
pub open spec fn tenth_host(cidr: Seq<char>) -> Option<u32> {
    match cidr_net(cidr) {
        Some(n) => if n.host_lo() + 9 <= n.host_hi() {
            Some((n.host_lo() + 9) as u32)
        } else {
            None
        },
        None => None,
    }
}

/// The .10 host of a range, a believable external source within it.
pub fn first_host(cidr: &str) -> (r: Option<u32>)
    ensures
        r == tenth_host(cidr@),
{
    match parse_net(cidr) {
        Some(n) => {
            let (lo, hi) = n.hosts();
            if hi - lo >= 9 {
                Some(lo + 9)
            } else {
                None
            }
        },
        None => None,
    }
}

/// A zone's firewall record.
pub open spec fn firewall_in(cidr: Seq<char>) -> spec_fn(DeviceRecord) -> bool {
    |d: DeviceRecord| d.subnet_cidr@ == cidr && opt_text(d.asset_type) == Some("Firewall"@)
}

/// The ends of the zone firewall, where the plant has one with an address.
pub open spec fn zone_firewall(ds: Seq<DeviceRecord>, cidr: Seq<char>) -> Option<(u32, Seq<u8>)> {
    let i = first_where(ds, firewall_in(cidr));
    if 0 <= i < ds.len() {
        endpoint_of(ds[i])
    } else {
        None
    }
}

/// The zone's resolver: its firewall, else the gateway address with the hardware
/// address that the seed gives it.
pub open spec fn resolver_of(seed: u64, ds: Seq<DeviceRecord>, cidr: Seq<char>) -> (u32, Seq<u8>) {
    match zone_firewall(ds, cidr) {
        Some(e) => e,
        None => (firewall(cidr), host_mac(seed, firewall(cidr))),
    }
}

/// The client's port for a nonce, in the dynamic range.
pub open spec fn client_port(nonce: u64) -> u16 {
    (49152 + nonce % 16384) as u16
}

/// The first of a list of texts.
pub open spec fn head(v: Seq<String>) -> Option<Seq<char>> {
    if v.len() > 0 {
        Some(v[0]@)
    } else {
        None
    }
}

/// The value, or a default.
pub open spec fn or<T>(o: Option<T>, d: T) -> T {
    match o {
        Some(x) => x,
        None => d,
    }
}

fn value_or<T: Copy>(o: Option<T>, d: T) -> (r: T)
    ensures
        r == or(o, d),
{
    match o {
        Some(x) => x,
        None => d,
    }
}

/// The order number that a controller reads out: its profile's, else its model.
pub open spec fn order_of(vuln: VulnDb, d: DeviceRecord) -> Seq<char> {
    let i = model_place(vuln.profiles@, d.model@);
    if 0 <= i < vuln.profiles@.len() {
        or(opt_text(vuln.profiles@[i].s7_order_number), d.model@)
    } else {
        d.model@
    }
}

/// The link from the zone's engineering station to a device.
pub open spec fn link_to(seed: u64, d: DeviceRecord, nonce: u64) -> LinkModel {
    LinkModel {
        client_mac: host_mac(seed, station(d.subnet_cidr@)),
        device_mac: mac_of(d.mac@),
        client_ip: station(d.subnet_cidr@),
        device_ip: ip_of(d.ip@)->0,
        port: client_port(nonce),
    }
}

/// The share that a wipe writes to, where the event names none.
pub open spec fn default_share(ip: u32) -> Seq<char> {
    "\\\\"@ + ip_text(ip) + "\\ADMIN$\\update.dll"@
}

impl ScenarioEngine {
    /// The engine stands at a phase of its playbook and can emit.
    pub open spec fn wf(self) -> bool {
        &&& self.phase_idx < self.playbook.phases@.len()
        &&& self.max_frames_per_burst > 0
    }

    /// The domain that a beacon looks up.
    pub open spec fn domain_of(self, ev: Event) -> Seq<char> {
        if self.fidelity == IocFidelity::Standin {
            "beacon.example"@
        } else {
            match opt_text(ev.domain) {
                Some(d) => d,
                None => or(head(self.c2_domains@), "beacon.example"@),
            }
        }
    }

    /// The address that a beacon contacts.
    pub open spec fn contact_of(self, ev: Event) -> u32 {
        if self.fidelity == IocFidelity::Standin {
            0xCB00_710A
        } else if ev.ip is Some && ip_of(ev.ip->0@) is Some {
            ip_of(ev.ip->0@)->0
        } else if self.c2_ips@.len() > 0 && ip_of(self.c2_ips@[0]@) is Some {
            ip_of(self.c2_ips@[0]@)->0
        } else {
            0xCB00_710A
        }
    }

    /// The address that the actor comes from.
    pub open spec fn source_of(self) -> u32 {
        if self.fidelity == IocFidelity::Standin {
            0xC633_640A
        } else if self.external_cidrs@.len() > 0 {
            or(tenth_host(self.external_cidrs@[0]@), 0xC633_640A)
        } else {
            0xC633_640A
        }
    }

    /// The action of an event against a device with an address.
    pub open spec fn action_on(
        self,
        ev: Event,
        ds: Seq<DeviceRecord>,
        vuln: VulnDb,
        nonce: u64,
        d: DeviceRecord,
    ) -> Option<ActionModel> {
        let link = link_to(self.seed, d, nonce);
        let hex = opt_text(ev.payload_hex);
        match ev.emit {
            EmitKind::S7Read => Some(
                ActionModel::S7Read { link, order: order_of(vuln, d), firmware: d.firmware@ },
            ),
            EmitKind::S7ProgramDownload => Some(
                ActionModel::S7ProgramDownload {
                    link,
                    block: or(opt_text(ev.block_id), "_0800001P"@),
                    payload: payload_of(hex, seq![0x70u8, 0x70, 0x01, 0x02, 0x03, 0x04]),
                },
            ),
            EmitKind::S7Write => Some(
                ActionModel::S7Write {
                    link,
                    db: or(ev.db, 1),
                    offset: or(ev.offset, 0),
                    value: or(ev.value, 0),
                },
            ),
            EmitKind::S7Stop => Some(ActionModel::S7Stop { link }),
            EmitKind::ModbusWrite => Some(
                ActionModel::ModbusWrite {
                    link,
                    unit: or(ev.unit, 1),
                    register: or(ev.register, 0),
                    value: or(ev.value, 0),
                },
            ),
            EmitKind::TristationStatus => Some(ActionModel::TristationStatus { link }),
            EmitKind::TristationDownload => Some(
                ActionModel::TristationDownload {
                    link,
                    payload: payload_of(hex, tristation_payload()),
                    chunk: or(ev.chunk, 8),
                },
            ),
            EmitKind::Iec104Interrogation => Some(
                ActionModel::Iec104Interrogation { link, common_addr: or(ev.common_addr, 1) },
            ),
            EmitKind::Iec104Command => Some(
                ActionModel::Iec104Command {
                    link,
                    common_addr: or(ev.common_addr, 1),
                    ioa: or(ev.ioa, 1),
                    close: or(ev.close, false),
                },
            ),
            EmitKind::Wiper => Some(
                ActionModel::ShareWrite {
                    link,
                    share: or(opt_text(ev.share), default_share(link.device_ip)),
                },
            ),
            EmitKind::MoxaBrick => Some(
                ActionModel::MoxaBrick {
                    link,
                    firmware: payload_of(hex, seq![0xdeu8, 0xad, 0xbe, 0xef]),
                },
            ),
            EmitKind::RemoteAccess => Some(
                ActionModel::RemoteAccess {
                    gateway_mac: resolver_of(self.seed, ds, d.subnet_cidr@).1,
                    external_ip: self.source_of(),
                    host_mac: link.device_mac,
                    host_ip: link.device_ip,
                    port: link.port,
                    service_port: or(ev.port, 5938),
                },
            ),
            EmitKind::C2Beacon => Some(
                ActionModel::C2Beacon {
                    host_mac: link.device_mac,
                    host_ip: link.device_ip,
                    resolver_mac: resolver_of(self.seed, ds, d.subnet_cidr@).1,
                    resolver_ip: resolver_of(self.seed, ds, d.subnet_cidr@).0,
                    gateway_mac: resolver_of(self.seed, ds, d.subnet_cidr@).1,
                    domain: self.domain_of(ev),
                    c2_ip: self.contact_of(ev),
                    c2_port: or(ev.port, 80),
                    port: link.port,
                    id: nonce as u16,
                },
            ),
            EmitKind::Dnp3Read | EmitKind::Dnp3Operate | EmitKind::CipRead | EmitKind::CipWrite
            | EmitKind::OpcuaRead | EmitKind::Iec101Interrogation | EmitKind::Iec101Command => Some(
                ActionModel::OnDevice {
                    kind: ev.emit,
                    link,
                    value: ev.value,
                    register: ev.register,
                    unit: ev.unit,
                    ioa: ev.ioa,
                    common_addr: ev.common_addr,
                    point: ev.point,
                    close: ev.close,
                },
            ),
        }
    }

    /// The device that an event acts on: its target, and for a beacon without one
    /// the first of the plant.
    pub open spec fn subject(self, ev: Event, ds: Seq<DeviceRecord>) -> Option<DeviceRecord> {
        match resolved(ds, ev.target) {
            Some(i) => Some(ds[i]),
            None => if ev.emit == EmitKind::C2Beacon && ds.len() > 0 {
                Some(ds[0])
            } else {
                None
            },
        }
    }

    /// What an event asks for. An event whose target is not in the plant, or has
    /// no address, asks for nothing.
    pub open spec fn action_of(
        self,
        ev: Event,
        ds: Seq<DeviceRecord>,
        vuln: VulnDb,
        nonce: u64,
    ) -> Option<ActionModel> {
        match self.subject(ev, ds) {
            Some(d) => if ip_of(d.ip@) is Some {
                self.action_on(ev, ds, vuln, nonce, d)
            } else {
                None
            },
            None => None,
        }
    }

    /// The zone engineering station that sources an action, with a seed-stable
    /// hardware address.
    fn station(&self, dev: &DeviceRecord) -> (r: (u32, [u8; 6]))
        ensures
            r.0 == station(dev.subnet_cidr@),
            r.1@ == host_mac(self.seed, station(dev.subnet_cidr@)),
    {
        let ip: u32 = station_addr(dev.subnet_cidr.as_str());
        (ip, stable_mac(self.seed, ip))
    }

    fn firewall(&self, ledger: &Session, cidr: &str) -> (r: Option<(u32, [u8; 6])>)
        ensures
            match r {
                Some(e) => zone_firewall(ledger.devices@, cidr@) == Some((e.0, e.1@)),
                None => zone_firewall(ledger.devices@, cidr@) is None,
            },
    {
        let ds: &Vec<DeviceRecord> = &ledger.devices;
        let mut i: usize = 0;
        while i < ds.len() && !(str_eq(ds[i].subnet_cidr.as_str(), cidr) && opt_is(&ds[i].asset_type, "Firewall"))
            invariant
                i <= ds@.len(),
                forall|k: int| 0 <= k < i ==> !firewall_in(cidr@)(#[trigger] ds@[k]),
            decreases ds@.len() - i,
        {
            i += 1;
        }
        proof {
            lemma_first_where_is(ds@, firewall_in(cidr@), i as int);
        }
        if i < ds.len() {
            endpoint(&ds[i])
        } else {
            None
        }
    }

    /// The zone's DNS resolver, for a lookup; also the next hop for routable
    /// traffic.
    fn resolver(&self, ledger: &Session, cidr: &str) -> (r: (u32, [u8; 6]))
        ensures
            resolver_of(self.seed, ledger.devices@, cidr@) == (r.0, r.1@),
    {
        match self.firewall(ledger, cidr) {
            Some(e) => e,
            None => {
                let ip: u32 = firewall_addr(cidr);
                (ip, stable_mac(self.seed, ip))
            },
        }
    }

    fn gateway_mac(&self, ledger: &Session, cidr: &str) -> (r: [u8; 6])
        ensures
            r@ == resolver_of(self.seed, ledger.devices@, cidr@).1,
    {
        self.resolver(ledger, cidr).1
    }

    fn c2_domain(&self, ev: &Event) -> (r: String)
        ensures
            r@ == self.domain_of(*ev),
    {
        if self.fidelity == IocFidelity::Standin {
            return "beacon.example".to_owned();
        }
        match &ev.domain {
            Some(d) => d.clone(),
            None => if self.c2_domains.len() > 0 {
                self.c2_domains[0].clone()
            } else {
                "beacon.example".to_owned()
            },
        }
    }

    fn c2_ip(&self, ev: &Event) -> (r: u32)
        ensures
            r == self.contact_of(*ev),
    {
        if self.fidelity == IocFidelity::Standin {
            return 0xCB00_710A;
        }
        if let Some(s) = &ev.ip {
            if let Some(ip) = parse_ip(s.as_str()) {
                return ip;
            }
        }
        if self.c2_ips.len() > 0 {
            if let Some(ip) = parse_ip(self.c2_ips[0].as_str()) {
                return ip;
            }
        }
        0xCB00_710A
    }

    fn external_ip(&self) -> (r: u32)
        ensures
            r == self.source_of(),
    {
        if self.fidelity == IocFidelity::Standin {
            return 0xC633_640A;
        }
        if self.external_cidrs.len() > 0 {
            value_or(first_host(self.external_cidrs[0].as_str()), 0xC633_640A)
        } else {
            0xC633_640A
        }
    }
}

/// The payload of a TriStation download that names none.
pub open spec fn tristation_payload() -> Seq<u8> {
    seq![
        0x69u8, 0x6d, 0x61, 0x69, 0x6e, 0x2e, 0x62, 0x69, 0x6e, 0x00, 0x69, 0x6e, 0x6a, 0x65,
        0x63, 0x74, 0x2e, 0x62, 0x69, 0x6e,
    ]
}

/// What is wrong with an event's payload.
pub open spec fn payload_fault(id: Seq<char>) -> spec_fn(Event) -> Option<Seq<char>> {
    |ev: Event|
        match ev.payload_hex {
            Some(h) => match decoded(h@) {
                Ok(_) => None,
                Err(e) => Some("playbook phase "@ + quoted(id) + ": "@ + hex_message(e)),
            },
            None => None,
        }
}

/// What is wrong with the payloads of a phase.
pub open spec fn phase_payload_fault() -> spec_fn(Phase) -> Option<Seq<char>> {
    |ph: Phase| first_fault(ph.events@.map_values(payload_fault(ph.id@)))
}

/// What is wrong with an event's target in a plant: it names no device of the
/// plant, or none at all where only a beacon may leave it out.
pub open spec fn event_target_fault(ds: Seq<DeviceRecord>, ph: Phase, i: int) -> Option<Seq<char>> {
    let ev = ph.events@[i];
    let place = "playbook phase "@ + quoted(ph.id@) + " event "@ + dec(i as nat) + " (emit "@
        + emit_tag(ev.emit);
    match ev.target {
        Some(t) => fault(
            resolved(ds, ev.target) is None,
            place + ") targets "@ + ref_shown(t)
                + ", which no plant device matches; pin a matching device in the plant or correct the target"@,
        ),
        None => fault(
            ev.emit != EmitKind::C2Beacon,
            place + ") has no target; only c2_beacon may omit one"@,
        ),
    }
}

/// What is wrong with the targets of a phase.
pub open spec fn phase_target_fault(ds: Seq<DeviceRecord>) -> spec_fn(Phase) -> Option<Seq<char>> {
    |ph: Phase|
        first_fault(Seq::new(ph.events@.len(), |i: int| event_target_fault(ds, ph, i)))
}

fn check_payloads(ph: &Phase) -> (r: Result<(), String>)
    ensures
        verdict(r) == phase_payload_fault()(*ph),
{
    let ghost all = ph.events@.map_values(payload_fault(ph.id@));
    let mut i: usize = 0;
    while i < ph.events.len()
        invariant
            i <= ph.events@.len(),
            all == ph.events@.map_values(payload_fault(ph.id@)),
            first_fault(all.take(i as int)) is None,
        decreases ph.events@.len() - i,
    {
        proof {
            assert(all.take(i as int + 1).drop_last() =~= all.take(i as int));
        }
        if let Some(h) = &ph.events[i].payload_hex {
            if let Err(e) = decode_hex_strict(h.as_str()) {
                let mut s = "playbook phase ".to_owned();
                s.append(quote(ph.id.as_str()).as_str());
                s.append(": ");
                s.append(e.message().as_str());
                proof {
                    assert(all[i as int] == Some(s@));
                    lemma_fault_ahead(all, i as int);
                }
                return Err(s);
            }
        }
        i += 1;
    }
    proof {
        assert(all.take(i as int) =~= all);
    }
    Ok(())
}

fn target_place(ph: &Phase, i: usize) -> (r: String)
    requires
        i < ph.events@.len(),
    ensures
        r@ == "playbook phase "@ + quoted(ph.id@) + " event "@ + dec(i as nat) + " (emit "@
            + emit_tag(ph.events@[i as int].emit),
{
    let mut s = "playbook phase ".to_owned();
    s.append(quote(ph.id.as_str()).as_str());
    s.append(" event ");
    push_dec(&mut s, i as u64);
    s.append(" (emit ");
    s.append(ph.events[i].emit.tag());
    s
}

fn check_target(ledger: &Session, ph: &Phase, i: usize) -> (r: Result<(), String>)
    requires
        i < ph.events@.len(),
    ensures
        verdict(r) == event_target_fault(ledger.devices@, *ph, i as int),
{
    let ev: &Event = &ph.events[i];
    match &ev.target {
        Some(t) => {
            if resolve(ledger, &ev.target).is_none() {
                let mut s = target_place(ph, i);
                s.append(") targets ");
                s.append(t.shown().as_str());
                s.append(
                    ", which no plant device matches; pin a matching device in the plant or correct the target",
                );
                return Err(s);
            }
            Ok(())
        },
        None => {
            if ev.emit != EmitKind::C2Beacon {
                let mut s = target_place(ph, i);
                s.append(") has no target; only c2_beacon may omit one");
                return Err(s);
            }
            Ok(())
        },
    }
}

fn check_targets(ledger: &Session, ph: &Phase) -> (r: Result<(), String>)
    ensures
        verdict(r) == phase_target_fault(ledger.devices@)(*ph),
{
    let ghost all = Seq::new(
        ph.events@.len(),
        |i: int| event_target_fault(ledger.devices@, *ph, i),
    );
    let mut i: usize = 0;
    while i < ph.events.len()
        invariant
            i <= ph.events@.len(),
            all == Seq::new(
                ph.events@.len(),
                |i: int| event_target_fault(ledger.devices@, *ph, i),
            ),
            first_fault(all.take(i as int)) is None,
        decreases ph.events@.len() - i,
    {
        proof {
            assert(all.take(i as int + 1).drop_last() =~= all.take(i as int));
        }
        if let Err(e) = check_target(ledger, ph, i) {
            proof {
                lemma_fault_ahead(all, i as int);
            }
            return Err(e);
        }
        i += 1;
    }
    proof {
        assert(all.take(i as int) =~= all);
    }
    Ok(())
}

/// What keeps a playbook's file from being played: it cannot be read, it has no
/// phases, or an event's payload is malformed.
pub open spec fn engine_fault(read: Read<Playbook>) -> Option<Seq<char>> {
    match loaded_playbook(read) {
        Err(e) => Some(e),
        Ok(p) => first_fault(p.phases@.map_values(phase_payload_fault())),
    }
}

impl ScenarioEngine {
    /// The engine of a scenario at the start of its playbook, given what reading the
    /// playbook's file gave. A malformed payload is refused here rather than replaced when it is rendered. `seed` is the
    /// session seed, so the station's hardware addresses match the plant's.
    pub fn load(target: &TargetCfg, read: Read<Playbook>, seed: u64) -> (r: Result<Self, String>)
        ensures
            match r {
                Ok(e) => {
                    &&& engine_fault(read) is None
                    &&& loaded_playbook(read) == Ok::<Playbook, Seq<char>>(e.playbook)
                    &&& e.wf()
                    &&& e.name == target.name
                    &&& e.current() == e.playbook.phases@[0]
                    &&& e.external_cidrs@ == target.actors.external_cidrs@
                    &&& e.c2_domains@ == target.actors.c2_domains@
                    &&& e.c2_ips@ == target.actors.c2_ips@
                    &&& e.fidelity == target.ioc_fidelity
                    &&& e.campaign == target.campaign
                    &&& e.max_frames_per_burst == if target.max_frames_per_burst > 0 {
                        target.max_frames_per_burst
                    } else {
                        1
                    }
                    &&& e.seed == seed
                    &&& e.phase_idx == 0
                    &&& e.event_cursor == 0
                    &&& e.bursts_in_phase == 0
                    &&& e.event_frame_offset == 0
                    &&& e.spill_nonce is None
                },
                Err(s) => engine_fault(read) == Some(s@),
            },
    {
        let playbook = match Playbook::load(read) {
            Ok(p) => p,
            Err(e) => {
                return Err(e);
            },
        };
        let ghost all = playbook.phases@.map_values(phase_payload_fault());
        let mut i: usize = 0;
        while i < playbook.phases.len()
            invariant
                i <= playbook.phases@.len(),
                playbook.phases@.len() > 0,
                loaded_playbook(read) == Ok::<Playbook, Seq<char>>(playbook),
                all == playbook.phases@.map_values(phase_payload_fault()),
                first_fault(all.take(i as int)) is None,
            decreases playbook.phases@.len() - i,
        {
            proof {
                assert(all.take(i as int + 1).drop_last() =~= all.take(i as int));
            }
            if let Err(e) = check_payloads(&playbook.phases[i]) {
                proof {
                    lemma_fault_ahead(all, i as int);
                }
                return Err(e);
            }
            i += 1;
        }
        proof {
            assert(all.take(i as int) =~= all);
        }
        Ok(
            ScenarioEngine {
                name: target.name.clone(),
                playbook,
                external_cidrs: clone_strings(&target.actors.external_cidrs),
                c2_domains: clone_strings(&target.actors.c2_domains),
                c2_ips: clone_strings(&target.actors.c2_ips),
                fidelity: target.ioc_fidelity,
                campaign: target.campaign,
                max_frames_per_burst: if target.max_frames_per_burst > 0 {
                    target.max_frames_per_burst
                } else {
                    1
                },
                seed,
                phase_idx: 0,
                event_cursor: 0,
                bursts_in_phase: 0,
                event_frame_offset: 0,
                spill_nonce: None,
            },
        )
    }

    /// Hold every event's target against the sealed plant, so that a playbook that
    /// names a device absent from the plant is refused before a run instead of
    /// silently emitting nothing. A beacon may leave its target out.
    pub fn validate_targets(&self, ledger: &Session) -> (r: Result<(), String>)
        ensures
            verdict(r) == first_fault(
                self.playbook.phases@.map_values(phase_target_fault(ledger.devices@)),
            ),
    {
        let phases: &Vec<Phase> = &self.playbook.phases;
        let ghost all = phases@.map_values(phase_target_fault(ledger.devices@));
        let mut i: usize = 0;
        while i < phases.len()
            invariant
                i <= phases@.len(),
                phases == &self.playbook.phases,
                all == phases@.map_values(phase_target_fault(ledger.devices@)),
                first_fault(all.take(i as int)) is None,
            decreases phases@.len() - i,
        {
            proof {
                assert(all.take(i as int + 1).drop_last() =~= all.take(i as int));
            }
            if let Err(e) = check_targets(ledger, &phases[i]) {
                proof {
                    lemma_fault_ahead(all, i as int);
                }
                return Err(e);
            }
            i += 1;
        }
        proof {
            assert(all.take(i as int) =~= all);
        }
        Ok(())
    }

    pub fn name(&self) -> (r: &str)
        ensures
            r@ == self.name@,
    {
        self.name.as_str()
    }

    /// The phase that the timeline stands at.
    pub open spec fn current(self) -> Phase {
        self.playbook.phases@[self.phase_idx as int]
    }

    pub(crate) fn current_phase(&self) -> (r: &Phase)
        requires
            self.wf(),
        ensures
            *r == self.current(),
    {
        &self.playbook.phases[self.phase_idx]
    }

    /// The current phase's id.
    pub fn phase_id(&self) -> (r: &str)
        requires
            self.wf(),
        ensures
            r@ == self.current().id@,
    {
        self.current_phase().id.as_str()
    }

    /// The current phase's human label: its name, or its id.
    pub fn phase_label(&self) -> (r: String)
        requires
            self.wf(),
        ensures
            r@ == or(opt_text(self.current().name), self.current().id@),
    {
        let p = self.current_phase();
        match &p.name {
            Some(n) => n.clone(),
            None => p.id.clone(),
        }
    }

    /// The current phase's technique ids.
    pub fn techniques(&self) -> (r: Vec<String>)
        requires
            self.wf(),
        ensures
            r@ == self.current().techniques@,
    {
        clone_strings(&self.current_phase().techniques)
    }

    /// What an event asks a frame builder for. An event whose target cannot be
    /// resolved asks for nothing, so a misauthored playbook degrades rather than
    /// fails.
    pub fn event_action(
        &self,
        ev: &Event,
        ledger: &Session,
        vuln: &VulnDb,
        nonce: u64,
    ) -> (r: Option<Action>)
        ensures
            match r {
                Some(a) => self.action_of(*ev, ledger.devices@, *vuln, nonce) == Some(a@),
                None => self.action_of(*ev, ledger.devices@, *vuln, nonce) is None,
            },
    {
        let host: Option<&DeviceRecord> = match resolve(ledger, &ev.target) {
            Some(d) => Some(d),
            None => if ev.emit == EmitKind::C2Beacon && ledger.devices.len() > 0 {
                Some(&ledger.devices[0])
            } else {
                None
            },
        };
        match host {
            Some(dev) => match endpoint(dev) {
                Some((dip, dmac)) => self.action_against(ev, ledger, vuln, nonce, dev, dip, dmac),
                None => None,
            },
            None => None,
        }
    }

    fn action_against(
        &self,
        ev: &Event,
        ledger: &Session,
        vuln: &VulnDb,
        nonce: u64,
        dev: &DeviceRecord,
        dip: u32,
        dmac: [u8; 6],
    ) -> (r: Option<Action>)
        requires
            endpoint_of(*dev) == Some((dip, dmac@)),
        ensures
            match r {
                Some(a) => self.action_on(*ev, ledger.devices@, *vuln, nonce, *dev) == Some(a@),
                None => self.action_on(*ev, ledger.devices@, *vuln, nonce, *dev) is None,
            },
    {
        let port: u16 = 49152 + (nonce % 16384) as u16;
        let (cip, cmac) = self.station(dev);
        let link = Link {
            client_mac: cmac,
            device_mac: dmac,
            client_ip: cip,
            device_ip: dip,
            port,
        };
        let hex: Option<&str> = opt_ref(&ev.payload_hex);
        match ev.emit {
            EmitKind::S7Read => {
                let order: String = match vuln.by_model(dev.model.as_str()) {
                    Some(p) => match &p.s7_order_number {
                        Some(o) => o.clone(),
                        None => dev.model.clone(),
                    },
                    None => dev.model.clone(),
                };
                Some(Action::S7Read { link, order, firmware: dev.firmware.clone() })
            },
            EmitKind::S7ProgramDownload => {
                let block: String = match &ev.block_id {
                    Some(b) => b.clone(),
                    None => "_0800001P".to_owned(),
                };
                let default: [u8; 6] = [0x70, 0x70, 0x01, 0x02, 0x03, 0x04];
                proof {
                    assert(default@ =~= seq![0x70u8, 0x70, 0x01, 0x02, 0x03, 0x04]);
                }
                let payload = payload_bytes(hex, default.as_slice());
                Some(Action::S7ProgramDownload { link, block, payload })
            },
            EmitKind::S7Write => Some(
                Action::S7Write {
                    link,
                    db: value_or(ev.db, 1),
                    offset: value_or(ev.offset, 0),
                    value: value_or(ev.value, 0),
                },
            ),
            EmitKind::S7Stop => Some(Action::S7Stop { link }),
            EmitKind::ModbusWrite => Some(
                Action::ModbusWrite {
                    link,
                    unit: value_or(ev.unit, 1),
                    register: value_or(ev.register, 0),
                    value: value_or(ev.value, 0),
                },
            ),
            EmitKind::TristationStatus => Some(Action::TristationStatus { link }),
            EmitKind::TristationDownload => {
                let default: [u8; 20] = [
                    0x69, 0x6d, 0x61, 0x69, 0x6e, 0x2e, 0x62, 0x69, 0x6e, 0x00, 0x69, 0x6e, 0x6a,
                    0x65, 0x63, 0x74, 0x2e, 0x62, 0x69, 0x6e,
                ];
                proof {
                    assert(default@ =~= tristation_payload());
                }
                let payload = payload_bytes(hex, default.as_slice());
                Some(Action::TristationDownload { link, payload, chunk: value_or(ev.chunk, 8) })
            },
            EmitKind::Iec104Interrogation => Some(
                Action::Iec104Interrogation { link, common_addr: value_or(ev.common_addr, 1) },
            ),
            EmitKind::Iec104Command => Some(
                Action::Iec104Command {
                    link,
                    common_addr: value_or(ev.common_addr, 1),
                    ioa: value_or(ev.ioa, 1),
                    close: value_or(ev.close, false),
                },
            ),
            EmitKind::Wiper => {
                let share: String = match &ev.share {
                    Some(s) => s.clone(),
                    None => {
                        let mut s = "\\\\".to_owned();
                        s.append(ip_string(dip).as_str());
                        s.append("\\ADMIN$\\update.dll");
                        s
                    },
                };
                Some(Action::ShareWrite { link, share })
            },
            EmitKind::MoxaBrick => {
                let default: [u8; 4] = [0xde, 0xad, 0xbe, 0xef];
                proof {
                    assert(default@ =~= seq![0xdeu8, 0xad, 0xbe, 0xef]);
                }
                let firmware = payload_bytes(hex, default.as_slice());
                Some(Action::MoxaBrick { link, firmware })
            },
            EmitKind::RemoteAccess => Some(
                Action::RemoteAccess {
                    gateway_mac: self.gateway_mac(ledger, dev.subnet_cidr.as_str()),
                    external_ip: self.external_ip(),
                    host_mac: dmac,
                    host_ip: dip,
                    port,
                    service_port: value_or(ev.port, 5938),
                },
            ),
            EmitKind::C2Beacon => {
                let (rip, rmac) = self.resolver(ledger, dev.subnet_cidr.as_str());
                let gateway_mac = self.gateway_mac(ledger, dev.subnet_cidr.as_str());
                let id: u16 = (nonce % 0x1_0000) as u16;
                proof {
                    assert(id == nonce as u16) by (bit_vector)
                        requires
                            id == (nonce % 0x1_0000) as u16,
                    ;
                }
                Some(
                    Action::C2Beacon {
                        host_mac: dmac,
                        host_ip: dip,
                        resolver_mac: rmac,
                        resolver_ip: rip,
                        gateway_mac,
                        domain: self.c2_domain(ev),
                        c2_ip: self.c2_ip(ev),
                        c2_port: value_or(ev.port, 80),
                        port,
                        id,
                    },
                )
            },
            EmitKind::Dnp3Read | EmitKind::Dnp3Operate | EmitKind::CipRead | EmitKind::CipWrite
            | EmitKind::OpcuaRead | EmitKind::Iec101Interrogation | EmitKind::Iec101Command => Some(
                Action::OnDevice {
                    kind: ev.emit,
                    link,
                    value: ev.value,
                    register: ev.register,
                    unit: ev.unit,
                    ioa: ev.ioa,
                    common_addr: ev.common_addr,
                    point: ev.point,
                    close: ev.close,
                },
            ),
        }
    }
}

} // verus!
