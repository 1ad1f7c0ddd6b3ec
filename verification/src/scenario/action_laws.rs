//! What holds of every action: which device it goes to, from where, and with
//! which of its event's parameters.

use vstd::prelude::*;
use crate::config::validate::lemma_no_fault;
use crate::config::IocFidelity;
use crate::ledger::DeviceRecord;
use crate::mac::mac_of;
use crate::net::{
    cidr_net, ip_of, ip_text, lemma_cidr_net_wf, lemma_ip_of, lemma_span_divides,
    lemma_span_values, span, Ipv4Net,
};
use crate::proto::l3::host_mac;
use crate::scenario::action::{ActionModel, LinkModel};
use crate::scenario::engine::{
    at_ip, event_target_fault, firewall_in, first_where, lemma_first_where, link_to, of_model,
    of_type, payload_fault, phase_payload_fault, phase_target_fault, resolved, ScenarioEngine,
};
use crate::scenario::hex::{decoded, hex_pairs, law_hex_reads_back, HexError};
use crate::scenario::playbook::{DeviceRef, EmitKind, Event, Phase};
use crate::simulate::roles::station;
use crate::text::opt_text;
use crate::vuln::{model_place, DeviceProfile, VulnDb};

verus! {

/// Some device has the address that the reference gives.
pub open spec fn has_ip(ds: Seq<DeviceRecord>, t: DeviceRef) -> bool {
    t.ip is Some && exists|k: int| 0 <= k < ds.len() && (#[trigger] ds[k]).ip@ == t.ip->0@
}

/// Some device is of the model that the reference gives.
pub open spec fn has_model(ds: Seq<DeviceRecord>, t: DeviceRef) -> bool {
    t.model is Some && exists|k: int| 0 <= k < ds.len() && (#[trigger] ds[k]).model@ == t.model->0@
}

/// Some device is of the asset type that the reference gives.
pub open spec fn has_type(ds: Seq<DeviceRecord>, t: DeviceRef) -> bool {
    t.asset_type is Some && exists|k: int|
        0 <= k < ds.len() && opt_text((#[trigger] ds[k]).asset_type) == Some(t.asset_type->0@)
}

/// The reference names the device at `i`: the first with its address; if none has
/// that, the first of its model; if there is none of that either, the first of
/// its asset type.
pub open spec fn names(ds: Seq<DeviceRecord>, t: DeviceRef, i: int) -> bool {
    &&& 0 <= i < ds.len()
    &&& if has_ip(ds, t) {
        ds[i].ip@ == t.ip->0@ && forall|k: int| 0 <= k < i ==> (#[trigger] ds[k]).ip@ != t.ip->0@
    } else if has_model(ds, t) {
        ds[i].model@ == t.model->0@ && forall|k: int|
            0 <= k < i ==> (#[trigger] ds[k]).model@ != t.model->0@
    } else {
        t.asset_type is Some && opt_text(ds[i].asset_type) == Some(t.asset_type->0@) && forall|
            k: int,
        |
            0 <= k < i ==> opt_text((#[trigger] ds[k]).asset_type) != Some(t.asset_type->0@)
    }
}

/// A reference means the device that it names: an address goes before a model, a
/// model before an asset type, and an earlier device before a later one.
pub proof fn law_reference_means_what_it_names(ds: Seq<DeviceRecord>, t: DeviceRef, i: int)
    requires
        names(ds, t, i),
    ensures
        resolved(ds, Some(t)) == Some(i),
{
    lemma_reference(ds, t);
}

/// A reference that no device matches in any way means none.
pub proof fn law_unmatched_reference_means_none(ds: Seq<DeviceRecord>, t: DeviceRef)
    requires
        !has_ip(ds, t),
        !has_model(ds, t),
        !has_type(ds, t),
    ensures
        resolved(ds, Some(t)) is None,
{
    lemma_reference(ds, t);
}

proof fn lemma_reference(ds: Seq<DeviceRecord>, t: DeviceRef)
    ensures
        forall|i: int| #[trigger] names(ds, t, i) ==> resolved(ds, Some(t)) == Some(i),
        !has_ip(ds, t) && !has_model(ds, t) && !has_type(ds, t) ==> resolved(ds, Some(t)) is None,
{
    if t.ip is Some {
        let f = at_ip(t.ip->0@);
        lemma_first_where(ds, f);
        assert forall|k: int| 0 <= k < ds.len() implies f(#[trigger] ds[k]) == (ds[k].ip@
            == t.ip->0@) by {}
    }
    if t.model is Some {
        let f = of_model(t.model->0@);
        lemma_first_where(ds, f);
        assert forall|k: int| 0 <= k < ds.len() implies f(#[trigger] ds[k]) == (ds[k].model@
            == t.model->0@) by {}
    }
    if t.asset_type is Some {
        let f = of_type(t.asset_type->0@);
        lemma_first_where(ds, f);
        assert forall|k: int| 0 <= k < ds.len() implies f(#[trigger] ds[k]) == (opt_text(
            ds[k].asset_type,
        ) == Some(t.asset_type->0@)) by {}
    }
}

/// The event has a target, which names the device at `i`, and that has an
/// address.
pub open spec fn targets(ev: Event, ds: Seq<DeviceRecord>, i: int) -> bool {
    ev.target is Some && names(ds, ev.target->0, i) && ip_of(ds[i].ip@) is Some
}

/// The action goes over the link.
pub open spec fn goes_over(a: ActionModel, link: LinkModel) -> bool {
    match a {
        ActionModel::S7Read { link: l, .. } => l == link,
        ActionModel::S7ProgramDownload { link: l, .. } => l == link,
        ActionModel::S7Write { link: l, .. } => l == link,
        ActionModel::S7Stop { link: l } => l == link,
        ActionModel::ModbusWrite { link: l, .. } => l == link,
        ActionModel::TristationStatus { link: l } => l == link,
        ActionModel::TristationDownload { link: l, .. } => l == link,
        ActionModel::Iec104Interrogation { link: l, .. } => l == link,
        ActionModel::Iec104Command { link: l, .. } => l == link,
        ActionModel::ShareWrite { link: l, .. } => l == link,
        ActionModel::MoxaBrick { link: l, .. } => l == link,
        ActionModel::OnDevice { link: l, .. } => l == link,
        _ => false,
    }
}

/// The address is number 250 of the network, or the last but one of a smaller
/// network.
pub open spec fn stands_at_250(n: Ipv4Net, ip: u32) -> bool {
    &&& n.prefix <= 24 ==> ip == n.first() + 250
    &&& 25 <= n.prefix <= 30 ==> ip == n.last() - 1
    &&& n.has(ip as int)
}

/// The engineering station of a zone is its address number 250, or the last host
/// of a smaller network.
pub proof fn law_station_stands_at_250(cidr: Seq<char>)
    requires
        cidr_net(cidr) is Some,
    ensures
        stands_at_250(cidr_net(cidr)->0, station(cidr)),
{
    let n = cidr_net(cidr)->0;
    lemma_cidr_net_wf(cidr);
    n.lemma_bounds();
    lemma_span_values();
    if n.prefix <= 24 {
        lemma_span_divides(n.prefix as int, 24);
    } else {
        lemma_span_divides(24, n.prefix as int);
        if n.prefix > 25 {
            lemma_span_divides(25, n.prefix as int);
        }
    }
}

/// Every event on a device of the plant asks for an action, and every action that
/// is not a session from outside or a beacon runs to that device's addresses,
/// from the engineering station of its zone, under a dynamic client port.
pub proof fn law_actions_run_from_the_station_to_the_device(
    e: ScenarioEngine,
    ev: Event,
    ds: Seq<DeviceRecord>,
    vuln: VulnDb,
    nonce: u64,
    i: int,
)
    requires
        targets(ev, ds, i),
    ensures
        e.action_of(ev, ds, vuln, nonce) is Some,
        ev.emit != EmitKind::RemoteAccess && ev.emit != EmitKind::C2Beacon ==> exists|
            link: LinkModel,
        |
            {
                &&& #[trigger] goes_over(e.action_of(ev, ds, vuln, nonce)->0, link)
                &&& Some(link.device_ip) == ip_of(ds[i].ip@)
                &&& link.device_mac == mac_of(ds[i].mac@)
                &&& cidr_net(ds[i].subnet_cidr@) is Some ==> stands_at_250(
                    cidr_net(ds[i].subnet_cidr@)->0,
                    link.client_ip,
                )
                &&& link.client_mac == host_mac(e.seed, link.client_ip)
                &&& 49152 <= link.port
            },
{
    lemma_reference(ds, ev.target->0);
    let a = e.action_of(ev, ds, vuln, nonce)->0;
    let link = link_to(e.seed, ds[i], nonce);
    if cidr_net(ds[i].subnet_cidr@) is Some {
        law_station_stands_at_250(ds[i].subnet_cidr@);
    }
    if ev.emit != EmitKind::RemoteAccess && ev.emit != EmitKind::C2Beacon {
        assert(goes_over(a, link));
    }
}

/// A Modbus write goes to the unit and register that its event gives, with the
/// value that it gives: unit 1, register 0 and value 0 where it gives none.
pub proof fn law_modbus_write_carries_its_event(
    e: ScenarioEngine,
    ev: Event,
    ds: Seq<DeviceRecord>,
    vuln: VulnDb,
    nonce: u64,
    i: int,
)
    requires
        ev.emit == EmitKind::ModbusWrite,
        targets(ev, ds, i),
    ensures
        e.action_of(ev, ds, vuln, nonce) matches Some(a) && a matches ActionModel::ModbusWrite {
            unit,
            register,
            value,
            ..
        } && {
            &&& ev.register is Some ==> ev.register == Some(register)
            &&& ev.register is None ==> register == 0
            &&& ev.value is Some ==> ev.value == Some(value)
            &&& ev.value is None ==> value == 0
            &&& ev.unit is Some ==> ev.unit == Some(unit)
            &&& ev.unit is None ==> unit == 1
        },
{
    lemma_reference(ds, ev.target->0);
}

/// An S7 write goes to the data block and offset that its event gives, with the
/// value that it gives: block 1, offset 0 and value 0 where it gives none.
pub proof fn law_s7_write_carries_its_event(
    e: ScenarioEngine,
    ev: Event,
    ds: Seq<DeviceRecord>,
    vuln: VulnDb,
    nonce: u64,
    i: int,
)
    requires
        ev.emit == EmitKind::S7Write,
        targets(ev, ds, i),
    ensures
        e.action_of(ev, ds, vuln, nonce) matches Some(a) && a matches ActionModel::S7Write {
            db,
            offset,
            value,
            ..
        } && {
            &&& ev.db is Some ==> ev.db == Some(db)
            &&& ev.db is None ==> db == 1
            &&& ev.offset is Some ==> ev.offset == Some(offset)
            &&& ev.offset is None ==> offset == 0
            &&& ev.value is Some ==> ev.value == Some(value)
            &&& ev.value is None ==> value == 0
        },
{
    lemma_reference(ds, ev.target->0);
}

/// An IEC 104 command goes to the common address and object that its event gives
/// (1 each where it gives none), and closes only if the event says so.
pub proof fn law_iec104_command_carries_its_event(
    e: ScenarioEngine,
    ev: Event,
    ds: Seq<DeviceRecord>,
    vuln: VulnDb,
    nonce: u64,
    i: int,
)
    requires
        ev.emit == EmitKind::Iec104Command,
        targets(ev, ds, i),
    ensures
        e.action_of(ev, ds, vuln, nonce) matches Some(a) && a matches ActionModel::Iec104Command {
            common_addr,
            ioa,
            close,
            ..
        } && {
            &&& ev.common_addr is Some ==> ev.common_addr == Some(common_addr)
            &&& ev.common_addr is None ==> common_addr == 1
            &&& ev.ioa is Some ==> ev.ioa == Some(ioa)
            &&& ev.ioa is None ==> ioa == 1
            &&& close <==> ev.close == Some(true)
        },
{
    lemma_reference(ds, ev.target->0);
}

/// An IEC 104 interrogation goes to the common address that its event gives, 1
/// where it gives none.
pub proof fn law_iec104_interrogation_carries_its_event(
    e: ScenarioEngine,
    ev: Event,
    ds: Seq<DeviceRecord>,
    vuln: VulnDb,
    nonce: u64,
    i: int,
)
    requires
        ev.emit == EmitKind::Iec104Interrogation,
        targets(ev, ds, i),
    ensures
        e.action_of(ev, ds, vuln, nonce) matches Some(a)
            && a matches ActionModel::Iec104Interrogation {
            common_addr,
            ..
        } && {
            &&& ev.common_addr is Some ==> ev.common_addr == Some(common_addr)
            &&& ev.common_addr is None ==> common_addr == 1
        },
{
    lemma_reference(ds, ev.target->0);
}

/// A TriStation download carries the bytes that its event writes out, in chunks of
/// the size that it gives, 8 where it gives none.
pub proof fn law_tristation_download_carries_its_event(
    e: ScenarioEngine,
    ev: Event,
    ds: Seq<DeviceRecord>,
    vuln: VulnDb,
    nonce: u64,
    i: int,
)
    requires
        ev.emit == EmitKind::TristationDownload,
        targets(ev, ds, i),
    ensures
        e.action_of(ev, ds, vuln, nonce) matches Some(a)
            && a matches ActionModel::TristationDownload {
            payload,
            chunk,
            ..
        } && {
            &&& forall|b: Seq<u8>|
                b.len() > 0 && opt_text(ev.payload_hex) == Some(#[trigger] hex_pairs(b))
                    ==> payload == b
            &&& ev.chunk is Some ==> ev.chunk == Some(chunk)
            &&& ev.chunk is None ==> chunk == 8
        },
{
    lemma_reference(ds, ev.target->0);
    lemma_written_out(ev.payload_hex);
}

/// A program download carries the bytes that its event writes out, into the block
/// that the event names, `_0800001P` where it names none.
pub proof fn law_program_download_carries_its_event(
    e: ScenarioEngine,
    ev: Event,
    ds: Seq<DeviceRecord>,
    vuln: VulnDb,
    nonce: u64,
    i: int,
)
    requires
        ev.emit == EmitKind::S7ProgramDownload,
        targets(ev, ds, i),
    ensures
        e.action_of(ev, ds, vuln, nonce) matches Some(a)
            && a matches ActionModel::S7ProgramDownload {
            block,
            payload,
            ..
        } && {
            &&& forall|b: Seq<u8>|
                b.len() > 0 && opt_text(ev.payload_hex) == Some(#[trigger] hex_pairs(b))
                    ==> payload == b
            &&& ev.block_id is Some ==> block == ev.block_id->0@
            &&& ev.block_id is None ==> block == "_0800001P"@
        },
{
    lemma_reference(ds, ev.target->0);
    lemma_written_out(ev.payload_hex);
}

/// A firmware push carries the bytes that its event writes out.
pub proof fn law_firmware_push_carries_its_event(
    e: ScenarioEngine,
    ev: Event,
    ds: Seq<DeviceRecord>,
    vuln: VulnDb,
    nonce: u64,
    i: int,
)
    requires
        ev.emit == EmitKind::MoxaBrick,
        targets(ev, ds, i),
    ensures
        e.action_of(ev, ds, vuln, nonce) matches Some(a) && a matches ActionModel::MoxaBrick {
            firmware,
            ..
        } && {
            &&& forall|b: Seq<u8>|
                b.len() > 0 && opt_text(ev.payload_hex) == Some(#[trigger] hex_pairs(b))
                    ==> firmware == b
        },
{
    lemma_reference(ds, ev.target->0);
    lemma_written_out(ev.payload_hex);
}

/// A share write goes to the share that its event names, else to the
/// administrative share of the device itself.
pub proof fn law_share_write_carries_its_event(
    e: ScenarioEngine,
    ev: Event,
    ds: Seq<DeviceRecord>,
    vuln: VulnDb,
    nonce: u64,
    i: int,
)
    requires
        ev.emit == EmitKind::Wiper,
        targets(ev, ds, i),
    ensures
        e.action_of(ev, ds, vuln, nonce) matches Some(a) && a matches ActionModel::ShareWrite {
            share,
            ..
        } && {
            &&& ev.share is Some ==> share == ev.share->0@
            &&& ev.share is None ==> share == "\\\\"@ + ds[i].ip@ + "\\ADMIN$\\update.dll"@
        },
{
    lemma_reference(ds, ev.target->0);
    lemma_own_text(ds[i].ip@);
}

/// An S7 identity read finds the device's firmware, and as order number that of
/// the first profile of the device's model, or the model itself where no profile
/// is of that model or the profile gives none.
pub proof fn law_s7_read_finds_the_device(
    e: ScenarioEngine,
    ev: Event,
    ds: Seq<DeviceRecord>,
    vuln: VulnDb,
    nonce: u64,
    i: int,
)
    requires
        ev.emit == EmitKind::S7Read,
        targets(ev, ds, i),
    ensures
        e.action_of(ev, ds, vuln, nonce) matches Some(a) && a matches ActionModel::S7Read {
            order,
            firmware,
            ..
        } && {
            &&& firmware == ds[i].firmware@
            &&& forall|k: int|
                #![trigger vuln.profiles@[k]]
                first_of_model(vuln, ds[i].model@, k)
                    && vuln.profiles@[k].s7_order_number is Some ==> order
                    == vuln.profiles@[k].s7_order_number->0@
            &&& forall|k: int|
                #![trigger vuln.profiles@[k]]
                first_of_model(vuln, ds[i].model@, k)
                    && vuln.profiles@[k].s7_order_number is None ==> order
                    == ds[i].model@
            &&& (forall|k: int| 0 <= k < vuln.profiles@.len()
                ==> (#[trigger] vuln.profiles@[k]).model@ != ds[i].model@) ==> order == ds[i].model@
        },
{
    lemma_reference(ds, ev.target->0);
    lemma_model_place(vuln, ds[i].model@);
}

/// A session from outside reaches the device itself, on the port that its event
/// gives, 5938 where it gives none; under the stand-in fidelity it comes from
/// 198.51.100.10.
pub proof fn law_remote_access_reaches_the_device(
    e: ScenarioEngine,
    ev: Event,
    ds: Seq<DeviceRecord>,
    vuln: VulnDb,
    nonce: u64,
    i: int,
)
    requires
        ev.emit == EmitKind::RemoteAccess,
        targets(ev, ds, i),
    ensures
        e.action_of(ev, ds, vuln, nonce) matches Some(a) && a matches ActionModel::RemoteAccess {
            external_ip,
            host_mac,
            host_ip,
            port,
            service_port,
            ..
        } && {
            &&& Some(host_ip) == ip_of(ds[i].ip@)
            &&& host_mac == mac_of(ds[i].mac@)
            &&& port >= 49152
            &&& ev.port is Some ==> ev.port == Some(service_port)
            &&& ev.port is None ==> service_port == 5938
            &&& e.fidelity == IocFidelity::Standin ==> external_ip == 0xC633_640A
            &&& e.fidelity != IocFidelity::Standin && e.external_cidrs@.len() > 0
                && cidr_net(e.external_cidrs@[0]@) is Some
                && cidr_net(e.external_cidrs@[0]@)->0.prefix <= 28
                ==> external_ip == cidr_net(e.external_cidrs@[0]@)->0.first() + 10
        },
{
    lemma_reference(ds, ev.target->0);
    if e.external_cidrs@.len() > 0 && cidr_net(e.external_cidrs@[0]@) is Some {
        let n = cidr_net(e.external_cidrs@[0]@)->0;
        lemma_cidr_net_wf(e.external_cidrs@[0]@);
        n.lemma_bounds();
        if n.prefix <= 28 {
            lemma_span_divides(n.prefix as int, 28);
            lemma_span_28();
        }
    }
}

/// A beacon leaves the device itself. Under the stand-in fidelity it looks up
/// `beacon.example` and contacts 203.0.113.10; else it looks up the event's domain,
/// or the pack's first, and contacts the event's address, or the pack's first. It
/// goes to the port that the event gives, 80 where it gives none, through the
/// resolver that it asks.
pub proof fn law_beacon_carries_its_event(
    e: ScenarioEngine,
    ev: Event,
    ds: Seq<DeviceRecord>,
    vuln: VulnDb,
    nonce: u64,
    i: int,
)
    requires
        ev.emit == EmitKind::C2Beacon,
        targets(ev, ds, i),
    ensures
        e.action_of(ev, ds, vuln, nonce) matches Some(a) && a matches ActionModel::C2Beacon {
            host_mac,
            host_ip,
            resolver_mac,
            gateway_mac,
            domain,
            c2_ip,
            c2_port,
            port,
            ..
        } && {
            &&& Some(host_ip) == ip_of(ds[i].ip@)
            &&& host_mac == mac_of(ds[i].mac@)
            &&& gateway_mac == resolver_mac
            &&& port >= 49152
            &&& ev.port is Some ==> ev.port == Some(c2_port)
            &&& ev.port is None ==> c2_port == 80
            &&& e.fidelity == IocFidelity::Standin ==> domain == "beacon.example"@
                && c2_ip == 0xCB00_710A
            &&& e.fidelity != IocFidelity::Standin && ev.domain is Some ==> domain == ev.domain->0@
            &&& e.fidelity != IocFidelity::Standin && ev.domain is None
                && e.c2_domains@.len() > 0 ==> domain == e.c2_domains@[0]@
            &&& e.fidelity != IocFidelity::Standin ==> forall|ip: u32| ev.ip is Some
                && ev.ip->0@ == #[trigger] ip_text(ip) ==> c2_ip == ip
            &&& e.fidelity != IocFidelity::Standin && ev.ip is None && e.c2_ips@.len() > 0
                ==> forall|ip: u32| e.c2_ips@[0]@ == #[trigger] ip_text(ip) ==> c2_ip == ip
        },
{
    lemma_reference(ds, ev.target->0);
    lemma_any_text();
}

/// A stop asks for nothing but its link.
pub proof fn law_s7_stop_is_one(
    e: ScenarioEngine,
    ev: Event,
    ds: Seq<DeviceRecord>,
    vuln: VulnDb,
    nonce: u64,
    i: int,
)
    requires
        ev.emit == EmitKind::S7Stop,
        targets(ev, ds, i),
    ensures
        e.action_of(ev, ds, vuln, nonce) matches Some(a) && a is S7Stop,
{
    lemma_reference(ds, ev.target->0);
}

/// A TriStation status asks for nothing but its link.
pub proof fn law_tristation_status_is_one(
    e: ScenarioEngine,
    ev: Event,
    ds: Seq<DeviceRecord>,
    vuln: VulnDb,
    nonce: u64,
    i: int,
)
    requires
        ev.emit == EmitKind::TristationStatus,
        targets(ev, ds, i),
    ensures
        e.action_of(ev, ds, vuln, nonce) matches Some(a) && a is TristationStatus,
{
    lemma_reference(ds, ev.target->0);
}

/// An action of any other kind says of which kind it is and carries each
/// parameter that its event gives, under its own name.
pub proof fn law_other_kinds_carry_their_event(
    e: ScenarioEngine,
    ev: Event,
    ds: Seq<DeviceRecord>,
    vuln: VulnDb,
    nonce: u64,
    i: int,
)
    requires
        ev.emit == EmitKind::Dnp3Read || ev.emit == EmitKind::Dnp3Operate || ev.emit
            == EmitKind::CipRead || ev.emit == EmitKind::CipWrite || ev.emit == EmitKind::OpcuaRead
            || ev.emit == EmitKind::Iec101Interrogation || ev.emit == EmitKind::Iec101Command,
        targets(ev, ds, i),
    ensures
        e.action_of(ev, ds, vuln, nonce) matches Some(a) && a matches ActionModel::OnDevice {
            kind,
            value,
            register,
            unit,
            ioa,
            common_addr,
            point,
            close,
            ..
        } && {
            &&& kind == ev.emit
            &&& value == ev.value
            &&& register == ev.register
            &&& unit == ev.unit
            &&& ioa == ev.ioa
            &&& common_addr == ev.common_addr
            &&& point == ev.point
            &&& close == ev.close
        },
{
    lemma_reference(ds, ev.target->0);
}

/// A beacon without a target leaves the first device of the plant; any other
/// event without one, or whose target no device matches, asks for nothing.
pub proof fn law_only_beacons_need_no_target(
    e: ScenarioEngine,
    ev: Event,
    ds: Seq<DeviceRecord>,
    vuln: VulnDb,
    nonce: u64,
)
    requires
        ev.target is None || (!has_ip(ds, ev.target->0) && !has_model(ds, ev.target->0)
            && !has_type(ds, ev.target->0)),
    ensures
        ev.emit != EmitKind::C2Beacon || ds.len() == 0 ==> e.action_of(ev, ds, vuln, nonce) is None,
        ev.emit == EmitKind::C2Beacon && ds.len() > 0 && ip_of(ds[0].ip@) is Some ==> (
        e.action_of(ev, ds, vuln, nonce) matches Some(a) && a matches ActionModel::C2Beacon {
            host_ip,
            host_mac,
            ..
        } && Some(host_ip) == ip_of(ds[0].ip@) && host_mac == mac_of(ds[0].mac@)),
{
    if ev.target is Some {
        lemma_reference(ds, ev.target->0);
    }
}

/// Where the device's zone has a firewall with an address, a session from outside
/// and a beacon pass through that firewall, and the beacon asks it for the name.
pub proof fn law_outside_traffic_passes_the_firewall(
    e: ScenarioEngine,
    ev: Event,
    ds: Seq<DeviceRecord>,
    vuln: VulnDb,
    nonce: u64,
    i: int,
    fw: int,
)
    requires
        targets(ev, ds, i),
        0 <= fw < ds.len(),
        ds[fw].subnet_cidr@ == ds[i].subnet_cidr@,
        opt_text(ds[fw].asset_type) == Some("Firewall"@),
        forall|k: int|
            0 <= k < fw ==> (#[trigger] ds[k]).subnet_cidr@ != ds[i].subnet_cidr@ || opt_text(
                ds[k].asset_type,
            ) != Some("Firewall"@),
        ip_of(ds[fw].ip@) is Some,
    ensures
        ev.emit == EmitKind::RemoteAccess ==> (e.action_of(ev, ds, vuln, nonce) matches Some(a)
            && a matches ActionModel::RemoteAccess { gateway_mac, .. } && gateway_mac == mac_of(
            ds[fw].mac@,
        )),
        ev.emit == EmitKind::C2Beacon ==> (e.action_of(ev, ds, vuln, nonce) matches Some(a)
            && a matches ActionModel::C2Beacon { gateway_mac, resolver_mac, resolver_ip, .. }
            && gateway_mac == mac_of(ds[fw].mac@) && resolver_mac == mac_of(ds[fw].mac@)
            && Some(resolver_ip) == ip_of(ds[fw].ip@)),
{
    lemma_reference(ds, ev.target->0);
    let f = firewall_in(ds[i].subnet_cidr@);
    lemma_first_where(ds, f);
    assert(f(ds[fw]));
    let p = first_where(ds, f);
    if p < fw {
        assert(f(ds[p]));
    }
}

/// The profile at `k` is the first of the model.
pub open spec fn first_of_model(vuln: VulnDb, model: Seq<char>, k: int) -> bool {
    &&& 0 <= k < vuln.profiles@.len()
    &&& vuln.profiles@[k].model@ == model
    &&& forall|j: int| 0 <= j < k ==> (#[trigger] vuln.profiles@[j]).model@ != model
}

pub proof fn lemma_model_place(vuln: VulnDb, model: Seq<char>)
    ensures
        forall|k: int| #[trigger]
            first_of_model(vuln, model, k) ==> model_place(vuln.profiles@, model) == k,
        (forall|k: int|
            0 <= k < vuln.profiles@.len() ==> (#[trigger] vuln.profiles@[k]).model@ != model)
            ==> model_place(vuln.profiles@, model) == vuln.profiles@.len(),
{
    lemma_place(vuln.profiles@, model);
    let p = model_place(vuln.profiles@, model);
    assert forall|k: int| #[trigger] first_of_model(vuln, model, k) implies p == k by {
        if k < p {
            assert(vuln.profiles@[k].model@ != model);
        }
        if p < k {
            assert(vuln.profiles@[p].model@ == model);
        }
    }
}

pub proof fn lemma_place(ps: Seq<DeviceProfile>, model: Seq<char>)
    ensures
        0 <= model_place(ps, model) <= ps.len(),
        model_place(ps, model) < ps.len() ==> ps[model_place(ps, model)].model@ == model,
        forall|j: int| 0 <= j < model_place(ps, model) ==> (#[trigger] ps[j]).model@ != model,
    decreases ps.len(),
{
    if ps.len() > 0 && ps[0].model@ != model {
        let rest = ps.drop_first();
        lemma_place(rest, model);
        assert forall|j: int| 0 <= j < model_place(ps, model) implies (#[trigger] ps[j]).model@
            != model by {
            if j > 0 {
                assert(ps[j] == rest[j - 1]);
            }
        }
    }
}

proof fn lemma_written_out(hex: Option<String>)
    ensures
        forall|b: Seq<u8>|
            b.len() > 0 && opt_text(hex) == Some(#[trigger] hex_pairs(b)) ==> decoded(hex->0@)
                == Ok::<Seq<u8>, HexError>(b),
{
    assert forall|b: Seq<u8>|
        b.len() > 0 && opt_text(hex) == Some(#[trigger] hex_pairs(b)) implies decoded(hex->0@)
        == Ok::<Seq<u8>, HexError>(b) by {
        law_hex_reads_back(b);
    }
}

proof fn lemma_own_text(s: Seq<char>)
    requires
        ip_of(s) is Some,
    ensures
        ip_text(ip_of(s)->0) == s,
{
}

proof fn lemma_any_text()
    ensures
        forall|ip: u32| ip_of(#[trigger] ip_text(ip)) == Some(ip),
{
    assert forall|ip: u32| ip_of(#[trigger] ip_text(ip)) == Some(ip) by {
        lemma_ip_of(ip);
    }
}

proof fn lemma_span_28()
    ensures
        span(28) == 16,
{
    reveal_with_fuel(span, 6);
}

/// The event can be played in the plant: its target matches a device, by address,
/// model or asset type, or it is a beacon without one.
pub open spec fn playable(ds: Seq<DeviceRecord>, ev: Event) -> bool {
    match ev.target {
        Some(t) => has_ip(ds, t) || has_model(ds, t) || has_type(ds, t),
        None => ev.emit == EmitKind::C2Beacon,
    }
}

proof fn lemma_playable(ds: Seq<DeviceRecord>, ph: Phase, i: int)
    requires
        0 <= i < ph.events@.len(),
    ensures
        event_target_fault(ds, ph, i) is None <==> playable(ds, ph.events@[i]),
{
    let ev = ph.events@[i];
    if ev.target is Some {
        let t = ev.target->0;
        lemma_reference(ds, t);
        if t.ip is Some {
            lemma_first_where(ds, at_ip(t.ip->0@));
        }
        if t.model is Some {
            lemma_first_where(ds, of_model(t.model->0@));
        }
        if t.asset_type is Some {
            lemma_first_where(ds, of_type(t.asset_type->0@));
        }
        if has_ip(ds, t) {
            let k = choose|k: int| 0 <= k < ds.len() && (#[trigger] ds[k]).ip@ == t.ip->0@;
            assert(at_ip(t.ip->0@)(ds[k]));
        } else if has_model(ds, t) {
            let k = choose|k: int| 0 <= k < ds.len() && (#[trigger] ds[k]).model@ == t.model->0@;
            assert(of_model(t.model->0@)(ds[k]));
        } else if has_type(ds, t) {
            let k = choose|k: int|
                0 <= k < ds.len() && opt_text((#[trigger] ds[k]).asset_type) == Some(
                    t.asset_type->0@,
                );
            assert(of_type(t.asset_type->0@)(ds[k]));
        }
    }
}

/// The targets of a phase are accepted exactly when every one of its events can be
/// played in the plant.
pub proof fn law_playable_phases_are_accepted(ds: Seq<DeviceRecord>, ph: Phase)
    ensures
        phase_target_fault(ds)(ph) is None <==> forall|i: int|
            0 <= i < ph.events@.len() ==> playable(ds, #[trigger] ph.events@[i]),
{
    let all = Seq::new(ph.events@.len(), |i: int| event_target_fault(ds, ph, i));
    lemma_no_fault(all);
    if phase_target_fault(ds)(ph) is None {
        assert forall|i: int| 0 <= i < ph.events@.len() implies playable(
            ds,
            #[trigger] ph.events@[i],
        ) by {
            assert(all[i] is None);
            lemma_playable(ds, ph, i);
        }
    }
    if forall|i: int| 0 <= i < ph.events@.len() ==> playable(ds, #[trigger] ph.events@[i]) {
        assert forall|i: int| 0 <= i < all.len() implies #[trigger] all[i] is None by {
            assert(playable(ds, ph.events@[i]));
            lemma_playable(ds, ph, i);
        }
    }
}

/// The payloads of a phase are accepted exactly when every one that an event gives
/// can be decoded.
pub proof fn law_decodable_phases_are_accepted(ph: Phase)
    ensures
        phase_payload_fault()(ph) is None <==> forall|i: int|
            0 <= i < ph.events@.len() && (#[trigger] ph.events@[i]).payload_hex is Some ==> decoded(
                ph.events@[i].payload_hex->0@,
            ) is Ok,
{
    let all = ph.events@.map_values(payload_fault(ph.id@));
    lemma_no_fault(all);
    if phase_payload_fault()(ph) is None {
        assert forall|i: int|
            0 <= i < ph.events@.len() && (#[trigger] ph.events@[i]).payload_hex is Some implies decoded(
            ph.events@[i].payload_hex->0@,
        ) is Ok by {
            assert(all[i] is None);
        }
    }
    if forall|i: int|
        0 <= i < ph.events@.len() && (#[trigger] ph.events@[i]).payload_hex is Some ==> decoded(
            ph.events@[i].payload_hex->0@,
        ) is Ok {
        assert forall|i: int| 0 <= i < all.len() implies #[trigger] all[i] is None by {
            if ph.events@[i].payload_hex is Some {
                assert(decoded(ph.events@[i].payload_hex->0@) is Ok);
            }
        }
    }
}

} // verus!
