//! What holds of every identity burst: that each device is heard, with what its
//! profile says, and that nothing else is.

use vstd::prelude::*;
use crate::ledger::{DeviceRecord, Session};
use crate::mac::mac_of;
use crate::net::ip_of;
use crate::proto::l3::host_mac;
use crate::scenario::action::LinkModel;
use crate::scenario::action_laws::{first_of_model, lemma_model_place, lemma_place};
use crate::simulate::announce::{
    announced, assertions, burst_of, crossing_session, crossing_sessions, device_assertion,
    device_at, lookup, lookups, resolutions, resolver, BurstCfg, BEACON_EVERY,
};
use crate::simulate::crossings::{crossings, CrossingModel};
use crate::simulate::identity::{identity_of, law_ports_are_dynamic, scan_port, ExchangeModel};
use crate::simulate::roles::station;
use crate::text::opt_text;
use crate::vuln::{model_place, DeviceProfile, ProfileProto, VulnDb};

verus! {

/// The text is told as it stands, if its bytes fit.
pub open spec fn told(t: Seq<char>, s: Seq<char>, max: int) -> bool {
    vstd::utf8::encode_utf8(s).len() <= max ==> t == s
}

/// The List Identity reply tells what the profile says: its firmware, its
/// identity numbers (0 where it gives none), and its product name, or its model
/// where it gives none.
pub open spec fn enip_tells(x: ExchangeModel, p: DeviceProfile) -> bool {
    x matches ExchangeModel::Enip {
        link,
        vendor_id,
        device_type,
        product_code,
        firmware,
        serial,
        product_name,
    } && {
        &&& firmware == p.firmware@
        &&& serial == link.device_ip
        &&& match p.enip_vendor_id {
            Some(n) => vendor_id == n,
            None => vendor_id == 0,
        }
        &&& match p.enip_device_type {
            Some(n) => device_type == n,
            None => device_type == 0,
        }
        &&& match p.enip_product_code {
            Some(n) => product_code == n,
            None => product_code == 0,
        }
        &&& match p.enip_product_name {
            Some(s) => told(product_name, s@, 255),
            None => told(product_name, p.model@, 255),
        }
    }
}

/// The device identification tells what the profile says: its Modbus vendor name,
/// product code and revision, or, where it gives none, its vendor, model and
/// firmware.
pub open spec fn modbus_tells(x: ExchangeModel, p: DeviceProfile) -> bool {
    x matches ExchangeModel::Modbus { unit, vendor_name, product_code, revision, .. } && {
        &&& unit == 1
        &&& match p.modbus_vendor_name {
            Some(s) => told(vendor_name, s@, 255),
            None => told(vendor_name, p.vendor@, 255),
        }
        &&& match p.modbus_product_code {
            Some(s) => told(product_code, s@, 255),
            None => told(product_code, p.model@, 255),
        }
        &&& match p.modbus_revision {
            Some(s) => told(revision, s@, 255),
            None => told(revision, p.firmware@, 255),
        }
    }
}

/// The module identification tells what the profile says: its firmware as the
/// firmware, and as the order number its own, or its model where it gives none.
pub open spec fn s7_tells(x: ExchangeModel, p: DeviceProfile) -> bool {
    x matches ExchangeModel::S7 { order, firmware, .. } && {
        &&& firmware == p.firmware@
        &&& match p.s7_order_number {
            Some(s) => order == s@,
            None => order == p.model@,
        }
    }
}

/// The system group tells what the profile says: its description, or vendor and
/// model where it gives none; its object id; and its firmware, if it has any,
/// under its own object id if it gives one.
pub open spec fn snmp_tells(x: ExchangeModel, p: DeviceProfile) -> bool {
    x matches ExchangeModel::Snmp { community, descr, object_id, firmware_oid, firmware, .. } && {
        &&& community == "public"@
        &&& match p.sys_descr {
            Some(s) => descr == s@,
            None => descr == p.vendor@ + " "@ + p.model@,
        }
        &&& object_id == opt_text(p.sys_object_id)
        &&& p.firmware@.len() > 0 ==> firmware == Some(p.firmware@) && firmware_oid == opt_text(
            p.firmware_oid,
        )
        &&& p.firmware@.len() == 0 ==> firmware is None && firmware_oid is None
    }
}

/// The discovery beacon tells what the profile says: its model as the name, and
/// its description, or vendor and model where it gives none.
pub open spec fn lldp_tells(x: ExchangeModel, p: DeviceProfile) -> bool {
    x matches ExchangeModel::Lldp { name, descr, .. } && {
        &&& told(name, p.model@, 511)
        &&& match p.sys_descr {
            Some(s) => told(descr, s@, 511),
            None => told(descr, p.vendor@ + " "@ + p.model@, 511),
        }
    }
}

/// The discovery beacon tells what the profile says: its model as device and
/// platform, and its firmware as the version.
pub open spec fn cdp_tells(x: ExchangeModel, p: DeviceProfile) -> bool {
    x matches ExchangeModel::Cdp { device, version, platform, .. } && {
        &&& device == p.model@
        &&& version == p.firmware@
        &&& platform == p.model@
    }
}

/// A zone-edge class, which sends no discovery beacons.
pub open spec fn edge_class(p: DeviceProfile) -> bool {
    opt_text(p.asset_class) == Some("Firewall"@) || opt_text(p.asset_class) == Some("Router"@)
}

/// The exchange is one that the profile's carrier protocol has, and tells what the
/// profile says.
pub open spec fn tells(x: ExchangeModel, p: DeviceProfile) -> bool {
    match p.protocol {
        ProfileProto::Enip => enip_tells(x, p),
        ProfileProto::Modbus => modbus_tells(x, p),
        ProfileProto::S7 => s7_tells(x, p),
        ProfileProto::SwitchSnmp => snmp_tells(x, p) || (!edge_class(p) && (lldp_tells(x, p)
            || cdp_tells(x, p))),
    }
}

/// The exchange tells what the record of a device says that has no profile: by its
/// protocol tag, its vendor, model and firmware.
pub open spec fn tells_record(x: ExchangeModel, d: DeviceRecord) -> bool {
    if d.protocol@ == "modbus"@ {
        x matches ExchangeModel::Modbus { vendor_name, product_code, revision, .. } && told(
            vendor_name,
            d.vendor@,
            255,
        ) && told(product_code, d.model@, 255) && told(revision, d.firmware@, 255)
    } else if d.protocol@ == "s7"@ {
        x matches ExchangeModel::S7 { order, firmware, .. } && order == d.model@ && firmware
            == d.firmware@
    } else if d.protocol@ == "switch_snmp"@ {
        ||| (x matches ExchangeModel::Snmp { descr, firmware, .. } && descr == d.vendor@ + " "@
            + d.model@ && (d.firmware@.len() > 0 ==> firmware == Some(d.firmware@)))
        ||| (x matches ExchangeModel::Lldp { name, descr, .. } && told(name, d.model@, 511)
            && told(descr, d.vendor@ + " "@ + d.model@, 511))
        ||| (x matches ExchangeModel::Cdp { device, version, platform, .. } && device == d.model@
            && version == d.firmware@ && platform == d.model@)
    } else {
        x matches ExchangeModel::Enip { firmware, product_name, link, serial, .. } && firmware
            == d.firmware@ && told(product_name, d.model@, 255) && serial == link.device_ip
    }
}

/// The exchange tells what is known of the device: what the first profile of its
/// model says, or, without one, its record.
pub open spec fn tells_of(x: ExchangeModel, vuln: VulnDb, d: DeviceRecord) -> bool {
    ||| exists|k: int| #[trigger]
        first_of_model(vuln, d.model@, k) && tells(x, vuln.profiles@[k])
    ||| (forall|k: int|
        0 <= k < vuln.profiles@.len() ==> (#[trigger] vuln.profiles@[k]).model@ != d.model@)
        && tells_record(x, d)
}

/// The exchange is with the device at the two addresses.
pub open spec fn with(x: ExchangeModel, ip: u32, mac: Seq<u8>) -> bool {
    match x {
        ExchangeModel::Enip { link, .. } => link.device_ip == ip && link.device_mac == mac,
        ExchangeModel::Modbus { link, .. } => link.device_ip == ip && link.device_mac == mac,
        ExchangeModel::S7 { link, .. } => link.device_ip == ip && link.device_mac == mac,
        ExchangeModel::Snmp { link, .. } => link.device_ip == ip && link.device_mac == mac,
        ExchangeModel::Lldp { mac: m, ip: a, .. } => a == ip && m == mac,
        ExchangeModel::Cdp { mac: m, ip: a, .. } => a == ip && m == mac,
        _ => false,
    }
}

/// The exchange, if it is a session, is sought from the client address.
pub open spec fn sought_from(x: ExchangeModel, ip: u32, mac: Seq<u8>) -> bool {
    match x {
        ExchangeModel::Enip { link, .. } => link.client_ip == ip && link.client_mac == mac
            && 49152 <= link.port,
        ExchangeModel::Modbus { link, .. } => link.client_ip == ip && link.client_mac == mac
            && 49152 <= link.port,
        ExchangeModel::S7 { link, .. } => link.client_ip == ip && link.client_mac == mac && 49152
            <= link.port,
        ExchangeModel::Snmp { link, .. } => link.client_ip == ip && link.client_mac == mac
            && 49152 <= link.port,
        _ => true,
    }
}

/// What a device is to be heard with.
spec fn heard(
    x: ExchangeModel,
    vuln: VulnDb,
    d: DeviceRecord,
    ip: u32,
    mac: Seq<u8>,
    client_ip: u32,
    client_mac: Seq<u8>,
) -> bool {
    with(x, ip, mac) && tells_of(x, vuln, d) && sought_from(x, client_ip, client_mac)
}

/// The identity of a device over a link: each exchange of it tells what is known
/// of the device, and there is one that is no beacon.
proof fn lemma_identity(
    vuln: VulnDb,
    d: DeviceRecord,
    link: LinkModel,
    beacons: bool,
    nonce: u64,
)
    requires
        49152 <= link.port,
    ensures
        ({
            let s = identity_of(
                announced(vuln, d),
                link,
                beacons,
                nonce,
            );
            &&& s.len() > 0
            &&& forall|j: int|
                0 <= j < s.len() ==> heard(
                    #[trigger] s[j],
                    vuln,
                    d,
                    link.device_ip,
                    link.device_mac,
                    link.client_ip,
                    link.client_mac,
                ) && (is_beacon(s[j]) ==> beacons)
            &&& !is_beacon(s.last())
            &&& beacons ==> forall|k: int| #[trigger]
                first_of_model(vuln, d.model@, k) && vuln.profiles@[k].protocol
                    == ProfileProto::SwitchSnmp && !edge_class(vuln.profiles@[k]) ==> s.len() == 3
                    && s[0] is Lldp && s[1] is Cdp
        }),
{
    let s = identity_of(announced(vuln, d), link, beacons, nonce);
    lemma_model_place(vuln, d.model@);
    lemma_has_place(vuln, d.model@);
    let k = model_place(vuln.profiles@, d.model@);
    if k < vuln.profiles@.len() {
        assert(first_of_model(vuln, d.model@, k));
        let p = vuln.profiles@[k];
        assert forall|j: int| 0 <= j < s.len() implies heard(
            #[trigger] s[j],
            vuln,
            d,
            link.device_ip,
            link.device_mac,
            link.client_ip,
            link.client_mac,
        ) && (is_beacon(s[j]) ==> beacons) by {
            assert(tells(s[j], p));
            assert(tells_of(s[j], vuln, d));
        }
    } else {
        assert forall|j: int| 0 <= j < s.len() implies heard(
            #[trigger] s[j],
            vuln,
            d,
            link.device_ip,
            link.device_mac,
            link.client_ip,
            link.client_mac,
        ) && (is_beacon(s[j]) ==> beacons) by {
            assert(tells_record(s[j], d));
            assert(tells_of(s[j], vuln, d));
        }
    }
}

/// A discovery beacon.
pub open spec fn is_beacon(x: ExchangeModel) -> bool {
    x is Lldp || x is Cdp
}

proof fn lemma_has_place(vuln: VulnDb, model: Seq<char>)
    ensures
        ({
            let k = model_place(vuln.profiles@, model);
            ||| first_of_model(vuln, model, k)
            ||| k == vuln.profiles@.len() && forall|j: int|
                0 <= j < vuln.profiles@.len() ==> (#[trigger] vuln.profiles@[j]).model@ != model
        }),
{
    lemma_place(vuln.profiles@, model);
}

/// What a device asserts stands in the assertions, from some place on.
proof fn lemma_asserted(
    ds: Seq<DeviceRecord>,
    vuln: VulnDb,
    seed: u64,
    beacons: bool,
    nonce: u64,
    i: int,
) -> (at: int)
    requires
        0 <= i < ds.len(),
    ensures
        ({
            let all = assertions(ds, vuln, seed, beacons, nonce);
            let own = device_assertion(ds[i], vuln, seed, beacons, nonce);
            &&& 0 <= at
            &&& at + own.len() <= all.len()
            &&& forall|j: int| 0 <= j < own.len() ==> #[trigger] own[j] == all[at + j]
        }),
    decreases ds.len(),
{
    let head = assertions(ds.drop_last(), vuln, seed, beacons, nonce);
    if i == ds.len() - 1 {
        head.len() as int
    } else {
        let at = lemma_asserted(ds.drop_last(), vuln, seed, beacons, nonce, i);
        let own = device_assertion(ds[i], vuln, seed, beacons, nonce);
        let all = assertions(ds, vuln, seed, beacons, nonce);
        assert(ds.drop_last()[i] == ds[i]);
        assert forall|j: int| 0 <= j < own.len() implies #[trigger] own[j] == all[at + j] by {
            assert(own[j] == head[at + j]);
        }
        at
    }
}

/// Each assertion is one of a device of the plant.
proof fn lemma_asserts(
    ds: Seq<DeviceRecord>,
    vuln: VulnDb,
    seed: u64,
    beacons: bool,
    nonce: u64,
    j: int,
) -> (r: (int, int))
    requires
        0 <= j < assertions(ds, vuln, seed, beacons, nonce).len(),
    ensures
        0 <= r.0 < ds.len(),
        0 <= r.1 < device_assertion(ds[r.0], vuln, seed, beacons, nonce).len(),
        assertions(ds, vuln, seed, beacons, nonce)[j] == device_assertion(
            ds[r.0],
            vuln,
            seed,
            beacons,
            nonce,
        )[r.1],
    decreases ds.len(),
{
    let head = assertions(ds.drop_last(), vuln, seed, beacons, nonce);
    if j < head.len() {
        let r = lemma_asserts(ds.drop_last(), vuln, seed, beacons, nonce, j);
        assert(ds.drop_last()[r.0] == ds[r.0]);
        r
    } else {
        (ds.len() - 1, j - head.len())
    }
}

/// The beacons go out with this run.
pub open spec fn beacons_due(cfg: BurstCfg, run: u64) -> bool {
    cfg.switch_beacons && run % 8 == 0
}

/// Every device that carries an advisory and has an address is heard in a burst:
/// in an exchange with its own addresses, sought by its zone's engineering
/// station, that tells what its profile says and is no mere beacon. With the
/// beacons due, a switch that is no zone edge is heard in both of them too.
pub proof fn law_every_device_is_heard(
    ledger: Session,
    vuln: VulnDb,
    cfg: BurstCfg,
    run: u64,
    nonce: u64,
    i: int,
)
    requires
        cfg.device_identity,
        0 <= i < ledger.devices@.len(),
        ledger.devices@[i].cves@.len() > 0,
        ip_of(ledger.devices@[i].ip@) is Some,
    ensures
        ({
            let b = burst_of(ledger, vuln, cfg, run, nonce);
            let d = ledger.devices@[i];
            let ip = ip_of(d.ip@)->0;
            let mac = mac_of(d.mac@);
            &&& exists|j: int|
                {
                    &&& 0 <= j < b.len()
                    &&& with(#[trigger] b[j], ip, mac)
                    &&& tells_of(b[j], vuln, d)
                    &&& !is_beacon(b[j])
                    &&& sought_from(
                        b[j],
                        station(d.subnet_cidr@),
                        host_mac(ledger.seed, station(d.subnet_cidr@)),
                    )
                }
            &&& forall|k: int| #[trigger]
                first_of_model(vuln, d.model@, k) && vuln.profiles@[k].protocol
                    == ProfileProto::SwitchSnmp && !edge_class(vuln.profiles@[k]) && beacons_due(
                    cfg,
                    run,
                ) ==> {
                    &&& exists|j: int|
                        0 <= j < b.len() && with(#[trigger] b[j], ip, mac) && lldp_tells(
                            b[j],
                            vuln.profiles@[k],
                        )
                    &&& exists|j: int|
                        0 <= j < b.len() && with(#[trigger] b[j], ip, mac) && cdp_tells(
                            b[j],
                            vuln.profiles@[k],
                        )
                }
        }),
{
    let ds = ledger.devices@;
    let d = ds[i];
    let ip = ip_of(d.ip@)->0;
    let mac = mac_of(d.mac@);
    let seed = ledger.seed;
    let beacons = cfg.switch_beacons && run % BEACON_EVERY == 0;
    let b = burst_of(ledger, vuln, cfg, run, nonce);
    let first = resolutions(ledger);
    let all = assertions(ds, vuln, seed, beacons, nonce);
    let own = device_assertion(d, vuln, seed, beacons, nonce);
    let at = lemma_asserted(ds, vuln, seed, beacons, nonce, i);
    let link = LinkModel {
        client_mac: host_mac(seed, station(d.subnet_cidr@)),
        device_mac: mac,
        client_ip: station(d.subnet_cidr@),
        device_ip: ip,
        port: scan_port(nonce, ip),
    };
    law_ports_are_dynamic(nonce, ip);
    lemma_identity(vuln, d, link, beacons, nonce);
    let base = first.len() as int + at;
    assert forall|j: int| 0 <= j < own.len() implies #[trigger] own[j] == b[base + j] by {
        assert(own[j] == all[at + j]);
    }
    let last = own.len() - 1;
    assert(own[last] == b[base + last]);
    assert(heard(own[last], vuln, d, ip, mac, link.client_ip, link.client_mac));
    assert forall|k: int| #[trigger]
        first_of_model(vuln, d.model@, k) && vuln.profiles@[k].protocol == ProfileProto::SwitchSnmp
            && !edge_class(vuln.profiles@[k]) && beacons_due(cfg, run) implies {
        &&& exists|j: int|
            0 <= j < b.len() && with(#[trigger] b[j], ip, mac) && lldp_tells(
                b[j],
                vuln.profiles@[k],
            )
        &&& exists|j: int|
            0 <= j < b.len() && with(#[trigger] b[j], ip, mac) && cdp_tells(b[j], vuln.profiles@[k])
    } by {
        lemma_model_place(vuln, d.model@);
        assert(own[0] == b[base]);
        assert(own[1] == b[base + 1]);
        assert(heard(own[0], vuln, d, ip, mac, link.client_ip, link.client_mac));
        assert(heard(own[1], vuln, d, ip, mac, link.client_ip, link.client_mac));
        assert(with(b[base], ip, mac) && lldp_tells(b[base], vuln.profiles@[k]));
        assert(with(b[base + 1], ip, mac) && cdp_tells(b[base + 1], vuln.profiles@[k]));
    }
}

proof fn lemma_lookup_at(ds: Seq<DeviceRecord>, n: int, nonce: u64, i: int) -> (at: int)
    requires
        0 <= i < n <= ds.len(),
    ensures
        0 <= at,
        at + lookup(ds, ds[i], nonce).len() <= lookups(ds, n, nonce).len(),
        forall|j: int|
            0 <= j < lookup(ds, ds[i], nonce).len() ==> #[trigger] lookup(ds, ds[i], nonce)[j]
                == lookups(ds, n, nonce)[at + j],
    decreases n,
{
    if i == n - 1 {
        lookups(ds, n - 1, nonce).len() as int
    } else {
        let at = lemma_lookup_at(ds, n - 1, nonce, i);
        let own = lookup(ds, ds[i], nonce);
        let head = lookups(ds, n - 1, nonce);
        assert forall|j: int| 0 <= j < own.len() implies #[trigger] own[j] == lookups(
            ds,
            n,
            nonce,
        )[at + j] by {
            assert(own[j] == head[at + j]);
        }
        at
    }
}

proof fn lemma_lookup_of(ds: Seq<DeviceRecord>, n: int, nonce: u64, j: int) -> (i: int)
    requires
        0 <= n <= ds.len(),
        0 <= j < lookups(ds, n, nonce).len(),
    ensures
        0 <= i < n,
        lookup(ds, ds[i], nonce).len() == 1,
        lookups(ds, n, nonce)[j] == lookup(ds, ds[i], nonce)[0],
    decreases n,
{
    let head = lookups(ds, n - 1, nonce);
    if j < head.len() {
        lemma_lookup_of(ds, n - 1, nonce, j)
    } else {
        n - 1
    }
}

/// The device at `i` is its zone's last firewall with an address.
pub open spec fn resolves_for(ds: Seq<DeviceRecord>, cidr: Seq<char>, i: int) -> bool {
    &&& 0 <= i < ds.len()
    &&& zone_firewall(ds[i], cidr)
    &&& forall|k: int| i < k < ds.len() ==> !zone_firewall(#[trigger] ds[k], cidr)
}

/// A firewall of the zone with an address.
pub open spec fn zone_firewall(d: DeviceRecord, cidr: Seq<char>) -> bool {
    &&& opt_text(d.asset_type) == Some("Firewall"@)
    &&& d.subnet_cidr@ == cidr
    &&& ip_of(d.ip@) is Some
}

proof fn lemma_resolver(ds: Seq<DeviceRecord>, cidr: Seq<char>)
    ensures
        forall|i: int| #[trigger]
            resolves_for(ds, cidr, i) ==> resolver(ds, cidr) == Some(
                (ip_of(ds[i].ip@)->0, mac_of(ds[i].mac@)),
            ),
        resolver(ds, cidr) is Some ==> exists|i: int| #[trigger] resolves_for(ds, cidr, i),
    decreases ds.len(),
{
    if ds.len() > 0 {
        let head = ds.drop_last();
        let n = ds.len() - 1;
        lemma_resolver(head, cidr);
        if zone_firewall(ds[n], cidr) {
            assert(resolves_for(ds, cidr, n));
            assert forall|i: int| #[trigger] resolves_for(ds, cidr, i) implies i == n by {
                if i < n {
                    assert(!zone_firewall(ds[n], cidr));
                }
            }
        } else {
            assert forall|i: int| #[trigger] resolves_for(ds, cidr, i) implies resolves_for(
                head,
                cidr,
                i,
            ) by {
                assert(head[i] == ds[i]);
                assert forall|k: int| i < k < head.len() implies !zone_firewall(
                    #[trigger] head[k],
                    cidr,
                ) by {
                    assert(head[k] == ds[k]);
                }
            }
            if resolver(head, cidr) is Some {
                let i = choose|i: int| #[trigger] resolves_for(head, cidr, i);
                assert forall|k: int| i < k < ds.len() implies !zone_firewall(
                    #[trigger] ds[k],
                    cidr,
                ) by {
                    if k < n {
                        assert(head[k] == ds[k]);
                    }
                }
                assert(head[i] == ds[i]);
                assert(resolves_for(ds, cidr, i));
            }
        }
    }
}

/// The exchange is the device's lookup of its own name, at the device `r`.
pub open spec fn looks_itself_up(x: ExchangeModel, d: DeviceRecord, r: DeviceRecord) -> bool {
    x matches ExchangeModel::Dns { host_mac, resolver_mac, host_ip, resolver_ip, port, name, .. } && {
        &&& d.hostname is Some
        &&& name == d.hostname->0@
        &&& Some(host_ip) == ip_of(d.ip@)
        &&& host_mac == mac_of(d.mac@)
        &&& Some(resolver_ip) == ip_of(r.ip@)
        &&& resolver_mac == mac_of(r.mac@)
        &&& host_ip != resolver_ip
        &&& 49152 <= port
    }
}

/// Every device with a name and an address looks its own name up in a burst, at
/// its zone's firewall (the last one with an address), unless that is itself.
pub proof fn law_every_name_is_looked_up(
    ledger: Session,
    vuln: VulnDb,
    cfg: BurstCfg,
    run: u64,
    nonce: u64,
    i: int,
    r: int,
)
    requires
        cfg.device_identity,
        0 <= i < ledger.devices@.len(),
        ledger.devices@[i].hostname is Some,
        ip_of(ledger.devices@[i].ip@) is Some,
        resolves_for(ledger.devices@, ledger.devices@[i].subnet_cidr@, r),
        ip_of(ledger.devices@[i].ip@) != ip_of(ledger.devices@[r].ip@),
    ensures
        exists|j: int|
            0 <= j < burst_of(ledger, vuln, cfg, run, nonce).len() && looks_itself_up(
                #[trigger] burst_of(ledger, vuln, cfg, run, nonce)[j],
                ledger.devices@[i],
                ledger.devices@[r],
            ),
{
    let ds = ledger.devices@;
    let d = ds[i];
    lemma_resolver(ds, d.subnet_cidr@);
    let at = lemma_lookup_at(ds, ds.len() as int, nonce, i);
    let beacons = cfg.switch_beacons && run % BEACON_EVERY == 0;
    let first = resolutions(ledger);
    let second = assertions(ds, vuln, ledger.seed, beacons, nonce);
    let third = lookups(ds, ds.len() as int, nonce);
    let b = burst_of(ledger, vuln, cfg, run, nonce);
    law_ports_are_dynamic(nonce, ip_of(d.ip@)->0);
    let own = lookup(ds, d, nonce);
    assert(own[0] == third[at + 0]);
    let j = first.len() as int + second.len() as int + at;
    assert(b[j] == third[at]);
    assert(looks_itself_up(b[j], d, ds[r]));
}

/// A device of the plant has the address.
pub open spec fn device_has(d: DeviceRecord, ip: u32) -> bool {
    ip_of(d.ip@) == Some(ip)
}

proof fn lemma_device_at(ds: Seq<DeviceRecord>, ip: u32)
    requires
        device_at(ds, ip) is Some,
    ensures
        exists|i: int| 0 <= i < ds.len() && #[trigger] ds[i] == device_at(ds, ip)->0,
        device_has(device_at(ds, ip)->0, ip),
    decreases ds.len(),
{
    if ip_of(ds.last().ip@) == Some(ip) {
        assert(ds[ds.len() - 1] == ds.last());
    } else {
        lemma_device_at(ds.drop_last(), ip);
        let i = choose|i: int|
            0 <= i < ds.len() - 1 && #[trigger] ds.drop_last()[i] == device_at(
                ds.drop_last(),
                ip,
            )->0;
        assert(ds[i] == ds.drop_last()[i]);
    }
}

/// Each crossing session is the identity of a device at the south address, sought
/// from the north one.
proof fn lemma_crossing(
    ds: Seq<DeviceRecord>,
    vuln: VulnDb,
    cs: Seq<CrossingModel>,
    nonce: u64,
    j: int,
) -> (r: (int, int))
    requires
        0 <= j < crossing_sessions(ds, vuln, cs, nonce).len(),
    ensures
        ({
            let x = crossing_sessions(ds, vuln, cs, nonce)[j];
            let c = cs[r.1];
            &&& 0 <= r.0 < ds.len()
            &&& 0 <= r.1 < cs.len()
            &&& device_has(ds[r.0], c.south_ip)
            &&& with(x, c.south_ip, c.south_mac)
            &&& tells_of(x, vuln, ds[r.0])
            &&& sought_from(x, c.north_ip, c.conduit_mac)
            &&& !is_beacon(x)
        }),
    decreases cs.len(),
{
    let head = crossing_sessions(ds, vuln, cs.drop_last(), nonce);
    if j < head.len() {
        let r = lemma_crossing(ds, vuln, cs.drop_last(), nonce, j);
        assert(cs.drop_last()[r.1] == cs[r.1]);
        r
    } else {
        let c = cs.last();
        let own = crossing_session(ds, vuln, c, nonce);
        lemma_device_at(ds, c.south_ip);
        let d = device_at(ds, c.south_ip)->0;
        let i = choose|i: int| 0 <= i < ds.len() && #[trigger] ds[i] == d;
        let link = LinkModel {
            client_mac: c.conduit_mac,
            device_mac: c.south_mac,
            client_ip: c.north_ip,
            device_ip: c.south_ip,
            port: scan_port(nonce, c.south_ip),
        };
        law_ports_are_dynamic(nonce, c.south_ip);
        lemma_identity(vuln, d, link, false, nonce);
        let x = own[j - head.len()];
        assert(heard(x, vuln, d, link.device_ip, link.device_mac, link.client_ip, link.client_mac));
        (i, cs.len() - 1)
    }
}

/// Nothing is made up: every exchange of a burst behind the resolutions is either
/// a device's lookup of its own name, or tells of a device of the plant at that
/// device's address, what is known of it. Beacons go out only where they are
/// asked for, with every eighth run.
pub proof fn law_bursts_tell_of_devices_only(
    ledger: Session,
    vuln: VulnDb,
    cfg: BurstCfg,
    run: u64,
    nonce: u64,
    j: int,
)
    requires
        resolutions(ledger).len() <= j < burst_of(ledger, vuln, cfg, run, nonce).len(),
    ensures
        ({
            let x = burst_of(ledger, vuln, cfg, run, nonce)[j];
            let ds = ledger.devices@;
            &&& cfg.device_identity
            &&& is_beacon(x) ==> beacons_due(cfg, run)
            &&& {
                ||| exists|i: int, r: int|
                    0 <= i < ds.len() && 0 <= r < ds.len() && looks_itself_up(
                        x,
                        #[trigger] ds[i],
                        #[trigger] ds[r],
                    )
                ||| exists|i: int, mac: Seq<u8>|
                    0 <= i < ds.len() && ip_of((#[trigger] ds[i]).ip@) is Some && #[trigger] with(
                        x,
                        ip_of(ds[i].ip@)->0,
                        mac,
                    ) && tells_of(x, vuln, ds[i])
            }
        }),
{
    let ds = ledger.devices@;
    let seed = ledger.seed;
    let beacons = cfg.switch_beacons && run % BEACON_EVERY == 0;
    let b = burst_of(ledger, vuln, cfg, run, nonce);
    let x = b[j];
    let n1 = resolutions(ledger).len() as int;
    let second = assertions(ds, vuln, seed, beacons, nonce);
    let third = lookups(ds, ds.len() as int, nonce);
    let n2 = n1 + second.len() as int;
    let n3 = n2 + third.len() as int;
    if j < n2 {
        let r = lemma_asserts(ds, vuln, seed, beacons, nonce, j - n1);
        let d = ds[r.0];
        let ip = ip_of(d.ip@)->0;
        let link = LinkModel {
            client_mac: host_mac(seed, station(d.subnet_cidr@)),
            device_mac: mac_of(d.mac@),
            client_ip: station(d.subnet_cidr@),
            device_ip: ip,
            port: scan_port(nonce, ip),
        };
        law_ports_are_dynamic(nonce, ip);
        lemma_identity(vuln, d, link, beacons, nonce);
        assert(x == second[j - n1]);
        assert(heard(x, vuln, d, ip, link.device_mac, link.client_ip, link.client_mac));
        assert(with(x, ip_of(ds[r.0].ip@)->0, link.device_mac));
    } else if j < n3 {
        assert(x == third[j - n2]);
        let i = lemma_lookup_of(ds, ds.len() as int, nonce, j - n2);
        lemma_resolver(ds, ds[i].subnet_cidr@);
        let r = choose|r: int| #[trigger] resolves_for(ds, ds[i].subnet_cidr@, r);
        law_ports_are_dynamic(nonce, ip_of(ds[i].ip@)->0);
        assert(looks_itself_up(x, ds[i], ds[r]));
    } else {
        let cs = crossings(ledger, seed, cfg.ns_max_per_pair as int);
        assert(x == crossing_sessions(ds, vuln, cs, nonce)[j - n3]);
        let r = lemma_crossing(ds, vuln, cs, nonce, j - n3);
        assert(with(x, ip_of(ds[r.0].ip@)->0, cs[r.1].south_mac));
    }
}

/// The session of the crossing at `i` stands in the sessions, from some place on.
proof fn lemma_crossing_at(
    ds: Seq<DeviceRecord>,
    vuln: VulnDb,
    cs: Seq<CrossingModel>,
    nonce: u64,
    i: int,
) -> (at: int)
    requires
        0 <= i < cs.len(),
    ensures
        ({
            let all = crossing_sessions(ds, vuln, cs, nonce);
            let own = crossing_session(ds, vuln, cs[i], nonce);
            &&& 0 <= at
            &&& at + own.len() <= all.len()
            &&& forall|j: int| 0 <= j < own.len() ==> #[trigger] own[j] == all[at + j]
        }),
    decreases cs.len(),
{
    let head = crossing_sessions(ds, vuln, cs.drop_last(), nonce);
    if i == cs.len() - 1 {
        head.len() as int
    } else {
        let at = lemma_crossing_at(ds, vuln, cs.drop_last(), nonce, i);
        let own = crossing_session(ds, vuln, cs[i], nonce);
        let all = crossing_sessions(ds, vuln, cs, nonce);
        assert(cs.drop_last()[i] == cs[i]);
        assert forall|j: int| 0 <= j < own.len() implies #[trigger] own[j] == all[at + j] by {
            assert(own[j] == head[at + j]);
        }
        at
    }
}

/// The crossings go out with this run.
pub open spec fn crossings_due(cfg: BurstCfg, run: u64) -> bool {
    cfg.ns_enabled && run as int % cfg.ns_cadence as int == 0
}

/// With the crossings due, each one to a device of the plant goes out: a session
/// with the south device, sought from the north address through the conduit, that
/// tells what is known of a device at the south address.
pub proof fn law_due_crossings_go_out(
    ledger: Session,
    vuln: VulnDb,
    cfg: BurstCfg,
    run: u64,
    nonce: u64,
    i: int,
)
    requires
        cfg.device_identity,
        crossings_due(cfg, run),
        0 <= i < crossings(ledger, ledger.seed, cfg.ns_max_per_pair as int).len(),
        exists|k: int|
            0 <= k < ledger.devices@.len() && device_has(
                #[trigger] ledger.devices@[k],
                crossings(ledger, ledger.seed, cfg.ns_max_per_pair as int)[i].south_ip,
            ),
    ensures
        ({
            let b = burst_of(ledger, vuln, cfg, run, nonce);
            let c = crossings(ledger, ledger.seed, cfg.ns_max_per_pair as int)[i];
            exists|j: int, k: int|
                {
                    &&& 0 <= j < b.len()
                    &&& 0 <= k < ledger.devices@.len()
                    &&& with(#[trigger] b[j], c.south_ip, c.south_mac)
                    &&& sought_from(b[j], c.north_ip, c.conduit_mac)
                    &&& device_has(#[trigger] ledger.devices@[k], c.south_ip)
                    &&& tells_of(b[j], vuln, ledger.devices@[k])
                }
        }),
{
    let ds = ledger.devices@;
    let cs = crossings(ledger, ledger.seed, cfg.ns_max_per_pair as int);
    let c = cs[i];
    let b = burst_of(ledger, vuln, cfg, run, nonce);
    let beacons = cfg.switch_beacons && run % BEACON_EVERY == 0;
    let n1 = resolutions(ledger).len() as int;
    let n2 = n1 + assertions(ds, vuln, ledger.seed, beacons, nonce).len() as int;
    let n3 = n2 + lookups(ds, ds.len() as int, nonce).len() as int;
    let all = crossing_sessions(ds, vuln, cs, nonce);
    let at = lemma_crossing_at(ds, vuln, cs, nonce, i);
    let own = crossing_session(ds, vuln, c, nonce);
    let k0 = choose|k: int| 0 <= k < ds.len() && device_has(#[trigger] ds[k], c.south_ip);
    lemma_device_found(ds, c.south_ip, k0);
    lemma_device_at(ds, c.south_ip);
    let d = device_at(ds, c.south_ip)->0;
    let k = choose|k: int| 0 <= k < ds.len() && #[trigger] ds[k] == d;
    let link = LinkModel {
        client_mac: c.conduit_mac,
        device_mac: c.south_mac,
        client_ip: c.north_ip,
        device_ip: c.south_ip,
        port: scan_port(nonce, c.south_ip),
    };
    law_ports_are_dynamic(nonce, c.south_ip);
    lemma_identity(vuln, d, link, false, nonce);
    assert(own[0] == all[at + 0]);
    let j = n3 + at;
    assert(b[j] == all[at]);
    assert(heard(
        own[0],
        vuln,
        d,
        link.device_ip,
        link.device_mac,
        link.client_ip,
        link.client_mac,
    ));
    assert(with(b[j], c.south_ip, c.south_mac) && device_has(ds[k], c.south_ip));
}

proof fn lemma_device_found(ds: Seq<DeviceRecord>, ip: u32, k: int)
    requires
        0 <= k < ds.len(),
        device_has(ds[k], ip),
    ensures
        device_at(ds, ip) is Some,
    decreases ds.len(),
{
    if ip_of(ds.last().ip@) != Some(ip) {
        assert(ds.drop_last()[k] == ds[k]);
        lemma_device_found(ds.drop_last(), ip, k);
    }
}

/// Off their cadence no crossing goes out: every session of the burst is sought by
/// the engineering station of a device's own zone.
pub proof fn law_crossings_keep_their_cadence(
    ledger: Session,
    vuln: VulnDb,
    cfg: BurstCfg,
    run: u64,
    nonce: u64,
    j: int,
)
    requires
        !crossings_due(cfg, run),
        resolutions(ledger).len() <= j < burst_of(ledger, vuln, cfg, run, nonce).len(),
    ensures
        burst_of(ledger, vuln, cfg, run, nonce)[j] is Dns || exists|i: int|
            0 <= i < ledger.devices@.len() && sought_from(
                burst_of(ledger, vuln, cfg, run, nonce)[j],
                station((#[trigger] ledger.devices@[i]).subnet_cidr@),
                host_mac(ledger.seed, station(ledger.devices@[i].subnet_cidr@)),
            ) && tells_of(
                burst_of(ledger, vuln, cfg, run, nonce)[j],
                vuln,
                ledger.devices@[i],
            ) && ledger.devices@[i].cves@.len() > 0,
{
    let ds = ledger.devices@;
    let seed = ledger.seed;
    let beacons = cfg.switch_beacons && run % BEACON_EVERY == 0;
    let b = burst_of(ledger, vuln, cfg, run, nonce);
    let x = b[j];
    let n1 = resolutions(ledger).len() as int;
    let second = assertions(ds, vuln, seed, beacons, nonce);
    let third = lookups(ds, ds.len() as int, nonce);
    let n2 = n1 + second.len() as int;
    if j < n2 {
        let r = lemma_asserts(ds, vuln, seed, beacons, nonce, j - n1);
        let d = ds[r.0];
        let ip = ip_of(d.ip@)->0;
        let link = LinkModel {
            client_mac: host_mac(seed, station(d.subnet_cidr@)),
            device_mac: mac_of(d.mac@),
            client_ip: station(d.subnet_cidr@),
            device_ip: ip,
            port: scan_port(nonce, ip),
        };
        law_ports_are_dynamic(nonce, ip);
        lemma_identity(vuln, d, link, beacons, nonce);
        assert(x == second[j - n1]);
        assert(heard(x, vuln, d, ip, link.device_mac, link.client_ip, link.client_mac));
        assert(ds[r.0].cves@.len() > 0);
    } else {
        assert(x == third[j - n2]);
        let i = lemma_lookup_of(ds, ds.len() as int, nonce, j - n2);
    }
}

} // verus!
