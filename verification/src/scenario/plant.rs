//! Pinning a scenario's plant into a sealed ledger.
//!
//! The generic fabricator places vendors by chance and cannot pin exact models
//! and addresses. A scenario instead declares its plant, and this builds a sealed
//! session from that, with the bill of materials as the supporting cast. Because
//! the session is sealed, it is rendered verbatim.
//!
//! A device may name a model of the profile database, in which case it takes that
//! profile's identity; or it may be identity-only, a device that the playbook
//! drives but that carries no read-identity.

use vstd::prelude::*;
use crate::config::TargetCfg;
use crate::ledger::{
    device_models, has_cidr, has_device_ip, subnet_models, DeviceModel, DeviceRecord,
    Session, SubnetModel, SubnetRecord, MAX_DEVICES, MAX_SUBNETS, SCHEMA,
};
use crate::mac::{fmt_mac, mac_text};
use crate::net::{cidr_net, ip_of, ip_string, ip_text, lemma_first_free, parse_ip, parse_net};
use crate::oui::OuiDb;
use crate::proto::l3::{host_mac, stable_mac};
use crate::simulate::devices::{free_in, gateway, next_free_in, Fab};
use crate::simulate::enrich::{
    assign_domains, branded_mac, enrich_plant, lemma_add_boms, lemma_naming_keeps_addresses,
    name_zones, same_but_names, with_domains, Stock,
};
use crate::text::{clone_opt, clone_strings, opt_text, quote, quoted, str_eq, texts};
use crate::scenario::document::{missing, missing_message, unreadable, unreadable_message, Read};
use crate::scenario::engine::or;
use crate::vuln::{
    model_place, profile_prefix, proto_tag, DeviceProfile, ProfileProto, VulnDb,
};

verus! {

/// A scenario plant: zones, the devices pinned into them, the DNS domains, and
/// whether to layer the generic supporting cast on top.
#[derive(Clone, Debug)]
pub struct PlantSpec {
    pub zones: Vec<ZoneSpec>,
    pub devices: Vec<DeviceSpec>,
    /// DNS domains for the plant. Empty falls back to the config's.
    pub domains: Vec<String>,
    /// Add each zone's bill of materials around the pinned devices.
    pub enrich: bool,
}

/// A declared zone.
#[derive(Clone, Debug)]
pub struct ZoneSpec {
    pub cidr: String,
    pub name: String,
    pub purdue_level: u8,
    pub vendor: Option<String>,
}

/// A declared device.
#[derive(Clone, Debug)]
pub struct DeviceSpec {
    /// Zone CIDR this device sits in, which must match a declared zone.
    pub zone: String,
    /// Profile model to resolve from the profile database. When unset the device
    /// is identity-only.
    pub model: Option<String>,
    /// Explicit host address; otherwise the next free one in the zone.
    pub ip: Option<String>,
    pub hostname: Option<String>,
    /// Asset class label.
    pub asset_type: Option<String>,
    pub vendor: Option<String>,
    pub firmware: Option<String>,
    pub protocol: Option<String>,
}

/// What reading a document as a plant declaration comes to.
pub open spec fn parsed_plant(read: Result<PlantSpec, String>) -> Result<PlantSpec, Seq<char>> {
    match read {
        Err(e) => Err(unreadable("plant spec"@, e@)),
        Ok(p) => Ok(p),
    }
}

/// What a plant declaration's file comes to.
pub open spec fn loaded_plant(read: Read<PlantSpec>) -> Result<PlantSpec, Seq<char>> {
    match read {
        Read::Missing { path, error } => Err(missing("plant"@, path@, error@)),
        Read::Malformed(e) => Err(unreadable("plant spec"@, e@)),
        Read::Given(p) => Ok(p),
    }
}

impl PlantSpec {
    /// A plant declaration, given what reading its document as one gave.
    pub fn parse(read: Result<PlantSpec, String>) -> (r: Result<PlantSpec, String>)
        ensures
            match r {
                Ok(p) => parsed_plant(read) == Ok::<PlantSpec, Seq<char>>(p),
                Err(e) => parsed_plant(read) == Err::<PlantSpec, Seq<char>>(e@),
            },
    {
        match read {
            Err(e) => Err(unreadable_message("plant spec", e.as_str())),
            Ok(p) => Ok(p),
        }
    }

    /// A plant declaration, given what reading its file gave.
    pub fn load(read: Read<PlantSpec>) -> (r: Result<PlantSpec, String>)
        ensures
            match r {
                Ok(p) => loaded_plant(read) == Ok::<PlantSpec, Seq<char>>(p),
                Err(e) => loaded_plant(read) == Err::<PlantSpec, Seq<char>>(e@),
            },
    {
        match read {
            Read::Missing { path, error } => Err(
                missing_message("plant", path.as_str(), error.as_str()),
            ),
            Read::Malformed(e) => PlantSpec::parse(Err(e)),
            Read::Given(p) => Ok(p),
        }
    }
}

/// The zones of a declaration, or why it has none: a text that is no network, a
/// network declared before, or more zones than a ledger holds.
pub open spec fn zones_of(zones: Seq<ZoneSpec>) -> Result<Seq<SubnetModel>, Seq<char>>
    decreases zones.len(),
{
    if zones.len() == 0 {
        Ok(Seq::empty())
    } else {
        match zones_of(zones.drop_last()) {
            Err(e) => Err(e),
            Ok(prior) => {
                let z = zones.last();
                if cidr_net(z.cidr@) is None {
                    Err("zone cidr "@ + quoted(z.cidr@) + " is not a valid CIDR"@)
                } else if prior.len() >= MAX_SUBNETS || declares(prior, z.cidr@) {
                    Err("could not add zone "@ + z.cidr@ + " (duplicate or cap)"@)
                } else {
                    Ok(
                        prior.push(
                            SubnetModel {
                                cidr: z.cidr@,
                                zone_name: z.name@,
                                purdue_level: z.purdue_level,
                                vendor: opt_text(z.vendor),
                                domain: None,
                            },
                        ),
                    )
                }
            },
        }
    }
}

/// A zone has the network text.
pub open spec fn declares(zones: Seq<SubnetModel>, cidr: Seq<char>) -> bool {
    exists|i: int| 0 <= i < zones.len() && (#[trigger] zones[i]).cidr == cidr
}

/// The addresses of devices.
pub open spec fn taken(ds: Seq<DeviceModel>) -> Set<u32> {
    Set::new(|ip: u32| holds_ip(ds, ip_text(ip)))
}

/// A device has the address text.
pub open spec fn holds_ip(ds: Seq<DeviceModel>, ip: Seq<char>) -> bool {
    exists|i: int| 0 <= i < ds.len() && (#[trigger] ds[i]).ip == ip
}

/// A pinned device's hardware address: the profile's prefix, else the vendor's,
/// else one of the pool, with low bytes by address.
pub open spec fn pinned_mac_of(
    rows: Seq<(u32, Seq<char>)>,
    vendor: Seq<char>,
    prefix: Option<Seq<u8>>,
    seed: u64,
    ip: u32,
) -> Seq<u8> {
    match prefix {
        Some(p) => p + host_mac(seed, ip).subrange(3, 6),
        None => branded_mac(rows, vendor, seed, ip),
    }
}

/// The profile that a declared model resolves to.
pub open spec fn profile_for(st: Stock, d: DeviceSpec) -> Option<DeviceProfile> {
    match d.model {
        Some(m) => {
            let i = model_place(st.profiles, m@);
            if 0 <= i < st.profiles.len() {
                Some(st.profiles[i])
            } else {
                None
            }
        },
        None => None,
    }
}

/// The label that a carrier protocol's devices go by.
pub open spec fn proto_label(p: ProfileProto) -> Seq<char> {
    if p == ProfileProto::SwitchSnmp {
        "Switch"@
    } else {
        "Controller"@
    }
}

/// The record that a declared device is pinned as.
pub open spec fn pinned_record(st: Stock, d: DeviceSpec, ip: u32) -> DeviceModel {
    match profile_for(st, d) {
        Some(p) => DeviceModel {
            ip: ip_text(ip),
            mac: mac_text(pinned_mac_of(st.rows, p.vendor@, profile_prefix(p), st.seed, ip)),
            vendor: p.vendor@,
            model: p.model@,
            firmware: p.firmware@,
            protocol: proto_tag(p.protocol),
            cves: texts(p.cves@),
            subnet_cidr: d.zone@,
            hostname: opt_text(d.hostname),
            asset_type: Some(or(opt_text(d.asset_type), proto_label(p.protocol))),
        },
        None => {
            let vendor = or(opt_text(d.vendor), ""@);
            DeviceModel {
                ip: ip_text(ip),
                mac: mac_text(pinned_mac_of(st.rows, vendor, None, st.seed, ip)),
                vendor,
                model: match opt_text(d.model) {
                    Some(m) => m,
                    None => or(opt_text(d.asset_type), "Device"@),
                },
                firmware: or(opt_text(d.firmware), "1.0"@),
                protocol: or(opt_text(d.protocol), "none"@),
                cves: Seq::empty(),
                subnet_cidr: d.zone@,
                hostname: opt_text(d.hostname),
                asset_type: Some(or(opt_text(d.asset_type), "Controller"@)),
            }
        },
    }
}

/// The address of a declared device among pinned ones: its own, else the first
/// free one of its zone that is not the gateway.
pub open spec fn address_for(prior: Seq<DeviceModel>, d: DeviceSpec) -> Result<u32, Seq<char>> {
    match d.ip {
        Some(t) => match ip_of(t@) {
            Some(ip) => Ok(ip),
            None => Err("device ip "@ + quoted(t@) + " is not valid"@),
        },
        None => match cidr_net(d.zone@) {
            None => Err("device zone "@ + quoted(d.zone@) + " is not a valid CIDR"@),
            Some(net) => match free_in(net, taken(prior)) {
                Some(ip) => Ok(ip),
                None => Err("zone "@ + d.zone@ + " is exhausted"@),
            },
        },
    }
}

/// The pinned devices, and the hostnames that were declared, by address.
pub ghost struct Pinned {
    pub devices: Seq<DeviceModel>,
    pub names: Seq<(Seq<char>, Seq<char>)>,
}

/// One more device pinned, or why it is not.
#[verifier::opaque]
pub open spec fn pin_one(
    st: Stock,
    zones: Seq<SubnetModel>,
    prior: Pinned,
    d: DeviceSpec,
) -> Result<Pinned, Seq<char>> {
    if !declares(zones, d.zone@) {
        Err("device references undeclared zone "@ + d.zone@)
    } else {
        match address_for(prior.devices, d) {
            Err(e) => Err(e),
            Ok(ip) => if prior.devices.len() >= MAX_DEVICES {
                Err("could not pin device at "@ + ip_text(ip) + " (device cap)"@)
            } else {
                Ok(
                    Pinned {
                        devices: prior.devices.push(pinned_record(st, d, ip)),
                        names: match d.hostname {
                            Some(h) => prior.names.push((ip_text(ip), h@)),
                            None => prior.names,
                        },
                    },
                )
            },
        }
    }
}

/// The devices of a declaration pinned in order, or why one is not.
pub open spec fn pinned(
    st: Stock,
    zones: Seq<SubnetModel>,
    ds: Seq<DeviceSpec>,
) -> Result<Pinned, Seq<char>>
    decreases ds.len(),
{
    if ds.len() == 0 {
        Ok(Pinned { devices: Seq::empty(), names: Seq::empty() })
    } else {
        match pinned(st, zones, ds.drop_last()) {
            Err(e) => Err(e),
            Ok(prior) => pin_one(st, zones, prior, ds.last()),
        }
    }
}

/// The first device of an address, or the length where there is none.
pub open spec fn ip_place(ds: Seq<DeviceModel>, ip: Seq<char>) -> int
    decreases ds.len(),
{
    if ds.len() == 0 {
        0
    } else if ds[0].ip == ip {
        0
    } else {
        1 + ip_place(ds.drop_first(), ip)
    }
}

/// The devices with one hostname put back.
pub open spec fn name_back(
    ds: Seq<DeviceModel>,
    name: (Seq<char>, Seq<char>),
) -> Seq<DeviceModel> {
    let i = ip_place(ds, name.0);
    if 0 <= i < ds.len() {
        ds.update(i, DeviceModel { hostname: Some(name.1), ..ds[i] })
    } else {
        ds
    }
}

/// The devices with declared hostnames put back.
pub open spec fn names_back(
    ds: Seq<DeviceModel>,
    names: Seq<(Seq<char>, Seq<char>)>,
) -> Seq<DeviceModel>
    decreases names.len(),
{
    if names.len() == 0 {
        ds
    } else {
        name_back(names_back(ds, names.drop_last()), names.last())
    }
}

/// The devices of a sealed plant: those pinned, with the supporting cast where it
/// is asked for, and the declared hostnames kept.
pub open spec fn sealed_devices(
    st: Stock,
    zones: Seq<SubnetModel>,
    p: Pinned,
    enrich: bool,
) -> Seq<DeviceModel> {
    let f = Fab {
        subnets: zones,
        devices: p.devices,
        used: taken(p.devices),
        words: Seq::empty(),
    };
    names_back(
        if enrich {
            st.enrich(f).devices
        } else {
            p.devices
        },
        p.names,
    )
}

/// A believable, stable hardware address for a pinned device.
pub fn pinned_mac(
    oui_db: &OuiDb,
    vendor: &str,
    profile_oui: Option<[u8; 3]>,
    seed: u64,
    ip: u32,
) -> (r: [u8; 6])
    ensures
        r@ == pinned_mac_of(
            oui_db@,
            vendor@,
            match profile_oui {
                Some(p) => Some(p@),
                None => None,
            },
            seed,
            ip,
        ),
{
    match profile_oui {
        Some(p) => {
            let low = stable_mac(seed, ip);
            let r: [u8; 6] = [p[0], p[1], p[2], low[3], low[4], low[5]];
            proof {
                assert(r@ =~= p@ + host_mac(seed, ip).subrange(3, 6));
            }
            r
        },
        None => crate::simulate::enrich::bom_mac(oui_db, vendor, seed, ip),
    }
}

/// The default asset label for a profile's carrier protocol.
pub fn label_for_proto(p: ProfileProto) -> (r: &'static str)
    ensures
        r@ == proto_label(p),
{
    if p == ProfileProto::SwitchSnmp {
        "Switch"
    } else {
        "Controller"
    }
}

fn text_or(o: &Option<String>, d: &str) -> (r: String)
    ensures
        r@ == or(opt_text(*o), d@),
{
    match o {
        Some(s) => s.clone(),
        None => d.to_owned(),
    }
}

fn text3(a: &str, b: &str, c: &str) -> (r: String)
    ensures
        r@ == a@ + b@ + c@,
{
    let mut s = a.to_owned();
    s.append(b);
    s.append(c);
    s
}

proof fn lemma_declares(subnets: Seq<SubnetRecord>, cidr: Seq<char>)
    ensures
        declares(subnet_models(subnets), cidr) == has_cidr(subnets, cidr),
{
    let ms = subnet_models(subnets);
    if declares(ms, cidr) {
        let i = choose|i: int| 0 <= i < ms.len() && (#[trigger] ms[i]).cidr == cidr;
        assert(subnets[i].cidr@ == cidr);
    }
    if has_cidr(subnets, cidr) {
        let i = choose|i: int| 0 <= i < subnets.len() && (#[trigger] subnets[i]).cidr@ == cidr;
        assert(ms[i].cidr == cidr);
    }
}

/// Without capture hosts, the addresses in use are those of the devices.
pub proof fn lemma_taken(s: Session)
    requires
        s.capture_hosts@.len() == 0,
    ensures
        s.used() == taken(device_models(s.devices@)),
{
    let ms = device_models(s.devices@);
    assert forall|ip: u32| s.used().contains(ip) <==> taken(ms).contains(ip) by {
        let t = ip_text(ip);
        if has_device_ip(s.devices@, t) {
            let i = choose|i: int| 0 <= i < s.devices@.len() && (#[trigger] s.devices@[i]).ip@ == t;
            assert(ms[i].ip == t);
        }
        if holds_ip(ms, t) {
            let i = choose|i: int| 0 <= i < ms.len() && (#[trigger] ms[i]).ip == t;
            assert(s.devices@[i].ip@ == t);
        }
    }
    assert(s.used() =~= taken(ms));
}

/// Declare the zones in a session that has none.
fn add_zones(s: &mut Session, zones: &Vec<ZoneSpec>) -> (r: Result<(), String>)
    requires
        old(s).wf(),
        old(s).subnets@.len() == 0,
    ensures
        final(s).wf(),
        *final(s) == old(s).with_subnets(final(s).subnets),
        match r {
            Ok(_) => zones_of(zones@) == Ok::<Seq<SubnetModel>, Seq<char>>(
                subnet_models(final(s).subnets@),
            ),
            Err(e) => zones_of(zones@) == Err::<Seq<SubnetModel>, Seq<char>>(e@),
        },
{
    let mut i: usize = 0;
    proof {
        assert(zones@.take(0) =~= Seq::empty());
        assert(subnet_models(s.subnets@) =~= Seq::empty());
    }
    while i < zones.len()
        invariant
            i <= zones@.len(),
            s.wf(),
            *s == old(s).with_subnets(s.subnets),
            zones_of(zones@.take(i as int)) == Ok::<Seq<SubnetModel>, Seq<char>>(
                subnet_models(s.subnets@),
            ),
        decreases zones@.len() - i,
    {
        let z: &ZoneSpec = &zones[i];
        let ghost before = s.subnets@;
        proof {
            assert(zones@.take(i as int + 1).drop_last() =~= zones@.take(i as int));
            assert(zones@.take(i as int + 1).last() == *z);
            lemma_declares(before, z.cidr@);
        }
        if parse_net(z.cidr.as_str()).is_none() {
            let e = text3("zone cidr ", quote(z.cidr.as_str()).as_str(), " is not a valid CIDR");
            proof {
                lemma_zones_fail(zones@, i as int + 1);
            }
            return Err(e);
        }
        let rec = SubnetRecord {
            cidr: z.cidr.clone(),
            zone_name: z.name.clone(),
            purdue_level: z.purdue_level,
            vendor: clone_opt(&z.vendor),
            domain: None,
        };
        let ghost m = rec@;
        if !s.add_subnet(rec) {
            proof {
                lemma_zones_fail(zones@, i as int + 1);
            }
            return Err(text3("could not add zone ", z.cidr.as_str(), " (duplicate or cap)"));
        }
        proof {
            assert(subnet_models(s.subnets@) =~= subnet_models(before).push(m));
        }
        i += 1;
    }
    proof {
        assert(zones@.take(i as int) =~= zones@);
    }
    Ok(())
}

/// Zones that fail at a prefix fail so as a whole.
proof fn lemma_zones_fail(zones: Seq<ZoneSpec>, k: int)
    requires
        0 <= k <= zones.len(),
        zones_of(zones.take(k)) is Err,
    ensures
        zones_of(zones) == zones_of(zones.take(k)),
    decreases zones.len(),
{
    if k == zones.len() {
        assert(zones.take(k) =~= zones);
    } else {
        assert(zones.drop_last().take(k) =~= zones.take(k));
        lemma_zones_fail(zones.drop_last(), k);
    }
}

/// Devices that fail at a prefix fail so as a whole.
proof fn lemma_pinned_fail(st: Stock, zones: Seq<SubnetModel>, ds: Seq<DeviceSpec>, k: int)
    requires
        0 <= k <= ds.len(),
        pinned(st, zones, ds.take(k)) is Err,
    ensures
        pinned(st, zones, ds) == pinned(st, zones, ds.take(k)),
    decreases ds.len(),
{
    if k == ds.len() {
        assert(ds.take(k) =~= ds);
    } else {
        assert(ds.drop_last().take(k) =~= ds.take(k));
        lemma_pinned_fail(st, zones, ds.drop_last(), k);
    }
}

fn record_for(d: &DeviceSpec, vuln: &VulnDb, oui_db: &OuiDb, seed: u64, ip: u32) -> (r:
    DeviceRecord)
    ensures
        r@ == pinned_record(Stock { profiles: vuln.profiles@, rows: oui_db@, seed }, *d, ip),
{
    let profile: Option<&DeviceProfile> = match &d.model {
        Some(m) => vuln.by_model(m.as_str()),
        None => None,
    };
    match profile {
        Some(p) => DeviceRecord {
            ip: ip_string(ip),
            mac: fmt_mac(pinned_mac(oui_db, p.vendor.as_str(), p.oui_prefix(), seed, ip)),
            vendor: p.vendor.clone(),
            model: p.model.clone(),
            firmware: p.firmware.clone(),
            protocol: p.protocol.as_str().to_owned(),
            cves: clone_strings(&p.cves),
            subnet_cidr: d.zone.clone(),
            hostname: clone_opt(&d.hostname),
            asset_type: Some(text_or(&d.asset_type, label_for_proto(p.protocol))),
        },
        None => {
            let vendor = text_or(&d.vendor, "");
            let mac = fmt_mac(pinned_mac(oui_db, vendor.as_str(), None, seed, ip));
            let cves: Vec<String> = Vec::new();
            proof {
                assert(texts(cves@) =~= Seq::empty());
            }
            DeviceRecord {
                ip: ip_string(ip),
                mac,
                vendor,
                model: match &d.model {
                    Some(m) => m.clone(),
                    None => text_or(&d.asset_type, "Device"),
                },
                firmware: text_or(&d.firmware, "1.0"),
                protocol: text_or(&d.protocol, "none"),
                cves,
                subnet_cidr: d.zone.clone(),
                hostname: clone_opt(&d.hostname),
                asset_type: Some(text_or(&d.asset_type, "Controller")),
            }
        },
    }
}

fn address(s: &Session, d: &DeviceSpec) -> (r: Result<u32, String>)
    requires
        s.capture_hosts@.len() == 0,
    ensures
        match r {
            Ok(ip) => address_for(device_models(s.devices@), *d) == Ok::<u32, Seq<char>>(ip),
            Err(e) => address_for(device_models(s.devices@), *d) == Err::<u32, Seq<char>>(e@),
        },
{
    match &d.ip {
        Some(t) => match parse_ip(t.as_str()) {
            Some(ip) => Ok(ip),
            None => Err(text3("device ip ", quote(t.as_str()).as_str(), " is not valid")),
        },
        None => match parse_net(d.zone.as_str()) {
            None => Err(
                text3("device zone ", quote(d.zone.as_str()).as_str(), " is not a valid CIDR"),
            ),
            Some(net) => {
                proof {
                    lemma_taken(*s);
                }
                match next_free_in(net, &s.used_ips()) {
                    Some(ip) => Ok(ip),
                    None => Err(text3("zone ", d.zone.as_str(), " is exhausted")),
                }
            },
        },
    }
}

/// The declared names so far.
pub open spec fn name_pairs(v: Seq<(String, String)>) -> Seq<(Seq<char>, Seq<char>)> {
    v.map_values(|p: (String, String)| (p.0@, p.1@))
}

/// What is pinned so far.
pub open spec fn so_far(s: Session, names: Seq<(String, String)>) -> Pinned {
    Pinned { devices: device_models(s.devices@), names: name_pairs(names) }
}

fn pin(
    s: &mut Session,
    names: &mut Vec<(String, String)>,
    d: &DeviceSpec,
    vuln: &VulnDb,
    oui_db: &OuiDb,
    seed: u64,
) -> (r: Result<(), String>)
    requires
        old(s).wf(),
        old(s).capture_hosts@.len() == 0,
    ensures
        final(s).wf(),
        *final(s) == old(s).with_devices(final(s).devices),
        ({
            let st = Stock { profiles: vuln.profiles@, rows: oui_db@, seed };
            let next = pin_one(
                st,
                subnet_models(old(s).subnets@),
                so_far(*old(s), old(names)@),
                *d,
            );
            match r {
                Ok(_) => next == Ok::<Pinned, Seq<char>>(so_far(*final(s), final(names)@)),
                Err(e) => next == Err::<Pinned, Seq<char>>(e@),
            }
        }),
{
    proof {
        reveal(pin_one);
        lemma_declares(s.subnets@, d.zone@);
    }
    if !s.has_subnet(d.zone.as_str()) {
        let mut e = "device references undeclared zone ".to_owned();
        e.append(d.zone.as_str());
        return Err(e);
    }
    let ip: u32 = match address(s, d) {
        Ok(ip) => ip,
        Err(e) => {
            return Err(e);
        },
    };
    let rec = record_for(d, vuln, oui_db, seed, ip);
    let ghost m = rec@;
    let ghost before = s.devices@;
    let ghost names0 = names@;
    if let Some(h) = &d.hostname {
        names.push((ip_string(ip), h.clone()));
        proof {
            assert(name_pairs(names@) =~= name_pairs(names0).push((ip_text(ip), h@)));
        }
    }
    if !s.add_device(rec) {
        return Err(text3("could not pin device at ", ip_string(ip).as_str(), " (device cap)"));
    }
    proof {
        assert(device_models(s.devices@) =~= device_models(before).push(m));
    }
    Ok(())
}

fn find_ip(ds: &Vec<DeviceRecord>, ip: &str) -> (r: usize)
    ensures
        r == ip_place(device_models(ds@), ip@),
        r <= ds@.len(),
{
    let ghost ms = device_models(ds@);
    let mut i: usize = 0;
    proof {
        assert(ms.skip(0) =~= ms);
    }
    while i < ds.len()
        invariant
            i <= ds@.len(),
            ms == device_models(ds@),
            ip_place(ms, ip@) == i + ip_place(ms.skip(i as int), ip@),
        decreases ds@.len() - i,
    {
        proof {
            assert(ms.skip(i as int).drop_first() =~= ms.skip(i as int + 1));
            assert(ms.skip(i as int)[0] == ds@[i as int]@);
        }
        if str_eq(ds[i].ip.as_str(), ip) {
            return i;
        }
        i += 1;
    }
    i
}

/// Put declared hostnames back, which the supporting cast's naming may have
/// changed.
fn restore_names(s: &mut Session, names: &Vec<(String, String)>)
    ensures
        *final(s) == old(s).with_devices(final(s).devices),
        device_models(final(s).devices@) == names_back(
            device_models(old(s).devices@),
            name_pairs(names@),
        ),
        final(s).devices@.len() == old(s).devices@.len(),
{
    let ghost all = name_pairs(names@);
    let mut i: usize = 0;
    proof {
        assert(all.take(0) =~= Seq::empty());
    }
    while i < names.len()
        invariant
            i <= names@.len(),
            all == name_pairs(names@),
            *s == old(s).with_devices(s.devices),
            s.devices@.len() == old(s).devices@.len(),
            device_models(s.devices@) == names_back(
                device_models(old(s).devices@),
                all.take(i as int),
            ),
        decreases names@.len() - i,
    {
        let at: usize = find_ip(&s.devices, names[i].0.as_str());
        let ghost before = s.devices@;
        proof {
            assert(all.take(i as int + 1).drop_last() =~= all.take(i as int));
        }
        if at < s.devices.len() {
            s.devices[at].hostname = Some(names[i].1.clone());
            proof {
                let ms = device_models(before);
                assert(device_models(s.devices@) =~= ms.update(
                    at as int,
                    DeviceModel { hostname: Some(names@[i as int].1@), ..ms[at as int] },
                ));
            }
        }
        i += 1;
    }
    proof {
        assert(all.take(i as int) =~= all);
    }
}

/// Pin the declared devices in a session that has none.
fn pin_all(
    s: &mut Session,
    devices: &Vec<DeviceSpec>,
    vuln: &VulnDb,
    oui_db: &OuiDb,
    seed: u64,
) -> (r: Result<Vec<(String, String)>, String>)
    requires
        old(s).wf(),
        old(s).devices@.len() == 0,
        old(s).capture_hosts@.len() == 0,
    ensures
        final(s).wf(),
        *final(s) == old(s).with_devices(final(s).devices),
        ({
            let st = Stock { profiles: vuln.profiles@, rows: oui_db@, seed };
            let all = pinned(st, subnet_models(old(s).subnets@), devices@);
            match r {
                Ok(names) => all == Ok::<Pinned, Seq<char>>(so_far(*final(s), names@)),
                Err(e) => all == Err::<Pinned, Seq<char>>(e@),
            }
        }),
{
    let ghost st = Stock { profiles: vuln.profiles@, rows: oui_db@, seed };
    let ghost zones = subnet_models(s.subnets@);
    let mut names: Vec<(String, String)> = Vec::new();
    let mut i: usize = 0;
    proof {
        assert(devices@.take(0) =~= Seq::empty());
        assert(device_models(s.devices@) =~= Seq::empty());
        assert(name_pairs(names@) =~= Seq::empty());
    }
    while i < devices.len()
        invariant
            i <= devices@.len(),
            st == (Stock { profiles: vuln.profiles@, rows: oui_db@, seed }),
            s.wf(),
            *s == old(s).with_devices(s.devices),
            old(s).capture_hosts@.len() == 0,
            zones == subnet_models(old(s).subnets@),
            pinned(st, zones, devices@.take(i as int)) == Ok::<Pinned, Seq<char>>(
                so_far(*s, names@),
            ),
        decreases devices@.len() - i,
    {
        proof {
            assert(devices@.take(i as int + 1).drop_last() =~= devices@.take(i as int));
        }
        if let Err(e) = pin(s, &mut names, &devices[i], vuln, oui_db, seed) {
            proof {
                lemma_pinned_fail(st, zones, devices@, i as int + 1);
            }
            return Err(e);
        }
        i += 1;
    }
    proof {
        assert(devices@.take(i as int) =~= devices@);
    }
    Ok(names)
}

/// What a declaration builds: the zones and the pinned devices, or why not.
pub open spec fn plant_of(
    st: Stock,
    spec: PlantSpec,
) -> Result<(Seq<SubnetModel>, Pinned), Seq<char>> {
    match zones_of(spec.zones@) {
        Err(e) => Err(e),
        Ok(zones) => match pinned(st, zones, spec.devices@) {
            Err(e) => Err(e),
            Ok(p) => Ok((zones, p)),
        },
    }
}

/// Build a sealed ledger from a plant declaration. `fallback_domains` are used
/// when it declares none. The result is sealed and tagged with `scenario`, so it
/// is replayed verbatim and kept apart from a generic ledger.
pub fn build_sealed_session(
    spec: &PlantSpec,
    vuln: &VulnDb,
    oui_db: &OuiDb,
    seed: u64,
    now_unix: u64,
    scenario: &str,
    fallback_domains: &[String],
) -> (r: Result<Session, String>)
    ensures
        ({
            let st = Stock { profiles: vuln.profiles@, rows: oui_db@, seed };
            let domains = if spec.domains@.len() == 0 {
                texts(fallback_domains@)
            } else {
                texts(spec.domains@)
            };
            match r {
                Err(e) => plant_of(st, *spec) == Err::<(Seq<SubnetModel>, Pinned), Seq<char>>(e@),
                Ok(s) => {
                    &&& plant_of(st, *spec) is Ok
                    &&& subnet_models(s.subnets@) == with_domains(
                        plant_of(st, *spec)->Ok_0.0,
                        domains,
                        seed,
                    )
                    &&& device_models(s.devices@) == sealed_devices(
                        st,
                        subnet_models(s.subnets@),
                        plant_of(st, *spec)->Ok_0.1,
                        spec.enrich,
                    )
                    &&& s.wf()
                    &&& s.schema == SCHEMA
                    &&& s.created_unix == now_unix
                    &&& s.seed == seed
                    &&& s.cycle == 0
                    &&& s.promoted@.len() == 0
                    &&& s.last_threat_unix is None
                    &&& s.sealed
                    &&& s.target_devices == s.devices@.len()
                    &&& s.capture_hosts@.len() == 0
                    &&& s.registry_generation == 0
                    &&& s.max_assets == 0
                    &&& opt_text(s.scenario) == Some(scenario@)
                },
            }
        }),
{
    let ghost st = Stock { profiles: vuln.profiles@, rows: oui_db@, seed };
    let mut s = Session::new(seed, now_unix);
    if let Err(e) = add_zones(&mut s, &spec.zones) {
        return Err(e);
    }
    let names = match pin_all(&mut s, &spec.devices, vuln, oui_db, seed) {
        Ok(names) => names,
        Err(e) => {
            return Err(e);
        },
    };
    if spec.domains.len() == 0 {
        assign_domains(&mut s, fallback_domains, seed);
    } else {
        assign_domains(&mut s, spec.domains.as_slice(), seed);
    }
    if spec.enrich {
        proof {
            lemma_taken(s);
        }
        enrich_plant(&mut s, vuln, oui_db, seed);
    }
    restore_names(&mut s, &names);
    s.sealed = true;
    s.target_devices = s.device_count();
    s.scenario = Some(scenario.to_owned());
    Ok(s)
}

/// A sealed session that holds a declared plant.
pub open spec fn pinned_as(
    s: Session,
    st: Stock,
    spec: PlantSpec,
    fallback: Seq<Seq<char>>,
    now_unix: u64,
    scenario: Seq<char>,
) -> bool {
    let domains = if spec.domains@.len() == 0 {
        fallback
    } else {
        texts(spec.domains@)
    };
    &&& plant_of(st, spec) is Ok
    &&& subnet_models(s.subnets@) == with_domains(plant_of(st, spec)->Ok_0.0, domains, st.seed)
    &&& device_models(s.devices@) == sealed_devices(
        st,
        subnet_models(s.subnets@),
        plant_of(st, spec)->Ok_0.1,
        spec.enrich,
    )
    &&& s.wf()
    &&& s.sealed
    &&& s.seed == st.seed
    &&& s.created_unix == now_unix
    &&& opt_text(s.scenario) == Some(scenario)
    &&& s.schema == SCHEMA
    &&& s.cycle == 0
    &&& s.promoted@.len() == 0
    &&& s.last_threat_unix is None
    &&& s.target_devices == s.devices@.len()
    &&& s.capture_hosts@.len() == 0
    &&& s.registry_generation == 0
    &&& s.max_assets == 0
}

/// What keeps a plant declaration from being pinned.
pub open spec fn plant_fault(st: Stock, plant: Result<PlantSpec, String>) -> Option<Seq<char>> {
    match plant {
        Err(e) => Some(e@),
        Ok(spec) => match plant_of(st, spec) {
            Err(e) => Some(e),
            Ok(_) => None,
        },
    }
}

/// Pin a scenario's plant into a sealed session, given what loading its declaration
/// came to.
pub fn pin_from_pack(
    target: &TargetCfg,
    plant: &Result<PlantSpec, String>,
    vuln: &VulnDb,
    oui: &OuiDb,
    seed: u64,
    now_unix: u64,
    fallback_domains: &[String],
) -> (r: Result<Session, String>)
    ensures
        ({
            let st = Stock { profiles: vuln.profiles@, rows: oui@, seed };
            match r {
                Err(e) => plant_fault(st, *plant) == Some(e@),
                Ok(s) => plant_fault(st, *plant) is None && pinned_as(
                    s,
                    st,
                    plant->Ok_0,
                    texts(fallback_domains@),
                    now_unix,
                    target.name@,
                ),
            }
        }),
{
    match plant {
        Err(e) => Err(e.clone()),
        Ok(spec) => build_sealed_session(
            spec,
            vuln,
            oui,
            seed,
            now_unix,
            target.name.as_str(),
            fallback_domains,
        ),
    }
}

proof fn lemma_ip_place(ds: Seq<DeviceModel>, ip: Seq<char>)
    ensures
        0 <= ip_place(ds, ip) <= ds.len(),
        ip_place(ds, ip) < ds.len() <==> holds_ip(ds, ip),
        ip_place(ds, ip) < ds.len() ==> ds[ip_place(ds, ip)].ip == ip,
    decreases ds.len(),
{
    if ds.len() > 0 && ds[0].ip != ip {
        let sub = ds.drop_first();
        lemma_ip_place(sub, ip);
        if holds_ip(ds, ip) {
            let i = choose|i: int| 0 <= i < ds.len() && (#[trigger] ds[i]).ip == ip;
            assert(sub[i - 1].ip == ip);
        }
        if holds_ip(sub, ip) {
            let i = choose|i: int| 0 <= i < sub.len() && (#[trigger] sub[i]).ip == ip;
            assert(ds[i + 1].ip == ip);
        }
    } else if ds.len() > 0 {
        assert(ds[0].ip == ip);
    }
}

proof fn lemma_same_place(a: Seq<DeviceModel>, b: Seq<DeviceModel>, ip: Seq<char>)
    requires
        same_but_names(a, b),
    ensures
        ip_place(a, ip) == ip_place(b, ip),
    decreases a.len(),
{
    if a.len() > 0 {
        assert(b[0] == (DeviceModel { hostname: b[0].hostname, ..a[0] }));
        assert forall|i: int| 0 <= i < a.drop_first().len() implies #[trigger] b.drop_first()[i]
            == (DeviceModel { hostname: b.drop_first()[i].hostname, ..a.drop_first()[i] }) by {
            assert(b[i + 1] == (DeviceModel { hostname: b[i + 1].hostname, ..a[i + 1] }));
        }
        lemma_same_place(a.drop_first(), b.drop_first(), ip);
    }
}

proof fn lemma_names_back(ds: Seq<DeviceModel>, names: Seq<(Seq<char>, Seq<char>)>)
    ensures
        same_but_names(ds, names_back(ds, names)),
    decreases names.len(),
{
    if names.len() > 0 {
        let r = names_back(ds, names.drop_last());
        lemma_names_back(ds, names.drop_last());
        let out = name_back(r, names.last());
        assert forall|i: int| 0 <= i < ds.len() implies #[trigger] out[i] == (DeviceModel {
            hostname: out[i].hostname,
            ..ds[i]
        }) by {
            assert(r[i] == (DeviceModel { hostname: r[i].hostname, ..ds[i] }));
        }
    }
}

/// The pinned kit is in the sealed plant, in the order it was declared, with
/// nothing changed but perhaps a hostname.
pub proof fn law_pinned_kit_is_kept(
    st: Stock,
    zones: Seq<SubnetModel>,
    p: Pinned,
    enrich: bool,
    i: int,
)
    requires
        0 <= i < p.devices.len(),
    ensures
        ({
            let out = sealed_devices(st, zones, p, enrich);
            &&& out.len() >= p.devices.len()
            &&& out[i] == DeviceModel { hostname: out[i].hostname, ..p.devices[i] }
        }),
{
    let f = Fab {
        subnets: zones,
        devices: p.devices,
        used: taken(p.devices),
        words: Seq::empty(),
    };
    let full = if enrich {
        st.enrich(f).devices
    } else {
        p.devices
    };
    if enrich {
        let g = Fab { devices: name_zones(p.devices, zones, st.seed), ..f };
        lemma_naming_keeps_addresses(p.devices, zones, st.seed);
        lemma_add_boms(st, g, zones);
        assert(g.devices[i] == (DeviceModel { hostname: g.devices[i].hostname, ..p.devices[i] }));
        assert(full[i] == g.devices[i]);
    }
    lemma_names_back(full, p.names);
    let out = sealed_devices(st, zones, p, enrich);
    assert(out[i] == (DeviceModel { hostname: out[i].hostname, ..full[i] }));
}

/// A declared hostname is kept: where no two are declared for one address, the
/// first device at a name's address goes by it.
pub proof fn law_declared_hostnames_are_kept(
    ds: Seq<DeviceModel>,
    names: Seq<(Seq<char>, Seq<char>)>,
    k: int,
)
    requires
        0 <= k < names.len(),
        forall|a: int, b: int|
            0 <= a < b < names.len() ==> (#[trigger] names[a]).0 != (#[trigger] names[b]).0,
        holds_ip(ds, names[k].0),
    ensures
        ({
            let at = ip_place(ds, names[k].0);
            &&& 0 <= at < ds.len()
            &&& names_back(ds, names)[at].ip == names[k].0
            &&& names_back(ds, names)[at].hostname == Some(names[k].1)
        }),
    decreases names.len(),
{
    let at = ip_place(ds, names[k].0);
    let prior = names.drop_last();
    let r = names_back(ds, prior);
    lemma_ip_place(ds, names[k].0);
    lemma_names_back(ds, prior);
    lemma_same_place(ds, r, names[k].0);
    lemma_same_place(ds, r, names.last().0);
    lemma_ip_place(ds, names.last().0);
    lemma_ip_place(r, names.last().0);
    assert(r[at] == (DeviceModel { hostname: r[at].hostname, ..ds[at] }));
    if k < names.len() - 1 {
        assert forall|a: int, b: int| 0 <= a < b < prior.len() implies (#[trigger] prior[a]).0 != (
        #[trigger] prior[b]).0 by {
            assert(names[a].0 != names[b].0);
        }
        law_declared_hostnames_are_kept(ds, prior, k);
        assert(names[k].0 != names[names.len() - 1].0);
    }
}

/// A device without an address of its own gets one of its zone that no other
/// device has, and never the gateway's, which the zone firewall takes.
pub proof fn law_assigned_address_is_free(prior: Seq<DeviceModel>, d: DeviceSpec, ip: u32)
    requires
        d.ip is None,
        address_for(prior, d) == Ok::<u32, Seq<char>>(ip),
    ensures
        cidr_net(d.zone@) is Some,
        cidr_net(d.zone@)->0.has(ip as int),
        ip != gateway(cidr_net(d.zone@)->0),
        !holds_ip(prior, ip_text(ip)),
{
    let net = cidr_net(d.zone@)->0;
    crate::net::lemma_cidr_net_wf(d.zone@);
    net.lemma_bounds();
    lemma_first_free(net.host_lo(), net.host_hi(), taken(prior).insert(gateway(net)));
    if holds_ip(prior, ip_text(ip)) {
        assert(taken(prior).contains(ip));
    }
}

} // verus!
