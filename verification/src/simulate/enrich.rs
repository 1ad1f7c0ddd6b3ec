//! The supporting cast of a plant: operations zones, DNS domains, hostnames, and
//! each zone's bill of materials.

use std::collections::HashSet;
use vstd::prelude::*;
use crate::ledger::{
    device_models, subnet_models, DeviceModel, DeviceRecord, Session, SubnetModel, SubnetRecord,
    MAX_DEVICES,
};
use crate::mac::{fmt_mac, mac_text};
use crate::net::{cidr_net, ip_of, ip_string, ip_text, net_text, parse_ip, parse_net, Ipv4Net};
use crate::order::{by_key, sort_by_key};
use crate::oui::{it_pool, it_pool_oui, prefix_bytes, prefixes_for, OuiDb};
use crate::proto::l3::{fresh_subnet, host_mac, stable_mac};
use crate::rng::rng_words;
use crate::simulate::bom::{
    bom_for, bom_lines, fqdn, fqdn_text, hostname_for, hostname_text, label_text, AssetType,
    BomEntry,
};
use crate::simulate::devices::{
    all_used, distinct_ips, existing_nets, fab_of, free_in, lemma_known, next_free_in,
    same_but_plant, AllocParams, Fab,
};
use crate::simulate::roles::{firewall, firewall_addr};
use crate::simulate::zones::{name_zone, zone_name};
use crate::text::{clone_strings, opt_is, opt_ref, opt_str, opt_text, str_eq, texts};
use crate::vuln::{proto_tag, DeviceProfile, VulnDb};

verus! {

/// The makers that operations zones are branded with, in turn.
pub open spec fn l3_vendor(i: int) -> Seq<char> {
    if i % 3 == 0 {
        "VMware"@
    } else if i % 3 == 1 {
        "Dell"@
    } else {
        "Hewlett Packard"@
    }
}

/// Up to `count` operations zones, while there are fewer zones than allowed.
pub open spec fn l3_zones(f: Fab, params: AllocParams, count: nat) -> Fab
    decreases count,
{
    if count == 0 || f.subnets.len() >= params.max_subnets {
        f
    } else {
        let (net, g) = f.fresh(params);
        let idx = f.subnets.len();
        let vendor = l3_vendor(idx as int);
        let s = SubnetModel {
            cidr: net_text(net),
            zone_name: zone_name(Some(vendor), None, 3, idx),
            purdue_level: 3,
            vendor: Some(vendor),
            domain: None,
        };
        let h = match g.add_subnet(s) {
            Some(h) => h,
            None => g,
        };
        l3_zones(h, params, (count - 1) as nat)
    }
}

/// Create up to `count` Purdue L3 (operations / DCS) zones above the L1/L2
/// control zones, bounded by the subnet cap. These hold servers and operator
/// stations, not controllers, so the plant shows a distributed control system
/// over the field zones. The zones are created empty here; `enrich_plant` fills
/// each from the L3 bill of materials.
pub fn create_l3_zones(
    session: &mut Session,
    params: &AllocParams,
    count: usize,
    rng: &mut rand_chacha::ChaCha8Rng,
)
    ensures
        forall|used: Set<u32>|
            #![trigger fab_of(*final(session), used, rng_words(*final(rng)))]
            fab_of(*final(session), used, rng_words(*final(rng))) == l3_zones(
                fab_of(*old(session), used, rng_words(*old(rng))),
                *params,
                count as nat,
            ),
        same_but_plant(*final(session), *old(session)),
        final(session).devices == old(session).devices,
        old(session).wf() ==> final(session).wf(),
{
    let mut left: usize = count;
    while left > 0 && session.subnet_count() < params.max_subnets
        invariant
            forall|used: Set<u32>|
                #![trigger fab_of(*session, used, rng_words(*rng))]
                l3_zones(fab_of(*session, used, rng_words(*rng)), *params, left as nat) == l3_zones(
                    fab_of(*old(session), used, rng_words(*old(rng))),
                    *params,
                    count as nat,
                ),
            same_but_plant(*session, *old(session)),
            session.devices == old(session).devices,
            old(session).wf() ==> session.wf(),
        decreases left,
    {
        let ghost s0 = *session;
        let ghost w0 = rng_words(*rng);
        let existing = existing_nets(session);
        let net = fresh_subnet(params.default_prefix, existing.as_slice(), rng);
        let idx: usize = session.subnet_count();
        let vendor = if idx % 3 == 0 {
            "VMware"
        } else if idx % 3 == 1 {
            "Dell"
        } else {
            "Hewlett Packard"
        };
        let rec = SubnetRecord {
            cidr: net.to_text(),
            zone_name: name_zone(Some(vendor), None, 3, idx),
            purdue_level: 3,
            vendor: Some(vendor.to_owned()),
            domain: None,
        };
        let ghost m = rec@;
        proof {
            lemma_known(s0.subnets@, net_text(net));
        }
        session.add_subnet(rec);
        left -= 1;
        proof {
            assert forall|used: Set<u32>|
                #![trigger fab_of(*session, used, rng_words(*rng))]
                l3_zones(fab_of(*session, used, rng_words(*rng)), *params, left as nat) == l3_zones(
                    fab_of(*old(session), used, rng_words(*old(rng))),
                    *params,
                    count as nat,
                ) by {
                let f = fab_of(s0, used, w0);
                let (n2, g) = f.fresh(*params);
                assert(n2 == net);
                let h = match g.add_subnet(m) {
                    Some(h) => h,
                    None => g,
                };
                if session.subnets@.len() > s0.subnets@.len() {
                    assert(subnet_models(session.subnets@) =~= subnet_models(s0.subnets@).push(m));
                }
                assert(fab_of(*session, used, rng_words(*rng)) =~= h);
            }
        }
    }
}

/// A 64-bit value with its bits turned left.
pub open spec fn turned(x: u64, k: u64) -> u64 {
    (x << k) | (x >> ((64 - k) as u64))
}

fn turn(x: u64, k: u64) -> (r: u64)
    requires
        0 < k < 64,
    ensures
        r == turned(x, k),
{
    (x << k) | (x >> (64 - k))
}

/// The domain of the zone numbered `i`: mostly the primary one, by a hash of the
/// seed and the number.
pub open spec fn domain_of(i: int, domains: Seq<Seq<char>>, seed: u64) -> Seq<char> {
    let h = turned(seed ^ (i as u64).wrapping_mul(0x9E37_79B9_7F4A_7C15), 29);
    if domains.len() == 1 || h % 100 < 75 {
        domains[0]
    } else {
        domains[1 + i % (domains.len() - 1)]
    }
}

/// The zones with a domain each; unchanged without domains.
pub open spec fn with_domains(
    subnets: Seq<SubnetModel>,
    domains: Seq<Seq<char>>,
    seed: u64,
) -> Seq<SubnetModel> {
    if domains.len() == 0 {
        subnets
    } else {
        Seq::new(
            subnets.len(),
            |i: int|
                SubnetModel { domain: Some(domain_of(i, domains, seed)), ..subnets[i] },
        )
    }
}

/// Tag each zone with a DNS domain so the plant reads as one site spanning zones.
/// Most zones share the primary domain (a single cross-zone identity a sensor
/// correlates from the FQDN suffix); a minority take a secondary for variety.
/// Deterministic from the seed and zone index, run at plan time before
/// `enrich_plant` so the names are sealed as FQDNs. No-op when `domains` is empty
/// (DNS stays single-label).
pub fn assign_domains(session: &mut Session, domains: &[String], seed: u64)
    ensures
        subnet_models(final(session).subnets@) == with_domains(
            subnet_models(old(session).subnets@),
            texts(domains@),
            seed,
        ),
        *final(session) == old(session).with_subnets(final(session).subnets),
        old(session).wf() ==> final(session).wf(),
{
    if domains.len() == 0 {
        return ;
    }
    let ghost ds = texts(domains@);
    let mut i: usize = 0;
    while i < session.subnets.len()
        invariant
            i <= session.subnets@.len(),
            domains@.len() > 0,
            ds == texts(domains@),
            *session == old(session).with_subnets(session.subnets),
            session.subnets@.len() == old(session).subnets@.len(),
            forall|k: int|
                0 <= k < i ==> (#[trigger] session.subnets@[k])@ == (SubnetModel {
                    domain: Some(domain_of(k, ds, seed)),
                    ..old(session).subnets@[k]@
                }),
            forall|k: int|
                i <= k < session.subnets@.len() ==> #[trigger] session.subnets@[k]
                    == old(session).subnets@[k],
        decreases session.subnets@.len() - i,
    {
        let h: u64 = turn(seed ^ (i as u64).wrapping_mul(0x9E37_79B9_7F4A_7C15), 29);
        let domain = if domains.len() == 1 || h % 100 < 75 {
            domains[0].clone()
        } else {
            domains[1 + i % (domains.len() - 1)].clone()
        };
        proof {
            assert(domain@ == domain_of(i as int, ds, seed));
        }
        session.subnets[i].domain = Some(domain);
        i += 1;
    }
    proof {
        assert(subnet_models(session.subnets@) =~= with_domains(
            subnet_models(old(session).subnets@),
            ds,
            seed,
        ));
        if old(session).wf() {
            assert forall|a: int, b: int| 0 <= a < b < session.subnets@.len() implies (
            #[trigger] session.subnets@[a]).cidr@ != (#[trigger] session.subnets@[b]).cidr@ by {
                assert(session.subnets@[a]@.cidr == old(session).subnets@[a]@.cidr);
                assert(session.subnets@[b]@.cidr == old(session).subnets@[b]@.cidr);
            }
        }
    }
}

/// The asset class that a label names; a controller for any other label or none.
pub open spec fn class_of(label: Option<Seq<char>>) -> AssetType {
    match label {
        Some(l) => if l == "Switch"@ {
            AssetType::Switch
        } else if l == "Router"@ {
            AssetType::Router
        } else if l == "HMI"@ {
            AssetType::Hmi
        } else if l == "EWS"@ {
            AssetType::EngWorkstation
        } else if l == "Historian"@ {
            AssetType::Historian
        } else if l == "Firewall"@ {
            AssetType::Firewall
        } else if l == "Server"@ {
            AssetType::Server
        } else {
            AssetType::Controller
        },
        None => AssetType::Controller,
    }
}

/// The asset class of an existing record, for choosing its hostname style.
pub fn asset_type_of(dev: &DeviceRecord) -> (r: AssetType)
    ensures
        r == class_of(opt_text(dev.asset_type)),
{
    if opt_is(&dev.asset_type, "Switch") {
        AssetType::Switch
    } else if opt_is(&dev.asset_type, "Router") {
        AssetType::Router
    } else if opt_is(&dev.asset_type, "HMI") {
        AssetType::Hmi
    } else if opt_is(&dev.asset_type, "EWS") {
        AssetType::EngWorkstation
    } else if opt_is(&dev.asset_type, "Historian") {
        AssetType::Historian
    } else if opt_is(&dev.asset_type, "Firewall") {
        AssetType::Firewall
    } else if opt_is(&dev.asset_type, "Server") {
        AssetType::Server
    } else {
        AssetType::Controller
    }
}

/// The vendor that brands a class of the bill of materials.
pub open spec fn brand(a: AssetType) -> Seq<char> {
    match a {
        AssetType::Firewall => "Fortinet"@,
        AssetType::Switch => "Cisco Systems"@,
        AssetType::Router => "Cisco Systems"@,
        AssetType::Hmi => "Advantech"@,
        AssetType::EngWorkstation => "Dell"@,
        AssetType::Historian => "Hewlett Packard"@,
        AssetType::Server => "VMware"@,
        AssetType::Controller => ""@,
    }
}

/// A vendor name to brand a BOM asset class so its OUI resolves to a believable
/// maker. Controllers/switches come from vuln profiles, not here.
pub fn bom_vendor(asset_type: AssetType) -> (r: &'static str)
    ensures
        r@ == brand(asset_type),
{
    match asset_type {
        AssetType::Firewall => "Fortinet",
        AssetType::Switch => "Cisco Systems",
        AssetType::Router => "Cisco Systems",
        AssetType::Hmi => "Advantech",
        AssetType::EngWorkstation => "Dell",
        AssetType::Historian => "Hewlett Packard",
        AssetType::Server => "VMware",
        AssetType::Controller => "",
    }
}

/// The model of a class of the bill of materials.
pub open spec fn stock_model(a: AssetType) -> Seq<char> {
    match a {
        AssetType::Firewall => "FortiGate 40F"@,
        AssetType::Switch => "Catalyst IE-3300"@,
        AssetType::Router => "ISR 4321"@,
        AssetType::Hmi => "WebOP-2070T"@,
        AssetType::EngWorkstation => "OptiPlex 7090"@,
        AssetType::Historian => "ProLiant DL360"@,
        AssetType::Server => "ESXi Host"@,
        AssetType::Controller => ""@,
    }
}

/// A believable model string for a BOM asset class.
pub fn bom_model(asset_type: AssetType) -> (r: &'static str)
    ensures
        r@ == stock_model(asset_type),
{
    match asset_type {
        AssetType::Firewall => "FortiGate 40F",
        AssetType::Switch => "Catalyst IE-3300",
        AssetType::Router => "ISR 4321",
        AssetType::Hmi => "WebOP-2070T",
        AssetType::EngWorkstation => "OptiPlex 7090",
        AssetType::Historian => "ProLiant DL360",
        AssetType::Server => "ESXi Host",
        AssetType::Controller => "",
    }
}

/// The number of an address text, 0 for a text that is none.
pub open spec fn ip_number(s: Seq<char>) -> u32 {
    match ip_of(s) {
        Some(ip) => ip,
        None => 0,
    }
}

fn ip_u32(s: &str) -> (r: u32)
    ensures
        r == ip_number(s@),
{
    match parse_ip(s) {
        Some(ip) => ip,
        None => 0,
    }
}

/// The asset at an address is named: 85 in 100 are, by a hash of the seed and the
/// address.
pub open spec fn named(seed: u64, ip: u32) -> bool {
    turned(seed ^ (ip as u64).wrapping_mul(0x9E37_79B9_7F4A_7C15), 31) % 100 < 85
}

/// Whether a device is DNS-named: ~85% deterministic by (seed, ip), so the named
/// subset is stable across runs and the sensor's hostname coverage holds.
pub fn is_named(seed: u64, ip: u32) -> (r: bool)
    ensures
        r == named(seed, ip),
{
    turn(seed ^ (ip as u64).wrapping_mul(0x9E37_79B9_7F4A_7C15), 31) % 100 < 85
}

/// The places of the profiles of an asset class.
pub open spec fn class_places(ps: Seq<DeviceProfile>, class: Seq<char>) -> Seq<usize>
    decreases ps.len(),
{
    if ps.len() == 0 {
        Seq::empty()
    } else {
        let r = class_places(ps.drop_last(), class);
        if opt_text(ps.last().asset_class) == Some(class) {
            r.push((ps.len() - 1) as usize)
        } else {
            r
        }
    }
}

/// The place of the profile for infrastructure of a class at an address, by a
/// hash of the seed and the address.
pub open spec fn infra_place(
    ps: Seq<DeviceProfile>,
    class: Seq<char>,
    seed: u64,
    ip: u32,
) -> Option<int> {
    let c = class_places(ps, class);
    if c.len() == 0 {
        None
    } else {
        let h = turned(seed ^ (ip as u64).wrapping_mul(0x0100_0000_01B3), 17) as usize;
        Some(c[h as int % c.len() as int] as int)
    }
}

/// A deterministic vuln profile for a BOM infrastructure class ("Firewall" or
/// "Router"), chosen by the profile's `asset_class` so a zone's firewall/router
/// carries a real CVE-bearing SNMP identity. None when the DB has no such
/// profile, so fabrication falls back to an identity-only generic record. Indexed
/// by (seed, ip) so the choice is stable.
fn infra_profile<'a>(vuln: &'a VulnDb, class: &str, seed: u64, ip: u32) -> (r: Option<
    &'a DeviceProfile,
>)
    ensures
        r is Some <==> infra_place(vuln.profiles@, class@, seed, ip) is Some,
        r matches Some(p) ==> *p == vuln.profiles@[infra_place(
            vuln.profiles@,
            class@,
            seed,
            ip,
        )->0],
{
    let ps = &vuln.profiles;
    let mut found: Vec<usize> = Vec::new();
    let mut i: usize = 0;
    proof {
        assert(ps@.take(0) =~= Seq::empty());
    }
    while i < ps.len()
        invariant
            i <= ps@.len(),
            found@ == class_places(ps@.take(i as int), class@),
            forall|k: int| 0 <= k < found@.len() ==> (#[trigger] found@[k]) < i,
        decreases ps@.len() - i,
    {
        proof {
            assert(ps@.take(i as int + 1).drop_last() =~= ps@.take(i as int));
        }
        if opt_is(&ps[i].asset_class, class) {
            found.push(i);
        }
        i += 1;
    }
    proof {
        assert(ps@.take(i as int) =~= ps@);
    }
    if found.len() == 0 {
        return None;
    }
    let h: usize = turn(seed ^ (ip as u64).wrapping_mul(0x0100_0000_01B3), 17) as usize;
    Some(&ps[found[h % found.len()]])
}

/// The MAC of an asset: a prefix of its vendor, or of the IT pool for a vendor
/// without one, and the low bytes of the address's stable MAC.
pub open spec fn branded_mac(
    rows: Seq<(u32, Seq<char>)>,
    vendor: Seq<char>,
    seed: u64,
    ip: u32,
) -> Seq<u8> {
    let ps = prefixes_for(rows, vendor);
    let salt = (ip as u64 as usize) as int;
    let prefix = if ps.len() > 0 {
        prefix_bytes(ps[salt % ps.len() as int])
    } else {
        it_pool()[salt % 7]
    };
    prefix + host_mac(seed, ip).subrange(3, 6)
}

/// A believable, stable MAC for a BOM asset: the class vendor's OUI (or the IT
/// pool when the vendor has none registered) with low bytes derived per-IP.
pub fn bom_mac(oui: &OuiDb, vendor: &str, seed: u64, ip: u32) -> (r: [u8; 6])
    ensures
        r@ == branded_mac(oui@, vendor@, seed, ip),
{
    let salt: u64 = ip as u64;
    let prefix = match oui.oui_for_vendor(vendor, salt) {
        Some(p) => p,
        None => it_pool_oui(salt),
    };
    let low = stable_mac(seed, ip);
    let r: [u8; 6] = [prefix[0], prefix[1], prefix[2], low[3], low[4], low[5]];
    proof {
        assert(prefix@.len() == 3);
        assert(r@ =~= branded_mac(oui@, vendor@, seed, ip));
    }
    r
}

/// The places of the devices of a zone, in order.
pub open spec fn zone_places(ds: Seq<DeviceModel>, cidr: Seq<char>) -> Seq<usize>
    decreases ds.len(),
{
    if ds.len() == 0 {
        Seq::empty()
    } else {
        let r = zone_places(ds.drop_last(), cidr);
        if ds.last().subnet_cidr == cidr {
            r.push((ds.len() - 1) as usize)
        } else {
            r
        }
    }
}

/// The address numbers of the devices at some places.
pub open spec fn place_keys(ds: Seq<DeviceModel>, at: Seq<usize>) -> Seq<u64> {
    at.map_values(|i: usize| ip_number(ds[i as int].ip) as u64)
}

/// The places of the devices of a zone, lowest address first.
pub open spec fn zone_order(ds: Seq<DeviceModel>, cidr: Seq<char>) -> Seq<usize> {
    let at = zone_places(ds, cidr);
    by_key(place_keys(ds, at)).map_values(|k: usize| at[k as int])
}

/// The name of an asset in a zone.
pub open spec fn asset_name(
    vendor: Seq<char>,
    class: AssetType,
    zi: nat,
    n: nat,
    domain: Option<Seq<char>>,
) -> Seq<char> {
    fqdn_text(hostname_text(Some(vendor), class, zi, n), domain)
}

/// A device, numbered `n` in zone `zi`, with its name if it is to have one.
pub open spec fn name_device(
    d: DeviceModel,
    zi: nat,
    n: nat,
    domain: Option<Seq<char>>,
    seed: u64,
) -> DeviceModel {
    if named(seed, ip_number(d.ip)) {
        DeviceModel {
            hostname: Some(asset_name(d.vendor, class_of(d.asset_type), zi, n, domain)),
            ..d
        }
    } else {
        d
    }
}

/// The devices with those at the given places named, in turn.
pub open spec fn name_places(
    ds: Seq<DeviceModel>,
    at: Seq<usize>,
    zi: nat,
    domain: Option<Seq<char>>,
    seed: u64,
) -> Seq<DeviceModel>
    decreases at.len(),
{
    if at.len() == 0 {
        ds
    } else {
        let r = name_places(ds, at.drop_last(), zi, domain, seed);
        let i = at.last() as int;
        if i < r.len() {
            r.update(i, name_device(r[i], zi, (at.len() - 1) as nat, domain, seed))
        } else {
            r
        }
    }
}

/// The devices with those of each zone named, zone after zone.
pub open spec fn name_zones(ds: Seq<DeviceModel>, zones: Seq<SubnetModel>, seed: u64) -> Seq<
    DeviceModel,
>
    decreases zones.len(),
{
    if zones.len() == 0 {
        ds
    } else {
        let r = name_zones(ds, zones.drop_last(), seed);
        let z = zones.last();
        name_places(r, zone_order(r, z.cidr), (zones.len() - 1) as nat, z.domain, seed)
    }
}

/// A class of the bill of materials that takes a profile of its class.
pub open spec fn profiled(a: AssetType) -> bool {
    a == AssetType::Controller || a == AssetType::Switch || a == AssetType::Firewall || a
        == AssetType::Router
}

/// What enriching a plant draws on.
pub struct Stock {
    pub profiles: Seq<DeviceProfile>,
    pub rows: Seq<(u32, Seq<char>)>,
    pub seed: u64,
}

impl Stock {
    /// The asset numbered `n` of a class in zone `zi`, at an address.
    pub open spec fn asset(
        self,
        z: SubnetModel,
        zi: nat,
        class: AssetType,
        n: nat,
        ip: u32,
    ) -> DeviceModel {
        let place = if profiled(class) {
            infra_place(self.profiles, label_text(class), self.seed, ip)
        } else {
            None
        };
        let generic = DeviceModel {
            ip: ip_text(ip),
            mac: Seq::empty(),
            vendor: brand(class),
            model: stock_model(class),
            firmware: "1.0"@,
            protocol: "none"@,
            cves: Seq::empty(),
            subnet_cidr: z.cidr,
            hostname: None,
            asset_type: Some(label_text(class)),
        };
        let d = match place {
            Some(k) => {
                let p = self.profiles[k];
                DeviceModel {
                    vendor: p.vendor@,
                    model: p.model@,
                    firmware: p.firmware@,
                    protocol: proto_tag(p.protocol),
                    cves: texts(p.cves@),
                    ..generic
                }
            },
            None => generic,
        };
        DeviceModel {
            mac: mac_text(branded_mac(self.rows, d.vendor, self.seed, ip)),
            hostname: if named(self.seed, ip) {
                Some(asset_name(d.vendor, class, zi, n, z.domain))
            } else {
                None
            },
            ..d
        }
    }

    /// Add the asset numbered `n` of a class: the firewall on the gateway address,
    /// any other on the next free one. Nothing is added without a free address or
    /// beyond the hard cap.
    pub open spec fn add_asset(
        self,
        f: Fab,
        z: SubnetModel,
        zi: nat,
        class: AssetType,
        n: nat,
    ) -> Fab {
        let at = if class == AssetType::Firewall {
            Some(firewall(z.cidr))
        } else {
            free_in(cidr_net(z.cidr)->0, f.used)
        };
        match at {
            None => f,
            Some(ip) => if f.used.contains(ip) || f.devices.len() >= MAX_DEVICES {
                f
            } else {
                Fab {
                    devices: f.devices.push(self.asset(z, zi, class, n, ip)),
                    used: f.used.insert(ip),
                    ..f
                }
            },
        }
    }

    /// Add `count` assets of a class.
    pub open spec fn add_line(
        self,
        f: Fab,
        z: SubnetModel,
        zi: nat,
        class: AssetType,
        count: nat,
    ) -> Fab
        decreases count,
    {
        if count == 0 {
            f
        } else {
            self.add_asset(
                self.add_line(f, z, zi, class, (count - 1) as nat),
                z,
                zi,
                class,
                (count - 1) as nat,
            )
        }
    }

    /// Add the lines of a bill of materials.
    pub open spec fn add_lines(
        self,
        f: Fab,
        z: SubnetModel,
        zi: nat,
        lines: Seq<BomEntry>,
    ) -> Fab
        decreases lines.len(),
    {
        if lines.len() == 0 {
            f
        } else {
            let g = self.add_lines(f, z, zi, lines.drop_last());
            self.add_line(g, z, zi, lines.last().0, lines.last().1 as nat)
        }
    }

    /// Add each zone's bill of materials; a zone whose text is no network gets
    /// none.
    pub open spec fn add_boms(self, f: Fab, zones: Seq<SubnetModel>) -> Fab
        decreases zones.len(),
    {
        if zones.len() == 0 {
            f
        } else {
            let g = self.add_boms(f, zones.drop_last());
            let z = zones.last();
            if cidr_net(z.cidr) is None {
                g
            } else {
                self.add_lines(g, z, (zones.len() - 1) as nat, bom_lines(z.purdue_level))
            }
        }
    }

    /// The plant with its devices named and each zone's bill of materials added.
    pub open spec fn enrich(self, f: Fab) -> Fab {
        let g = Fab { devices: name_zones(f.devices, f.subnets, self.seed), ..f };
        self.add_boms(g, f.subnets)
    }
}

/// The places of the devices of a zone, lowest address first.
fn order_zone(devices: &Vec<DeviceRecord>, cidr: &str) -> (r: Vec<usize>)
    ensures
        r@ == zone_order(device_models(devices@), cidr@),
        forall|i: int| 0 <= i < r@.len() ==> (#[trigger] r@[i]) < devices@.len(),
        r@.len() <= devices@.len(),
{
    let ghost ds = device_models(devices@);
    let mut at: Vec<usize> = Vec::new();
    let mut keys: Vec<u64> = Vec::new();
    let mut i: usize = 0;
    proof {
        assert(ds.take(0) =~= Seq::empty());
    }
    while i < devices.len()
        invariant
            i <= devices@.len(),
            ds == device_models(devices@),
            at@ == zone_places(ds.take(i as int), cidr@),
            at@.len() <= i,
            keys@.len() == at@.len(),
            forall|k: int| 0 <= k < at@.len() ==> (#[trigger] at@[k]) < i,
            forall|k: int|
                0 <= k < at@.len() ==> #[trigger] keys@[k] == ip_number(ds[at@[k] as int].ip),
        decreases devices@.len() - i,
    {
        proof {
            assert(ds.take(i as int + 1).drop_last() =~= ds.take(i as int));
        }
        if str_eq(devices[i].subnet_cidr.as_str(), cidr) {
            keys.push(ip_u32(devices[i].ip.as_str()) as u64);
            at.push(i);
        }
        i += 1;
    }
    proof {
        assert(ds.take(i as int) =~= ds);
        assert(keys@ =~= place_keys(ds, at@));
    }
    let order = sort_by_key(keys.as_slice());
    let mut r: Vec<usize> = Vec::new();
    let mut k: usize = 0;
    while k < order.len()
        invariant
            k <= order@.len(),
            order@.len() == at@.len(),
            forall|j: int| 0 <= j < order@.len() ==> (#[trigger] order@[j]) < at@.len(),
            forall|j: int| 0 <= j < at@.len() ==> (#[trigger] at@[j]) < devices@.len(),
            r@.len() == k,
            forall|j: int| 0 <= j < k ==> #[trigger] r@[j] == at@[order@[j] as int],
        decreases order@.len() - k,
    {
        r.push(at[order[k]]);
        k += 1;
    }
    proof {
        assert(r@ =~= zone_order(ds, cidr@));
    }
    r
}

/// Name the devices of one zone.
fn name_one_zone(
    session: &mut Session,
    zi: usize,
    cidr: &str,
    domain: Option<&str>,
    seed: u64,
)
    requires
        zi < usize::MAX,
    ensures
        *final(session) == old(session).with_devices(final(session).devices),
        device_models(final(session).devices@) == ({
            let ds = device_models(old(session).devices@);
            name_places(ds, zone_order(ds, cidr@), zi as nat, opt_str(domain), seed)
        }),
        final(session).devices@.len() == old(session).devices@.len(),
{
    let order = order_zone(&session.devices, cidr);
    let ghost ds = device_models(session.devices@);
    let mut n: usize = 0;
    proof {
        assert(order@.take(0) =~= Seq::empty());
    }
    while n < order.len()
        invariant
            n <= order@.len(),
            zi < usize::MAX,
            order@.len() <= session.devices@.len(),
            session.devices@.len() == old(session).devices@.len(),
            forall|i: int| 0 <= i < order@.len() ==> (#[trigger] order@[i]) < session.devices@.len(),
            *session == old(session).with_devices(session.devices),
            device_models(session.devices@) == name_places(
                ds,
                order@.take(n as int),
                zi as nat,
                opt_str(domain),
                seed,
            ),
        decreases order@.len() - n,
    {
        let di: usize = order[n];
        let ghost before = session.devices@;
        proof {
            assert(order@.take(n as int + 1).drop_last() =~= order@.take(n as int));
            assert(device_models(before)[di as int] == before[di as int]@);
        }
        if is_named(seed, ip_u32(session.devices[di].ip.as_str())) {
            let class = asset_type_of(&session.devices[di]);
            let host = hostname_for(Some(session.devices[di].vendor.as_str()), class, zi, n);
            session.devices[di].hostname = Some(fqdn(host, domain));
        }
        proof {
            assert(device_models(session.devices@) =~= device_models(before).update(
                di as int,
                name_device(before[di as int]@, zi as nat, n as nat, opt_str(domain), seed),
            ));
        }
        n += 1;
    }
    proof {
        assert(order@.take(n as int) =~= order@);
    }
}

/// The record of an asset of the bill of materials.
fn make_asset(
    zone: &SubnetRecord,
    zi: usize,
    class: AssetType,
    n: usize,
    ip: u32,
    vuln: &VulnDb,
    oui: &OuiDb,
    seed: u64,
) -> (r: DeviceRecord)
    requires
        zi < usize::MAX,
        n < usize::MAX,
    ensures
        r@ == (Stock { profiles: vuln.profiles@, rows: oui@, seed }).asset(
            zone@,
            zi as nat,
            class,
            n as nat,
            ip,
        ),
{
    let takes: bool = matches!(
        class,
        AssetType::Controller | AssetType::Switch | AssetType::Firewall | AssetType::Router
    );
    let found = if takes {
        infra_profile(vuln, class.label(), seed, ip)
    } else {
        None
    };
    let (vendor, model, firmware, protocol, cves): (String, String, String, String, Vec<String>) =
        match found {
        Some(p) => (
            p.vendor.clone(),
            p.model.clone(),
            p.firmware.clone(),
            p.protocol.as_str().to_owned(),
            clone_strings(&p.cves),
        ),
        None => (
            bom_vendor(class).to_owned(),
            bom_model(class).to_owned(),
            "1.0".to_owned(),
            "none".to_owned(),
            Vec::new(),
        ),
    };
    let mac = bom_mac(oui, vendor.as_str(), seed, ip);
    let hostname = if is_named(seed, ip) {
        Some(fqdn(hostname_for(Some(vendor.as_str()), class, zi, n), opt_ref(&zone.domain)))
    } else {
        None
    };
    let r = DeviceRecord {
        ip: ip_string(ip),
        mac: fmt_mac(mac),
        vendor,
        model,
        firmware,
        protocol,
        cves,
        subnet_cidr: zone.cidr.clone(),
        hostname,
        asset_type: Some(class.label().to_owned()),
    };
    proof {
        if found is None {
            assert(texts(r.cves@) =~= Seq::empty());
        }
    }
    r
}

/// Add one asset of a class to a zone.
fn add_one_asset(
    session: &mut Session,
    used: &mut HashSet<u32>,
    zi: usize,
    net: Ipv4Net,
    class: AssetType,
    n: usize,
    vuln: &VulnDb,
    oui: &OuiDb,
    seed: u64,
    Ghost(words): Ghost<Seq<u32>>,
)
    requires
        zi < old(session).subnets.len(),
        n < usize::MAX,
        net.wf(),
        cidr_net(old(session).subnets@[zi as int].cidr@) == Some(net),
    ensures
        *final(session) == old(session).with_devices(final(session).devices),
        fab_of(*final(session), final(used)@, words) == (Stock {
            profiles: vuln.profiles@,
            rows: oui@,
            seed,
        }).add_asset(
            fab_of(*old(session), old(used)@, words),
            old(session).subnets@[zi as int]@,
            zi as nat,
            class,
            n as nat,
        ),
        old(session).wf() ==> final(session).wf(),
{
    let at: Option<u32> = if class == AssetType::Firewall {
        Some(firewall_addr(session.subnets[zi].cidr.as_str()))
    } else {
        next_free_in(net, used)
    };
    if let Some(ip) = at {
        if !used.contains(&ip) {
            let rec = make_asset(&session.subnets[zi], zi, class, n, ip, vuln, oui, seed);
            let ghost before = session.devices@;
            let ghost m = rec@;
            if session.add_device(rec) {
                used.insert(ip);
                proof {
                    assert(device_models(session.devices@) =~= device_models(before).push(m));
                }
            }
        }
    }
}

/// Add the bill of materials of one zone.
fn add_zone_bom(
    session: &mut Session,
    used: &mut HashSet<u32>,
    zi: usize,
    net: Ipv4Net,
    vuln: &VulnDb,
    oui: &OuiDb,
    seed: u64,
    Ghost(words): Ghost<Seq<u32>>,
)
    requires
        zi < old(session).subnets.len(),
        net.wf(),
        cidr_net(old(session).subnets@[zi as int].cidr@) == Some(net),
    ensures
        *final(session) == old(session).with_devices(final(session).devices),
        ({
            let stock = Stock { profiles: vuln.profiles@, rows: oui@, seed };
            let z = old(session).subnets@[zi as int]@;
            fab_of(*final(session), final(used)@, words) == stock.add_lines(
                fab_of(*old(session), old(used)@, words),
                z,
                zi as nat,
                bom_lines(z.purdue_level),
            )
        }),
        old(session).wf() ==> final(session).wf(),
{
    let ghost stock = Stock { profiles: vuln.profiles@, rows: oui@, seed };
    let ghost z = session.subnets@[zi as int]@;
    let ghost f0 = fab_of(*session, used@, words);
    let lines = bom_for(session.subnets[zi].purdue_level);
    let mut li: usize = 0;
    proof {
        assert(lines@.take(0) =~= Seq::empty());
    }
    while li < lines.len()
        invariant
            li <= lines@.len(),
            zi < session.subnets.len(),
            net.wf(),
            cidr_net(z.cidr) == Some(net),
            session.subnets == old(session).subnets,
            *session == old(session).with_devices(session.devices),
            z == session.subnets@[zi as int]@,
            stock == (Stock { profiles: vuln.profiles@, rows: oui@, seed }),
            fab_of(*session, used@, words) == stock.add_lines(
                f0,
                z,
                zi as nat,
                lines@.take(li as int),
            ),
            old(session).wf() ==> session.wf(),
        decreases lines@.len() - li,
    {
        let class = lines[li].0;
        let count: usize = lines[li].1;
        let ghost f1 = fab_of(*session, used@, words);
        proof {
            assert(lines@.take(li as int + 1).drop_last() =~= lines@.take(li as int));
        }
        let mut n: usize = 0;
        while n < count
            invariant
                n <= count,
                zi < session.subnets.len(),
                net.wf(),
                cidr_net(z.cidr) == Some(net),
                session.subnets == old(session).subnets,
                *session == old(session).with_devices(session.devices),
                z == session.subnets@[zi as int]@,
                stock == (Stock { profiles: vuln.profiles@, rows: oui@, seed }),
                fab_of(*session, used@, words) == stock.add_line(f1, z, zi as nat, class, n as nat),
                old(session).wf() ==> session.wf(),
            decreases count - n,
        {
            add_one_asset(
                session,
                used,
                zi,
                net,
                class,
                n,
                vuln,
                oui,
                seed,
                Ghost(words),
            );
            n += 1;
        }
        li += 1;
    }
    proof {
        assert(lines@.take(li as int) =~= lines@);
    }
}

/// After controllers are fabricated, name ~85% of the core devices and add each
/// zone's bill of materials -- a zone-edge firewall at .1 plus HMI / engineering
/// workstation / historian / server / router identities by Purdue level. The
/// firewall and router carry a real CVE-bearing SNMP identity (from a vuln
/// profile tagged with their asset class); the rest are identity-only (they bind
/// via their ARP is-at reply and are named by DNS, not by an OT session).
/// Deterministic from the seed. Run at plan time so the supporting cast and the
/// names are sealed into the ledger the daemon replays verbatim.
pub fn enrich_plant(session: &mut Session, vuln: &VulnDb, oui: &OuiDb, seed: u64)
    ensures
        *final(session) == old(session).with_devices(final(session).devices),
        ({
            let stock = Stock { profiles: vuln.profiles@, rows: oui@, seed };
            device_models(final(session).devices@) == stock.enrich(
                fab_of(*old(session), old(session).used(), Seq::empty()),
            ).devices
        }),
        old(session).wf() ==> final(session).wf(),
{
    let ghost stock = Stock { profiles: vuln.profiles@, rows: oui@, seed };
    let ghost zones = subnet_models(session.subnets@);
    let ghost ds0 = device_models(session.devices@);
    let ghost used0 = session.used();
    let zone_count: usize = session.subnets.len();
    let mut zi: usize = 0;
    proof {
        assert(zones.take(0) =~= Seq::empty());
    }
    while zi < zone_count
        invariant
            zi <= zone_count,
            zone_count == session.subnets@.len(),
            session.subnets == old(session).subnets,
            zones == subnet_models(session.subnets@),
            *session == old(session).with_devices(session.devices),
            session.devices@.len() == old(session).devices@.len(),
            device_models(session.devices@) == name_zones(ds0, zones.take(zi as int), seed),
        decreases zone_count - zi,
    {
        proof {
            assert(zones.take(zi as int + 1).drop_last() =~= zones.take(zi as int));
        }
        let zone = session.subnets[zi].clone();
        name_one_zone(session, zi, zone.cidr.as_str(), opt_ref(&zone.domain), seed);
        zi += 1;
    }
    proof {
        assert(zones.take(zi as int) =~= zones);
        lemma_naming_keeps_addresses(ds0, zones, seed);
        lemma_used_same(*old(session), *session);
    }
    let mut used = session.used_ips();
    let ghost f0 = fab_of(*session, used@, Seq::empty());
    let mut bi: usize = 0;
    proof {
        assert(zones.take(0) =~= Seq::empty());
    }
    while bi < zone_count
        invariant
            bi <= zone_count,
            zone_count == session.subnets@.len(),
            session.subnets == old(session).subnets,
            zones == subnet_models(session.subnets@),
            *session == old(session).with_devices(session.devices),
            stock == (Stock { profiles: vuln.profiles@, rows: oui@, seed }),
            fab_of(*session, used@, Seq::empty()) == stock.add_boms(f0, zones.take(bi as int)),
            old(session).wf() ==> session.wf(),
        decreases zone_count - bi,
    {
        proof {
            assert(zones.take(bi as int + 1).drop_last() =~= zones.take(bi as int));
        }
        let parsed = parse_net(session.subnets[bi].cidr.as_str());
        if let Some(net) = parsed {
            add_zone_bom(session, &mut used, bi, net, vuln, oui, seed, Ghost(Seq::empty()));
        }
        bi += 1;
    }
    proof {
        assert(zones.take(bi as int) =~= zones);
    }
}

/// Naming changes nothing but hostnames.
pub open spec fn same_but_names(a: Seq<DeviceModel>, b: Seq<DeviceModel>) -> bool {
    &&& a.len() == b.len()
    &&& forall|i: int|
        0 <= i < a.len() ==> #[trigger] b[i] == (DeviceModel { hostname: b[i].hostname, ..a[i] })
}

proof fn lemma_name_places(
    ds: Seq<DeviceModel>,
    at: Seq<usize>,
    zi: nat,
    domain: Option<Seq<char>>,
    seed: u64,
)
    ensures
        same_but_names(ds, name_places(ds, at, zi, domain, seed)),
    decreases at.len(),
{
    if at.len() > 0 {
        lemma_name_places(ds, at.drop_last(), zi, domain, seed);
        let r = name_places(ds, at.drop_last(), zi, domain, seed);
        let i = at.last() as int;
        let n = name_places(ds, at, zi, domain, seed);
        assert forall|k: int| 0 <= k < ds.len() implies #[trigger] n[k] == (DeviceModel {
            hostname: n[k].hostname,
            ..ds[k]
        }) by {
            assert(r[k] == (DeviceModel { hostname: r[k].hostname, ..ds[k] }));
        }
    }
}

/// Naming the devices of a plant changes nothing but hostnames.
pub proof fn lemma_naming_keeps_addresses(
    ds: Seq<DeviceModel>,
    zones: Seq<SubnetModel>,
    seed: u64,
)
    ensures
        same_but_names(ds, name_zones(ds, zones, seed)),
    decreases zones.len(),
{
    if zones.len() > 0 {
        lemma_naming_keeps_addresses(ds, zones.drop_last(), seed);
        let r = name_zones(ds, zones.drop_last(), seed);
        let z = zones.last();
        lemma_name_places(r, zone_order(r, z.cidr), (zones.len() - 1) as nat, z.domain, seed);
        let n = name_zones(ds, zones, seed);
        assert forall|k: int| 0 <= k < ds.len() implies #[trigger] n[k] == (DeviceModel {
            hostname: n[k].hostname,
            ..ds[k]
        }) by {
            assert(r[k] == (DeviceModel { hostname: r[k].hostname, ..ds[k] }));
            assert(n[k] == (DeviceModel { hostname: n[k].hostname, ..r[k] }));
        }
    }
}

proof fn lemma_used_same(a: Session, b: Session)
    requires
        same_but_names(device_models(a.devices@), device_models(b.devices@)),
        a.capture_hosts == b.capture_hosts,
    ensures
        a.used() == b.used(),
{
    let x = device_models(a.devices@);
    let y = device_models(b.devices@);
    assert forall|ip: u32| a.used().contains(ip) <==> b.used().contains(ip) by {
        if crate::ledger::has_device_ip(a.devices@, ip_text(ip)) {
            let i = choose|i: int|
                0 <= i < a.devices@.len() && (#[trigger] a.devices@[i]).ip@ == ip_text(ip);
            assert(y[i] == (DeviceModel { hostname: y[i].hostname, ..x[i] }));
            assert(b.devices@[i].ip@ == ip_text(ip));
        }
        if crate::ledger::has_device_ip(b.devices@, ip_text(ip)) {
            let i = choose|i: int|
                0 <= i < b.devices@.len() && (#[trigger] b.devices@[i]).ip@ == ip_text(ip);
            assert(y[i] == (DeviceModel { hostname: y[i].hostname, ..x[i] }));
            assert(a.devices@[i].ip@ == ip_text(ip));
        }
    }
    assert(a.used() =~= b.used());
}

/// What adding assets keeps: the devices that were there, and distinct addresses.
pub open spec fn kept(a: Fab, b: Fab) -> bool {
    &&& a.subnets == b.subnets
    &&& a.devices.is_prefix_of(b.devices)
    &&& distinct_ips(a.devices) && all_used(a.devices, a.used) ==> distinct_ips(b.devices)
        && all_used(b.devices, b.used)
}

proof fn lemma_kept_trans(a: Fab, b: Fab, c: Fab)
    requires
        kept(a, b),
        kept(b, c),
    ensures
        kept(a, c),
{
    assert(a.devices == b.devices.take(a.devices.len() as int));
    assert(b.devices == c.devices.take(b.devices.len() as int));
    assert(a.devices =~= c.devices.take(a.devices.len() as int));
}

proof fn lemma_kept_refl(a: Fab)
    ensures
        kept(a, a),
{
    assert(a.devices =~= a.devices.take(a.devices.len() as int));
}

proof fn lemma_add_asset(st: Stock, f: Fab, z: SubnetModel, zi: nat, class: AssetType, n: nat)
    ensures
        kept(f, st.add_asset(f, z, zi, class, n)),
{
    lemma_kept_refl(f);
    let r = st.add_asset(f, z, zi, class, n);
    if r.devices.len() > f.devices.len() {
        let ip = if class == AssetType::Firewall {
            firewall(z.cidr)
        } else {
            free_in(cidr_net(z.cidr)->0, f.used)->0
        };
        assert(r.devices.last().ip == ip_text(ip));
        assert(f.devices =~= r.devices.take(f.devices.len() as int));
        if distinct_ips(f.devices) && all_used(f.devices, f.used) {
            assert forall|i: int, j: int| 0 <= i < j < r.devices.len() implies (
            #[trigger] r.devices[i]).ip != (#[trigger] r.devices[j]).ip by {
                if j < f.devices.len() {
                    assert(f.devices[i].ip != f.devices[j].ip);
                } else if r.devices[i].ip == ip_text(ip) {
                    assert(f.devices[i].ip == ip_text(ip));
                }
            }
            assert forall|i: int, x: u32|
                0 <= i < r.devices.len() && (#[trigger] r.devices[i]).ip == #[trigger] ip_text(
                    x,
                ) implies r.used.contains(x) by {
                if i < f.devices.len() {
                    assert(f.devices[i].ip == ip_text(x));
                } else {
                    crate::net::law_ip_text_injective(x, ip);
                }
            }
        }
    }
}

proof fn lemma_add_line(st: Stock, f: Fab, z: SubnetModel, zi: nat, class: AssetType, count: nat)
    ensures
        kept(f, st.add_line(f, z, zi, class, count)),
    decreases count,
{
    if count == 0 {
        lemma_kept_refl(f);
    } else {
        let c = (count - 1) as nat;
        lemma_add_line(st, f, z, zi, class, c);
        let g = st.add_line(f, z, zi, class, c);
        lemma_add_asset(st, g, z, zi, class, c);
        lemma_kept_trans(f, g, st.add_asset(g, z, zi, class, c));
    }
}

proof fn lemma_add_lines(st: Stock, f: Fab, z: SubnetModel, zi: nat, lines: Seq<BomEntry>)
    ensures
        kept(f, st.add_lines(f, z, zi, lines)),
    decreases lines.len(),
{
    if lines.len() == 0 {
        lemma_kept_refl(f);
    } else {
        lemma_add_lines(st, f, z, zi, lines.drop_last());
        let g = st.add_lines(f, z, zi, lines.drop_last());
        lemma_add_line(st, g, z, zi, lines.last().0, lines.last().1 as nat);
        lemma_kept_trans(
            f,
            g,
            st.add_line(g, z, zi, lines.last().0, lines.last().1 as nat),
        );
    }
}

pub proof fn lemma_add_boms(st: Stock, f: Fab, zones: Seq<SubnetModel>)
    ensures
        kept(f, st.add_boms(f, zones)),
    decreases zones.len(),
{
    if zones.len() == 0 {
        lemma_kept_refl(f);
    } else {
        lemma_add_boms(st, f, zones.drop_last());
        let g = st.add_boms(f, zones.drop_last());
        let z = zones.last();
        let zi = (zones.len() - 1) as nat;
        lemma_add_lines(st, g, z, zi, bom_lines(z.purdue_level));
        if cidr_net(z.cidr) is Some {
            lemma_kept_trans(f, g, st.add_lines(g, z, zi, bom_lines(z.purdue_level)));
        }
    }
}

/// Enriching a plant keeps every address distinct, and keeps each device that was
/// there but for its hostname.
pub proof fn law_enrich_keeps_addresses_distinct(st: Stock, f: Fab)
    requires
        distinct_ips(f.devices),
        all_used(f.devices, f.used),
    ensures
        distinct_ips(st.enrich(f).devices),
        all_used(st.enrich(f).devices, st.enrich(f).used),
        st.enrich(f).subnets == f.subnets,
        st.enrich(f).devices.len() >= f.devices.len(),
        same_but_names(f.devices, st.enrich(f).devices.take(f.devices.len() as int)),
{
    let named_devices = name_zones(f.devices, f.subnets, st.seed);
    let g = Fab { devices: named_devices, ..f };
    lemma_naming_keeps_addresses(f.devices, f.subnets, st.seed);
    assert forall|i: int| 0 <= i < f.devices.len() implies (#[trigger] g.devices[i]).ip
        == f.devices[i].ip by {
        assert(named_devices[i] == (DeviceModel {
            hostname: named_devices[i].hostname,
            ..f.devices[i]
        }));
    }
    assert forall|i: int, j: int| 0 <= i < j < g.devices.len() implies (#[trigger] g.devices[i]).ip
        != (#[trigger] g.devices[j]).ip by {
        assert(f.devices[i].ip != f.devices[j].ip);
    }
    assert forall|i: int, x: u32|
        0 <= i < g.devices.len() && (#[trigger] g.devices[i]).ip == #[trigger] ip_text(
            x,
        ) implies g.used.contains(x) by {
        assert(f.devices[i].ip == ip_text(x));
    }
    lemma_add_boms(st, g, f.subnets);
    assert(g.devices == st.enrich(f).devices.take(g.devices.len() as int));
}

/// An operator-facing class of the bill of materials carries no CVE.
pub proof fn law_operator_classes_carry_no_cves(
    st: Stock,
    z: SubnetModel,
    zi: nat,
    class: AssetType,
    n: nat,
    ip: u32,
)
    requires
        class == AssetType::Hmi || class == AssetType::EngWorkstation || class
            == AssetType::Historian || class == AssetType::Server,
    ensures
        st.asset(z, zi, class, n, ip).cves.len() == 0,
        st.asset(z, zi, class, n, ip).asset_type == Some(label_text(class)),
{
}

/// A zone's bill of materials puts a firewall on the gateway address, if that is
/// free and the fleet is under the hard cap.
pub proof fn law_zone_gets_its_firewall(st: Stock, f: Fab, z: SubnetModel, zi: nat)
    requires
        !f.used.contains(firewall(z.cidr)),
        f.devices.len() < MAX_DEVICES,
    ensures
        ({
            let g = st.add_lines(f, z, zi, bom_lines(z.purdue_level));
            &&& g.devices.len() > f.devices.len()
            &&& g.devices[f.devices.len() as int] == st.asset(
                z,
                zi,
                AssetType::Firewall,
                0,
                firewall(z.cidr),
            )
        }),
{
    let lines = bom_lines(z.purdue_level);
    lemma_first_line(st, f, z, zi, lines);
}

proof fn lemma_first_line(st: Stock, f: Fab, z: SubnetModel, zi: nat, lines: Seq<BomEntry>)
    requires
        !f.used.contains(firewall(z.cidr)),
        f.devices.len() < MAX_DEVICES,
        lines.len() > 0,
        lines[0] == (AssetType::Firewall, 1usize),
    ensures
        ({
            let g = st.add_lines(f, z, zi, lines);
            &&& g.devices.len() > f.devices.len()
            &&& g.devices[f.devices.len() as int] == st.asset(
                z,
                zi,
                AssetType::Firewall,
                0,
                firewall(z.cidr),
            )
        }),
    decreases lines.len(),
{
    if lines.len() == 1 {
        assert(lines.drop_last() =~= Seq::empty());
        assert(st.add_lines(f, z, zi, lines.drop_last()) == f);
        reveal_with_fuel(Stock::add_line, 3);
    } else {
        let head = lines.drop_last();
        lemma_first_line(st, f, z, zi, head);
        let g = st.add_lines(f, z, zi, head);
        lemma_add_line(st, g, z, zi, lines.last().0, lines.last().1 as nat);
        let h = st.add_line(g, z, zi, lines.last().0, lines.last().1 as nat);
        assert(g.devices == h.devices.take(g.devices.len() as int));
    }
}

} // verus!
