//! The identity burst.
//!
//! First the ARP resolutions that bind every asset's hardware address to its
//! address, then the sessions that carry the fabricated devices' models, then the
//! lookups that bind their names, and on a cadence the sessions that cross zones.

use vstd::prelude::*;
use crate::ledger::{DeviceRecord, Session};
use crate::mac::{mac_of, parse_mac};
use crate::net::{ip_of, parse_ip};
use crate::proto::l3::{host_mac, stable_mac};
use crate::scenario::action::LinkModel;
use crate::simulate::crossings::{
    crossing_models, crossings, north_south_crossings, Crossing, CrossingModel,
};
use crate::simulate::identity::{
    assert_identity, ephemeral_port, exchange_models, fallback_of, fallback_profile, identity_of,
    profile_model, scan_port, Exchange, ExchangeModel, ProfileModel,
};
use crate::simulate::roles::{
    arp_edges, asset_nodes, edge_models, graph, station, station_addr, zone_texts, Edge, EdgeModel,
};
use crate::text::{opt_is, opt_text, str_eq};
use crate::vuln::{model_place, VulnDb};

verus! {

/// Beacons go out with every eighth burst only, so that OT traffic stays dominant.
pub const BEACON_EVERY: u64 = 8;

/// What a burst is to hold.
#[derive(Clone, Copy, Debug)]
pub struct BurstCfg {
    pub device_identity: bool,
    pub switch_beacons: bool,
    pub ns_enabled: bool,
    /// The crossings go out every Nth run.
    pub ns_cadence: u64,
    pub ns_max_per_pair: usize,
}

/// The exchange that a resolution is.
pub open spec fn arp_exchange() -> spec_fn(EdgeModel) -> ExchangeModel {
    |e: EdgeModel|
        ExchangeModel::Arp {
            requester_mac: e.requester.mac,
            requester_ip: e.requester.ip,
            owner_mac: e.owner.mac,
            owner_ip: e.owner.ip,
        }
}

/// The profile that a device announces: its model's, else one recovered from its
/// record.
pub open spec fn announced(vuln: VulnDb, d: DeviceRecord) -> ProfileModel {
    let i = model_place(vuln.profiles@, d.model@);
    if 0 <= i < vuln.profiles@.len() {
        profile_model(vuln.profiles@[i])
    } else {
        fallback_of(d)
    }
}

/// What a device asserts: nothing without a CVE or an address, else its identity
/// to its zone's station.
pub open spec fn device_assertion(
    d: DeviceRecord,
    vuln: VulnDb,
    seed: u64,
    beacons: bool,
    nonce: u64,
) -> Seq<ExchangeModel> {
    if d.cves@.len() == 0 || ip_of(d.ip@) is None {
        Seq::empty()
    } else {
        let ip = ip_of(d.ip@)->0;
        identity_of(
            announced(vuln, d),
            LinkModel {
                client_mac: host_mac(seed, station(d.subnet_cidr@)),
                device_mac: mac_of(d.mac@),
                client_ip: station(d.subnet_cidr@),
                device_ip: ip,
                port: scan_port(nonce, ip),
            },
            beacons,
            nonce,
        )
    }
}

/// What the devices assert, in order.
pub open spec fn assertions(
    ds: Seq<DeviceRecord>,
    vuln: VulnDb,
    seed: u64,
    beacons: bool,
    nonce: u64,
) -> Seq<ExchangeModel>
    decreases ds.len(),
{
    if ds.len() == 0 {
        Seq::empty()
    } else {
        assertions(ds.drop_last(), vuln, seed, beacons, nonce) + device_assertion(
            ds.last(),
            vuln,
            seed,
            beacons,
            nonce,
        )
    }
}

/// A zone's resolver: its last firewall with an address.
pub open spec fn resolver(ds: Seq<DeviceRecord>, cidr: Seq<char>) -> Option<(u32, Seq<u8>)>
    decreases ds.len(),
{
    if ds.len() == 0 {
        None
    } else {
        let d = ds.last();
        if opt_text(d.asset_type) == Some("Firewall"@) && d.subnet_cidr@ == cidr && ip_of(
            d.ip@,
        ) is Some {
            Some((ip_of(d.ip@)->0, mac_of(d.mac@)))
        } else {
            resolver(ds.drop_last(), cidr)
        }
    }
}

/// The lookup of a device's own name: nothing without a name, an address or a
/// resolver other than itself.
pub open spec fn lookup(
    ds: Seq<DeviceRecord>,
    d: DeviceRecord,
    nonce: u64,
) -> Seq<ExchangeModel> {
    match (d.hostname, resolver(ds, d.subnet_cidr@), ip_of(d.ip@)) {
        (Some(name), Some(r), Some(ip)) => if ip == r.0 {
            Seq::empty()
        } else {
            seq![
                ExchangeModel::Dns {
                    host_mac: mac_of(d.mac@),
                    resolver_mac: r.1,
                    host_ip: ip,
                    resolver_ip: r.0,
                    port: scan_port(nonce, ip),
                    id: (nonce ^ ip as u64) as u16,
                    name: name@,
                },
            ]
        },
        _ => Seq::empty(),
    }
}

/// The lookups of the first devices.
pub open spec fn lookups(ds: Seq<DeviceRecord>, n: int, nonce: u64) -> Seq<ExchangeModel>
    decreases n,
{
    if n <= 0 {
        Seq::empty()
    } else {
        lookups(ds, n - 1, nonce) + lookup(ds, ds[n - 1], nonce)
    }
}

/// The last device at an address.
pub open spec fn device_at(ds: Seq<DeviceRecord>, ip: u32) -> Option<DeviceRecord>
    decreases ds.len(),
{
    if ds.len() == 0 {
        None
    } else if ip_of(ds.last().ip@) == Some(ip) {
        Some(ds.last())
    } else {
        device_at(ds.drop_last(), ip)
    }
}

/// The session of a crossing: the south device serves the north client, whose
/// frames the conduit forwards.
pub open spec fn crossing_session(
    ds: Seq<DeviceRecord>,
    vuln: VulnDb,
    c: CrossingModel,
    nonce: u64,
) -> Seq<ExchangeModel> {
    match device_at(ds, c.south_ip) {
        None => Seq::empty(),
        Some(d) => identity_of(
            announced(vuln, d),
            LinkModel {
                client_mac: c.conduit_mac,
                device_mac: c.south_mac,
                client_ip: c.north_ip,
                device_ip: c.south_ip,
                port: scan_port(nonce, c.south_ip),
            },
            false,
            nonce,
        ),
    }
}

/// The sessions of crossings, in order.
pub open spec fn crossing_sessions(
    ds: Seq<DeviceRecord>,
    vuln: VulnDb,
    cs: Seq<CrossingModel>,
    nonce: u64,
) -> Seq<ExchangeModel>
    decreases cs.len(),
{
    if cs.len() == 0 {
        Seq::empty()
    } else {
        crossing_sessions(ds, vuln, cs.drop_last(), nonce) + crossing_session(
            ds,
            vuln,
            cs.last(),
            nonce,
        )
    }
}

/// The resolutions of a ledger's assets.
pub open spec fn resolutions(ledger: Session) -> Seq<ExchangeModel> {
    let a = asset_nodes(ledger);
    graph(ledger.seed, zone_texts(a), a).map_values(arp_exchange())
}

/// The identity burst of a run.
pub open spec fn burst_of(
    ledger: Session,
    vuln: VulnDb,
    cfg: BurstCfg,
    run: u64,
    nonce: u64,
) -> Seq<ExchangeModel> {
    let ds = ledger.devices@;
    if !cfg.device_identity {
        Seq::empty()
    } else {
        resolutions(ledger) + assertions(
            ds,
            vuln,
            ledger.seed,
            cfg.switch_beacons && run % BEACON_EVERY == 0,
            nonce,
        ) + lookups(ds, ds.len() as int, nonce) + if cfg.ns_enabled && run as int % cfg.ns_cadence as int == 0 {
            crossing_sessions(
                ds,
                vuln,
                crossings(ledger, ledger.seed, cfg.ns_max_per_pair as int),
                nonce,
            )
        } else {
            Seq::empty()
        }
    }
}

fn append(out: &mut Vec<Exchange>, more: Vec<Exchange>)
    ensures
        exchange_models(final(out)@) == exchange_models(old(out)@) + exchange_models(more@),
{
    let ghost all = more@;
    let mut more = more;
    let ghost before = out@;
    out.append(&mut more);
    proof {
        assert(exchange_models(out@) =~= exchange_models(before) + exchange_models(all));
    }
}

fn push_resolutions(out: &mut Vec<Exchange>, ledger: &Session)
    ensures
        exchange_models(final(out)@) == exchange_models(old(out)@) + resolutions(*ledger),
{
    let edges: Vec<Edge> = arp_edges(ledger, ledger.seed);
    let ghost ms = edge_models(edges@).map_values(arp_exchange());
    let ghost before = exchange_models(out@);
    let mut i: usize = 0;
    proof {
        assert(before + ms.take(0) =~= before);
    }
    while i < edges.len()
        invariant
            i <= edges@.len(),
            ms == edge_models(edges@).map_values(arp_exchange()),
            exchange_models(out@) == before + ms.take(i as int),
        decreases edges@.len() - i,
    {
        let ghost o = out@;
        let e: Edge = edges[i];
        out.push(
            Exchange::Arp {
                requester_mac: e.requester.mac,
                requester_ip: e.requester.ip,
                owner_mac: e.owner.mac,
                owner_ip: e.owner.ip,
            },
        );
        proof {
            assert(exchange_models(out@) =~= exchange_models(o).push(ms[i as int]));
            assert(before + ms.take(i as int + 1) =~= (before + ms.take(i as int)).push(
                ms[i as int],
            ));
        }
        i += 1;
    }
    proof {
        assert(ms.take(i as int) =~= ms);
    }
}

fn announce_as(
    dev: &DeviceRecord,
    vuln: &VulnDb,
    mac: [u8; 6],
    ip: u32,
    client_ip: u32,
    client_mac: [u8; 6],
    beacons: bool,
    nonce: u64,
) -> (r: Vec<Exchange>)
    ensures
        exchange_models(r@) == identity_of(
            announced(*vuln, *dev),
            LinkModel {
                client_mac: client_mac@,
                device_mac: mac@,
                client_ip,
                device_ip: ip,
                port: scan_port(nonce, ip),
            },
            beacons,
            nonce,
        ),
{
    match vuln.by_model(dev.model.as_str()) {
        Some(p) => assert_identity(mac, ip, client_ip, client_mac, p, beacons, nonce),
        None => {
            let p = fallback_profile(dev);
            assert_identity(mac, ip, client_ip, client_mac, &p, beacons, nonce)
        },
    }
}

fn push_assertions(
    out: &mut Vec<Exchange>,
    ledger: &Session,
    vuln: &VulnDb,
    beacons: bool,
    nonce: u64,
)
    ensures
        exchange_models(final(out)@) == exchange_models(old(out)@) + assertions(
            ledger.devices@,
            *vuln,
            ledger.seed,
            beacons,
            nonce,
        ),
{
    let ds: &Vec<DeviceRecord> = &ledger.devices;
    let ghost before = exchange_models(out@);
    let mut i: usize = 0;
    proof {
        assert(ds@.take(0) =~= Seq::empty());
        assert(before + Seq::<ExchangeModel>::empty() =~= before);
    }
    while i < ds.len()
        invariant
            i <= ds@.len(),
            ds@ == ledger.devices@,
            exchange_models(out@) == before + assertions(
                ds@.take(i as int),
                *vuln,
                ledger.seed,
                beacons,
                nonce,
            ),
        decreases ds@.len() - i,
    {
        let dev: &DeviceRecord = &ds[i];
        let ghost so_far = assertions(ds@.take(i as int), *vuln, ledger.seed, beacons, nonce);
        let ghost o = exchange_models(out@);
        proof {
            assert(ds@.take(i as int + 1).drop_last() =~= ds@.take(i as int));
        }
        if dev.cves.len() > 0 {
            if let Some(ip) = parse_ip(dev.ip.as_str()) {
                let client_ip: u32 = station_addr(dev.subnet_cidr.as_str());
                let more = announce_as(
                    dev,
                    vuln,
                    parse_mac(dev.mac.as_str()),
                    ip,
                    client_ip,
                    stable_mac(ledger.seed, client_ip),
                    beacons,
                    nonce,
                );
                append(out, more);
            }
        }
        proof {
            let one = device_assertion(*dev, *vuln, ledger.seed, beacons, nonce);
            assert(exchange_models(out@) =~= o + one);
            assert(o + one =~= before + (so_far + one));
        }
        i += 1;
    }
    proof {
        assert(ds@.take(i as int) =~= ds@);
    }
}

fn find_resolver(ds: &Vec<DeviceRecord>, cidr: &str) -> (r: Option<(u32, [u8; 6])>)
    ensures
        match r {
            Some(e) => resolver(ds@, cidr@) == Some((e.0, e.1@)),
            None => resolver(ds@, cidr@) is None,
        },
{
    let mut n: usize = ds.len();
    proof {
        assert(ds@.take(n as int) =~= ds@);
    }
    while n > 0
        invariant
            n <= ds@.len(),
            resolver(ds@, cidr@) == resolver(ds@.take(n as int), cidr@),
        decreases n,
    {
        let d: &DeviceRecord = &ds[n - 1];
        proof {
            assert(ds@.take(n as int).drop_last() =~= ds@.take(n as int - 1));
        }
        if opt_is(&d.asset_type, "Firewall") && str_eq(d.subnet_cidr.as_str(), cidr) {
            if let Some(ip) = parse_ip(d.ip.as_str()) {
                return Some((ip, parse_mac(d.mac.as_str())));
            }
        }
        n -= 1;
    }
    None
}

fn push_lookup(out: &mut Vec<Exchange>, ds: &Vec<DeviceRecord>, dev: &DeviceRecord, nonce: u64)
    ensures
        exchange_models(final(out)@) == exchange_models(old(out)@) + lookup(ds@, *dev, nonce),
{
    let ghost o = out@;
    if let Some(name) = &dev.hostname {
        if let Some((rip, rmac)) = find_resolver(ds, dev.subnet_cidr.as_str()) {
            if let Some(ip) = parse_ip(dev.ip.as_str()) {
                if ip != rip {
                    let x: u64 = nonce ^ ip as u64;
                    let id: u16 = (x % 0x1_0000) as u16;
                    proof {
                        assert(id == x as u16) by (bit_vector)
                            requires
                                id == (x % 0x1_0000) as u16,
                        ;
                    }
                    out.push(
                        Exchange::Dns {
                            host_mac: parse_mac(dev.mac.as_str()),
                            resolver_mac: rmac,
                            host_ip: ip,
                            resolver_ip: rip,
                            port: ephemeral_port(nonce, ip),
                            id,
                            name: name.clone(),
                        },
                    );
                }
            }
        }
    }
    proof {
        assert(exchange_models(out@) =~= exchange_models(o) + lookup(ds@, *dev, nonce));
    }
}

fn push_lookups(out: &mut Vec<Exchange>, ds: &Vec<DeviceRecord>, nonce: u64)
    ensures
        exchange_models(final(out)@) == exchange_models(old(out)@) + lookups(
            ds@,
            ds@.len() as int,
            nonce,
        ),
{
    let ghost before = exchange_models(out@);
    let mut i: usize = 0;
    proof {
        assert(before + Seq::<ExchangeModel>::empty() =~= before);
    }
    while i < ds.len()
        invariant
            i <= ds@.len(),
            exchange_models(out@) == before + lookups(ds@, i as int, nonce),
        decreases ds@.len() - i,
    {
        push_lookup(out, ds, &ds[i], nonce);
        proof {
            let one = lookup(ds@, ds@[i as int], nonce);
            assert(before + lookups(ds@, i as int, nonce) + one =~= before + (lookups(
                ds@,
                i as int,
                nonce,
            ) + one));
        }
        i += 1;
    }
}

fn find_device(ds: &Vec<DeviceRecord>, ip: u32) -> (r: Option<&DeviceRecord>)
    ensures
        match r {
            Some(d) => device_at(ds@, ip) == Some(*d),
            None => device_at(ds@, ip) is None,
        },
{
    let mut n: usize = ds.len();
    proof {
        assert(ds@.take(n as int) =~= ds@);
    }
    while n > 0
        invariant
            n <= ds@.len(),
            device_at(ds@, ip) == device_at(ds@.take(n as int), ip),
        decreases n,
    {
        proof {
            assert(ds@.take(n as int).drop_last() =~= ds@.take(n as int - 1));
        }
        if let Some(x) = parse_ip(ds[n - 1].ip.as_str()) {
            if x == ip {
                return Some(&ds[n - 1]);
            }
        }
        n -= 1;
    }
    None
}

fn push_crossings(
    out: &mut Vec<Exchange>,
    ledger: &Session,
    vuln: &VulnDb,
    max_per_pair: usize,
    nonce: u64,
)
    ensures
        exchange_models(final(out)@) == exchange_models(old(out)@) + crossing_sessions(
            ledger.devices@,
            *vuln,
            crossings(*ledger, ledger.seed, max_per_pair as int),
            nonce,
        ),
{
    let cs: Vec<Crossing> = north_south_crossings(ledger, ledger.seed, max_per_pair);
    let ghost ms = crossing_models(cs@);
    let ghost ds = ledger.devices@;
    let ghost before = exchange_models(out@);
    let mut i: usize = 0;
    proof {
        assert(ms.take(0) =~= Seq::empty());
        assert(before + Seq::<ExchangeModel>::empty() =~= before);
    }
    while i < cs.len()
        invariant
            i <= cs@.len(),
            ms == crossing_models(cs@),
            ds == ledger.devices@,
            exchange_models(out@) == before + crossing_sessions(
                ds,
                *vuln,
                ms.take(i as int),
                nonce,
            ),
        decreases cs@.len() - i,
    {
        let c: &Crossing = &cs[i];
        let ghost o = exchange_models(out@);
        let ghost so_far = crossing_sessions(ds, *vuln, ms.take(i as int), nonce);
        proof {
            assert(ms.take(i as int + 1).drop_last() =~= ms.take(i as int));
            assert(ms.take(i as int + 1).last() == c@);
        }
        if let Some(dev) = find_device(&ledger.devices, c.south_ip) {
            let more = announce_as(
                dev,
                vuln,
                c.south_mac,
                c.south_ip,
                c.north_ip,
                c.conduit_mac,
                false,
                nonce,
            );
            append(out, more);
        }
        proof {
            let one = crossing_session(ds, *vuln, c@, nonce);
            assert(exchange_models(out@) =~= o + one);
            assert(o + one =~= before + (so_far + one));
        }
        i += 1;
    }
    proof {
        assert(ms.take(i as int) =~= ms);
    }
}

/// The identity burst that the run loop fires. Every asset owns a resolution, and
/// so binds; each fabricated device answers its zone's station as a server, and so
/// is read; names are looked up at the zone's firewall; and adjacent zones are
/// crossed on a cadence.
pub fn build_assertions(
    ledger: &Session,
    vuln: &VulnDb,
    cfg: &BurstCfg,
    run: u64,
    nonce: u64,
) -> (r: Vec<Exchange>)
    requires
        cfg.ns_cadence > 0,
    ensures
        exchange_models(r@) == burst_of(*ledger, *vuln, *cfg, run, nonce),
{
    let mut out: Vec<Exchange> = Vec::new();
    proof {
        assert(exchange_models(out@) =~= Seq::empty());
    }
    if !cfg.device_identity {
        return out;
    }
    let beacons: bool = cfg.switch_beacons && run % BEACON_EVERY == 0;
    push_resolutions(&mut out, ledger);
    proof {
        assert(exchange_models(out@) =~= resolutions(*ledger));
    }
    push_assertions(&mut out, ledger, vuln, beacons, nonce);
    push_lookups(&mut out, &ledger.devices, nonce);
    let ghost three = exchange_models(out@);
    if cfg.ns_enabled && run % cfg.ns_cadence == 0 {
        push_crossings(&mut out, ledger, vuln, cfg.ns_max_per_pair, nonce);
    } else {
        proof {
            assert(three + Seq::<ExchangeModel>::empty() =~= three);
        }
    }
    out
}

/// The models of devices that announce a generic identity, for want of a profile.
pub open spec fn unprofiled(ds: Seq<DeviceRecord>, vuln: VulnDb) -> Seq<Seq<char>>
    decreases ds.len(),
{
    if ds.len() == 0 {
        Seq::empty()
    } else {
        let r = unprofiled(ds.drop_last(), vuln);
        let d = ds.last();
        if d.cves@.len() > 0 && model_place(vuln.profiles@, d.model@) >= vuln.profiles@.len() {
            r.push(d.model@)
        } else {
            r
        }
    }
}

/// The models that have no profile, in the order of their devices.
pub fn missing_models(ledger: &Session, vuln: &VulnDb) -> (r: Vec<String>)
    ensures
        crate::text::texts(r@) == unprofiled(ledger.devices@, *vuln),
{
    let ds: &Vec<DeviceRecord> = &ledger.devices;
    let mut r: Vec<String> = Vec::new();
    let mut i: usize = 0;
    proof {
        assert(ds@.take(0) =~= Seq::empty());
        assert(crate::text::texts(r@) =~= Seq::empty());
    }
    while i < ds.len()
        invariant
            i <= ds@.len(),
            ds@ == ledger.devices@,
            crate::text::texts(r@) == unprofiled(ds@.take(i as int), *vuln),
        decreases ds@.len() - i,
    {
        let ghost o = r@;
        proof {
            assert(ds@.take(i as int + 1).drop_last() =~= ds@.take(i as int));
        }
        if ds[i].cves.len() > 0 && vuln.by_model(ds[i].model.as_str()).is_none() {
            r.push(ds[i].model.clone());
            proof {
                assert(crate::text::texts(r@) =~= crate::text::texts(o).push(
                    ds@[i as int].model@,
                ));
            }
        }
        i += 1;
    }
    proof {
        assert(ds@.take(i as int) =~= ds@);
    }
    r
}

/// No exchange is a resolution.
pub open spec fn no_arp(s: Seq<ExchangeModel>) -> bool {
    forall|i: int| 0 <= i < s.len() ==> !((#[trigger] s[i]) is Arp)
}

proof fn lemma_no_arp_join(a: Seq<ExchangeModel>, b: Seq<ExchangeModel>)
    requires
        no_arp(a),
        no_arp(b),
    ensures
        no_arp(a + b),
{
    assert forall|i: int| 0 <= i < (a + b).len() implies !((#[trigger] (a + b)[i]) is Arp) by {
        if i < a.len() {
            assert((a + b)[i] == a[i]);
        } else {
            assert((a + b)[i] == b[i - a.len()]);
        }
    }
}

proof fn lemma_assertions_no_arp(
    ds: Seq<DeviceRecord>,
    vuln: VulnDb,
    seed: u64,
    beacons: bool,
    nonce: u64,
)
    ensures
        no_arp(assertions(ds, vuln, seed, beacons, nonce)),
    decreases ds.len(),
{
    if ds.len() > 0 {
        lemma_assertions_no_arp(ds.drop_last(), vuln, seed, beacons, nonce);
        lemma_no_arp_join(
            assertions(ds.drop_last(), vuln, seed, beacons, nonce),
            device_assertion(ds.last(), vuln, seed, beacons, nonce),
        );
    }
}

proof fn lemma_lookups_no_arp(ds: Seq<DeviceRecord>, n: int, nonce: u64)
    ensures
        no_arp(lookups(ds, n, nonce)),
    decreases n,
{
    if n > 0 {
        lemma_lookups_no_arp(ds, n - 1, nonce);
        lemma_no_arp_join(lookups(ds, n - 1, nonce), lookup(ds, ds[n - 1], nonce));
    }
}

proof fn lemma_crossings_no_arp(
    ds: Seq<DeviceRecord>,
    vuln: VulnDb,
    cs: Seq<CrossingModel>,
    nonce: u64,
)
    ensures
        no_arp(crossing_sessions(ds, vuln, cs, nonce)),
    decreases cs.len(),
{
    if cs.len() > 0 {
        lemma_crossings_no_arp(ds, vuln, cs.drop_last(), nonce);
        lemma_no_arp_join(
            crossing_sessions(ds, vuln, cs.drop_last(), nonce),
            crossing_session(ds, vuln, cs.last(), nonce),
        );
    }
}

/// A burst's resolutions come first, all of them, and nothing behind them is one:
/// sessions, lookups and crossings never touch the bindings.
pub proof fn law_resolutions_come_first(
    ledger: Session,
    vuln: VulnDb,
    cfg: BurstCfg,
    run: u64,
    nonce: u64,
)
    requires
        cfg.device_identity,
    ensures
        ({
            let b = burst_of(ledger, vuln, cfg, run, nonce);
            let n = resolutions(ledger).len() as int;
            &&& b.len() >= n
            &&& b.take(n) == resolutions(ledger)
            &&& no_arp(b.skip(n))
        }),
{
    let ds = ledger.devices@;
    let first = resolutions(ledger);
    let beacons = cfg.switch_beacons && run % BEACON_EVERY == 0;
    let second = assertions(ds, vuln, ledger.seed, beacons, nonce);
    let third = lookups(ds, ds.len() as int, nonce);
    let cs = crossings(ledger, ledger.seed, cfg.ns_max_per_pair as int);
    let fourth = if cfg.ns_enabled && run as int % cfg.ns_cadence as int == 0 {
        crossing_sessions(ds, vuln, cs, nonce)
    } else {
        Seq::empty()
    };
    lemma_assertions_no_arp(ds, vuln, ledger.seed, beacons, nonce);
    lemma_lookups_no_arp(ds, ds.len() as int, nonce);
    lemma_crossings_no_arp(ds, vuln, cs, nonce);
    lemma_no_arp_join(second, third);
    lemma_no_arp_join(second + third, fourth);
    let b = burst_of(ledger, vuln, cfg, run, nonce);
    let n = first.len() as int;
    assert(b =~= first + (second + third + fourth));
    assert(b.take(n) =~= first);
    assert(b.skip(n) =~= second + third + fourth);
}

} // verus!
