//! Reconciling a capture's hosts with the fabricated zones.

use std::collections::{HashMap, HashSet};
use vstd::prelude::*;
use crate::config::ZoneAffinity;
use crate::net::{
    find_free, first_free, lemma_first_free, lemma_span_divides, lemma_span_values, net_text, span,
    span_of, Ipv4Net,
};
use crate::order::{
    ascending, by_key, lemma_ascending_contains, lemma_by_key_contains, sort_by_key, sort_u32,
};
use crate::pcapio::{Capture, PacketModel};
use crate::proto::l3::{
    apply_host_map, drop_unsafe_frames, host_mac, mix64, safe_frame, splitmix64, stable_mac,
    HostMap, RemapSummary,
};
use crate::text::{clone_opt, opt_text};

verus! {

/// A fabricated ledger zone a replayed capture can be mapped into.
pub struct ZoneTarget {
    pub net: Ipv4Net,
    pub vendor: Option<String>,
    pub purdue_level: u8,
    pub protocol: Option<String>,
    /// Fabricated device IPs already in this zone; never reused for a remapped
    /// capture host.
    pub reserved: HashSet<u32>,
}

/// A distinct host-group from the capture, with the vendor/protocol/level the
/// engine inferred from MAC OUIs and observed ports.
pub struct CaptureGroup {
    pub net: Ipv4Net,
    pub purdue_level: u8,
    pub vendor: Option<String>,
    pub protocol: Option<String>,
    pub hosts: Vec<u32>,
}

/// A capture host registered as a new stable asset during reconciliation, for
/// the caller (the engine) to persist in the ledger.
pub struct NewCaptureAsset {
    pub origin: u32,
    pub ip: u32,
    pub mac: [u8; 6],
    pub vendor: Option<String>,
    pub protocol: Option<String>,
    pub purdue_level: u8,
    pub subnet_cidr: String,
}

/// What a zone target says.
pub struct ZoneModel {
    pub net: Ipv4Net,
    pub vendor: Option<Seq<char>>,
    pub purdue_level: u8,
    pub protocol: Option<Seq<char>>,
    pub reserved: Set<u32>,
}

/// What a capture group says.
pub struct GroupModel {
    pub net: Ipv4Net,
    pub purdue_level: u8,
    pub vendor: Option<Seq<char>>,
    pub protocol: Option<Seq<char>>,
    pub hosts: Seq<u32>,
}

/// What a new asset says.
pub struct AssetModel {
    pub origin: u32,
    pub ip: u32,
    pub mac: Seq<u8>,
    pub vendor: Option<Seq<char>>,
    pub protocol: Option<Seq<char>>,
    pub purdue_level: u8,
    pub subnet_cidr: Seq<char>,
}

impl View for ZoneTarget {
    type V = ZoneModel;

    open spec fn view(&self) -> ZoneModel {
        ZoneModel {
            net: self.net,
            vendor: opt_text(self.vendor),
            purdue_level: self.purdue_level,
            protocol: opt_text(self.protocol),
            reserved: self.reserved@,
        }
    }
}

impl View for CaptureGroup {
    type V = GroupModel;

    open spec fn view(&self) -> GroupModel {
        GroupModel {
            net: self.net,
            purdue_level: self.purdue_level,
            vendor: opt_text(self.vendor),
            protocol: opt_text(self.protocol),
            hosts: self.hosts@,
        }
    }
}

impl View for NewCaptureAsset {
    type V = AssetModel;

    open spec fn view(&self) -> AssetModel {
        AssetModel {
            origin: self.origin,
            ip: self.ip,
            mac: self.mac@,
            vendor: opt_text(self.vendor),
            protocol: opt_text(self.protocol),
            purdue_level: self.purdue_level,
            subnet_cidr: self.subnet_cidr@,
        }
    }
}

pub open spec fn zone_models(zones: Seq<ZoneTarget>) -> Seq<ZoneModel> {
    zones.map_values(|z: ZoneTarget| z@)
}

pub open spec fn group_models(groups: Seq<CaptureGroup>) -> Seq<GroupModel> {
    groups.map_values(|g: CaptureGroup| g@)
}

pub open spec fn asset_models(assets: Seq<NewCaptureAsset>) -> Seq<AssetModel> {
    assets.map_values(|a: NewCaptureAsset| a@)
}

pub open spec fn zones_wf(zones: Seq<ZoneTarget>) -> bool {
    forall|i: int| 0 <= i < zones.len() ==> (#[trigger] zones[i]).net.wf()
}

pub open spec fn groups_wf(groups: Seq<CaptureGroup>) -> bool {
    forall|i: int| 0 <= i < groups.len() ==> (#[trigger] groups[i]).net.wf()
}

/// The protocol tag of an OT service port.
pub open spec fn port_protocol(port: u16) -> Option<Seq<char>> {
    if port == 502 {
        Some("modbus"@)
    } else if port == 2222 || port == 44818 {
        Some("enip"@)
    } else if port == 102 {
        Some("s7"@)
    } else if port == 161 || port == 162 {
        Some("switch_snmp"@)
    } else if port == 20000 {
        Some("dnp3"@)
    } else {
        None
    }
}

/// Map an OT service port to the protocol tag used on ledger device records, so
/// a capture's observed traffic can be matched to a vendor zone. None for
/// non-OT ports.
pub fn ot_protocol_for_port(port: u16) -> (r: Option<&'static str>)
    ensures
        r is Some <==> port_protocol(port) is Some,
        r matches Some(t) ==> Some(t@) == port_protocol(port),
{
    match port {
        502 => Some("modbus"),
        2222 | 44818 => Some("enip"),
        102 => Some("s7"),
        161 | 162 => Some("switch_snmp"),
        20000 => Some("dnp3"),
        _ => None,
    }
}

/// Both are given and say the same.
pub open spec fn same_text(a: Option<Seq<char>>, b: Option<Seq<char>>) -> bool {
    a is Some && a == b
}

fn same_opt(a: &Option<String>, b: &Option<String>) -> (r: bool)
    ensures
        r == same_text(opt_text(*a), opt_text(*b)),
{
    match (a, b) {
        (Some(x), Some(y)) => *x == *y,
        _ => false,
    }
}

/// How well a zone suits a capture group.
pub open spec fn score(g: GroupModel, z: ZoneModel, affinity: ZoneAffinity) -> int {
    let vendor: int = if same_text(g.vendor, z.vendor) {
        1
    } else {
        0
    };
    let proto: int = if same_text(g.protocol, z.protocol) {
        1
    } else {
        0
    };
    let level: int = if g.purdue_level == z.purdue_level {
        1
    } else {
        0
    };
    match affinity {
        ZoneAffinity::Off => 0,
        ZoneAffinity::Vendor => vendor * 3,
        ZoneAffinity::Protocol => proto * 2,
        ZoneAffinity::Both => vendor * 4 + proto * 2 + level,
    }
}

fn affinity_score(g: &CaptureGroup, z: &ZoneTarget, affinity: ZoneAffinity) -> (r: i32)
    ensures
        r == score(g@, z@, affinity),
{
    let vendor: i32 = if same_opt(&g.vendor, &z.vendor) {
        1
    } else {
        0
    };
    let proto: i32 = if same_opt(&g.protocol, &z.protocol) {
        1
    } else {
        0
    };
    let level: i32 = if g.purdue_level == z.purdue_level {
        1
    } else {
        0
    };
    match affinity {
        ZoneAffinity::Off => 0,
        ZoneAffinity::Vendor => vendor * 3,
        ZoneAffinity::Protocol => proto * 2,
        ZoneAffinity::Both => vendor * 4 + proto * 2 + level,
    }
}

/// Usable host capacity of a zone minus its reserved device IPs.
pub open spec fn room(z: ZoneModel) -> int {
    let cap = if z.net.prefix >= 31 {
        0
    } else {
        span(z.net.prefix as int) - 2
    };
    if cap <= z.reserved.len() {
        0
    } else {
        cap - z.reserved.len()
    }
}

/// Usable host capacity of a zone minus its reserved device IPs.
fn zone_room(z: &ZoneTarget) -> (r: u64)
    requires
        z.net.wf(),
    ensures
        r == room(z@),
{
    let p: u8 = z.net.prefix_len();
    proof {
        lemma_span_values();
        if p < 31 {
            lemma_span_divides(p as int, 30);
        }
    }
    let cap: u64 = if p >= 31 {
        0
    } else {
        span_of(p) - 2
    };
    let used: u64 = z.reserved.len() as u64;
    if cap <= used {
        0
    } else {
        cap - used
    }
}

/// A stable hash of the seed and the two network addresses.
pub open spec fn tie(seed: u64, group: Ipv4Net, zone: Ipv4Net) -> u64 {
    mix64(
        (seed ^ (group.first() as u64).wrapping_mul(0x9E37_79B9_7F4A_7C15)) ^ (zone.first() as u64),
    )
}

/// Deterministic tiebreak hash for zone selection (splitmix64 of the seed and
/// the two network addresses), so placement is stable per (capture, session).
fn tiebreak(seed: u64, group: Ipv4Net, zone: Ipv4Net) -> (r: u64)
    requires
        group.wf(),
        zone.wf(),
    ensures
        r == tie(seed, group, zone),
{
    splitmix64(
        (seed ^ (group.network() as u64).wrapping_mul(0x9E37_79B9_7F4A_7C15)) ^ (
        zone.network() as u64),
    )
}

/// Zone `a` ranks before zone `b` for a group: higher affinity score, then more
/// room, then the lower tiebreak hash, then the earlier place.
pub open spec fn ranks_before(
    g: GroupModel,
    zones: Seq<ZoneModel>,
    affinity: ZoneAffinity,
    seed: u64,
    a: int,
    b: int,
) -> bool {
    let sa = score(g, zones[a], affinity);
    let sb = score(g, zones[b], affinity);
    let ra = room(zones[a]);
    let rb = room(zones[b]);
    let ta = tie(seed, g.net, zones[a].net);
    let tb = tie(seed, g.net, zones[b].net);
    sa > sb || (sa == sb && (ra > rb || (ra == rb && (ta < tb || (ta == tb && a < b)))))
}

/// The zones in rank order.
pub open spec fn is_ranking(
    r: Seq<usize>,
    g: GroupModel,
    zones: Seq<ZoneModel>,
    affinity: ZoneAffinity,
    seed: u64,
) -> bool {
    &&& r.len() == zones.len()
    &&& forall|i: int| 0 <= i < r.len() ==> (#[trigger] r[i]) < zones.len()
    &&& forall|i: int, j: int|
        0 <= i < j < r.len() ==> ranks_before(
            g,
            zones,
            affinity,
            seed,
            #[trigger] r[i] as int,
            #[trigger] r[j] as int,
        )
}

/// The zone that ranks before every other.
pub open spec fn is_best(
    zi: int,
    g: GroupModel,
    zones: Seq<ZoneModel>,
    affinity: ZoneAffinity,
    seed: u64,
) -> bool {
    &&& 0 <= zi < zones.len()
    &&& forall|b: int|
        0 <= b < zones.len() && b != zi ==> #[trigger] ranks_before(
            g,
            zones,
            affinity,
            seed,
            zi,
            b,
        )
}

pub open spec fn best_zone(
    g: GroupModel,
    zones: Seq<ZoneModel>,
    affinity: ZoneAffinity,
    seed: u64,
) -> int {
    choose|zi: int| is_best(zi, g, zones, affinity, seed)
}

proof fn lemma_best_unique(
    a: int,
    b: int,
    g: GroupModel,
    zones: Seq<ZoneModel>,
    affinity: ZoneAffinity,
    seed: u64,
)
    requires
        is_best(a, g, zones, affinity, seed),
        is_best(b, g, zones, affinity, seed),
    ensures
        a == b,
{
    if a != b {
        assert(ranks_before(g, zones, affinity, seed, a, b));
        assert(ranks_before(g, zones, affinity, seed, b, a));
    }
}

fn before(
    g: &CaptureGroup,
    zones: &[ZoneTarget],
    affinity: ZoneAffinity,
    seed: u64,
    a: usize,
    b: usize,
) -> (r: bool)
    requires
        g.net.wf(),
        zones_wf(zones@),
        a < zones@.len(),
        b < zones@.len(),
    ensures
        r == ranks_before(g@, zone_models(zones@), affinity, seed, a as int, b as int),
{
    let za = &zones[a];
    let zb = &zones[b];
    proof {
        assert(zones@[a as int].net.wf() && zones@[b as int].net.wf());
    }
    let sa: i32 = affinity_score(g, za, affinity);
    let sb: i32 = affinity_score(g, zb, affinity);
    let ra: u64 = zone_room(za);
    let rb: u64 = zone_room(zb);
    let ta: u64 = tiebreak(seed, g.net, za.net);
    let tb: u64 = tiebreak(seed, g.net, zb.net);
    sa > sb || (sa == sb && (ra > rb || (ra == rb && (ta < tb || (ta == tb && a < b)))))
}

/// Zones ranked best-first for a capture group: higher affinity score, then
/// more remaining room, then a deterministic per-(group,zone,seed) tiebreak.
fn rank_zones(
    g: &CaptureGroup,
    zones: &[ZoneTarget],
    affinity: ZoneAffinity,
    seed: u64,
) -> (r: Vec<usize>)
    requires
        g.net.wf(),
        zones_wf(zones@),
    ensures
        is_ranking(r@, g@, zone_models(zones@), affinity, seed),
        zones@.len() > 0 ==> r@[0] == best_zone(g@, zone_models(zones@), affinity, seed)
            && is_best(r@[0] as int, g@, zone_models(zones@), affinity, seed),
{
    let ghost zm = zone_models(zones@);
    let mut r: Vec<usize> = Vec::new();
    let mut n: usize = 0;
    while n < zones.len()
        invariant
            g.net.wf(),
            zones_wf(zones@),
            zm == zone_models(zones@),
            n <= zones@.len(),
            r@.len() == n,
            forall|i: int| 0 <= i < n ==> (#[trigger] r@[i]) < n,
            forall|z: usize| z < n ==> #[trigger] r@.contains(z),
            forall|i: int, j: int|
                0 <= i < j < n ==> ranks_before(
                    g@,
                    zm,
                    affinity,
                    seed,
                    #[trigger] r@[i] as int,
                    #[trigger] r@[j] as int,
                ),
        decreases zones@.len() - n,
    {
        let ghost o = r@;
        let mut at: usize = 0;
        while at < n && before(g, zones, affinity, seed, r[at], n)
            invariant
                g.net.wf(),
                zones_wf(zones@),
                zm == zone_models(zones@),
                n < zones@.len(),
                r@ == o,
                o.len() == n,
                at <= n,
                forall|i: int| 0 <= i < n ==> (#[trigger] r@[i]) < n,
                forall|i: int|
                    0 <= i < at ==> ranks_before(
                        g@,
                        zm,
                        affinity,
                        seed,
                        #[trigger] r@[i] as int,
                        n as int,
                    ),
            decreases n - at,
        {
            at += 1;
        }
        r.insert(at, n);
        proof {
            assert(r@ == o.insert(at as int, n));
            assert forall|i: int, j: int| 0 <= i < j < n + 1 implies ranks_before(
                g@,
                zm,
                affinity,
                seed,
                #[trigger] r@[i] as int,
                #[trigger] r@[j] as int,
            ) by {
                if j < at {
                    assert(r@[i] == o[i] && r@[j] == o[j]);
                } else if j == at {
                    assert(r@[i] == o[i]);
                } else if i < at {
                    assert(r@[i] == o[i] && r@[j] == o[j - 1]);
                } else if i == at {
                    assert(r@[j] == o[j - 1]);
                    if j - 1 > at {
                        assert(ranks_before(
                            g@,
                            zm,
                            affinity,
                            seed,
                            o[at as int] as int,
                            o[j - 1] as int,
                        ));
                    }
                } else {
                    assert(r@[i] == o[i - 1] && r@[j] == o[j - 1]);
                }
            }
            assert forall|z: usize| z < n + 1 implies #[trigger] r@.contains(z) by {
                if z == n {
                    assert(r@[at as int] == z);
                } else {
                    assert(o.contains(z));
                    let i = choose|i: int| 0 <= i < o.len() && o[i] == z;
                    if i < at {
                        assert(r@[i] == z);
                    } else {
                        assert(r@[i + 1] == z);
                    }
                }
            }
        }
        n += 1;
    }
    proof {
        if zones@.len() > 0 {
            let first = r@[0] as int;
            assert forall|b: int| 0 <= b < zm.len() && b != first implies #[trigger] ranks_before(
                g@,
                zm,
                affinity,
                seed,
                first,
                b,
            ) by {
                assert(r@.contains(b as usize));
                let i = choose|i: int| 0 <= i < r@.len() && r@[i] == b as usize;
                assert(i > 0);
                assert(ranks_before(g@, zm, affinity, seed, r@[0] as int, r@[i] as int));
            }
            assert(is_best(first, g@, zm, affinity, seed));
            lemma_best_unique(
                first,
                best_zone(g@, zm, affinity, seed),
                g@,
                zm,
                affinity,
                seed,
            );
        }
    }
    r
}

/// An address that a host may be given by its offset: inside the network and
/// neither its first nor its last address.
pub open spec fn usable_host(net: Ipv4Net, ip: int) -> bool {
    net.has(ip) && ip != net.first() && ip != net.last()
}

fn is_usable_host(net: &Ipv4Net, ip: u32) -> (r: bool)
    requires
        net.wf(),
    ensures
        r == usable_host(*net, ip as int),
{
    net.contains(ip) && ip != net.network() && ip != net.broadcast()
}

/// The address that a host is given in a zone: the one at its own offset if that
/// is usable and free, else the first free host address.
pub open spec fn place(net: Ipv4Net, taken: Set<u32>, host: u32) -> Option<u32> {
    let want = net.first() + host as int % (span(net.prefix as int) as int);
    if usable_host(net, want) && !taken.contains(want as u32) {
        Some(want as u32)
    } else {
        first_free(net.host_lo(), net.host_hi(), taken)
    }
}

/// A placed host lands inside the zone on an address that was free; a zone gives
/// no address only when every one of its host addresses is taken.
pub proof fn law_place(net: Ipv4Net, taken: Set<u32>, host: u32)
    requires
        net.wf(),
    ensures
        match place(net, taken, host) {
            Some(ip) => net.has(ip as int) && !taken.contains(ip),
            None => forall|ip: u32|
                net.host_lo() <= ip <= net.host_hi() ==> taken.contains(ip),
        },
{
    net.lemma_bounds();
    lemma_first_free(net.host_lo(), net.host_hi(), taken);
}

/// Place a host in a zone, preferring its original in-subnet offset, else the
/// next free host. Updates `taken`. None when the zone is full.
fn place_in_zone(net: &Ipv4Net, taken: &mut HashSet<u32>, host: u32) -> (r: Option<u32>)
    requires
        net.wf(),
    ensures
        r == place(*net, old(taken)@, host),
        final(taken)@ == match r {
            Some(ip) => old(taken)@.insert(ip),
            None => old(taken)@,
        },
{
    proof {
        net.lemma_bounds();
        let s = span(net.prefix as int) as int;
        let h = host as int;
        assert(0 <= h % s < s) by (nonlinear_arith)
            requires
                s > 0,
        ;
    }
    let want: u32 = (net.network() as u64 + host as u64 % span_of(net.prefix)) as u32;
    if is_usable_host(net, want) && !taken.contains(&want) {
        taken.insert(want);
        return Some(want);
    }
    let (lo, hi) = net.hosts();
    match find_free(lo, hi, taken) {
        Some(ip) => {
            taken.insert(ip);
            Some(ip)
        },
        None => None,
    }
}

/// The lowest address of a set.
pub open spec fn is_lowest(s: Set<u32>, m: u32) -> bool {
    s.contains(m) && forall|x: u32| s.contains(x) ==> m <= x
}

pub open spec fn lowest(s: Set<u32>) -> Option<u32> {
    if exists|m: u32| is_lowest(s, m) {
        Some(choose|m: u32| is_lowest(s, m))
    } else {
        None
    }
}

/// Every reserved address of any zone.
pub open spec fn all_reserved(zones: Seq<ZoneModel>) -> Set<u32> {
    Set::new(
        |ip: u32| exists|i: int| 0 <= i < zones.len() && (#[trigger] zones[i]).reserved.contains(ip),
    )
}

/// The device that a surplus host rides: the lowest reserved address of the
/// preferred zone, else of any zone.
pub open spec fn ride_target(zones: Seq<ZoneModel>, prefer: int) -> Option<u32> {
    match lowest(zones[prefer].reserved) {
        Some(ip) => Some(ip),
        None => lowest(all_reserved(zones)),
    }
}

proof fn lemma_lowest(s: Set<u32>, m: u32)
    requires
        is_lowest(s, m),
    ensures
        lowest(s) == Some(m),
{
}

/// The elements of a set of addresses, in some order.
fn elements(s: &HashSet<u32>) -> (r: Vec<u32>)
    ensures
        r@.to_set() == s@,
{
    let mut r: Vec<u32> = Vec::new();
    for x in it: s.iter()
        invariant
            it.seq().unref().to_set() == s@,
            r@.len() == it.index(),
            forall|k: int| 0 <= k < it.index() ==> r@[k] == #[trigger] it.seq().unref()[k],
            forall|k: int| 0 <= k < r@.len() ==> s@.contains(#[trigger] r@[k]),
    {
        proof {
            assert(it.seq().unref()[it.index()] == *x);
            assert(it.seq().unref().to_set().contains(*x));
        }
        r.push(*x);
    }
    proof {
        assert(r@.to_set() =~= s@);
    }
    r
}

/// The lowest of a list of addresses, if it holds any.
fn lowest_of(v: &[u32]) -> (r: Option<u32>)
    ensures
        r == lowest(v@.to_set()),
        r is None ==> v@.len() == 0,
{
    if v.len() == 0 {
        proof {
            assert forall|m: u32| !is_lowest(v@.to_set(), m) by {}
        }
        return None;
    }
    let mut best: u32 = v[0];
    let mut i: usize = 1;
    while i < v.len()
        invariant
            1 <= i <= v@.len(),
            v@.contains(best),
            forall|k: int| 0 <= k < i ==> best <= #[trigger] v@[k],
        decreases v@.len() - i,
    {
        if v[i] < best {
            best = v[i];
        }
        i += 1;
    }
    proof {
        assert(is_lowest(v@.to_set(), best)) by {
            assert(v@.to_set().contains(best));
            assert forall|x: u32| v@.to_set().contains(x) implies best <= x by {
                let k = choose|k: int| 0 <= k < v@.len() && v@[k] == x;
                assert(best <= v@[k]);
            }
        }
        lemma_lowest(v@.to_set(), best);
    }
    Some(best)
}

/// Every reserved address of any zone, in some order.
fn reserved_of(zones: &[ZoneTarget]) -> (r: Vec<u32>)
    ensures
        r@.to_set() == all_reserved(zone_models(zones@)),
{
    let mut r: Vec<u32> = Vec::new();
    let ghost zm = zone_models(zones@);
    let mut i: usize = 0;
    while i < zones.len()
        invariant
            i <= zones@.len(),
            zm == zone_models(zones@),
            forall|k: int| 0 <= k < r@.len() ==> all_reserved(zm).contains(#[trigger] r@[k]),
            forall|j: int, x: u32|
                0 <= j < i && #[trigger] zm[j].reserved.contains(x) ==> r@.contains(x),
        decreases zones@.len() - i,
    {
        let es: Vec<u32> = elements(&zones[i].reserved);
        let mut k: usize = 0;
        while k < es.len()
            invariant
                i < zones@.len(),
                zm == zone_models(zones@),
                k <= es@.len(),
                es@.to_set() == zm[i as int].reserved,
                forall|m: int| 0 <= m < r@.len() ==> all_reserved(zm).contains(#[trigger] r@[m]),
                forall|j: int, x: u32|
                    0 <= j < i && #[trigger] zm[j].reserved.contains(x) ==> r@.contains(x),
                forall|m: int| 0 <= m < k ==> r@.contains(#[trigger] es@[m]),
            decreases es@.len() - k,
        {
            let ghost o = r@;
            proof {
                assert(es@.to_set().contains(es@[k as int]));
                assert(zm[i as int].reserved.contains(es@[k as int]));
            }
            r.push(es[k]);
            proof {
                assert forall|x: u32| o.contains(x) implies r@.contains(x) by {
                    let m = choose|m: int| 0 <= m < o.len() && o[m] == x;
                    assert(r@[m] == x);
                }
                assert(r@[o.len() as int] == es@[k as int]);
            }
            k += 1;
        }
        proof {
            assert forall|j: int, x: u32|
                0 <= j < i + 1 && #[trigger] zm[j].reserved.contains(x) implies r@.contains(x) by {
                if j == i {
                    assert(es@.to_set().contains(x));
                    let m = choose|m: int| 0 <= m < es@.len() && es@[m] == x;
                    assert(r@.contains(es@[m]));
                }
            }
        }
        i += 1;
    }
    proof {
        assert forall|x: u32| r@.to_set().contains(x) <==> all_reserved(zm).contains(x) by {
            if all_reserved(zm).contains(x) {
                let j = choose|j: int|
                    0 <= j < zm.len() && (#[trigger] zm[j]).reserved.contains(x);
                assert(zm[j].reserved.contains(x));
            }
        }
        assert(r@.to_set() =~= all_reserved(zm));
    }
    r
}

/// A force-map target: the lowest reserved (fabricated device) IP in the
/// preferred zone, else the lowest reserved IP in any zone. None only when no
/// zone holds a fabricated device.
fn force_map_target(zones: &[ZoneTarget], prefer: usize) -> (r: Option<u32>)
    requires
        prefer < zones@.len(),
    ensures
        r == ride_target(zone_models(zones@), prefer as int),
{
    match lowest_of(elements(&zones[prefer].reserved).as_slice()) {
        Some(ip) => Some(ip),
        None => lowest_of(reserved_of(zones).as_slice()),
    }
}

/// Where a reconciliation stands: the new address of each host mapped so far,
/// the addresses taken, the budget left, the new assets, the subnets mapped, and
/// whether a host of the current group has been mapped.
#[verifier::ext_equal]
pub struct Reconciled {
    pub map: Map<u32, u32>,
    pub taken: Set<u32>,
    pub budget: nat,
    pub assets: Seq<AssetModel>,
    pub subnets: Seq<(Seq<char>, Seq<char>)>,
    pub placed: bool,
}

/// What a reconciliation works against.
pub struct ReconcileInput {
    pub zones: Seq<ZoneModel>,
    pub affinity: ZoneAffinity,
    pub seed: u64,
    pub registered: Map<u32, u32>,
}

impl ReconcileInput {
    /// Map one host of a group whose zone is `zi`. A registered host keeps its
    /// asset; else, within the budget and the zone's room, it becomes a new
    /// asset; else it rides a device.
    pub open spec fn map_host(self, st: Reconciled, zi: int, host: u32) -> Reconciled {
        let z = self.zones[zi];
        if self.registered.contains_key(host) {
            Reconciled { map: st.map.insert(host, self.registered[host]), placed: true, ..st }
        } else if st.budget > 0 && place(z.net, st.taken, host) is Some {
            let ip = place(z.net, st.taken, host)->0;
            Reconciled {
                map: st.map.insert(host, ip),
                taken: st.taken.insert(ip),
                budget: (st.budget - 1) as nat,
                assets: st.assets.push(
                    AssetModel {
                        origin: host,
                        ip,
                        mac: host_mac(self.seed, ip),
                        vendor: z.vendor,
                        protocol: z.protocol,
                        purdue_level: z.purdue_level,
                        subnet_cidr: net_text(z.net),
                    },
                ),
                placed: true,
                ..st
            }
        } else {
            match ride_target(self.zones, zi) {
                Some(t) => Reconciled { map: st.map.insert(host, t), placed: true, ..st },
                None => st,
            }
        }
    }

    /// Map hosts in turn.
    pub open spec fn map_hosts(self, st: Reconciled, zi: int, hosts: Seq<u32>) -> Reconciled
        decreases hosts.len(),
    {
        if hosts.len() == 0 {
            st
        } else {
            self.map_host(self.map_hosts(st, zi, hosts.drop_last()), zi, hosts.last())
        }
    }

    /// Map a group: its hosts in ascending order, into the zone that suits it
    /// best. The pair of subnets is noted if a host was mapped.
    pub open spec fn map_group(self, st: Reconciled, g: GroupModel) -> Reconciled {
        let zi = best_zone(g, self.zones, self.affinity, self.seed);
        let r = self.map_hosts(Reconciled { placed: false, ..st }, zi, ascending(g.hosts));
        if r.placed {
            Reconciled {
                subnets: r.subnets.push((net_text(g.net), net_text(self.zones[zi].net))),
                ..r
            }
        } else {
            r
        }
    }

    /// Map groups in turn.
    pub open spec fn map_groups(
        self,
        st: Reconciled,
        groups: Seq<GroupModel>,
        order: Seq<usize>,
    ) -> Reconciled
        decreases order.len(),
    {
        if order.len() == 0 {
            st
        } else {
            self.map_group(
                self.map_groups(st, groups, order.drop_last()),
                groups[order.last() as int],
            )
        }
    }

    /// The start of a reconciliation: every reserved and every registered address
    /// is taken.
    pub open spec fn start(self, budget: nat) -> Reconciled {
        Reconciled {
            map: Map::empty(),
            taken: all_reserved(self.zones).union(self.registered.values()),
            budget,
            assets: Seq::empty(),
            subnets: Seq::empty(),
            placed: false,
        }
    }

    /// The groups, lowest network first, mapped one after the other.
    pub open spec fn reconcile(self, groups: Seq<GroupModel>, budget: nat) -> Reconciled {
        self.map_groups(self.start(budget), groups, by_key(group_keys(groups)))
    }
}

/// The key that groups are ordered by: the first address of their network.
pub open spec fn group_keys(groups: Seq<GroupModel>) -> Seq<u64> {
    groups.map_values(|g: GroupModel| g.net.first() as u64)
}

pub open spec fn subnet_texts(v: Seq<(String, String)>) -> Seq<(Seq<char>, Seq<char>)> {
    v.map_values(|p: (String, String)| (p.0@, p.1@))
}

struct Work {
    map: HashMap<u32, u32>,
    taken: HashSet<u32>,
    budget: usize,
    assets: Vec<NewCaptureAsset>,
    subnets: Vec<(String, String)>,
    placed: bool,
}

impl View for Work {
    type V = Reconciled;

    closed spec fn view(&self) -> Reconciled {
        Reconciled {
            map: self.map@,
            taken: self.taken@,
            budget: self.budget as nat,
            assets: asset_models(self.assets@),
            subnets: subnet_texts(self.subnets@),
            placed: self.placed,
        }
    }
}

impl Work {
    fn start(zones: &[ZoneTarget], registered: &HashMap<u32, u32>, budget: usize) -> (w: Work)
        ensures
            forall|affinity: ZoneAffinity, seed: u64|
                w@ == (#[trigger] input_of(zones@, affinity, seed, registered@)).start(
                    budget as nat,
                ),
    {
        let mut taken: HashSet<u32> = HashSet::new();
        let ghost zm = zone_models(zones@);
        let rs: Vec<u32> = reserved_of(zones);
        let mut i: usize = 0;
        while i < rs.len()
            invariant
                i <= rs@.len(),
                rs@.to_set() == all_reserved(zm),
                taken@ == rs@.take(i as int).to_set(),
            decreases rs@.len() - i,
        {
            taken.insert(rs[i]);
            proof {
                assert(rs@.take(i as int + 1) =~= rs@.take(i as int).push(rs@[i as int]));
                lemma_to_set_push(rs@.take(i as int), rs@[i as int]);
            }
            i += 1;
        }
        proof {
            assert(rs@.take(i as int) =~= rs@);
        }
        let ghost base = taken@;
        for v in it: registered.values()
            invariant
                it.seq().unref().to_set() == registered@.values(),
                base == all_reserved(zm),
                base.subset_of(taken@),
                forall|k: int|
                    0 <= k < it.index() ==> taken@.contains(#[trigger] it.seq().unref()[k]),
                forall|x: u32|
                    taken@.contains(x) ==> base.contains(x) || registered@.values().contains(x),
        {
            proof {
                assert(it.seq().unref()[it.index()] == *v);
                assert(it.seq().unref().to_set().contains(*v));
            }
            taken.insert(*v);
        }
        let w = Work {
            map: HashMap::new(),
            taken,
            budget,
            assets: Vec::new(),
            subnets: Vec::new(),
            placed: false,
        };
        proof {
            assert(taken@ =~= all_reserved(zm).union(registered@.values()));
            assert(asset_models(w.assets@) =~= Seq::empty());
            assert(subnet_texts(w.subnets@) =~= Seq::empty());
            assert forall|affinity: ZoneAffinity, seed: u64|
                w@ == (#[trigger] input_of(zones@, affinity, seed, registered@)).start(
                    budget as nat,
                ) by {
                assert(w@ =~= input_of(zones@, affinity, seed, registered@).start(budget as nat));
            }
        }
        w
    }

    fn map_host(
        &mut self,
        zones: &[ZoneTarget],
        zi: usize,
        seed: u64,
        registered: &HashMap<u32, u32>,
        host: u32,
    )
        requires
            zi < zones@.len(),
            zones_wf(zones@),
        ensures
            forall|affinity: ZoneAffinity|
                final(self)@ == (#[trigger] input_of(
                    zones@,
                    affinity,
                    seed,
                    registered@,
                )).map_host(old(self)@, zi as int, host),
    {
        let z = &zones[zi];
        proof {
            assert(zones@[zi as int].net.wf());
        }
        if let Some(nv) = registered.get(&host) {
            self.map.insert(host, *nv);
            self.placed = true;
            return ;
        }
        if self.budget > 0 {
            if let Some(ip) = place_in_zone(&z.net, &mut self.taken, host) {
                let ghost before = self.assets@;
                self.map.insert(host, ip);
                self.assets.push(
                    NewCaptureAsset {
                        origin: host,
                        ip,
                        mac: stable_mac(seed, ip),
                        vendor: clone_opt(&z.vendor),
                        protocol: clone_opt(&z.protocol),
                        purdue_level: z.purdue_level,
                        subnet_cidr: z.net.to_text(),
                    },
                );
                self.budget -= 1;
                self.placed = true;
                proof {
                    assert(asset_models(self.assets@) =~= asset_models(before).push(
                        self.assets@.last()@,
                    ));
                }
                return ;
            }
        }
        if let Some(t) = force_map_target(zones, zi) {
            self.map.insert(host, t);
            self.placed = true;
        }
    }
}

pub open spec fn input_of(
    zones: Seq<ZoneTarget>,
    affinity: ZoneAffinity,
    seed: u64,
    registered: Map<u32, u32>,
) -> ReconcileInput {
    ReconcileInput { zones: zone_models(zones), affinity, seed, registered }
}

proof fn lemma_to_set_push(s: Seq<u32>, x: u32)
    ensures
        s.push(x).to_set() == s.to_set().insert(x),
{
    let n = s.push(x);
    assert forall|y: u32| n.to_set().contains(y) <==> s.to_set().insert(x).contains(y) by {
        if s.to_set().contains(y) {
            let k = choose|k: int| 0 <= k < s.len() && s[k] == y;
            assert(n[k] == y);
        }
        if y == x {
            assert(n[s.len() as int] == y);
        }
        if n.to_set().contains(y) && y != x {
            let k = choose|k: int| 0 <= k < n.len() && n[k] == y;
            assert(s[k] == y);
        }
    }
    assert(n.to_set() =~= s.to_set().insert(x));
}

/// Reconcile a capture's hosts into the fabricated zones under a fixed total
/// asset budget (fill-then-map), in deterministic host order. A host whose origin
/// IP is already registered reuses its stable asset. Otherwise, while the budget
/// allows, the host fills spare zone capacity as a new stable asset (its own
/// offset-preserving IP and stable MAC); once the budget is spent it rides an
/// existing fabricated device (that device's IP and real vendor MAC). So the wire
/// never grows past the plan and never carries an un-remapped address. Applies
/// the remap (with `device_macs` overriding the MAC for hosts that ride a
/// fabricated device) and drops any unsafe frame. Returns the summary and the new
/// assets the caller must register. Without a zone it does nothing.
pub fn reconcile_capture_into_zones(
    cap: &mut Capture,
    groups: &[CaptureGroup],
    zones: &[ZoneTarget],
    affinity: ZoneAffinity,
    seed: u64,
    remap_mac: bool,
    registered: &HashMap<u32, u32>,
    device_macs: &HashMap<u32, [u8; 6]>,
    budget: usize,
) -> (r: (RemapSummary, Vec<NewCaptureAsset>))
    requires
        zones_wf(zones@),
        groups_wf(groups@),
    ensures
        final(cap).header == old(cap).header,
        zones@.len() == 0 ==> {
            &&& final(cap)@ == old(cap)@
            &&& r.0.host_count == 0
            &&& r.0.subnets@.len() == 0
            &&& r.1@.len() == 0
        },
        zones@.len() > 0 ==> {
            let done = input_of(zones@, affinity, seed, registered@).reconcile(
                group_models(groups@),
                budget as nat,
            );
            let hm = HostMap { addrs: done.map, macs: device_macs@, seed, remap_mac };
            &&& final(cap)@ == old(cap)@.map_values(
                |p: PacketModel| p.with_data(hm.frame(p.data)),
            ).filter(|p: PacketModel| safe_frame(p.data))
            &&& r.0.host_count == done.map.len()
            &&& subnet_texts(r.0.subnets@) == done.subnets
            &&& asset_models(r.1@) == done.assets
        },
{
    if zones.len() == 0 {
        return (RemapSummary { host_count: 0, subnets: Vec::new() }, Vec::new());
    }
    let ghost input = input_of(zones@, affinity, seed, registered@);
    let ghost gm = group_models(groups@);
    let mut w = Work::start(zones, registered, budget);
    let mut keys: Vec<u64> = Vec::new();
    let mut k: usize = 0;
    while k < groups.len()
        invariant
            k <= groups@.len(),
            groups_wf(groups@),
            gm == group_models(groups@),
            keys@.len() == k,
            forall|j: int| 0 <= j < k ==> #[trigger] keys@[j] == group_keys(gm)[j],
        decreases groups@.len() - k,
    {
        proof {
            assert(groups@[k as int].net.wf());
            groups@[k as int].net.lemma_bounds();
        }
        keys.push(groups[k].net.network() as u64);
        k += 1;
    }
    proof {
        assert(keys@ =~= group_keys(gm));
    }
    let order: Vec<usize> = sort_by_key(keys.as_slice());
    let mut i: usize = 0;
    proof {
        assert(order@.take(0) =~= Seq::empty());
    }
    while i < order.len()
        invariant
            i <= order@.len(),
            zones@.len() > 0,
            zones_wf(zones@),
            groups_wf(groups@),
            gm == group_models(groups@),
            input == input_of(zones@, affinity, seed, registered@),
            forall|j: int| 0 <= j < order@.len() ==> (#[trigger] order@[j]) < groups@.len(),
            w@ == input.map_groups(input.start(budget as nat), gm, order@.take(i as int)),
        decreases order@.len() - i,
    {
        let g = &groups[order[i]];
        proof {
            assert(groups@[order@[i as int] as int].net.wf());
            assert(order@.take(i as int + 1).drop_last() =~= order@.take(i as int));
        }
        let ranked = rank_zones(g, zones, affinity, seed);
        let zi: usize = ranked[0];
        let hosts: Vec<u32> = sort_u32(g.hosts.as_slice());
        w.placed = false;
        let ghost before = w@;
        let mut j: usize = 0;
        proof {
            assert(hosts@.take(0) =~= Seq::empty());
        }
        while j < hosts.len()
            invariant
                j <= hosts@.len(),
                zi < zones@.len(),
                zones_wf(zones@),
                input == input_of(zones@, affinity, seed, registered@),
                w@ == input.map_hosts(before, zi as int, hosts@.take(j as int)),
            decreases hosts@.len() - j,
        {
            proof {
                assert(hosts@.take(j as int + 1).drop_last() =~= hosts@.take(j as int));
            }
            w.map_host(zones, zi, seed, registered, hosts[j]);
            j += 1;
        }
        proof {
            assert(hosts@.take(j as int) =~= hosts@);
        }
        if w.placed {
            let ghost so_far = w.subnets@;
            w.subnets.push((g.net.to_text(), zones[zi].net.to_text()));
            proof {
                assert(subnet_texts(w.subnets@) =~= subnet_texts(so_far).push(
                    (net_text(g.net), net_text(zones@[zi as int].net)),
                ));
            }
        }
        i += 1;
    }
    proof {
        assert(order@.take(i as int) =~= order@);
    }
    apply_host_map(cap, &w.map, device_macs, seed, remap_mac);
    drop_unsafe_frames(cap);
    (RemapSummary { host_count: w.map.len(), subnets: w.subnets }, w.assets)
}

/// The asset sits in one of the zones, under the zone's network, with the stable
/// MAC of its address.
pub open spec fn asset_in_a_zone(input: ReconcileInput, a: AssetModel) -> bool {
    &&& a.mac == host_mac(input.seed, a.ip)
    &&& exists|zi: int|
        0 <= zi < input.zones.len() && (#[trigger] input.zones[zi]).net.has(a.ip as int)
            && a.subnet_cidr == net_text(input.zones[zi].net)
}

/// A new asset has the address.
pub open spec fn asset_at(assets: Seq<AssetModel>, ip: u32) -> bool {
    exists|i: int| 0 <= i < assets.len() && (#[trigger] assets[i]).ip == ip
}

/// What every step of a reconciliation keeps: the budget spent is the number of
/// new assets; their addresses are distinct, were free at the start, are taken
/// now and lie in a zone; a registered host is mapped to its asset; and every
/// host is mapped to an address that was taken at the start or is a new asset's.
pub open spec fn reconciliation_sound(
    input: ReconcileInput,
    start: Reconciled,
    st: Reconciled,
) -> bool {
    &&& st.budget + st.assets.len() == start.budget
    &&& start.taken.subset_of(st.taken)
    &&& forall|i: int|
        0 <= i < st.assets.len() ==> {
            &&& st.taken.contains((#[trigger] st.assets[i]).ip)
            &&& !start.taken.contains(st.assets[i].ip)
            &&& asset_in_a_zone(input, st.assets[i])
        }
    &&& forall|i: int, j: int|
        0 <= i < j < st.assets.len() ==> (#[trigger] st.assets[i]).ip != (
        #[trigger] st.assets[j]).ip
    &&& forall|h: u32| #[trigger]
        st.map.contains_key(h) && input.registered.contains_key(h) ==> st.map[h]
            == input.registered[h]
    &&& all_reserved(input.zones).union(input.registered.values()).subset_of(start.taken)
    &&& forall|h: u32| #[trigger]
        st.map.contains_key(h) ==> start.taken.contains(st.map[h]) || asset_at(
            st.assets,
            st.map[h],
        )
}

/// A host that has to end up mapped: it is registered, or some zone holds a
/// device it can ride.
pub open spec fn must_map(input: ReconcileInput, h: u32) -> bool {
    input.registered.contains_key(h) || exists|ip: u32|
        is_lowest(all_reserved(input.zones), ip)
}

proof fn lemma_map_host_sound(
    input: ReconcileInput,
    start: Reconciled,
    st: Reconciled,
    zi: int,
    host: u32,
)
    requires
        0 <= zi < input.zones.len(),
        input.zones[zi].net.wf(),
        reconciliation_sound(input, start, st),
    ensures
        reconciliation_sound(input, start, input.map_host(st, zi, host)),
        must_map(input, host) ==> input.map_host(st, zi, host).map.contains_key(host),
        st.map.dom().subset_of(input.map_host(st, zi, host).map.dom()),
{
    let z = input.zones[zi];
    law_place(z.net, st.taken, host);
    let r = input.map_host(st, zi, host);
    if !input.registered.contains_key(host) && st.budget > 0 && place(z.net, st.taken, host)
        is Some {
        assert(input.zones[zi].net.has(r.assets.last().ip as int));
        assert(asset_in_a_zone(input, r.assets.last()));
        assert forall|i: int| 0 <= i < r.assets.len() implies {
            &&& r.taken.contains((#[trigger] r.assets[i]).ip)
            &&& !start.taken.contains(r.assets[i].ip)
            &&& asset_in_a_zone(input, r.assets[i])
        } by {
            if i < st.assets.len() {
                assert(r.assets[i] == st.assets[i]);
            }
        }
    }
    assert forall|h: u32| #[trigger] r.map.contains_key(h) implies start.taken.contains(r.map[h])
        || asset_at(r.assets, r.map[h]) by {
        if h != host {
            assert(st.map.contains_key(h));
            if asset_at(st.assets, st.map[h]) {
                let i = choose|i: int|
                    0 <= i < st.assets.len() && (#[trigger] st.assets[i]).ip == st.map[h];
                assert(r.assets[i] == st.assets[i]);
            }
        } else if input.registered.contains_key(host) {
            assert(input.registered.values().contains(input.registered[host]));
        } else if st.budget > 0 && place(z.net, st.taken, host) is Some {
            assert(r.assets.last().ip == r.map[h]);
        } else if ride_target(input.zones, zi) is Some {
            assert(all_reserved(input.zones).contains(r.map[h]));
        }
    }
}

proof fn lemma_map_hosts_sound(
    input: ReconcileInput,
    start: Reconciled,
    st: Reconciled,
    zi: int,
    hosts: Seq<u32>,
)
    requires
        0 <= zi < input.zones.len(),
        input.zones[zi].net.wf(),
        reconciliation_sound(input, start, st),
    ensures
        reconciliation_sound(input, start, input.map_hosts(st, zi, hosts)),
        forall|k: int|
            0 <= k < hosts.len() && must_map(input, #[trigger] hosts[k]) ==> input.map_hosts(
                st,
                zi,
                hosts,
            ).map.contains_key(hosts[k]),
        st.map.dom().subset_of(input.map_hosts(st, zi, hosts).map.dom()),
    decreases hosts.len(),
{
    if hosts.len() > 0 {
        let head = hosts.drop_last();
        lemma_map_hosts_sound(input, start, st, zi, head);
        let mid = input.map_hosts(st, zi, head);
        lemma_map_host_sound(input, start, mid, zi, hosts.last());
        let done = input.map_hosts(st, zi, hosts);
        assert forall|k: int|
            0 <= k < hosts.len() && must_map(input, #[trigger] hosts[k]) implies done.map.contains_key(
            hosts[k],
        ) by {
            if k < head.len() {
                assert(head[k] == hosts[k]);
                assert(mid.map.dom().contains(hosts[k]));
            }
        }
    }
}

/// Among the first `n` zones one ranks before the others.
proof fn lemma_best_exists(
    g: GroupModel,
    zones: Seq<ZoneModel>,
    affinity: ZoneAffinity,
    seed: u64,
    n: int,
) -> (zi: int)
    requires
        0 < n <= zones.len(),
    ensures
        0 <= zi < n,
        forall|b: int|
            0 <= b < n && b != zi ==> #[trigger] ranks_before(g, zones, affinity, seed, zi, b),
    decreases n,
{
    if n == 1 {
        0
    } else {
        let prior = lemma_best_exists(g, zones, affinity, seed, n - 1);
        if ranks_before(g, zones, affinity, seed, prior, n - 1) {
            prior
        } else {
            assert forall|b: int| 0 <= b < n && b != n - 1 implies #[trigger] ranks_before(
                g,
                zones,
                affinity,
                seed,
                n - 1,
                b,
            ) by {
                if b != prior {
                    assert(ranks_before(g, zones, affinity, seed, prior, b));
                }
            }
            n - 1
        }
    }
}

/// Where there is a zone, every group has one that suits it best.
pub proof fn law_best_zone_exists(
    g: GroupModel,
    zones: Seq<ZoneModel>,
    affinity: ZoneAffinity,
    seed: u64,
)
    requires
        zones.len() > 0,
    ensures
        is_best(best_zone(g, zones, affinity, seed), g, zones, affinity, seed),
{
    let zi = lemma_best_exists(g, zones, affinity, seed, zones.len() as int);
    assert(is_best(zi, g, zones, affinity, seed));
}

proof fn lemma_map_groups_sound(
    input: ReconcileInput,
    start: Reconciled,
    groups: Seq<GroupModel>,
    order: Seq<usize>,
)
    requires
        reconciliation_sound(input, start, start),
        input.zones.len() > 0,
        forall|i: int| 0 <= i < input.zones.len() ==> (#[trigger] input.zones[i]).net.wf(),
    ensures
        ({
            let done = input.map_groups(start, groups, order);
            &&& reconciliation_sound(input, start, done)
            &&& forall|i: int, h: u32|
                0 <= i < order.len() && #[trigger] groups[order[i] as int].hosts.contains(h)
                    && must_map(input, h) ==> done.map.contains_key(h)
        }),
    decreases order.len(),
{
    if order.len() > 0 {
        let head = order.drop_last();
        let prior = input.map_groups(start, groups, head);
        lemma_map_groups_sound(input, start, groups, head);
        let g = groups[order.last() as int];
        let zi = best_zone(g, input.zones, input.affinity, input.seed);
        law_best_zone_exists(g, input.zones, input.affinity, input.seed);
        assert(input.zones[zi].net.wf());
        let reset = Reconciled { placed: false, ..prior };
        assert(reconciliation_sound(input, start, reset));
        lemma_map_hosts_sound(input, start, reset, zi, ascending(g.hosts));
        let done = input.map_groups(start, groups, order);
        assert forall|i: int, h: u32|
            0 <= i < order.len() && #[trigger] groups[order[i] as int].hosts.contains(h)
                && must_map(input, h) implies done.map.contains_key(h) by {
            if i < head.len() {
                assert(groups[head[i] as int].hosts.contains(h));
                assert(reset.map.dom().contains(h));
            } else {
                lemma_ascending_contains(g.hosts, h);
                let k = choose|k: int|
                    0 <= k < ascending(g.hosts).len() && ascending(g.hosts)[k] == h;
                assert(must_map(input, ascending(g.hosts)[k]));
            }
        }
    }
}

/// A reconciliation never spends more than its budget; each new asset has an
/// address of its own in a zone that no device and no registered host had; a
/// registered host keeps its asset; and every host goes to an address of a device,
/// of a registered host or of a new asset.
pub proof fn law_reconcile_is_sound(input: ReconcileInput, groups: Seq<GroupModel>, budget: nat)
    requires
        input.zones.len() > 0,
        forall|i: int| 0 <= i < input.zones.len() ==> (#[trigger] input.zones[i]).net.wf(),
    ensures
        reconciliation_sound(input, input.start(budget), input.reconcile(groups, budget)),
        input.reconcile(groups, budget).assets.len() <= budget,
{
    lemma_map_groups_sound(input, input.start(budget), groups, by_key(group_keys(groups)));
}

/// No host is left on its own address: each host of each group is mapped, if it
/// is registered or some zone holds a device.
pub proof fn law_reconcile_maps_every_host(
    input: ReconcileInput,
    groups: Seq<GroupModel>,
    budget: nat,
    gi: int,
    h: u32,
)
    requires
        input.zones.len() > 0,
        forall|i: int| 0 <= i < input.zones.len() ==> (#[trigger] input.zones[i]).net.wf(),
        0 <= gi < groups.len(),
        groups.len() <= usize::MAX,
        groups[gi].hosts.contains(h),
        must_map(input, h),
    ensures
        input.reconcile(groups, budget).map.contains_key(h),
{
    let order = by_key(group_keys(groups));
    lemma_map_groups_sound(input, input.start(budget), groups, order);
    lemma_by_key_contains(group_keys(groups), gi as usize);
    let i = choose|i: int| 0 <= i < order.len() && order[i] == gi as usize;
    assert(groups[order[i] as int].hosts.contains(h));
}

} // verus!
