//! Bringing a capture into the plan.
//!
//! A capture's hosts are reconciled into the fabricated zones: a known host keeps
//! its asset, a new one fills spare capacity as a registered asset, and what is
//! over the budget rides existing devices. Frames that the link cannot carry, and
//! the capture's own ARP, are taken out.

use std::collections::{HashMap, HashSet};
use vstd::prelude::*;
use crate::bytes::{be16, be32, read_be16, read_be32};
use crate::config::L3Cfg;
use crate::ledger::{
    capped, effective_asset_cap, has_host_ip, host_models, CaptureHostRecord, DeviceRecord,
    HostModel, Session, SubnetRecord, DEFAULT_MAX_ASSETS, MAX_DEVICES,
};
use crate::mac::{fmt_mac, mac_of, mac_text, parse_mac};
use crate::net::{cidr_net, ip_of, ip_string, ip_text, parse_ip, parse_net, Ipv4Net};
use crate::oui::OuiDb;
use crate::pcapio::{frames, Capture, PacketModel};
use crate::proto::frame::{layout_of, parse_layout, L3Kind, L4Kind};
use crate::proto::l3::{
    collect_hosts, group, group_list, group_of, hosts_in, is_group_list, moved_hosts, nets_wf, remap_capture, safe_frame,
    HostMap,
};
use crate::proto::reconcile::{
    asset_models, group_models, groups_wf, input_of, ot_protocol_for_port, port_protocol,
    reconcile_capture_into_zones, zone_models, zones_wf, AssetModel, CaptureGroup, GroupModel,
    NewCaptureAsset, ReconcileInput, ZoneModel, ZoneTarget,
};
use crate::proto::thin::{
    clean_of, drop_arp_frames, drop_embedding_frames, drop_oversize_frames, embeds, fits, not_arp,
};
use crate::simulate::announce::device_at;
use crate::simulate::zones::{derive_zones, is_zone, zone_groups, Zone};
use crate::text::{clone_opt, opt_text, str_eq};

verus! {

/// The first device of a zone, by its network text.
pub open spec fn first_in(ds: Seq<DeviceRecord>, cidr: Seq<char>) -> Option<DeviceRecord>
    decreases ds.len(),
{
    if ds.len() == 0 {
        None
    } else if ds[0].subnet_cidr@ == cidr {
        Some(ds[0])
    } else {
        first_in(ds.drop_first(), cidr)
    }
}

/// A device of the zone has the address.
pub open spec fn zone_has(ds: Seq<DeviceRecord>, cidr: Seq<char>, ip: u32) -> bool {
    exists|i: int|
        0 <= i < ds.len() && (#[trigger] ds[i]).subnet_cidr@ == cidr && ip_of(ds[i].ip@) == Some(
            ip,
        )
}

/// The addresses that a zone's devices have.
pub open spec fn zone_ips(ds: Seq<DeviceRecord>, cidr: Seq<char>) -> Set<u32> {
    Set::new(|ip: u32| zone_has(ds, cidr, ip))
}

/// What a zone offers a remap.
pub open spec fn target_of(ds: Seq<DeviceRecord>, s: SubnetRecord, net: Ipv4Net) -> ZoneModel {
    ZoneModel {
        net,
        vendor: opt_text(s.vendor),
        purdue_level: s.purdue_level,
        protocol: match first_in(ds, s.cidr@) {
            Some(d) => Some(d.protocol@),
            None => None,
        },
        reserved: zone_ips(ds, s.cidr@),
    }
}

/// What the zones of a plant offer a remap; a zone whose text is no network offers
/// nothing.
pub open spec fn targets_of(ds: Seq<DeviceRecord>, subnets: Seq<SubnetRecord>) -> Seq<ZoneModel>
    decreases subnets.len(),
{
    if subnets.len() == 0 {
        Seq::empty()
    } else {
        let prior = targets_of(ds, subnets.drop_last());
        match cidr_net(subnets.last().cidr@) {
            Some(net) => prior.push(target_of(ds, subnets.last(), net)),
            None => prior,
        }
    }
}

fn reserved_in(ds: &Vec<DeviceRecord>, cidr: &str) -> (r: HashSet<u32>)
    ensures
        r@ == zone_ips(ds@, cidr@),
{
    let mut r: HashSet<u32> = HashSet::new();
    let mut i: usize = 0;
    while i < ds.len()
        invariant
            i <= ds@.len(),
            forall|ip: u32| r@.contains(ip) <==> #[trigger] zone_has(ds@.take(i as int), cidr@, ip),
        decreases ds@.len() - i,
    {
        let ghost before = r@;
        if str_eq(ds[i].subnet_cidr.as_str(), cidr) {
            if let Some(ip) = parse_ip(ds[i].ip.as_str()) {
                r.insert(ip);
            }
        }
        proof {
            let a = ds@.take(i as int);
            let b = ds@.take(i as int + 1);
            assert forall|ip: u32| r@.contains(ip) <==> #[trigger] zone_has(b, cidr@, ip) by {
                if zone_has(a, cidr@, ip) {
                    let k = choose|k: int|
                        0 <= k < a.len() && (#[trigger] a[k]).subnet_cidr@ == cidr@ && ip_of(
                            a[k].ip@,
                        ) == Some(ip);
                    assert(b[k] == a[k]);
                }
                if zone_has(b, cidr@, ip) {
                    let k = choose|k: int|
                        0 <= k < b.len() && (#[trigger] b[k]).subnet_cidr@ == cidr@ && ip_of(
                            b[k].ip@,
                        ) == Some(ip);
                    if k < i {
                        assert(a[k] == b[k]);
                    }
                }
                if r@.contains(ip) && !before.contains(ip) {
                    assert(b[i as int] == ds@[i as int]);
                }
            }
        }
        i += 1;
    }
    proof {
        assert(ds@.take(i as int) =~= ds@);
        assert(r@ =~= zone_ips(ds@, cidr@));
    }
    r
}

fn protocol_in(ds: &Vec<DeviceRecord>, cidr: &str) -> (r: Option<String>)
    ensures
        opt_text(r) == match first_in(ds@, cidr@) {
            Some(d) => Some(d.protocol@),
            None => None,
        },
{
    let mut i: usize = 0;
    proof {
        assert(ds@.skip(0) =~= ds@);
    }
    while i < ds.len()
        invariant
            i <= ds@.len(),
            first_in(ds@, cidr@) == first_in(ds@.skip(i as int), cidr@),
        decreases ds@.len() - i,
    {
        proof {
            assert(ds@.skip(i as int).drop_first() =~= ds@.skip(i as int + 1));
        }
        if str_eq(ds[i].subnet_cidr.as_str(), cidr) {
            return Some(ds[i].protocol.clone());
        }
        i += 1;
    }
    None
}

/// Per-zone remap targets: each zone's network, vendor, level, the protocol of its
/// first device, and the addresses reserved within it.
pub fn zone_targets(ledger: &Session) -> (r: Vec<ZoneTarget>)
    ensures
        zone_models(r@) == targets_of(ledger.devices@, ledger.subnets@),
        zones_wf(r@),
{
    let mut out: Vec<ZoneTarget> = Vec::new();
    let ghost ds = ledger.devices@;
    let mut i: usize = 0;
    proof {
        assert(ledger.subnets@.take(0) =~= Seq::empty());
        assert(zone_models(out@) =~= Seq::empty());
    }
    while i < ledger.subnets.len()
        invariant
            i <= ledger.subnets@.len(),
            ds == ledger.devices@,
            zone_models(out@) == targets_of(ds, ledger.subnets@.take(i as int)),
            zones_wf(out@),
        decreases ledger.subnets@.len() - i,
    {
        let s: &SubnetRecord = &ledger.subnets[i];
        proof {
            assert(ledger.subnets@.take(i as int + 1).drop_last() =~= ledger.subnets@.take(
                i as int,
            ));
        }
        if let Some(net) = parse_net(s.cidr.as_str()) {
            let z = ZoneTarget {
                net,
                vendor: clone_opt(&s.vendor),
                purdue_level: s.purdue_level,
                protocol: protocol_in(&ledger.devices, s.cidr.as_str()),
                reserved: reserved_in(&ledger.devices, s.cidr.as_str()),
            };
            let ghost m = z@;
            let ghost before = out@;
            out.push(z);
            proof {
                assert(zone_models(out@) =~= zone_models(before).push(m));
            }
        }
        i += 1;
    }
    proof {
        assert(ledger.subnets@.take(i as int) =~= ledger.subnets@);
    }
    out
}

/// The asset that each registered capture host is kept on, by its own address.
pub open spec fn origins(hosts: Seq<HostModel>) -> Map<u32, u32>
    decreases hosts.len(),
{
    if hosts.len() == 0 {
        Map::empty()
    } else {
        let prior = origins(hosts.drop_last());
        match (ip_of(hosts.last().origin_ip), ip_of(hosts.last().ip)) {
            (Some(o), Some(n)) => prior.insert(o, n),
            _ => prior,
        }
    }
}

/// Origin address to assigned address for every registered capture host: the
/// lookup that keeps a host on the same asset every run.
pub fn registered_origins(ledger: &Session) -> (r: HashMap<u32, u32>)
    ensures
        r@ == origins(host_models(ledger.capture_hosts@)),
{
    let hs: &Vec<CaptureHostRecord> = &ledger.capture_hosts;
    let ghost ms = host_models(hs@);
    let mut r: HashMap<u32, u32> = HashMap::new();
    let mut i: usize = 0;
    proof {
        assert(ms.take(0) =~= Seq::empty());
    }
    while i < hs.len()
        invariant
            i <= hs@.len(),
            hs@ == ledger.capture_hosts@,
            ms == host_models(hs@),
            r@ == origins(ms.take(i as int)),
        decreases hs@.len() - i,
    {
        proof {
            assert(ms.take(i as int + 1).drop_last() =~= ms.take(i as int));
            assert(ms.take(i as int + 1).last() == hs@[i as int]@);
        }
        if let Some(o) = parse_ip(hs[i].origin_ip.as_str()) {
            if let Some(n) = parse_ip(hs[i].ip.as_str()) {
                r.insert(o, n);
            }
        }
        i += 1;
    }
    proof {
        assert(ms.take(i as int) =~= ms);
    }
    r
}

/// A map from the devices' addresses to their hardware addresses.
pub open spec fn macs_match(m: Map<u32, [u8; 6]>, ds: Seq<DeviceRecord>) -> bool {
    forall|ip: u32|
        {
            &&& #[trigger] m.contains_key(ip) <==> device_at(ds, ip) is Some
            &&& m.contains_key(ip) ==> m[ip]@ == mac_of(device_at(ds, ip)->0.mac@)
        }
}

/// Device address to its hardware address, so that a capture host that rides a
/// device carries that device's.
pub fn device_mac_map(ledger: &Session) -> (r: HashMap<u32, [u8; 6]>)
    ensures
        macs_match(r@, ledger.devices@),
{
    let ds: &Vec<DeviceRecord> = &ledger.devices;
    let mut r: HashMap<u32, [u8; 6]> = HashMap::new();
    let mut i: usize = 0;
    proof {
        assert(ds@.take(0) =~= Seq::empty());
    }
    while i < ds.len()
        invariant
            i <= ds@.len(),
            ds@ == ledger.devices@,
            macs_match(r@, ds@.take(i as int)),
        decreases ds@.len() - i,
    {
        let ghost before = r@;
        proof {
            assert(ds@.take(i as int + 1).drop_last() =~= ds@.take(i as int));
        }
        if let Some(ip) = parse_ip(ds[i].ip.as_str()) {
            r.insert(ip, parse_mac(ds[i].mac.as_str()));
        }
        proof {
            assert forall|ip: u32|
                {
                    &&& #[trigger] r@.contains_key(ip) <==> device_at(
                        ds@.take(i as int + 1),
                        ip,
                    ) is Some
                    &&& r@.contains_key(ip) ==> r@[ip]@ == mac_of(
                        device_at(ds@.take(i as int + 1), ip)->0.mac@,
                    )
                } by {
                assert(before.contains_key(ip) <==> device_at(ds@.take(i as int), ip) is Some);
            }
        }
        i += 1;
    }
    proof {
        assert(ds@.take(i as int) =~= ds@);
    }
    r
}

/// What a frame says of the groups of its two ends: the tag of the service port,
/// the destination's before the source's.
pub open spec fn vote_of(b: Seq<u8>, hints: Seq<Ipv4Net>) -> Option<(Seq<char>, (u8, u32), (u8, u32))> {
    match layout_of(b) {
        None => None,
        Some(l) => {
            let l3 = l.l3 as int;
            let l4 = l.l4 as int;
            if l.l3_kind != L3Kind::Ipv4 || l.l4_kind == L4Kind::Other || b.len() < l4 + 4
                || b.len() < l3 + 20 {
                None
            } else {
                let tag = match port_protocol(be16(b, l4 + 2) as u16) {
                    Some(t) => Some(t),
                    None => port_protocol(be16(b, l4) as u16),
                };
                match tag {
                    Some(t) => Some(
                        (
                            t,
                            group(be32(b, l3 + 12) as u32, hints),
                            group(be32(b, l3 + 16) as u32, hints),
                        ),
                    ),
                    None => None,
                }
            }
        },
    }
}

/// The votes that frames cast for a protocol in a group.
pub open spec fn tally(
    fs: Seq<Seq<u8>>,
    hints: Seq<Ipv4Net>,
    g: (u8, u32),
    tag: Seq<char>,
) -> nat
    decreases fs.len(),
{
    if fs.len() == 0 {
        0
    } else {
        let prior = tally(fs.drop_last(), hints, g, tag);
        match vote_of(fs.last(), hints) {
            Some((t, a, b)) => if t == tag {
                prior + (if a == g {
                    1nat
                } else {
                    0
                }) + (if b == g {
                    1nat
                } else {
                    0
                })
            } else {
                prior
            },
            None => prior,
        }
    }
}

/// The protocol of a group: the one with the most votes, if any has one; the
/// earlier in a fixed order among equals.
pub open spec fn dominant(fs: Seq<Seq<u8>>, hints: Seq<Ipv4Net>, g: (u8, u32)) -> Option<Seq<char>> {
    leader(fs, hints, g, 5)
}

/// The tags that ports stand for, in a fixed order.
pub open spec fn tags() -> Seq<Seq<char>> {
    seq!["modbus"@, "enip"@, "s7"@, "switch_snmp"@, "dnp3"@]
}

/// The leader among the first tags.
pub open spec fn leader(
    fs: Seq<Seq<u8>>,
    hints: Seq<Ipv4Net>,
    g: (u8, u32),
    n: int,
) -> Option<Seq<char>>
    decreases n,
{
    if n <= 0 {
        None
    } else {
        let prior = leader(fs, hints, g, n - 1);
        let own = tally(fs, hints, g, tags()[n - 1]);
        let best = match prior {
            Some(t) => tally(fs, hints, g, t),
            None => 0,
        };
        if own > best {
            Some(tags()[n - 1])
        } else {
            prior
        }
    }
}

struct Vote {
    tag: &'static str,
    src: (u8, u32),
    dst: (u8, u32),
}

/// The votes, as they are spoken.
spec fn vote_list(v: Seq<Vote>) -> Seq<(Seq<char>, (u8, u32), (u8, u32))> {
    v.map_values(|x: Vote| (x.tag@, x.src, x.dst))
}

/// The votes that frames cast, in order.
spec fn votes_of(
    fs: Seq<Seq<u8>>,
    hints: Seq<Ipv4Net>,
) -> Seq<(Seq<char>, (u8, u32), (u8, u32))>
    decreases fs.len(),
{
    if fs.len() == 0 {
        Seq::empty()
    } else {
        match vote_of(fs.last(), hints) {
            Some(v) => votes_of(fs.drop_last(), hints).push(v),
            None => votes_of(fs.drop_last(), hints),
        }
    }
}

/// The votes in a list for a protocol in a group.
spec fn count(v: Seq<(Seq<char>, (u8, u32), (u8, u32))>, g: (u8, u32), tag: Seq<char>) -> nat
    decreases v.len(),
{
    if v.len() == 0 {
        0
    } else {
        let prior = count(v.drop_last(), g, tag);
        let (t, a, b) = v.last();
        if t == tag {
            prior + (if a == g {
                1nat
            } else {
                0
            }) + (if b == g {
                1nat
            } else {
                0
            })
        } else {
            prior
        }
    }
}

proof fn lemma_count(fs: Seq<Seq<u8>>, hints: Seq<Ipv4Net>, g: (u8, u32), tag: Seq<char>)
    ensures
        count(votes_of(fs, hints), g, tag) == tally(fs, hints, g, tag),
    decreases fs.len(),
{
    if fs.len() > 0 {
        lemma_count(fs.drop_last(), hints, g, tag);
        if let Some(v) = vote_of(fs.last(), hints) {
            let prior = votes_of(fs.drop_last(), hints);
            assert(prior.push(v).drop_last() =~= prior);
        }
    }
}

fn cast_vote(b: &[u8], hints: &[Ipv4Net]) -> (r: Option<Vote>)
    requires
        nets_wf(hints@),
    ensures
        match r {
            Some(v) => vote_of(b@, hints@) == Some((v.tag@, v.src, v.dst)),
            None => vote_of(b@, hints@) is None,
        },
{
    match parse_layout(b) {
        None => None,
        Some(l) => {
            if l.l3_kind != L3Kind::Ipv4 || l.l4_kind == L4Kind::Other || b.len() < l.l4 + 4
                || b.len() < l.l3 + 20 {
                return None;
            }
            let tag: Option<&'static str> = match ot_protocol_for_port(read_be16(b, l.l4 + 2)) {
                Some(t) => Some(t),
                None => ot_protocol_for_port(read_be16(b, l.l4)),
            };
            match tag {
                Some(t) => Some(
                    Vote {
                        tag: t,
                        src: group_of(read_be32(b, l.l3 + 12), hints),
                        dst: group_of(read_be32(b, l.l3 + 16), hints),
                    },
                ),
                None => None,
            }
        },
    }
}

fn collect_votes(cap: &Capture, hints: &[Ipv4Net]) -> (r: Vec<Vote>)
    requires
        nets_wf(hints@),
    ensures
        vote_list(r@) == votes_of(frames(cap@), hints@),
{
    let ghost fs = frames(cap@);
    let mut out: Vec<Vote> = Vec::new();
    let mut i: usize = 0;
    proof {
        assert(fs.take(0) =~= Seq::empty());
        assert(vote_list(out@) =~= Seq::empty());
    }
    while i < cap.packets.len()
        invariant
            i <= cap.packets@.len(),
            fs == frames(cap@),
            nets_wf(hints@),
            vote_list(out@) == votes_of(fs.take(i as int), hints@),
        decreases cap.packets@.len() - i,
    {
        proof {
            assert(fs.take(i as int + 1).drop_last() =~= fs.take(i as int));
            assert(fs.take(i as int + 1).last() == cap.packets@[i as int].data@);
        }
        if let Some(v) = cast_vote(cap.packets[i].data.as_slice(), hints) {
            let ghost before = out@;
            let ghost m = (v.tag@, v.src, v.dst);
            out.push(v);
            proof {
                assert(vote_list(out@) =~= vote_list(before).push(m));
            }
        }
        i += 1;
    }
    proof {
        assert(fs.take(i as int) =~= fs);
    }
    out
}

fn count_votes(v: &Vec<Vote>, g: (u8, u32), tag: &str) -> (r: u128)
    ensures
        r == count(vote_list(v@), g, tag@),
{
    let ghost all = vote_list(v@);
    let mut n: u128 = 0;
    let mut i: usize = 0;
    proof {
        assert(all.take(0) =~= Seq::empty());
    }
    while i < v.len()
        invariant
            i <= v@.len(),
            all == vote_list(v@),
            n == count(all.take(i as int), g, tag@),
            n <= 2 * i,
        decreases v@.len() - i,
    {
        proof {
            assert(all.take(i as int + 1).drop_last() =~= all.take(i as int));
        }
        if str_eq(v[i].tag, tag) {
            if v[i].src.0 == g.0 && v[i].src.1 == g.1 {
                n = n + 1;
            }
            if v[i].dst.0 == g.0 && v[i].dst.1 == g.1 {
                n = n + 1;
            }
        }
        i += 1;
    }
    proof {
        assert(all.take(i as int) =~= all);
    }
    n
}

fn tag_at(k: usize) -> (r: &'static str)
    requires
        k < 5,
    ensures
        r@ == tags()[k as int],
{
    if k == 0 {
        "modbus"
    } else if k == 1 {
        "enip"
    } else if k == 2 {
        "s7"
    } else if k == 3 {
        "switch_snmp"
    } else {
        "dnp3"
    }
}

fn leading(v: &Vec<Vote>, g: (u8, u32), Ghost(fs): Ghost<Seq<Seq<u8>>>, Ghost(hints): Ghost<
    Seq<Ipv4Net>,
>) -> (r: Option<String>)
    requires
        vote_list(v@) == votes_of(fs, hints),
    ensures
        opt_text(r) == dominant(fs, hints, g),
{
    let mut best: u128 = 0;
    let mut who: Option<&'static str> = None;
    let mut k: usize = 0;
    while k < 5
        invariant
            k <= 5,
            vote_list(v@) == votes_of(fs, hints),
            crate::text::opt_str(who) == leader(fs, hints, g, k as int),
            best == match leader(fs, hints, g, k as int) {
                Some(t) => tally(fs, hints, g, t),
                None => 0,
            },
        decreases 5 - k,
    {
        let tag: &'static str = tag_at(k);
        let own: u128 = count_votes(v, g, tag);
        proof {
            lemma_count(fs, hints, g, tag@);
        }
        if own > best {
            best = own;
            who = Some(tag);
        }
        k += 1;
    }
    match who {
        Some(t) => Some(t.to_owned()),
        None => None,
    }
}

/// The groups of a capture's hosts: those of its zones, in order, each with the
/// protocol that its traffic votes for.
pub open spec fn are_groups(
    gs: Seq<GroupModel>,
    fs: Seq<Seq<u8>>,
    hints: Seq<Ipv4Net>,
    rows: Seq<(u32, Seq<char>)>,
) -> bool {
    &&& is_group_list(group_list(hosts_in(fs), hints), hosts_in(fs), hints)
    &&& gs.len() == zone_groups(fs, hints).len()
    &&& forall|i: int|
        0 <= i < gs.len() ==> is_group(
            #[trigger] gs[i],
            zone_groups(fs, hints)[i],
            i as nat,
            fs,
            hints,
            rows,
        )
}

/// A group is that of a zone of the capture.
pub open spec fn is_group(
    g: GroupModel,
    key: (u8, u32),
    idx: nat,
    fs: Seq<Seq<u8>>,
    hints: Seq<Ipv4Net>,
    rows: Seq<(u32, Seq<char>)>,
) -> bool {
    exists|z: Zone| #[trigger]
        is_zone(z, key, idx, fs, hints, rows) && g == group_from(z, fs, hints)
}

/// A zone of a capture as a group to place.
pub open spec fn group_from(z: Zone, fs: Seq<Seq<u8>>, hints: Seq<Ipv4Net>) -> GroupModel {
    GroupModel {
        net: z.cidr,
        purdue_level: z.purdue_level,
        vendor: opt_text(z.vendor),
        protocol: dominant(fs, hints, (z.cidr.prefix, z.cidr.addr)),
        hosts: z.device_ips@,
    }
}

/// Classify a capture's host groups by vendor and dominant protocol.
pub fn capture_groups(cap: &Capture, hints: &[Ipv4Net], oui: &OuiDb) -> (r: Vec<CaptureGroup>)
    requires
        nets_wf(hints@),
        oui.wf(),
    ensures
        are_groups(group_models(r@), frames(cap@), hints@, oui@),
        groups_wf(r@),
{
    let ghost fs = frames(cap@);
    let votes = collect_votes(cap, hints);
    let zones: Vec<Zone> = derive_zones(cap, hints, oui);
    let ghost zs = zones@;
    let mut out: Vec<CaptureGroup> = Vec::new();
    for z in it: zones
        invariant
            it.seq() == zs,
            fs == frames(cap@),
            vote_list(votes@) == votes_of(fs, hints@),
            out@.len() == it.index(),
            forall|i: int| 0 <= i < zs.len() ==> (#[trigger] zs[i]).cidr.wf(),
            forall|i: int|
                0 <= i < out@.len() ==> {
                    &&& (#[trigger] out@[i])@ == group_from(zs[i], fs, hints@)
                    &&& out@[i].net.wf()
                },
    {
        let ghost n = it.index();
        let protocol = leading(
            &votes,
            (z.cidr.prefix, z.cidr.addr),
            Ghost(fs),
            Ghost(hints@),
        );
        proof {
            assert(z == zs[n]);
            assert(zs[n].cidr.wf());
        }
        out.push(
            CaptureGroup {
                net: z.cidr,
                purdue_level: z.purdue_level,
                vendor: z.vendor,
                protocol,
                hosts: z.device_ips,
            },
        );
    }
    proof {
        let gs = group_models(out@);
        assert forall|i: int| 0 <= i < gs.len() implies is_group(
            #[trigger] gs[i],
            zone_groups(fs, hints@)[i],
            i as nat,
            fs,
            hints@,
            oui@,
        ) by {
            assert(out@[i]@ == group_from(zs[i], fs, hints@));
            assert(is_zone(zs[i], zone_groups(fs, hints@)[i], i as nat, fs, hints@, oui@));
        }
    }
    out
}

proof fn lemma_leader(fs: Seq<Seq<u8>>, hints: Seq<Ipv4Net>, g: (u8, u32), n: int)
    requires
        0 <= n <= 5,
    ensures
        match leader(fs, hints, g, n) {
            Some(t) => {
                &&& tally(fs, hints, g, t) > 0
                &&& forall|k: int|
                    0 <= k < n ==> tally(fs, hints, g, #[trigger] tags()[k]) <= tally(
                        fs,
                        hints,
                        g,
                        t,
                    )
            },
            None => forall|k: int| 0 <= k < n ==> tally(fs, hints, g, #[trigger] tags()[k]) == 0,
        },
    decreases n,
{
    if n > 0 {
        lemma_leader(fs, hints, g, n - 1);
    }
}

/// A group's protocol has votes, and no protocol has more; a group without one has
/// no votes for any.
pub proof fn law_dominant_protocol_leads(
    fs: Seq<Seq<u8>>,
    hints: Seq<Ipv4Net>,
    g: (u8, u32),
    port: u16,
)
    requires
        port_protocol(port) is Some,
    ensures
        match dominant(fs, hints, g) {
            Some(t) => 0 < tally(fs, hints, g, t) && tally(fs, hints, g, port_protocol(port)->0)
                <= tally(fs, hints, g, t),
            None => tally(fs, hints, g, port_protocol(port)->0) == 0,
        },
{
    lemma_leader(fs, hints, g, 5);
    let tag = port_protocol(port)->0;
    let k: int = if port == 502 {
        0
    } else if port == 2222 || port == 44818 {
        1
    } else if port == 102 {
        2
    } else if port == 161 || port == 162 {
        3
    } else {
        4
    };
    assert(tags()[k] == tag);
}

/// The record that a new asset is registered as.
pub open spec fn host_of(a: AssetModel) -> HostModel {
    HostModel {
        origin_ip: ip_text(a.origin),
        ip: ip_text(a.ip),
        mac: mac_text(a.mac),
        vendor: a.vendor,
        protocol: a.protocol,
        purdue_level: a.purdue_level,
        subnet_cidr: a.subnet_cidr,
        hostname: None,
        asset_type: None,
    }
}

/// A registered host has the address text.
pub open spec fn host_at(hosts: Seq<HostModel>, ip: Seq<char>) -> bool {
    exists|i: int| 0 <= i < hosts.len() && (#[trigger] hosts[i]).ip == ip
}

/// The registered hosts with new assets added, as far as the cap allows and where
/// the address is not registered.
pub open spec fn hosts_with(
    hosts: Seq<HostModel>,
    devices: nat,
    assets: Seq<AssetModel>,
    cap: nat,
) -> Seq<HostModel>
    decreases assets.len(),
{
    if assets.len() == 0 {
        hosts
    } else {
        let prior = hosts_with(hosts, devices, assets.drop_last(), cap);
        let h = host_of(assets.last());
        if devices + prior.len() < cap && !host_at(prior, h.ip) {
            prior.push(h)
        } else {
            prior
        }
    }
}

proof fn lemma_host_at(hosts: Seq<CaptureHostRecord>, ip: Seq<char>)
    ensures
        host_at(host_models(hosts), ip) == has_host_ip(hosts, ip),
{
    let ms = host_models(hosts);
    if host_at(ms, ip) {
        let i = choose|i: int| 0 <= i < ms.len() && (#[trigger] ms[i]).ip == ip;
        assert(hosts[i].ip@ == ip);
    }
    if has_host_ip(hosts, ip) {
        let i = choose|i: int| 0 <= i < hosts.len() && (#[trigger] hosts[i]).ip@ == ip;
        assert(ms[i].ip == ip);
    }
}

/// Register the new assets of a reconciliation. Returns whether any was added.
fn register_all(ledger: &mut Session, assets: Vec<NewCaptureAsset>, cap: usize) -> (r: bool)
    requires
        cap <= MAX_DEVICES,
        old(ledger).registry_generation + MAX_DEVICES < u64::MAX,
    ensures
        host_models(final(ledger).capture_hosts@) == hosts_with(
            host_models(old(ledger).capture_hosts@),
            old(ledger).devices@.len(),
            asset_models(assets@),
            cap as nat,
        ),
        r == (final(ledger).capture_hosts@.len() > old(ledger).capture_hosts@.len()),
        old(ledger).used().subset_of(final(ledger).used()),
        *final(ledger) == (Session {
            capture_hosts: final(ledger).capture_hosts,
            registry_generation: (old(ledger).registry_generation
                + final(ledger).capture_hosts@.len() - old(ledger).capture_hosts@.len()) as u64,
            ..*old(ledger)
        }),
{
    let ghost all = asset_models(assets@);
    let ghost items = assets@;
    let ghost hosts0 = host_models(ledger.capture_hosts@);
    let ghost n0 = ledger.capture_hosts@.len();
    let ghost devices = ledger.devices@.len();
    let mut added: bool = false;
    proof {
        assert(all.take(0) =~= Seq::empty());
    }
    for a in it: assets
        invariant
            it.seq() == items,
            all == asset_models(items),
            cap <= MAX_DEVICES,
            old(ledger).registry_generation + MAX_DEVICES < u64::MAX,
            devices == old(ledger).devices@.len(),
            n0 == old(ledger).capture_hosts@.len(),
            hosts0 == host_models(old(ledger).capture_hosts@),
            ledger.capture_hosts@.len() >= n0,
            forall|k: int|
                0 <= k < n0 ==> #[trigger] ledger.capture_hosts@[k] == old(ledger).capture_hosts@[k],
            ledger.capture_hosts@.len() > n0 ==> ledger.capture_hosts@.len() <= cap,
            added == (ledger.capture_hosts@.len() > n0),
            *ledger == (Session {
                capture_hosts: ledger.capture_hosts,
                registry_generation: (old(ledger).registry_generation
                    + ledger.capture_hosts@.len() - n0) as u64,
                ..*old(ledger)
            }),
            host_models(ledger.capture_hosts@) == hosts_with(
                hosts0,
                devices,
                all.take(it.index()),
                cap as nat,
            ),
    {
        let ghost n = it.index();
        let ghost before = ledger.capture_hosts@;
        proof {
            assert(all.take(n + 1).drop_last() =~= all.take(n));
            assert(all.take(n + 1).last() == a@);
        }
        let rec = CaptureHostRecord {
            origin_ip: ip_string(a.origin),
            ip: ip_string(a.ip),
            mac: fmt_mac(a.mac),
            vendor: a.vendor,
            protocol: a.protocol,
            purdue_level: a.purdue_level,
            subnet_cidr: a.subnet_cidr,
            hostname: None,
            asset_type: None,
        };
        let ghost m = rec@;
        proof {
            assert(m == host_of(all[n]));
            lemma_host_at(before, m.ip);
        }
        if ledger.register_capture_host(rec, cap) {
            added = true;
            proof {
                assert(host_models(ledger.capture_hosts@) =~= host_models(before).push(m));
            }
        }
    }
    proof {
        assert(all.take(all.len() as int) =~= all);
        assert forall|ip: u32| old(ledger).used().contains(ip) implies ledger.used().contains(
            ip,
        ) by {
            let t = ip_text(ip);
            if has_host_ip(old(ledger).capture_hosts@, t) {
                let k = choose|k: int|
                    0 <= k < n0 && (#[trigger] old(ledger).capture_hosts@[k]).ip@ == t;
                assert(ledger.capture_hosts@[k].ip@ == t);
            }
        }
    }
    added
}

/// A capture with its hosts moved, and what is unsafe taken out.
pub open spec fn moved_capture(c: Seq<PacketModel>, hm: HostMap) -> Seq<PacketModel> {
    c.map_values(|p: PacketModel| p.with_data(hm.frame(p.data))).filter(
        |p: PacketModel| safe_frame(p.data),
    )
}

/// A capture with the frames taken out that a replay is not to send: those whose
/// payload holds one of the given addresses, those longer than the link carries,
/// and the capture's own ARP unless it is asked for.
pub open spec fn thinned(c: Seq<PacketModel>, hosts: Set<u32>, l3: L3Cfg) -> Seq<PacketModel> {
    let short = c.filter(clean_of(hosts)).filter(fits(l3.max_frame_bytes as int));
    if l3.replay_capture_arp {
        short
    } else {
        short.filter(not_arp())
    }
}

/// What a remap draws on: the ledger's zones, devices and registered hosts, and the
/// groups of the capture.
pub open spec fn plan_for(
    ledger: Session,
    l3: L3Cfg,
) -> ReconcileInput {
    ReconcileInput {
        zones: targets_of(ledger.devices@, ledger.subnets@),
        affinity: l3.zone_affinity,
        seed: ledger.seed,
        registered: origins(host_models(ledger.capture_hosts@)),
    }
}

/// The assets that the plan has room for.
pub open spec fn room(ledger: Session, cap: usize) -> nat {
    if ledger.total() >= cap {
        0
    } else {
        (cap - ledger.total()) as nat
    }
}

/// A capture reconciled into a plan: its frames, and the hosts registered.
pub open spec fn reconciled_as(
    out: Seq<PacketModel>,
    hosts: Seq<HostModel>,
    c: Seq<PacketModel>,
    ledger: Session,
    l3: L3Cfg,
    cap: usize,
    gs: Seq<GroupModel>,
    macs: Map<u32, [u8; 6]>,
    hidden: Set<u32>,
) -> bool {
    let done = plan_for(ledger, l3).reconcile(gs, room(ledger, cap));
    let hm = HostMap { addrs: done.map, macs, seed: ledger.seed, remap_mac: l3.remap_mac };
    &&& out == thinned(moved_capture(c, hm), hidden, l3)
    &&& hosts == hosts_with(
        host_models(ledger.capture_hosts@),
        ledger.devices@.len(),
        done.assets,
        cap as nat,
    )
}

/// A capture brought into the plan: with zones to place its hosts in, it is
/// reconciled into them and the new hosts are registered; without, its hosts are
/// moved as the seed says and the ledger stays as it was.
pub open spec fn is_remap(
    before: Seq<PacketModel>,
    after: Seq<PacketModel>,
    ledger: Session,
    ledger_after: Session,
    hints: Seq<Ipv4Net>,
    rows: Seq<(u32, Seq<char>)>,
    l3: L3Cfg,
    cap: usize,
) -> bool {
    let fs = frames(before);
    &&& ledger_after == Session {
        capture_hosts: ledger_after.capture_hosts,
        registry_generation: (ledger.registry_generation + ledger_after.capture_hosts@.len()
            - ledger.capture_hosts@.len()) as u64,
        ..ledger
    }
    &&& if plan_for(ledger, l3).zones.len() == 0 {
        &&& ledger_after == ledger
        &&& after == thinned(
            moved_capture(
                before,
                HostMap {
                    addrs: moved_hosts(hosts_in(fs), hints, ledger.seed),
                    macs: Map::empty(),
                    seed: ledger.seed,
                    remap_mac: l3.remap_mac,
                },
            ),
            hosts_in(fs),
            l3,
        )
    } else {
        exists|gs: Seq<GroupModel>, macs: Map<u32, [u8; 6]>|
            {
                &&& are_groups(gs, fs, hints, rows)
                &&& macs_match(macs, ledger.devices@)
                &&& #[trigger] reconciled_as(
                    after,
                    host_models(ledger_after.capture_hosts@),
                    before,
                    ledger,
                    l3,
                    cap,
                    gs,
                    macs,
                    hosts_in(fs),
                )
            }
    }
}

/// Bring a capture into the plan. With fabricated zones its hosts are reconciled
/// into them, and the new assets are registered; without any, its addresses are
/// moved at random from the seed. Either way a frame is taken out that is unsafe,
/// whose payload still holds an original address, that is longer than the link
/// carries, or that is the capture's own ARP. Returns whether the
/// ledger changed.
pub fn remap_into_plan(
    ledger: &mut Session,
    cap: &mut Capture,
    hints: &[Ipv4Net],
    oui: &OuiDb,
    l3: &L3Cfg,
    max_assets: Option<usize>,
) -> (changed: bool)
    requires
        nets_wf(hints@),
        oui.wf(),
        old(ledger).registry_generation + MAX_DEVICES < u64::MAX,
    ensures
        final(cap).header == old(cap).header,
        changed == (final(ledger).capture_hosts@.len() > old(ledger).capture_hosts@.len()),
        old(ledger).used().subset_of(final(ledger).used()),
        is_remap(
            old(cap)@,
            final(cap)@,
            *old(ledger),
            *final(ledger),
            hints@,
            oui@,
            *l3,
            capped(max_assets, DEFAULT_MAX_ASSETS, MAX_DEVICES),
        ),
{
    let zones: Vec<ZoneTarget> = zone_targets(ledger);
    let seed: u64 = ledger.seed;
    let ghost c0 = cap@;
    let ghost ledger0 = *ledger;
    let hidden = as_set(&collect_hosts(cap));
    let mut changed: bool = false;
    proof {
        assert(zone_models(zones@).len() == zones@.len());
    }
    if zones.len() == 0 {
        remap_capture(cap, hints, seed, l3.remap_mac);
        thin(cap, &hidden, l3);
    } else {
        let groups = capture_groups(cap, hints, oui);
        let cap_assets: usize = effective_asset_cap(max_assets);
        let registered = registered_origins(ledger);
        let device_macs = device_mac_map(ledger);
        let budget: usize = cap_assets.saturating_sub(ledger.total_wire_assets());
        let (_, assets) = reconcile_capture_into_zones(
            cap,
            groups.as_slice(),
            zones.as_slice(),
            l3.zone_affinity,
            seed,
            l3.remap_mac,
            &registered,
            &device_macs,
            budget,
        );
        let ghost moved = cap@;
        changed = register_all(ledger, assets, cap_assets);
        thin(cap, &hidden, l3);
        proof {
            let gs = group_models(groups@);
            assert(input_of(zones@, l3.zone_affinity, seed, registered@) == plan_for(ledger0, *l3));
            assert(budget == room(ledger0, cap_assets));
            let done = plan_for(ledger0, *l3).reconcile(gs, budget as nat);
            let hm = HostMap {
                addrs: done.map,
                macs: device_macs@,
                seed,
                remap_mac: l3.remap_mac,
            };
            assert(moved == moved_capture(c0, hm));
            assert(reconciled_as(
                cap@,
                host_models(ledger.capture_hosts@),
                c0,
                ledger0,
                *l3,
                cap_assets,
                gs,
                device_macs@,
                hosts_in(frames(c0)),
            ));
        }
    }
    changed
}

fn as_set(hosts: &Vec<u32>) -> (r: HashSet<u32>)
    ensures
        r@ == hosts@.to_set(),
{
    let mut r: HashSet<u32> = HashSet::new();
    let mut i: usize = 0;
    while i < hosts.len()
        invariant
            i <= hosts@.len(),
            r@ == hosts@.take(i as int).to_set(),
        decreases hosts@.len() - i,
    {
        let ghost a = hosts@.take(i as int);
        r.insert(hosts[i]);
        proof {
            assert(hosts@.take(i as int + 1) =~= a.push(hosts@[i as int]));
            assert forall|x: u32| a.push(hosts@[i as int]).contains(x) <==> a.contains(x) || x
                == hosts@[i as int] by {
                let b = a.push(hosts@[i as int]);
                if a.contains(x) {
                    let k = choose|k: int| 0 <= k < a.len() && a[k] == x;
                    assert(b[k] == x);
                }
                if b.contains(x) && x != hosts@[i as int] {
                    let k = choose|k: int| 0 <= k < b.len() && b[k] == x;
                    assert(a[k] == x);
                }
                assert(b[i as int] == hosts@[i as int]);
            }
            assert(r@ =~= hosts@.take(i as int + 1).to_set());
        }
        i += 1;
    }
    proof {
        assert(hosts@.take(i as int) =~= hosts@);
    }
    r
}

fn thin(cap: &mut Capture, hidden: &HashSet<u32>, l3: &L3Cfg)
    ensures
        final(cap).header == old(cap).header,
        final(cap)@ == thinned(old(cap)@, hidden@, *l3),
{
    drop_embedding_frames(cap, hidden);
    drop_oversize_frames(cap, l3.max_frame_bytes);
    if !l3.replay_capture_arp {
        drop_arp_frames(cap);
    }
}

proof fn lemma_filter_from(
    s: Seq<PacketModel>,
    f: spec_fn(PacketModel) -> bool,
    i: int,
)
    requires
        0 <= i < s.filter(f).len(),
    ensures
        f(s.filter(f)[i]),
        exists|k: int| 0 <= k < s.len() && #[trigger] s[k] == s.filter(f)[i],
    decreases s.len(),
{
    reveal(Seq::filter);
    if s.len() > 0 {
        let sub = s.drop_last().filter(f);
        if i < sub.len() {
            lemma_filter_from(s.drop_last(), f, i);
            let k = choose|k: int|
                0 <= k < s.drop_last().len() && #[trigger] s.drop_last()[k] == sub[i];
            assert(s[k] == s.filter(f)[i]);
        } else {
            assert(s[s.len() - 1] == s.filter(f)[i]);
        }
    }
}

/// Every frame of a remapped capture is safe to send, holds none of the hidden
/// addresses in its payload, fits the link, and is no ARP message unless the
/// capture's own ARP was asked for.
pub proof fn law_remapped_frames_are_fit_to_send(
    c: Seq<PacketModel>,
    hm: HostMap,
    hidden: Set<u32>,
    l3: L3Cfg,
    i: int,
)
    requires
        0 <= i < thinned(moved_capture(c, hm), hidden, l3).len(),
    ensures
        ({
            let b = thinned(moved_capture(c, hm), hidden, l3)[i].data;
            &&& safe_frame(b)
            &&& !embeds(b, hidden)
            &&& b.len() <= l3.max_frame_bytes
            &&& l3.replay_capture_arp || !crate::proto::thin::is_arp(b)
        }),
{
    let all = c.map_values(|p: PacketModel| p.with_data(hm.frame(p.data)));
    let safe = |p: PacketModel| safe_frame(p.data);
    let moved = moved_capture(c, hm);
    let clean = moved.filter(clean_of(hidden));
    let short = clean.filter(fits(l3.max_frame_bytes as int));
    let mut j = i;
    if !l3.replay_capture_arp {
        lemma_filter_from(short, not_arp(), i);
        j = choose|k: int| 0 <= k < short.len() && #[trigger] short[k] == short.filter(not_arp())[i];
    }
    lemma_filter_from(clean, fits(l3.max_frame_bytes as int), j);
    let m = choose|k: int| 0 <= k < clean.len() && #[trigger] clean[k] == short[j];
    lemma_filter_from(moved, clean_of(hidden), m);
    let k = choose|k: int| 0 <= k < moved.len() && #[trigger] moved[k] == clean[m];
    lemma_filter_from(all, safe, k);
}

/// The wire never exceeds the plan: registering assets keeps the total within the
/// cap, and every host that was registered stays where it was.
pub proof fn law_wire_stays_within_plan(
    hosts: Seq<HostModel>,
    devices: nat,
    assets: Seq<AssetModel>,
    cap: nat,
)
    requires
        devices + hosts.len() <= cap,
    ensures
        devices + hosts_with(hosts, devices, assets, cap).len() <= cap,
        hosts.is_prefix_of(hosts_with(hosts, devices, assets, cap)),
    decreases assets.len(),
{
    if assets.len() > 0 {
        law_wire_stays_within_plan(hosts, devices, assets.drop_last(), cap);
    }
}

} // verus!
