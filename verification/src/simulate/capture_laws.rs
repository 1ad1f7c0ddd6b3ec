//! What holds of every capture brought into a plan: what its zones offer, what its
//! hosts are taken for, which frames stay, and what is registered.

use vstd::prelude::*;
use crate::bytes::be32;
use crate::config::L3Cfg;
use crate::ledger::{DeviceRecord, HostModel, SubnetRecord};
use crate::mac::mac_text;
use crate::net::{cidr_net, ip_of, ip_text, lemma_ip_of, Ipv4Net};
use crate::pcapio::PacketModel;
use crate::proto::frame::{layout_of, FrameLayout, L3Kind, L4Kind};
use crate::proto::l3::group;
use crate::proto::reconcile::{port_protocol, AssetModel, ZoneModel};
use crate::proto::thin::{clean_of, embeds, fits, is_arp, not_arp};
use crate::simulate::remap::{
    first_in, host_at, host_of, hosts_with, origins, targets_of, thinned, vote_of,
};
use crate::simulate::zones::{first_mac, level_of, sender, tally, winner, wins};
use crate::text::{holds, opt_text};

verus! {

/// The device at `j` is the first of the zone.
pub open spec fn first_of_zone(ds: Seq<DeviceRecord>, cidr: Seq<char>, j: int) -> bool {
    &&& 0 <= j < ds.len()
    &&& ds[j].subnet_cidr@ == cidr
    &&& forall|k: int| 0 <= k < j ==> (#[trigger] ds[k]).subnet_cidr@ != cidr
}

/// The target offers the zone: its network, its vendor, its level, the protocol of
/// its first device, and the addresses of its devices as taken.
pub open spec fn offers(t: ZoneModel, s: SubnetRecord, ds: Seq<DeviceRecord>) -> bool {
    &&& cidr_net(s.cidr@) == Some(t.net)
    &&& t.vendor == opt_text(s.vendor)
    &&& t.purdue_level == s.purdue_level
    &&& forall|j: int| #[trigger]
        first_of_zone(ds, s.cidr@, j) ==> t.protocol == Some(ds[j].protocol@)
    &&& (forall|j: int| 0 <= j < ds.len() ==> (#[trigger] ds[j]).subnet_cidr@ != s.cidr@)
        ==> t.protocol is None
    &&& forall|ip: u32| #[trigger]
        t.reserved.contains(ip) <==> exists|j: int|
            0 <= j < ds.len() && (#[trigger] ds[j]).subnet_cidr@ == s.cidr@ && ip_of(ds[j].ip@)
                == Some(ip)
}

proof fn lemma_first_in(ds: Seq<DeviceRecord>, cidr: Seq<char>)
    ensures
        forall|j: int| #[trigger]
            first_of_zone(ds, cidr, j) ==> first_in(ds, cidr) == Some(ds[j]),
        (forall|j: int| 0 <= j < ds.len() ==> (#[trigger] ds[j]).subnet_cidr@ != cidr) ==> first_in(
            ds,
            cidr,
        ) is None,
    decreases ds.len(),
{
    if ds.len() > 0 {
        let rest = ds.drop_first();
        lemma_first_in(rest, cidr);
        if ds[0].subnet_cidr@ != cidr {
            assert forall|j: int| #[trigger] first_of_zone(ds, cidr, j) implies first_in(ds, cidr)
                == Some(ds[j]) by {
                assert(rest[j - 1] == ds[j]);
                assert forall|k: int| 0 <= k < j - 1 implies (#[trigger] rest[k]).subnet_cidr@
                    != cidr by {
                    assert(rest[k] == ds[k + 1]);
                }
                assert(first_of_zone(rest, cidr, j - 1));
            }
            if forall|j: int| 0 <= j < ds.len() ==> (#[trigger] ds[j]).subnet_cidr@ != cidr {
                assert forall|j: int| 0 <= j < rest.len() implies (#[trigger] rest[j]).subnet_cidr@
                    != cidr by {
                    assert(rest[j] == ds[j + 1]);
                }
            }
        } else {
            assert forall|j: int| #[trigger] first_of_zone(ds, cidr, j) implies j == 0 by {
                if j > 0 {
                    assert(ds[0].subnet_cidr@ != cidr);
                }
            }
        }
    }
}

/// Every target offers a zone of the plant.
pub proof fn law_targets_offer_zones(
    ds: Seq<DeviceRecord>,
    subnets: Seq<SubnetRecord>,
    k: int,
) -> (i: int)
    requires
        0 <= k < targets_of(ds, subnets).len(),
    ensures
        0 <= i < subnets.len(),
        offers(targets_of(ds, subnets)[k], subnets[i], ds),
    decreases subnets.len(),
{
    let prior = targets_of(ds, subnets.drop_last());
    if k < prior.len() {
        law_targets_offer_zones(ds, subnets.drop_last(), k)
    } else {
        let s = subnets.last();
        lemma_first_in(ds, s.cidr@);
        assert(offers(targets_of(ds, subnets)[k], s, ds));
        subnets.len() - 1
    }
}

/// Every zone of the plant whose text is a network is offered.
pub proof fn law_zones_are_offered(
    ds: Seq<DeviceRecord>,
    subnets: Seq<SubnetRecord>,
    i: int,
) -> (k: int)
    requires
        0 <= i < subnets.len(),
        cidr_net(subnets[i].cidr@) is Some,
    ensures
        0 <= k < targets_of(ds, subnets).len(),
        offers(targets_of(ds, subnets)[k], subnets[i], ds),
    decreases subnets.len(),
{
    if i == subnets.len() - 1 {
        lemma_first_in(ds, subnets[i].cidr@);
        let k = targets_of(ds, subnets).len() - 1;
        assert(offers(targets_of(ds, subnets)[k], subnets[i], ds));
        k
    } else {
        let k = law_zones_are_offered(ds, subnets.drop_last(), i);
        assert(targets_of(ds, subnets)[k] == targets_of(ds, subnets.drop_last())[k]);
        k
    }
}

/// The record registers the asset: under the host's own address, at the asset's
/// address, with all that the asset says.
#[verifier::opaque]
pub open spec fn registers(h: HostModel, a: AssetModel) -> bool {
    &&& h.origin_ip == ip_text(a.origin)
    &&& h.ip == ip_text(a.ip)
    &&& h.mac == mac_text(a.mac)
    &&& h.vendor == a.vendor
    &&& h.protocol == a.protocol
    &&& h.purdue_level == a.purdue_level
    &&& h.subnet_cidr == a.subnet_cidr
    &&& h.hostname is None
    &&& h.asset_type is None
}

proof fn lemma_registers(a: AssetModel)
    ensures
        registers(host_of(a), a),
{
    reveal(registers);
}

proof fn lemma_one_more(hosts: Seq<HostModel>, devices: nat, assets: Seq<AssetModel>, cap: nat)
    requires
        assets.len() > 0,
    ensures
        ({
            let prior = hosts_with(hosts, devices, assets.drop_last(), cap);
            let done = hosts_with(hosts, devices, assets, cap);
            done == prior || done == prior.push(host_of(assets.last()))
        }),
{
}

/// Every record added registers one of the assets.
#[verifier::rlimit(60)]
pub proof fn law_records_register_assets(
    hosts: Seq<HostModel>,
    devices: nat,
    assets: Seq<AssetModel>,
    cap: nat,
    j: int,
) -> (i: int)
    requires
        hosts.len() <= j < hosts_with(hosts, devices, assets, cap).len(),
    ensures
        0 <= i < assets.len(),
        registers(hosts_with(hosts, devices, assets, cap)[j], assets[i]),
    decreases assets.len(),
{
    let head = assets.drop_last();
    let prior = hosts_with(hosts, devices, head, cap);
    let done = hosts_with(hosts, devices, assets, cap);
    assert(assets.len() > 0);
    lemma_one_more(hosts, devices, assets, cap);
    if j < prior.len() {
        let i = law_records_register_assets(hosts, devices, head, cap, j);
        assert(done[j] == prior[j]);
        assert(head[i] == assets[i]);
        i
    } else {
        assert(done[j] == host_of(assets.last()));
        lemma_registers(assets.last());
        assets.len() - 1
    }
}

/// While the cap allows, an asset whose address has no record is registered: at
/// the end its address has a record, or the cap is reached.
pub proof fn law_assets_are_registered(
    hosts: Seq<HostModel>,
    devices: nat,
    assets: Seq<AssetModel>,
    cap: nat,
    i: int,
)
    requires
        0 <= i < assets.len(),
    ensures
        devices + hosts_with(hosts, devices, assets, cap).len() >= cap || host_at(
            hosts_with(hosts, devices, assets, cap),
            ip_text(assets[i].ip),
        ),
    decreases assets.len(),
{
    let prior = hosts_with(hosts, devices, assets.drop_last(), cap);
    let done = hosts_with(hosts, devices, assets, cap);
    if i == assets.len() - 1 {
        if devices + prior.len() < cap && !host_at(prior, ip_text(assets[i].ip)) {
            assert(done[prior.len() as int].ip == ip_text(assets[i].ip));
        }
    } else {
        law_assets_are_registered(hosts, devices, assets.drop_last(), cap, i);
        if host_at(prior, ip_text(assets[i].ip)) {
            let k = choose|k: int|
                0 <= k < prior.len() && (#[trigger] prior[k]).ip == ip_text(assets[i].ip);
            assert(done[k] == prior[k]);
        }
    }
}

/// A host is looked up under its own address, and gives the address of its last
/// record.
pub proof fn law_host_is_found_by_its_origin(hosts: Seq<HostModel>, k: int, o: u32, n: u32)
    requires
        0 <= k < hosts.len(),
        hosts[k].origin_ip == ip_text(o),
        hosts[k].ip == ip_text(n),
        forall|j: int| k < j < hosts.len() ==> (#[trigger] hosts[j]).origin_ip != ip_text(o),
    ensures
        origins(hosts).contains_key(o),
        origins(hosts)[o] == n,
    decreases hosts.len(),
{
    lemma_ip_of(o);
    lemma_ip_of(n);
    if k < hosts.len() - 1 {
        let head = hosts.drop_last();
        assert(head[k] == hosts[k]);
        assert forall|j: int| k < j < head.len() implies (#[trigger] head[j]).origin_ip != ip_text(
            o,
        ) by {
            assert(head[j] == hosts[j]);
        }
        law_host_is_found_by_its_origin(head, k, o, n);
        let last = hosts[hosts.len() - 1];
        assert(last.origin_ip != ip_text(o));
    }
}

/// Only what is not to be sent is taken out: a packet whose payload holds none of
/// the addresses, that fits the link, and that is no ARP message unless that is
/// asked for, stays.
pub proof fn law_thinning_keeps_the_rest(
    c: Seq<PacketModel>,
    hosts: Set<u32>,
    l3: L3Cfg,
    i: int,
)
    requires
        0 <= i < c.len(),
        !embeds(c[i].data, hosts),
        c[i].data.len() <= l3.max_frame_bytes,
        l3.replay_capture_arp || !is_arp(c[i].data),
    ensures
        thinned(c, hosts, l3).contains(c[i]),
{
    let clean = c.filter(clean_of(hosts));
    c.lemma_filter_contains(clean_of(hosts), i);
    let a = choose|a: int| 0 <= a < clean.len() && clean[a] == c[i];
    let f = fits(l3.max_frame_bytes as int);
    let short = clean.filter(f);
    clean.lemma_filter_contains(f, a);
    if !l3.replay_capture_arp {
        let b = choose|b: int| 0 <= b < short.len() && short[b] == c[i];
        short.lemma_filter_contains(not_arp(), b);
    }
}

proof fn lemma_tally_counts(votes: Seq<Seq<char>>, v: Seq<char>)
    ensures
        tally(votes, v) == votes.to_multiset().count(v),
        votes.to_multiset().len() == votes.len(),
    decreases votes.len(),
{
    votes.to_multiset_ensures();
    if votes.len() > 0 {
        let head = votes.drop_last();
        head.to_multiset_ensures();
        lemma_tally_counts(head, v);
        assert(votes =~= head.push(votes.last()));
    } else {
        assert(votes =~= Seq::empty());
        if votes.to_multiset().count(v) > 0 {
            assert(votes.contains(v));
        }
    }
}

/// Some vote is cast as often as any and more often than any before it.
proof fn lemma_some_vote_wins(votes: Seq<Seq<char>>, n: int) -> (i: int)
    requires
        0 < n <= votes.len(),
    ensures
        0 <= i < n,
        forall|j: int|
            0 <= j < n ==> tally(votes, #[trigger] votes[j]) <= tally(votes, votes[i]),
        forall|j: int| 0 <= j < i ==> tally(votes, #[trigger] votes[j]) < tally(votes, votes[i]),
    decreases n,
{
    if n == 1 {
        0
    } else {
        let i = lemma_some_vote_wins(votes, n - 1);
        if tally(votes, votes[n - 1]) > tally(votes, votes[i]) {
            n - 1
        } else {
            i
        }
    }
}

/// A zone is taken for the vendor that most of its hosts are of: no other vendor
/// is counted more often.
pub proof fn law_most_frequent_vendor_wins(votes: Seq<Seq<char>>, other: Seq<char>)
    requires
        votes.len() > 0,
    ensures
        winner(votes) is Some,
        votes.contains(winner(votes)->0),
        votes.to_multiset().count(other) <= votes.to_multiset().count(winner(votes)->0),
{
    let w = lemma_some_vote_wins(votes, votes.len() as int);
    assert(wins(votes, w));
    let i = choose|i: int| wins(votes, i);
    assert(wins(votes, i));
    assert(votes[i] == winner(votes)->0);
    lemma_tally_counts(votes, other);
    lemma_tally_counts(votes, votes[i]);
    votes.to_multiset_ensures();
    if votes.to_multiset().count(other) > 0 {
        assert(votes.contains(other));
        let j = choose|j: int| 0 <= j < votes.len() && votes[j] == other;
        assert(tally(votes, votes[j]) <= tally(votes, votes[i]));
    }
}

/// A zone without a known vendor is an operations zone; one of a switch maker is
/// supervisory, and one of a controller maker, if it is no switch maker, basic
/// control.
pub proof fn law_levels_follow_vendors(v: Seq<char>)
    ensures
        level_of(None) == 3,
        holds(v, "Cisco"@) || holds(v, "Hirschmann"@) || holds(v, "Moxa"@) ==> level_of(Some(v))
            == 2,
        (holds(v, "Siemens"@) || holds(v, "Rockwell"@) || holds(v, "Schneider"@)) && !(holds(
            v,
            "Cisco"@,
        ) || holds(v, "Hirschmann"@) || holds(v, "Moxa"@) || holds(v, "Belden"@) || holds(
            v,
            "Westermo"@,
        )) ==> level_of(Some(v)) == 1,
        1 <= level_of(Some(v)) <= 3,
{
}

/// The service ports of the OT protocols, and no others, stand for a protocol.
pub proof fn law_service_ports(port: u16)
    ensures
        port_protocol(502) == Some("modbus"@),
        port_protocol(102) == Some("s7"@),
        port_protocol(44818) == Some("enip"@),
        port_protocol(2222) == Some("enip"@),
        port_protocol(161) == Some("switch_snmp"@),
        port_protocol(162) == Some("switch_snmp"@),
        port_protocol(20000) == Some("dnp3"@),
        port_protocol(port) is Some ==> port == 502 || port == 102 || port == 44818 || port == 2222
            || port == 161 || port == 162 || port == 20000,
{
}

/// The frame is sent by the host.
pub open spec fn sends(b: Seq<u8>, ip: u32) -> bool {
    match sender(b) {
        Some((from, _)) => from == ip,
        None => false,
    }
}

/// A host is taken for the vendor of the hardware address from which it first
/// sends.
pub proof fn law_host_is_known_by_its_first_frame(fs: Seq<Seq<u8>>, i: int, ip: u32, mac: Seq<u8>)
    requires
        0 <= i < fs.len(),
        sender(fs[i]) == Some((ip, mac)),
        forall|j: int|
            0 <= j < i ==> !sends(#[trigger] fs[j], ip),
    ensures
        first_mac(fs, ip) == Some(mac),
    decreases fs.len(),
{
    let head = fs.drop_last();
    if i < head.len() {
        assert(head[i] == fs[i]);
        assert forall|j: int| 0 <= j < i implies !sends(#[trigger] head[j], ip) by {
            assert(head[j] == fs[j]);
        }
        law_host_is_known_by_its_first_frame(head, i, ip, mac);
    } else {
        assert forall|j: int| 0 <= j < head.len() implies !sends(#[trigger] head[j], ip) by {
            assert(head[j] == fs[j]);
        }
        lemma_never_sends(head, ip);
    }
}

proof fn lemma_never_sends(fs: Seq<Seq<u8>>, ip: u32)
    requires
        forall|j: int|
            0 <= j < fs.len() ==> !sends(#[trigger] fs[j], ip),
    ensures
        first_mac(fs, ip) is None,
    decreases fs.len(),
{
    if fs.len() > 0 {
        let head = fs.drop_last();
        assert forall|j: int| 0 <= j < head.len() implies !sends(#[trigger] head[j], ip) by {
            assert(head[j] == fs[j]);
        }
        lemma_never_sends(head, ip);
        assert(!sends(fs[fs.len() - 1], ip));
    }
}

/// The sender of an untagged IPv4 frame is the address at byte 26, and it sends
/// from the hardware address at byte 6.
pub proof fn law_sender_of_an_ipv4_frame(b: Seq<u8>)
    requires
        b.len() >= 34,
        b[12] == 0x08 && b[13] == 0x00,
        layout_of(b) is Some,
    ensures
        sender(b) == Some((be32(b, 26) as u32, b.subrange(6, 12))),
{
    assert(layout_of(b)->0.l3 == 14);
}

/// A TCP or UDP frame votes in the groups of its two addresses, for the protocol of
/// its destination port, or, where that stands for none, of its source port; a
/// frame with neither casts no vote.
pub proof fn law_frames_vote_by_service_port(b: Seq<u8>, hints: Seq<Ipv4Net>, l: FrameLayout)
    requires
        layout_of(b) == Some(l),
        l.l3_kind == L3Kind::Ipv4,
        l.l4_kind != L4Kind::Other,
        b.len() >= l.l4 + 4,
        b.len() >= l.l3 + 20,
    ensures
        ({
            let to = (b[l.l4 + 2] as int * 256 + b[l.l4 + 3] as int) as u16;
            let from = (b[l.l4 as int] as int * 256 + b[l.l4 + 1] as int) as u16;
            let src = group(be32(b, l.l3 + 12) as u32, hints);
            let dst = group(be32(b, l.l3 + 16) as u32, hints);
            &&& port_protocol(to) is Some ==> vote_of(b, hints) == Some(
                (port_protocol(to)->0, src, dst),
            )
            &&& port_protocol(to) is None && port_protocol(from) is Some ==> vote_of(b, hints)
                == Some((port_protocol(from)->0, src, dst))
            &&& port_protocol(to) is None && port_protocol(from) is None ==> vote_of(b, hints)
                is None
        }),
{
}

} // verus!
