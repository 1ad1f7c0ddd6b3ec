//! What holds of every reconciliation: which zone a capture group goes to, and
//! where each of its hosts ends up.

use vstd::prelude::*;
use crate::config::ZoneAffinity;
use crate::net::{first_free, net_text, span, Ipv4Net};
use crate::order::{ascending, by_key, lemma_ascending_contains, lemma_by_key_contains};
use crate::proto::l3::host_mac;
use crate::proto::reconcile::{
    all_reserved, best_zone, group_keys, is_lowest, law_best_zone_exists, law_place, lowest, place,
    ranks_before, ride_target, AssetModel, GroupModel, ReconcileInput, Reconciled, ZoneModel,
};
use crate::simulate::remap_laws::lemma_has_lowest;

verus! {

/// Under an affinity that looks at vendors, a group whose vendor has a zone goes
/// to a zone of that vendor, whatever the protocols, levels and room.
pub proof fn law_vendor_zone_wins(
    g: GroupModel,
    zones: Seq<ZoneModel>,
    affinity: ZoneAffinity,
    seed: u64,
    z: int,
)
    requires
        affinity == ZoneAffinity::Vendor || affinity == ZoneAffinity::Both,
        0 <= z < zones.len(),
        g.vendor is Some,
        zones[z].vendor == g.vendor,
    ensures
        0 <= best_zone(g, zones, affinity, seed) < zones.len(),
        zones[best_zone(g, zones, affinity, seed)].vendor == g.vendor,
{
    let b = best_zone(g, zones, affinity, seed);
    law_best_zone_exists(g, zones, affinity, seed);
    if b != z {
        assert(ranks_before(g, zones, affinity, seed, b, z));
    }
}

/// Under the protocol affinity, a group whose protocol has a zone goes to a zone
/// of that protocol.
pub proof fn law_protocol_zone_wins(g: GroupModel, zones: Seq<ZoneModel>, seed: u64, z: int)
    requires
        0 <= z < zones.len(),
        g.protocol is Some,
        zones[z].protocol == g.protocol,
    ensures
        0 <= best_zone(g, zones, ZoneAffinity::Protocol, seed) < zones.len(),
        zones[best_zone(g, zones, ZoneAffinity::Protocol, seed)].protocol == g.protocol,
{
    let b = best_zone(g, zones, ZoneAffinity::Protocol, seed);
    law_best_zone_exists(g, zones, ZoneAffinity::Protocol, seed);
    if b != z {
        assert(ranks_before(g, zones, ZoneAffinity::Protocol, seed, b, z));
    }
}

/// Under the combined affinity, the protocol decides between zones that the
/// vendor leaves equal: where a zone matches in both, so does the chosen one; and
/// where no zone has the group's vendor, one of its protocol is chosen if there
/// is any.
pub proof fn law_protocol_zone_is_second(g: GroupModel, zones: Seq<ZoneModel>, seed: u64, z: int)
    requires
        0 <= z < zones.len(),
        g.protocol is Some,
        zones[z].protocol == g.protocol,
        g.vendor is Some ==> zones[z].vendor == g.vendor || forall|k: int|
            0 <= k < zones.len() ==> (#[trigger] zones[k]).vendor != g.vendor,
    ensures
        0 <= best_zone(g, zones, ZoneAffinity::Both, seed) < zones.len(),
        zones[best_zone(g, zones, ZoneAffinity::Both, seed)].protocol == g.protocol,
        g.vendor is Some && zones[z].vendor == g.vendor ==> zones[best_zone(
            g,
            zones,
            ZoneAffinity::Both,
            seed,
        )].vendor == g.vendor,
{
    let b = best_zone(g, zones, ZoneAffinity::Both, seed);
    law_best_zone_exists(g, zones, ZoneAffinity::Both, seed);
    if b != z {
        assert(ranks_before(g, zones, ZoneAffinity::Both, seed, b, z));
    }
}

/// Under the combined affinity, the level decides between zones that vendor and
/// protocol leave equal: where a zone of the chosen one's vendor and protocol is
/// at the group's level, the chosen one is.
pub proof fn law_level_zone_is_third(g: GroupModel, zones: Seq<ZoneModel>, seed: u64, z: int)
    requires
        0 <= z < zones.len(),
        zones[z].purdue_level == g.purdue_level,
        zones[z].vendor == zones[best_zone(g, zones, ZoneAffinity::Both, seed)].vendor,
        zones[z].protocol == zones[best_zone(g, zones, ZoneAffinity::Both, seed)].protocol,
    ensures
        0 <= best_zone(g, zones, ZoneAffinity::Both, seed) < zones.len(),
        zones[best_zone(g, zones, ZoneAffinity::Both, seed)].purdue_level == g.purdue_level,
{
    let b = best_zone(g, zones, ZoneAffinity::Both, seed);
    law_best_zone_exists(g, zones, ZoneAffinity::Both, seed);
    if b != z {
        assert(ranks_before(g, zones, ZoneAffinity::Both, seed, b, z));
    }
}

/// Between zones of one vendor, protocol and level (of any, where the affinity is
/// off) the one with more free host addresses is chosen: the usable ones of its
/// network, without those of its devices.
pub proof fn law_roomier_zone_wins(
    g: GroupModel,
    zones: Seq<ZoneModel>,
    affinity: ZoneAffinity,
    seed: u64,
    z: int,
)
    requires
        0 <= z < zones.len(),
        zones[z].net.prefix <= 30,
        zones[z].reserved.len() < span(zones[z].net.prefix as int) - 2,
        affinity == ZoneAffinity::Off || {
            let b = zones[best_zone(g, zones, affinity, seed)];
            &&& zones[z].vendor == b.vendor
            &&& zones[z].protocol == b.protocol
            &&& zones[z].purdue_level == b.purdue_level
        },
    ensures
        0 <= best_zone(g, zones, affinity, seed) < zones.len(),
        ({
            let b = zones[best_zone(g, zones, affinity, seed)];
            &&& b.net.prefix <= 30
            &&& span(zones[z].net.prefix as int) - zones[z].reserved.len() <= span(
                b.net.prefix as int,
            ) - b.reserved.len()
        }),
{
    let b = best_zone(g, zones, affinity, seed);
    law_best_zone_exists(g, zones, affinity, seed);
    if b != z {
        assert(ranks_before(g, zones, affinity, seed, b, z));
    }
}

/// A host keeps its place in the subnet: where the address at its own offset is
/// neither the first nor the last of the network and is free, that is the one it
/// gets.
pub proof fn law_place_keeps_offset(net: Ipv4Net, taken: Set<u32>, host: u32, ip: u32)
    requires
        net.wf(),
        net.first() < ip < net.last(),
        (ip - net.first()) % (span(net.prefix as int) as int) == host as int % (span(
            net.prefix as int,
        ) as int),
        !taken.contains(ip),
    ensures
        place(net, taken, host) == Some(ip),
{
    net.lemma_bounds();
    let s = span(net.prefix as int) as int;
    let off: int = ip - net.first();
    assert(0 <= off < s);
    vstd::arithmetic::div_mod::lemma_small_mod(off as nat, s as nat);
}

proof fn lemma_first_free_is_lowest(lo: int, hi: int, taken: Set<u32>, ip: u32)
    requires
        0 <= lo <= ip,
        hi <= u32::MAX,
        first_free(lo, hi, taken) is Some,
        ip < first_free(lo, hi, taken)->0,
    ensures
        taken.contains(ip),
    decreases hi - lo + 1,
{
    if lo <= hi && taken.contains(lo as u32) && lo < ip {
        lemma_first_free_is_lowest(lo + 1, hi, taken, ip);
    }
}

/// A host whose own address is taken gets the lowest free host address.
pub proof fn law_place_falls_to_the_lowest(net: Ipv4Net, taken: Set<u32>, host: u32, ip: u32)
    requires
        net.wf(),
        place(net, taken, host) is Some,
        (place(net, taken, host)->0 - net.first()) != host as int % (span(
            net.prefix as int,
        ) as int),
        net.host_lo() <= ip < place(net, taken, host)->0,
    ensures
        taken.contains(ip),
{
    net.lemma_bounds();
    lemma_first_free_is_lowest(net.host_lo(), net.host_hi(), taken, ip);
}

/// A new asset stands for a host of its own in a zone: on an address of the
/// zone's network, with the zone's vendor, protocol, level and network text, and
/// with the stable MAC of its address.
pub open spec fn asset_of_zone(a: AssetModel, host: u32, z: ZoneModel, seed: u64) -> bool {
    &&& a.origin == host
    &&& z.net.has(a.ip as int)
    &&& !z.reserved.contains(a.ip)
    &&& a.mac == host_mac(seed, a.ip)
    &&& a.vendor == z.vendor
    &&& a.protocol == z.protocol
    &&& a.purdue_level == z.purdue_level
    &&& a.subnet_cidr == net_text(z.net)
}

/// No host address of the zone's network is left.
pub open spec fn zone_full(z: ZoneModel, taken: Set<u32>) -> bool {
    forall|ip: u32| z.net.host_lo() <= ip <= z.net.host_hi() ==> #[trigger] taken.contains(ip)
}

/// Where a host that was mapped ended up, its group's zone being `zi`: at its
/// registered asset; or at a new asset of that zone; or, only if the budget is
/// spent or the zone is full, at the lowest device of that zone, or, the zone
/// having none, at the lowest device of all.
pub open spec fn lands(input: ReconcileInput, st: Reconciled, zi: int, h: u32) -> bool {
    let at = st.map[h];
    let z = input.zones[zi];
    if input.registered.contains_key(h) {
        at == input.registered[h]
    } else {
        ||| exists|i: int|
            0 <= i < st.assets.len() && (#[trigger] st.assets[i]).ip == at && asset_of_zone(
                st.assets[i],
                h,
                z,
                input.seed,
            )
        ||| {
            &&& st.budget == 0 || zone_full(z, st.taken)
            &&& rides(input.zones, zi, at)
        }
    }
}

/// The address is the lowest device's of the zone, or, the zone having none, of
/// all zones.
pub open spec fn rides(zones: Seq<ZoneModel>, zi: int, at: u32) -> bool {
    let own = zones[zi].reserved;
    ||| own.contains(at) && forall|x: u32| #[trigger] own.contains(x) ==> at <= x
    ||| {
        &&& forall|x: u32| !(#[trigger] own.contains(x))
        &&& exists|i: int| 0 <= i < zones.len() && (#[trigger] zones[i]).reserved.contains(at)
        &&& forall|i: int, x: u32|
            0 <= i < zones.len() && #[trigger] zones[i].reserved.contains(x) ==> at <= x
    }
}

spec fn lands_by(input: ReconcileInput, g: GroupModel, st: Reconciled, h: u32) -> bool {
    g.hosts.contains(h) && lands(
        input,
        st,
        best_zone(g, input.zones, input.affinity, input.seed),
        h,
    )
}

/// Every mapped host belongs to one of the groups in line, or is of the group at
/// hand, and ended up as that group's zone has it.
spec fn all_land(
    input: ReconcileInput,
    groups: Seq<GroupModel>,
    order: Seq<usize>,
    st: Reconciled,
) -> bool {
    forall|h: u32| #[trigger]
        st.map.contains_key(h) ==> exists|k: int|
            0 <= k < order.len() && #[trigger] lands_by(input, groups[order[k] as int], st, h)
}

/// The second state is a later one.
spec fn later(st: Reconciled, next: Reconciled) -> bool {
    &&& next.budget <= st.budget
    &&& st.taken.subset_of(next.taken)
    &&& st.assets.len() <= next.assets.len()
    &&& forall|i: int| 0 <= i < st.assets.len() ==> #[trigger] st.assets[i] == next.assets[i]
}

proof fn lemma_lands_stays(
    input: ReconcileInput,
    st: Reconciled,
    next: Reconciled,
    zi: int,
    h: u32,
)
    requires
        lands(input, st, zi, h),
        st.map[h] == next.map[h],
        later(st, next),
    ensures
        lands(input, next, zi, h),
{
    if !input.registered.contains_key(h) {
        if exists|i: int|
            0 <= i < st.assets.len() && (#[trigger] st.assets[i]).ip == st.map[h] && asset_of_zone(
                st.assets[i],
                h,
                input.zones[zi],
                input.seed,
            ) {
            let i = choose|i: int|
                0 <= i < st.assets.len() && (#[trigger] st.assets[i]).ip == st.map[h]
                    && asset_of_zone(st.assets[i], h, input.zones[zi], input.seed);
            assert(next.assets[i] == st.assets[i]);
        } else if zone_full(input.zones[zi], st.taken) {
            assert(zone_full(input.zones[zi], next.taken));
        }
    }
}

/// One host more: it lands or nothing changes, and the others stay where they
/// were.
proof fn lemma_map_host_lands(input: ReconcileInput, st: Reconciled, zi: int, host: u32)
    requires
        0 <= zi < input.zones.len(),
        input.zones[zi].net.wf(),
        all_reserved(input.zones).subset_of(st.taken),
    ensures
        ({
            let r = input.map_host(st, zi, host);
            &&& later(st, r)
            &&& r == st || lands(input, r, zi, host)
            &&& forall|h: u32| #[trigger]
                r.map.contains_key(h) && h != host ==> st.map.contains_key(h) && st.map[h]
                    == r.map[h]
        }),
{
    let z = input.zones[zi];
    law_place(z.net, st.taken, host);
    let r = input.map_host(st, zi, host);
    assert forall|x: u32| #[trigger] z.reserved.contains(x) implies st.taken.contains(x) by {
        assert(input.zones[zi].reserved.contains(x));
        assert(all_reserved(input.zones).contains(x));
    }
    if input.registered.contains_key(host) {
    } else if st.budget > 0 && place(z.net, st.taken, host) is Some {
        assert(asset_of_zone(r.assets.last(), host, z, input.seed));
        assert(r.assets[st.assets.len() as int].ip == r.map[host]);
    } else if ride_target(input.zones, zi) is Some {
        let at = r.map[host];
        if exists|x: u32| z.reserved.contains(x) {
            let x = choose|x: u32| z.reserved.contains(x);
            lemma_has_lowest(z.reserved, x);
            assert(is_lowest(z.reserved, at));
        } else {
            assert(lowest(z.reserved) is None);
            let all = all_reserved(input.zones);
            assert(is_lowest(all, at));
            assert forall|i: int, x: u32|
                0 <= i < input.zones.len() && #[trigger] input.zones[i].reserved.contains(
                    x,
                ) implies at <= x by {
                assert(all.contains(x));
            }
        }
        assert(rides(input.zones, zi, at));
    }
}

proof fn lemma_map_hosts_land(input: ReconcileInput, st: Reconciled, zi: int, hosts: Seq<u32>)
    requires
        0 <= zi < input.zones.len(),
        input.zones[zi].net.wf(),
        all_reserved(input.zones).subset_of(st.taken),
    ensures
        ({
            let r = input.map_hosts(st, zi, hosts);
            &&& later(st, r)
            &&& forall|h: u32| #[trigger]
                r.map.contains_key(h) ==> (st.map.contains_key(h) && st.map[h] == r.map[h]) || (
                hosts.contains(h) && lands(input, r, zi, h))
        }),
    decreases hosts.len(),
{
    if hosts.len() > 0 {
        let head = hosts.drop_last();
        let mid = input.map_hosts(st, zi, head);
        lemma_map_hosts_land(input, st, zi, head);
        let r = input.map_hosts(st, zi, hosts);
        lemma_map_host_lands(input, mid, zi, hosts.last());
        assert forall|h: u32| #[trigger] r.map.contains_key(h) implies (st.map.contains_key(h)
            && st.map[h] == r.map[h]) || (hosts.contains(h) && lands(input, r, zi, h)) by {
            if r != mid && h == hosts.last() {
                assert(hosts[hosts.len() - 1] == h);
            } else {
                assert(mid.map.contains_key(h) && mid.map[h] == r.map[h]);
                if !(st.map.contains_key(h) && st.map[h] == mid.map[h]) {
                    lemma_lands_stays(input, mid, r, zi, h);
                    let k = choose|k: int| 0 <= k < head.len() && head[k] == h;
                    assert(hosts[k] == h);
                }
            }
        }
    }
}

proof fn lemma_map_groups_land(
    input: ReconcileInput,
    start: Reconciled,
    groups: Seq<GroupModel>,
    order: Seq<usize>,
)
    requires
        input.zones.len() > 0,
        forall|i: int| 0 <= i < input.zones.len() ==> (#[trigger] input.zones[i]).net.wf(),
        all_reserved(input.zones).subset_of(start.taken),
        start.map == Map::<u32, u32>::empty(),
    ensures
        later(start, input.map_groups(start, groups, order)),
        all_land(input, groups, order, input.map_groups(start, groups, order)),
    decreases order.len(),
{
    if order.len() > 0 {
        let head = order.drop_last();
        let prior = input.map_groups(start, groups, head);
        lemma_map_groups_land(input, start, groups, head);
        let g = groups[order.last() as int];
        let zi = best_zone(g, input.zones, input.affinity, input.seed);
        law_best_zone_exists(g, input.zones, input.affinity, input.seed);
        assert(input.zones[zi].net.wf());
        let reset = Reconciled { placed: false, ..prior };
        lemma_map_hosts_land(input, reset, zi, ascending(g.hosts));
        let mapped = input.map_hosts(reset, zi, ascending(g.hosts));
        let done = input.map_groups(start, groups, order);
        assert(done.map == mapped.map && done.assets == mapped.assets && done.taken == mapped.taken
            && done.budget == mapped.budget);
        assert(later(prior, done));
        assert forall|h: u32| #[trigger] done.map.contains_key(h) implies exists|k: int|
            0 <= k < order.len() && #[trigger] lands_by(
                input,
                groups[order[k] as int],
                done,
                h,
            ) by {
            if reset.map.contains_key(h) && reset.map[h] == mapped.map[h] {
                let k = choose|k: int|
                    0 <= k < head.len() && #[trigger] lands_by(
                        input,
                        groups[head[k] as int],
                        prior,
                        h,
                    );
                assert(head[k] == order[k]);
                let gk = groups[order[k] as int];
                lemma_lands_stays(
                    input,
                    prior,
                    done,
                    best_zone(gk, input.zones, input.affinity, input.seed),
                    h,
                );
                assert(lands_by(input, groups[order[k] as int], done, h));
            } else {
                lemma_ascending_contains(g.hosts, h);
                lemma_lands_stays(input, mapped, done, zi, h);
                assert(lands_by(input, groups[order[order.len() - 1] as int], done, h));
            }
        }
    }
}

/// Every mapped host belongs to a group, and is where a host of that group's zone
/// goes: at its registered asset, at a new asset of the zone, or, once the budget
/// is spent or the zone is full, on a device.
pub proof fn law_hosts_land_in_their_zone(
    input: ReconcileInput,
    groups: Seq<GroupModel>,
    budget: nat,
    h: u32,
) -> (gi: int)
    requires
        input.zones.len() > 0,
        forall|i: int| 0 <= i < input.zones.len() ==> (#[trigger] input.zones[i]).net.wf(),
        groups.len() <= usize::MAX,
        input.reconcile(groups, budget).map.contains_key(h),
    ensures
        0 <= gi < groups.len(),
        groups[gi].hosts.contains(h),
        lands(
            input,
            input.reconcile(groups, budget),
            best_zone(groups[gi], input.zones, input.affinity, input.seed),
            h,
        ),
{
    let order = by_key(group_keys(groups));
    lemma_map_groups_land(input, input.start(budget), groups, order);
    let done = input.reconcile(groups, budget);
    let k = choose|k: int|
        0 <= k < order.len() && #[trigger] lands_by(input, groups[order[k] as int], done, h);
    lemma_by_key_contains(group_keys(groups), order[k]);
    order[k] as int
}

/// A host of a group whose vendor has a zone, mapped under an affinity that looks
/// at vendors, becomes an asset of that vendor, on an address of one of that
/// vendor's zones; unless it is registered, or the budget ran out, or that zone
/// filled up.
pub proof fn law_hosts_land_with_their_vendor(
    input: ReconcileInput,
    g: GroupModel,
    budget: nat,
    h: u32,
    z: int,
)
    requires
        input.affinity == ZoneAffinity::Vendor || input.affinity == ZoneAffinity::Both,
        forall|i: int| 0 <= i < input.zones.len() ==> (#[trigger] input.zones[i]).net.wf(),
        0 <= z < input.zones.len(),
        g.vendor is Some,
        input.zones[z].vendor == g.vendor,
        !input.registered.contains_key(h),
        input.reconcile(seq![g], budget).map.contains_key(h),
        input.reconcile(seq![g], budget).budget > 0,
        forall|i: int|
            0 <= i < input.zones.len() && (#[trigger] input.zones[i]).vendor == g.vendor
                ==> !zone_full(input.zones[i], input.reconcile(seq![g], budget).taken),
    ensures
        exists|i: int, k: int|
            0 <= i < input.reconcile(seq![g], budget).assets.len()
                && 0 <= k < input.zones.len() && {
                let a = #[trigger] input.reconcile(seq![g], budget).assets[i];
                &&& a.origin == h
                &&& a.ip == input.reconcile(seq![g], budget).map[h]
                &&& a.vendor == g.vendor
                &&& (#[trigger] input.zones[k]).vendor == g.vendor
                &&& input.zones[k].net.has(a.ip as int)
                &&& a.subnet_cidr == net_text(input.zones[k].net)
            },
{
    let groups = seq![g];
    let gi = law_hosts_land_in_their_zone(input, groups, budget, h);
    law_vendor_zone_wins(g, input.zones, input.affinity, input.seed, z);
    let zi = best_zone(g, input.zones, input.affinity, input.seed);
    let done = input.reconcile(groups, budget);
    assert(groups[gi] == g);
    assert(!zone_full(input.zones[zi], done.taken));
    let i = choose|i: int|
        0 <= i < done.assets.len() && (#[trigger] done.assets[i]).ip == done.map[h]
            && asset_of_zone(done.assets[i], h, input.zones[zi], input.seed);
    assert(done.assets[i].origin == h && input.zones[zi].vendor == g.vendor);
}

} // verus!
