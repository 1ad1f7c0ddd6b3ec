//! What holds of every crossing: whom it reaches, who forwards it, and which zones
//! it joins.

use vstd::prelude::*;
use crate::ledger::{DeviceRecord, Session, SubnetRecord};
use crate::mac::mac_of;
use crate::net::ip_of;
use crate::order::{by_key, lemma_by_key_contains, text_before};
use crate::proto::l3::host_mac;
use crate::simulate::crossings::{
    class_mac, conduit, crossings, insert_zone, lemma_zones_at, level_crossings, pair_crossings,
    picked, server_keys, servers, sorted_servers, zone_crossings, zones_at, CrossingModel,
};
use crate::simulate::roles::station;
use crate::text::opt_text;

verus! {

/// The device serves in the zone: it carries an advisory, is neither a firewall
/// nor a router, and has the two addresses.
pub open spec fn serves(d: DeviceRecord, cidr: Seq<char>, ip: u32, mac: Seq<u8>) -> bool {
    &&& d.subnet_cidr@ == cidr
    &&& d.cves@.len() > 0
    &&& opt_text(d.asset_type) != Some("Firewall"@)
    &&& opt_text(d.asset_type) != Some("Router"@)
    &&& ip_of(d.ip@) == Some(ip)
    &&& mac_of(d.mac@) == mac
}

/// The servers of a zone are the devices that serve in it.
pub proof fn law_servers_serve(ds: Seq<DeviceRecord>, cidr: Seq<char>, ip: u32, mac: Seq<u8>)
    ensures
        servers(ds, cidr).contains((ip, mac)) <==> exists|i: int|
            0 <= i < ds.len() && serves(#[trigger] ds[i], cidr, ip, mac),
    decreases ds.len(),
{
    if ds.len() > 0 {
        let head = ds.drop_last();
        law_servers_serve(head, cidr, ip, mac);
        let r = servers(head, cidr);
        let all = servers(ds, cidr);
        if exists|i: int| 0 <= i < ds.len() && serves(#[trigger] ds[i], cidr, ip, mac) {
            let i = choose|i: int| 0 <= i < ds.len() && serves(#[trigger] ds[i], cidr, ip, mac);
            if i < head.len() {
                assert(serves(head[i], cidr, ip, mac));
                let k = choose|k: int| 0 <= k < r.len() && r[k] == (ip, mac);
                assert(all[k] == (ip, mac));
            } else {
                assert(all[r.len() as int] == (ip, mac));
            }
        }
        if all.contains((ip, mac)) {
            let k = choose|k: int| 0 <= k < all.len() && all[k] == (ip, mac);
            if k < r.len() {
                assert(r[k] == (ip, mac));
                let i = choose|i: int|
                    0 <= i < head.len() && serves(#[trigger] head[i], cidr, ip, mac);
                assert(serves(ds[i], cidr, ip, mac));
            } else {
                assert(serves(ds[ds.len() - 1], cidr, ip, mac));
            }
        }
    }
}

/// The device at `i` is the first of its class in either zone.
pub open spec fn first_of_class(
    ds: Seq<DeviceRecord>,
    north: Seq<char>,
    south: Seq<char>,
    class: Seq<char>,
    i: int,
) -> bool {
    &&& 0 <= i < ds.len()
    &&& in_either(ds[i], north, south, class)
    &&& forall|k: int| 0 <= k < i ==> !in_either(#[trigger] ds[k], north, south, class)
}

/// The device is of the class and stands in one of the two zones.
pub open spec fn in_either(
    d: DeviceRecord,
    north: Seq<char>,
    south: Seq<char>,
    class: Seq<char>,
) -> bool {
    (d.subnet_cidr@ == north || d.subnet_cidr@ == south) && opt_text(d.asset_type) == Some(class)
}

/// Neither zone has a device of the class.
pub open spec fn none_of_class(
    ds: Seq<DeviceRecord>,
    north: Seq<char>,
    south: Seq<char>,
    class: Seq<char>,
) -> bool {
    forall|k: int| 0 <= k < ds.len() ==> !in_either(#[trigger] ds[k], north, south, class)
}

proof fn lemma_class_mac(
    ds: Seq<DeviceRecord>,
    north: Seq<char>,
    south: Seq<char>,
    class: Seq<char>,
)
    ensures
        forall|i: int| #[trigger]
            first_of_class(ds, north, south, class, i) ==> class_mac(ds, north, south, class)
                == Some(mac_of(ds[i].mac@)),
        none_of_class(ds, north, south, class) ==> class_mac(ds, north, south, class) is None,
    decreases ds.len(),
{
    if ds.len() > 0 {
        let head = ds.drop_last();
        let n = ds.len() - 1;
        lemma_class_mac(head, north, south, class);
        assert forall|i: int| #[trigger]
            first_of_class(ds, north, south, class, i) implies class_mac(ds, north, south, class)
            == Some(mac_of(ds[i].mac@)) by {
            if i < n {
                assert(head[i] == ds[i]);
                assert forall|k: int| 0 <= k < i implies !in_either(
                    #[trigger] head[k],
                    north,
                    south,
                    class,
                ) by {
                    assert(head[k] == ds[k]);
                }
                assert(first_of_class(head, north, south, class, i));
            } else {
                assert forall|k: int| 0 <= k < head.len() implies !in_either(
                    #[trigger] head[k],
                    north,
                    south,
                    class,
                ) by {
                    assert(head[k] == ds[k]);
                }
            }
        }
        if none_of_class(ds, north, south, class) {
            assert forall|k: int| 0 <= k < head.len() implies !in_either(
                #[trigger] head[k],
                north,
                south,
                class,
            ) by {
                assert(head[k] == ds[k]);
            }
            assert(!in_either(ds[n], north, south, class));
        }
    }
}

/// A crossing is forwarded by the first router of the two zones; without one by
/// their first firewall; without one by their first switch; and without one by the
/// north station itself.
pub proof fn law_conduits_go_by_class(
    ds: Seq<DeviceRecord>,
    north: Seq<char>,
    south: Seq<char>,
    station_mac: Seq<u8>,
)
    ensures
        ({
            let c = conduit(ds, north, south, station_mac);
            &&& forall|i: int| #[trigger]
                first_of_class(ds, north, south, "Router"@, i) ==> c == mac_of(ds[i].mac@)
            &&& none_of_class(ds, north, south, "Router"@) ==> {
                &&& forall|i: int| #[trigger]
                    first_of_class(ds, north, south, "Firewall"@, i) ==> c == mac_of(ds[i].mac@)
                &&& none_of_class(ds, north, south, "Firewall"@) ==> {
                    &&& forall|i: int| #[trigger]
                        first_of_class(ds, north, south, "Switch"@, i) ==> c == mac_of(ds[i].mac@)
                    &&& none_of_class(ds, north, south, "Switch"@) ==> c == station_mac
                }
            }
        }),
{
    lemma_class_mac(ds, north, south, "Router"@);
    lemma_class_mac(ds, north, south, "Firewall"@);
    lemma_class_mac(ds, north, south, "Switch"@);
}

proof fn lemma_insert_keeps(list: Seq<usize>, i: usize, zs: Seq<SubnetRecord>, x: usize)
    ensures
        insert_zone(list, i, zs).contains(x) <==> list.contains(x) || x == i,
    decreases list.len(),
{
    let done = insert_zone(list, i, zs);
    if list.len() == 0 || !text_before(zs[i as int].cidr@, zs[list.last() as int].cidr@) {
        if list.contains(x) {
            let k = choose|k: int| 0 <= k < list.len() && list[k] == x;
            assert(done[k] == x);
        }
        assert(done[list.len() as int] == i);
        if done.contains(x) && x != i {
            let k = choose|k: int| 0 <= k < done.len() && done[k] == x;
            assert(list[k] == x);
        }
    } else {
        let head = list.drop_last();
        let r = insert_zone(head, i, zs);
        lemma_insert_keeps(head, i, zs, x);
        if r.contains(x) {
            let k = choose|k: int| 0 <= k < r.len() && r[k] == x;
            assert(done[k] == x);
        }
        assert(done[r.len() as int] == list.last());
        if list.contains(x) {
            let k = choose|k: int| 0 <= k < list.len() && list[k] == x;
            if k < head.len() {
                assert(head[k] == x);
            }
        }
        if head.contains(x) {
            let k = choose|k: int| 0 <= k < head.len() && head[k] == x;
            assert(list[k] == x);
        }
        if done.contains(x) {
            let k = choose|k: int| 0 <= k < done.len() && done[k] == x;
            if k < r.len() {
                assert(r[k] == x);
            } else {
                assert(list[list.len() - 1] == x);
            }
        }
    }
}

/// Every zone of a level is in the level's list.
proof fn lemma_zone_listed(zs: Seq<SubnetRecord>, level: int, n: nat, i: int)
    requires
        0 <= i < n <= zs.len(),
        zs.len() <= usize::MAX,
        zs[i].purdue_level == level,
    ensures
        zones_at(zs, level, n).contains(i as usize),
    decreases n,
{
    let r = zones_at(zs, level, (n - 1) as nat);
    if i < n - 1 {
        lemma_zone_listed(zs, level, (n - 1) as nat, i);
    }
    if zs[n - 1].purdue_level == level {
        lemma_insert_keeps(r, (n - 1) as usize, zs, i as usize);
    }
}

proof fn lemma_pair_has(
    s: Session,
    seed: u64,
    max: int,
    norths: Seq<usize>,
    souths: Seq<usize>,
    k: int,
    c: CrossingModel,
)
    requires
        0 <= k < norths.len(),
        souths.len() > 0,
        zone_crossings(s, seed, max, norths[k] as int, souths).contains(c),
    ensures
        pair_crossings(s, seed, max, norths, souths).contains(c),
    decreases norths.len(),
{
    let head = norths.drop_last();
    let a = pair_crossings(s, seed, max, head, souths);
    let b = zone_crossings(s, seed, max, norths.last() as int, souths);
    let all = pair_crossings(s, seed, max, norths, souths);
    assert(all == a + b);
    if k < head.len() {
        assert(head[k] == norths[k]);
        lemma_pair_has(s, seed, max, head, souths, k, c);
        let j = choose|j: int| 0 <= j < a.len() && a[j] == c;
        assert(all[j] == c);
    } else {
        let j = choose|j: int| 0 <= j < b.len() && b[j] == c;
        assert(all[a.len() + j] == c);
    }
}

proof fn lemma_level_has(s: Session, seed: u64, max: int, level: nat, top: nat, c: CrossingModel)
    requires
        0 < level <= top,
        pair_crossings(
            s,
            seed,
            max,
            zones_at(s.subnets@, level as int, s.subnets@.len()),
            zones_at(s.subnets@, level - 1, s.subnets@.len()),
        ).contains(c),
    ensures
        level_crossings(s, seed, max, top).contains(c),
    decreases top,
{
    let n = s.subnets@.len();
    let a = level_crossings(s, seed, max, (top - 1) as nat);
    let b = pair_crossings(
        s,
        seed,
        max,
        zones_at(s.subnets@, top as int, n),
        zones_at(s.subnets@, top - 1, n),
    );
    let all = level_crossings(s, seed, max, top);
    assert(all == a + b);
    if level < top {
        lemma_level_has(s, seed, max, level, (top - 1) as nat, c);
        let j = choose|j: int| 0 <= j < a.len() && a[j] == c;
        assert(all[j] == c);
    } else {
        let j = choose|j: int| 0 <= j < b.len() && b[j] == c;
        assert(all[a.len() + j] == c);
    }
}

/// No zone is left out: where every zone one level below has a device that serves,
/// and there is such a zone, a crossing goes from the zone's station to a device
/// that serves in one of them, forwarded as those two zones have it.
pub proof fn law_every_zone_reaches_down(s: Session, seed: u64, max: int, north: int) -> (r: (
    CrossingModel,
    int,
))
    requires
        max > 0,
        s.subnets@.len() <= usize::MAX,
        s.devices@.len() <= usize::MAX,
        0 <= north < s.subnets@.len(),
        s.subnets@[north].purdue_level > 0,
        exists|z: int|
            0 <= z < s.subnets@.len() && (#[trigger] s.subnets@[z]).purdue_level + 1
                == s.subnets@[north].purdue_level,
        forall|z: int|
            0 <= z < s.subnets@.len() && (#[trigger] s.subnets@[z]).purdue_level + 1
                == s.subnets@[north].purdue_level ==> servers(
                s.devices@,
                s.subnets@[z].cidr@,
            ).len() > 0,
    ensures
        crossings(s, seed, max).contains(r.0),
        r.0.north_ip == station(s.subnets@[north].cidr@),
        0 <= r.1 < s.subnets@.len(),
        s.subnets@[r.1].purdue_level + 1 == s.subnets@[north].purdue_level,
        exists|i: int|
            0 <= i < s.devices@.len() && serves(
                #[trigger] s.devices@[i],
                s.subnets@[r.1].cidr@,
                r.0.south_ip,
                r.0.south_mac,
            ),
        r.0.conduit_mac == conduit(
            s.devices@,
            s.subnets@[north].cidr@,
            s.subnets@[r.1].cidr@,
            host_mac(seed, station(s.subnets@[north].cidr@)),
        ),
{
    let zs = s.subnets@;
    let n = zs.len();
    let level = zs[north].purdue_level as int;
    let norths = zones_at(zs, level, n);
    let souths = zones_at(zs, level - 1, n);
    lemma_zones_at(zs, level, n);
    lemma_zones_at(zs, level - 1, n);
    lemma_zone_listed(zs, level, n, north);
    let z0 = choose|z: int|
        0 <= z < zs.len() && (#[trigger] zs[z]).purdue_level + 1 == zs[north].purdue_level;
    lemma_zone_listed(zs, level - 1, n, z0);
    let k = choose|k: int| 0 <= k < norths.len() && norths[k] == north as usize;
    let p = picked(seed, zs[north].cidr@, souths.len() as int);
    assert(0 <= p < souths.len());
    let z = souths[p] as int;
    assert(zs[z].purdue_level == level - 1);
    let sv = servers(s.devices@, zs[z].cidr@);
    let sorted = sorted_servers(s.devices@, zs[z].cidr@);
    let own = zone_crossings(s, seed, max, north, souths);
    let order = by_key(server_keys(sv));
    lemma_servers_few(s.devices@, zs[z].cidr@);
    lemma_by_key_contains(server_keys(sv), 0);
    assert(order.len() > 0);
    lemma_by_key_contains(server_keys(sv), order[0]);
    assert(order.contains(order[0]));
    assert(sorted[0] == sv[order[0] as int]);
    let c = own[0];
    assert(own.contains(c));
    assert(sv.contains((c.south_ip, c.south_mac)));
    law_servers_serve(s.devices@, zs[z].cidr@, c.south_ip, c.south_mac);
    lemma_pair_has(s, seed, max, norths, souths, k, c);
    lemma_level_has(s, seed, max, level as nat, 255, c);
    (c, z)
}

proof fn lemma_servers_few(ds: Seq<DeviceRecord>, cidr: Seq<char>)
    ensures
        servers(ds, cidr).len() <= ds.len(),
    decreases ds.len(),
{
    if ds.len() > 0 {
        lemma_servers_few(ds.drop_last(), cidr);
    }
}

} // verus!
