//! North-south traffic across adjacent Purdue zones, forwarded by a conduit.

use vstd::prelude::*;
use vstd::string::StringSliceAdditionalSpecFns;
use vstd::utf8::encode_utf8;
use crate::ledger::{DeviceRecord, Session, SubnetRecord};
use crate::mac::{mac_of, parse_mac};
use crate::net::{ip_of, parse_ip};
use crate::order::{by_key, sort_by_key, text_before, text_less};
use crate::proto::l3::{host_mac, stable_mac};
use crate::simulate::roles::{station, station_addr};
use crate::text::{opt_is, opt_text, str_eq};

verus! {

/// A north-south crossing: a supervisory client in a higher Purdue zone reaching
/// a CVE-bearing device in an adjacent lower zone, forwarded by a conduit. It
/// carries no ARP, so it never multi-homes a MAC.
#[derive(Clone, Copy, Debug, PartialEq, Eq)]
pub struct Crossing {
    /// The supervisory client's IP (the higher zone's station).
    pub north_ip: u32,
    /// The field server in the adjacent lower zone (its real IP and MAC).
    pub south_ip: u32,
    pub south_mac: [u8; 6],
    /// The L2 forwarder the sensor sees on the crossing: the zone-edge router or
    /// firewall, else a switch, else the north station.
    pub conduit_mac: [u8; 6],
}

/// What a crossing says.
pub struct CrossingModel {
    pub north_ip: u32,
    pub south_ip: u32,
    pub south_mac: Seq<u8>,
    pub conduit_mac: Seq<u8>,
}

impl View for Crossing {
    type V = CrossingModel;

    open spec fn view(&self) -> CrossingModel {
        CrossingModel {
            north_ip: self.north_ip,
            south_ip: self.south_ip,
            south_mac: self.south_mac@,
            conduit_mac: self.conduit_mac@,
        }
    }
}

pub open spec fn crossing_models(v: Seq<Crossing>) -> Seq<CrossingModel> {
    v.map_values(|c: Crossing| c@)
}

/// A zone put in its place in a list ordered by network text, behind its equals.
pub open spec fn insert_zone(list: Seq<usize>, i: usize, zs: Seq<SubnetRecord>) -> Seq<usize>
    decreases list.len(),
{
    if list.len() == 0 || !text_before(zs[i as int].cidr@, zs[list.last() as int].cidr@) {
        list.push(i)
    } else {
        insert_zone(list.drop_last(), i, zs).push(list.last())
    }
}

/// The first `n` zones' places of a level, ordered by network text.
pub open spec fn zones_at(zs: Seq<SubnetRecord>, level: int, n: nat) -> Seq<usize>
    decreases n,
{
    if n == 0 {
        Seq::empty()
    } else {
        let r = zones_at(zs, level, (n - 1) as nat);
        if zs[n - 1].purdue_level == level {
            insert_zone(r, (n - 1) as usize, zs)
        } else {
            r
        }
    }
}

/// The device is a server that a crossing may reach: it carries a CVE, is neither
/// firewall nor router, and its address text is one.
pub open spec fn is_server(d: DeviceRecord, cidr: Seq<char>) -> bool {
    &&& d.cves@.len() > 0
    &&& opt_text(d.asset_type) != Some("Firewall"@)
    &&& opt_text(d.asset_type) != Some("Router"@)
    &&& ip_of(d.ip@) is Some
    &&& d.subnet_cidr@ == cidr
}

/// The servers of a zone: address and MAC, in order.
pub open spec fn servers(ds: Seq<DeviceRecord>, cidr: Seq<char>) -> Seq<(u32, Seq<u8>)>
    decreases ds.len(),
{
    if ds.len() == 0 {
        Seq::empty()
    } else {
        let r = servers(ds.drop_last(), cidr);
        let d = ds.last();
        if is_server(d, cidr) {
            r.push((ip_of(d.ip@)->0, mac_of(d.mac@)))
        } else {
            r
        }
    }
}

pub open spec fn server_keys(s: Seq<(u32, Seq<u8>)>) -> Seq<u64> {
    s.map_values(|x: (u32, Seq<u8>)| x.0 as u64)
}

/// The servers of a zone, lowest address first.
pub open spec fn sorted_servers(ds: Seq<DeviceRecord>, cidr: Seq<char>) -> Seq<(u32, Seq<u8>)> {
    let s = servers(ds, cidr);
    by_key(server_keys(s)).map_values(|i: usize| s[i as int])
}

/// The MAC of the first device of a class in either zone.
pub open spec fn class_mac(
    ds: Seq<DeviceRecord>,
    north: Seq<char>,
    south: Seq<char>,
    class: Seq<char>,
) -> Option<Seq<u8>>
    decreases ds.len(),
{
    if ds.len() == 0 {
        None
    } else {
        match class_mac(ds.drop_last(), north, south, class) {
            Some(m) => Some(m),
            None => {
                let d = ds.last();
                if (d.subnet_cidr@ == north || d.subnet_cidr@ == south) && opt_text(d.asset_type)
                    == Some(class) {
                    Some(mac_of(d.mac@))
                } else {
                    None
                }
            },
        }
    }
}

/// The conduit MAC of a zone pair: a router's, else a firewall's, else a switch's,
/// else the north station's.
pub open spec fn conduit(
    ds: Seq<DeviceRecord>,
    north: Seq<char>,
    south: Seq<char>,
    station_mac: Seq<u8>,
) -> Seq<u8> {
    match class_mac(ds, north, south, "Router"@) {
        Some(m) => m,
        None => match class_mac(ds, north, south, "Firewall"@) {
            Some(m) => m,
            None => match class_mac(ds, north, south, "Switch"@) {
                Some(m) => m,
                None => station_mac,
            },
        },
    }
}

/// One step of the hash per byte.
pub open spec fn hash_bytes(h: u64, b: Seq<u8>) -> u64
    decreases b.len(),
{
    if b.len() == 0 {
        h
    } else {
        (hash_bytes(h, b.drop_last()) ^ (b.last() as u64)).wrapping_mul(0x0000_0100_0000_01B3)
    }
}

/// An index under `len` from the seed and a key.
pub open spec fn picked(seed: u64, key: Seq<char>, len: int) -> int {
    if len <= 1 {
        0
    } else {
        hash_bytes(seed ^ 0xCBF2_9CE4_8422_2325, encode_utf8(key)) as int % len
    }
}

/// A small deterministic index into a slice of length `len`, from the seed and a
/// key string (FNV-1a style), so a north zone always picks the same south zone.
fn det_index(seed: u64, key: &str, len: usize) -> (r: usize)
    ensures
        r == picked(seed, key@, len as int),
        len > 0 ==> r < len,
{
    if len <= 1 {
        return 0;
    }
    let bytes = key.as_bytes();
    let ghost h0 = seed ^ 0xCBF2_9CE4_8422_2325;
    let mut h: u64 = seed ^ 0xCBF2_9CE4_8422_2325;
    let mut i: usize = 0;
    proof {
        assert(bytes@.take(0) =~= Seq::empty());
    }
    while i < bytes.len()
        invariant
            i <= bytes@.len(),
            h == hash_bytes(h0, bytes@.take(i as int)),
        decreases bytes@.len() - i,
    {
        proof {
            assert(bytes@.take(i as int + 1).drop_last() =~= bytes@.take(i as int));
        }
        h = (h ^ (bytes[i] as u64)).wrapping_mul(0x0000_0100_0000_01B3);
        i += 1;
    }
    proof {
        assert(bytes@.take(i as int) =~= bytes@);
    }
    (h % len as u64) as usize
}

/// The crossings of one north zone into the level below.
pub open spec fn zone_crossings(s: Session, seed: u64, max: int, north: int, souths: Seq<usize>) -> Seq<
    CrossingModel,
> {
    let n = s.subnets@[north].cidr@;
    let z = s.subnets@[souths[picked(seed, n, souths.len() as int)] as int].cidr@;
    let sv = sorted_servers(s.devices@, z);
    let count = if max < sv.len() {
        max
    } else {
        sv.len() as int
    };
    Seq::new(
        count as nat,
        |i: int|
            CrossingModel {
                north_ip: station(n),
                south_ip: sv[i].0,
                south_mac: sv[i].1,
                conduit_mac: conduit(s.devices@, n, z, host_mac(seed, station(n))),
            },
    )
}

/// The crossings of the first north zones of a list.
pub open spec fn pair_crossings(
    s: Session,
    seed: u64,
    max: int,
    norths: Seq<usize>,
    souths: Seq<usize>,
) -> Seq<CrossingModel>
    decreases norths.len(),
{
    if norths.len() == 0 || souths.len() == 0 {
        Seq::empty()
    } else {
        pair_crossings(s, seed, max, norths.drop_last(), souths) + zone_crossings(
            s,
            seed,
            max,
            norths.last() as int,
            souths,
        )
    }
}

/// The crossings from the levels 1 to `level` into the level below each.
pub open spec fn level_crossings(s: Session, seed: u64, max: int, level: nat) -> Seq<CrossingModel>
    decreases level,
{
    if level == 0 {
        Seq::empty()
    } else {
        let n = s.subnets@.len();
        level_crossings(s, seed, max, (level - 1) as nat) + pair_crossings(
            s,
            seed,
            max,
            zones_at(s.subnets@, level as int, n),
            zones_at(s.subnets@, level - 1, n),
        )
    }
}

/// All crossings of a session.
pub open spec fn crossings(s: Session, seed: u64, max: int) -> Seq<CrossingModel> {
    if max == 0 {
        Seq::empty()
    } else {
        level_crossings(s, seed, max, 255)
    }
}

fn place_zone(list: &mut Vec<usize>, i: usize, zs: &Vec<SubnetRecord>)
    requires
        i < zs@.len(),
        forall|k: int| 0 <= k < old(list)@.len() ==> (#[trigger] old(list)@[k]) < zs@.len(),
    ensures
        final(list)@ == insert_zone(old(list)@, i, zs@),
        forall|k: int| 0 <= k < final(list)@.len() ==> (#[trigger] final(list)@[k]) < zs@.len(),
{
    let ghost all = list@;
    let mut at: usize = list.len();
    proof {
        assert(all.take(all.len() as int) =~= all);
        assert(insert_zone(all, i, zs@) =~= insert_zone(all, i, zs@) + all.skip(all.len() as int));
    }
    while at > 0 && text_less(zs[i].cidr.as_str(), zs[list[at - 1]].cidr.as_str())
        invariant
            at <= list@.len(),
            list@ == all,
            i < zs@.len(),
            forall|k: int| 0 <= k < list@.len() ==> (#[trigger] list@[k]) < zs@.len(),
            insert_zone(all, i, zs@) == insert_zone(all.take(at as int), i, zs@) + all.skip(
                at as int,
            ),
        decreases at,
    {
        proof {
            let head = all.take(at as int);
            assert(head.drop_last() =~= all.take(at as int - 1));
            assert(insert_zone(head.drop_last(), i, zs@).push(head.last()) + all.skip(at as int)
                =~= insert_zone(head.drop_last(), i, zs@) + all.skip(at as int - 1));
        }
        at -= 1;
    }
    list.insert(at, i);
    proof {
        assert(list@ =~= all.take(at as int).push(i) + all.skip(at as int));
        if at > 0 {
            assert(all.take(at as int).last() == all[at - 1]);
        }
    }
}

fn level_zones(zs: &Vec<SubnetRecord>, level: u8) -> (r: Vec<usize>)
    ensures
        r@ == zones_at(zs@, level as int, zs@.len()),
        forall|k: int| 0 <= k < r@.len() ==> (#[trigger] r@[k]) < zs@.len(),
{
    let mut r: Vec<usize> = Vec::new();
    let mut i: usize = 0;
    while i < zs.len()
        invariant
            i <= zs@.len(),
            r@ == zones_at(zs@, level as int, i as nat),
            forall|k: int| 0 <= k < r@.len() ==> (#[trigger] r@[k]) < zs@.len(),
        decreases zs@.len() - i,
    {
        if zs[i].purdue_level == level {
            place_zone(&mut r, i, zs);
        }
        i += 1;
    }
    r
}

pub open spec fn server_models(v: Seq<(u32, [u8; 6])>) -> Seq<(u32, Seq<u8>)> {
    v.map_values(|x: (u32, [u8; 6])| (x.0, x.1@))
}

/// A zone's CVE-bearing field devices (not the conduit infrastructure itself),
/// lowest address first.
fn zone_servers(ds: &Vec<DeviceRecord>, cidr: &str) -> (r: Vec<(u32, [u8; 6])>)
    ensures
        server_models(r@) == sorted_servers(ds@, cidr@),
{
    let mut found: Vec<(u32, [u8; 6])> = Vec::new();
    let mut keys: Vec<u64> = Vec::new();
    let mut i: usize = 0;
    proof {
        assert(ds@.take(0) =~= Seq::empty());
        assert(server_models(found@) =~= Seq::empty());
    }
    while i < ds.len()
        invariant
            i <= ds@.len(),
            server_models(found@) == servers(ds@.take(i as int), cidr@),
            keys@.len() == found@.len(),
            forall|k: int| 0 <= k < found@.len() ==> #[trigger] keys@[k] == found@[k].0,
        decreases ds@.len() - i,
    {
        proof {
            assert(ds@.take(i as int + 1).drop_last() =~= ds@.take(i as int));
        }
        let d = &ds[i];
        if d.cves.len() > 0 && !opt_is(&d.asset_type, "Firewall") && !opt_is(
            &d.asset_type,
            "Router",
        ) && str_eq(d.subnet_cidr.as_str(), cidr) {
            if let Some(ip) = parse_ip(d.ip.as_str()) {
                let ghost o = found@;
                let mac = parse_mac(d.mac.as_str());
                keys.push(ip as u64);
                found.push((ip, mac));
                proof {
                    assert(server_models(found@) =~= server_models(o).push((ip, mac@)));
                }
            }
        }
        i += 1;
    }
    proof {
        assert(ds@.take(i as int) =~= ds@);
        assert(keys@ =~= server_keys(server_models(found@)));
    }
    let order = sort_by_key(keys.as_slice());
    let mut r: Vec<(u32, [u8; 6])> = Vec::new();
    let mut k: usize = 0;
    while k < order.len()
        invariant
            k <= order@.len(),
            forall|j: int| 0 <= j < order@.len() ==> (#[trigger] order@[j]) < found@.len(),
            r@.len() == k,
            forall|j: int| 0 <= j < k ==> #[trigger] r@[j] == found@[order@[j] as int],
        decreases order@.len() - k,
    {
        r.push(found[order[k]]);
        k += 1;
    }
    proof {
        assert(server_models(r@) =~= sorted_servers(ds@, cidr@));
    }
    r
}

fn first_of_class(ds: &Vec<DeviceRecord>, north: &str, south: &str, class: &str) -> (r: Option<
    [u8; 6],
>)
    ensures
        r is Some <==> class_mac(ds@, north@, south@, class@) is Some,
        r matches Some(m) ==> class_mac(ds@, north@, south@, class@) == Some(m@),
{
    let mut i: usize = 0;
    let mut r: Option<[u8; 6]> = None;
    proof {
        assert(ds@.take(0) =~= Seq::empty());
    }
    while i < ds.len()
        invariant
            i <= ds@.len(),
            r is Some <==> class_mac(ds@.take(i as int), north@, south@, class@) is Some,
            r matches Some(m) ==> class_mac(ds@.take(i as int), north@, south@, class@) == Some(m@),
        decreases ds@.len() - i,
    {
        proof {
            assert(ds@.take(i as int + 1).drop_last() =~= ds@.take(i as int));
        }
        let d = &ds[i];
        if r.is_none() && (str_eq(d.subnet_cidr.as_str(), north) || str_eq(
            d.subnet_cidr.as_str(),
            south,
        )) && opt_is(&d.asset_type, class) {
            r = Some(parse_mac(d.mac.as_str()));
        }
        i += 1;
    }
    proof {
        assert(ds@.take(i as int) =~= ds@);
    }
    r
}

/// The conduit MAC for a zone pair: the zone-edge router or firewall in either
/// zone, else a switch, else the north station MAC. So a plant always shows
/// north-south traffic, using a real conduit device when one exists.
fn pick_conduit_mac(ledger: &Session, north_cidr: &str, south_cidr: &str, station_mac: [u8; 6]) -> (r:
    [u8; 6])
    ensures
        r@ == conduit(ledger.devices@, north_cidr@, south_cidr@, station_mac@),
{
    if let Some(m) = first_of_class(&ledger.devices, north_cidr, south_cidr, "Router") {
        return m;
    }
    if let Some(m) = first_of_class(&ledger.devices, north_cidr, south_cidr, "Firewall") {
        return m;
    }
    if let Some(m) = first_of_class(&ledger.devices, north_cidr, south_cidr, "Switch") {
        return m;
    }
    station_mac
}

/// Add the crossings of one north zone.
fn push_zone_crossings(
    out: &mut Vec<Crossing>,
    ledger: &Session,
    seed: u64,
    max_per_pair: usize,
    north: usize,
    souths: &Vec<usize>,
)
    requires
        north < ledger.subnets@.len(),
        souths@.len() > 0,
        forall|k: int| 0 <= k < souths@.len() ==> (#[trigger] souths@[k]) < ledger.subnets@.len(),
    ensures
        crossing_models(final(out)@) == crossing_models(old(out)@) + zone_crossings(
            *ledger,
            seed,
            max_per_pair as int,
            north as int,
            souths@,
        ),
{
    let ghost o = out@;
    let ghost want = zone_crossings(*ledger, seed, max_per_pair as int, north as int, souths@);
    let n = ledger.subnets[north].cidr.as_str();
    let si: usize = souths[det_index(seed, n, souths.len())];
    let s = ledger.subnets[si].cidr.as_str();
    let sv = zone_servers(&ledger.devices, s);
    let ghost sm = server_models(sv@);
    let north_ip: u32 = station_addr(n);
    let conduit_mac = pick_conduit_mac(ledger, n, s, stable_mac(seed, north_ip));
    let mut i: usize = 0;
    while i < sv.len() && i < max_per_pair
        invariant
            i <= sv@.len(),
            i <= max_per_pair,
            sm == server_models(sv@),
            want.len() == (if max_per_pair < sv@.len() {
                max_per_pair as int
            } else {
                sv@.len() as int
            }),
            forall|k: int|
                0 <= k < want.len() ==> #[trigger] want[k] == (CrossingModel {
                    north_ip,
                    south_ip: sm[k].0,
                    south_mac: sm[k].1,
                    conduit_mac: conduit_mac@,
                }),
            out@.len() == o.len() + i,
            forall|k: int| 0 <= k < o.len() ==> #[trigger] out@[k] == o[k],
            forall|k: int| o.len() <= k < out@.len() ==> (#[trigger] out@[k])@ == want[k - o.len()],
        decreases sv@.len() - i,
    {
        proof {
            assert(want[i as int].south_ip == sm[i as int].0);
        }
        out.push(
            Crossing { north_ip, south_ip: sv[i].0, south_mac: sv[i].1, conduit_mac },
        );
        i += 1;
    }
    proof {
        let e = crossing_models(out@);
        assert forall|k: int| 0 <= k < e.len() implies e[k] == (crossing_models(o) + want)[k] by {
            if k < o.len() {
                assert(out@[k] == o[k]);
            } else {
                assert(out@[k]@ == want[k - o.len()]);
            }
        }
        assert(e =~= crossing_models(o) + want);
    }
}

/// Enumerate bounded north-south crossings across adjacent Purdue zones. Each
/// zone at level L+1 (north) pairs with one deterministically chosen zone at
/// level L (south) and reaches up to `max_per_pair` of its lowest-IP CVE-bearing
/// devices, forwarded by a conduit (the zone-edge router/firewall, else a switch,
/// else the north station). Bounded, never a mesh, so the wire carries no scan.
pub fn north_south_crossings(ledger: &Session, seed: u64, max_per_pair: usize) -> (r: Vec<Crossing>)
    ensures
        crossing_models(r@) == crossings(*ledger, seed, max_per_pair as int),
{
    let mut out: Vec<Crossing> = Vec::new();
    proof {
        assert(crossing_models(out@) =~= Seq::empty());
    }
    if max_per_pair == 0 {
        return out;
    }
    let mut level: u8 = 0;
    while level < 255
        invariant
            max_per_pair > 0,
            crossing_models(out@) == level_crossings(
                *ledger,
                seed,
                max_per_pair as int,
                level as nat,
            ),
        decreases 255 - level,
    {
        let souths = level_zones(&ledger.subnets, level);
        let norths = level_zones(&ledger.subnets, level + 1);
        let ghost before = crossing_models(out@);
        let ghost max = max_per_pair as int;
        proof {
            assert(norths@.take(0) =~= Seq::empty());
            assert(before + pair_crossings(*ledger, seed, max, norths@.take(0), souths@)
                =~= before);
        }
        if souths.len() > 0 {
            let mut i: usize = 0;
            while i < norths.len()
                invariant
                    i <= norths@.len(),
                    souths@.len() > 0,
                    max == max_per_pair,
                    forall|k: int|
                        0 <= k < souths@.len() ==> (#[trigger] souths@[k]) < ledger.subnets@.len(),
                    forall|k: int|
                        0 <= k < norths@.len() ==> (#[trigger] norths@[k]) < ledger.subnets@.len(),
                    crossing_models(out@) == before + pair_crossings(
                        *ledger,
                        seed,
                        max,
                        norths@.take(i as int),
                        souths@,
                    ),
                decreases norths@.len() - i,
            {
                proof {
                    assert(norths@.take(i as int + 1).drop_last() =~= norths@.take(i as int));
                    let a = pair_crossings(*ledger, seed, max, norths@.take(i as int), souths@);
                    let b = zone_crossings(*ledger, seed, max, norths@[i as int] as int, souths@);
                    assert((before + a) + b =~= before + (a + b));
                }
                push_zone_crossings(&mut out, ledger, seed, max_per_pair, norths[i], &souths);
                i += 1;
            }
            proof {
                assert(norths@.take(i as int) =~= norths@);
            }
        } else {
            proof {
                assert(before + pair_crossings(*ledger, seed, max, norths@, souths@) =~= before);
            }
        }
        level += 1;
    }
    out
}

/// The crossing goes from a zone's station to a server of a zone one level below.
pub open spec fn adjacent(s: Session, c: CrossingModel) -> bool {
    exists|n: int, z: int|
        0 <= n < s.subnets@.len() && 0 <= z < s.subnets@.len() && (
        #[trigger] s.subnets@[n]).purdue_level == (#[trigger] s.subnets@[z]).purdue_level + 1
            && c.north_ip == station(s.subnets@[n].cidr@) && servers(
            s.devices@,
            s.subnets@[z].cidr@,
        ).contains((c.south_ip, c.south_mac))
}

proof fn lemma_insert_zone(list: Seq<usize>, i: usize, zs: Seq<SubnetRecord>, level: int)
    requires
        i < zs.len(),
        zs[i as int].purdue_level == level,
        forall|k: int|
            0 <= k < list.len() ==> (#[trigger] list[k]) < zs.len() && zs[list[k] as int].purdue_level
                == level,
    ensures
        forall|k: int|
            0 <= k < insert_zone(list, i, zs).len() ==> (#[trigger] insert_zone(list, i, zs)[k])
                < zs.len() && zs[insert_zone(list, i, zs)[k] as int].purdue_level == level,
        insert_zone(list, i, zs).len() == list.len() + 1,
    decreases list.len(),
{
    if !(list.len() == 0 || !text_before(zs[i as int].cidr@, zs[list.last() as int].cidr@)) {
        let head = list.drop_last();
        assert forall|k: int| 0 <= k < head.len() implies (#[trigger] head[k]) < zs.len()
            && zs[head[k] as int].purdue_level == level by {
            assert(head[k] == list[k]);
        }
        lemma_insert_zone(head, i, zs, level);
        let q = insert_zone(head, i, zs);
        let n = q.push(list.last());
        assert forall|k: int| 0 <= k < n.len() implies (#[trigger] n[k]) < zs.len()
            && zs[n[k] as int].purdue_level == level by {
            if k < q.len() {
                assert(n[k] == q[k]);
            }
        }
    }
}

pub proof fn lemma_zones_at(zs: Seq<SubnetRecord>, level: int, n: nat)
    requires
        n <= zs.len(),
        zs.len() <= usize::MAX,
    ensures
        forall|k: int|
            0 <= k < zones_at(zs, level, n).len() ==> (#[trigger] zones_at(zs, level, n)[k])
                < zs.len() && zs[zones_at(zs, level, n)[k] as int].purdue_level == level,
        zones_at(zs, level, n).len() <= n,
    decreases n,
{
    if n > 0 {
        lemma_zones_at(zs, level, (n - 1) as nat);
        if zs[n - 1].purdue_level == level {
            lemma_insert_zone(zones_at(zs, level, (n - 1) as nat), (n - 1) as usize, zs, level);
        }
    }
}

proof fn lemma_zone_crossings(
    s: Session,
    seed: u64,
    max: int,
    level: int,
    north: int,
    souths: Seq<usize>,
)
    requires
        max >= 0,
        0 <= north < s.subnets@.len(),
        s.subnets@[north].purdue_level == level,
        souths.len() > 0,
        s.devices@.len() <= usize::MAX,
        forall|k: int|
            0 <= k < souths.len() ==> (#[trigger] souths[k]) < s.subnets@.len()
                && s.subnets@[souths[k] as int].purdue_level == level - 1,
    ensures
        zone_crossings(s, seed, max, north, souths).len() <= max,
        forall|i: int|
            0 <= i < zone_crossings(s, seed, max, north, souths).len() ==> adjacent(
                s,
                #[trigger] zone_crossings(s, seed, max, north, souths)[i],
            ),
{
    let n = s.subnets@[north].cidr@;
    let p = picked(seed, n, souths.len() as int);
    assert(0 <= p < souths.len()) by {
        if souths.len() > 1 {
            let h = hash_bytes(seed ^ 0xCBF2_9CE4_8422_2325, encode_utf8(n)) as int;
            let l = souths.len() as int;
            assert(0 <= h % l < l) by (nonlinear_arith)
                requires
                    l > 0,
            ;
        }
    }
    let zi = souths[p] as int;
    let z = s.subnets@[zi].cidr@;
    let raw = servers(s.devices@, z);
    let sv = sorted_servers(s.devices@, z);
    let cs = zone_crossings(s, seed, max, north, souths);
    lemma_servers_len(s.devices@, z);
    assert forall|i: int| 0 <= i < cs.len() implies adjacent(s, #[trigger] cs[i]) by {
        let order = by_key(server_keys(raw));
        crate::order::lemma_by_key_contains(server_keys(raw), order[i]);
        assert(order.contains(order[i]));
        assert(sv[i] == raw[order[i] as int]);
        assert(raw.contains(sv[i]));
        assert(s.subnets@[north].purdue_level == s.subnets@[zi].purdue_level + 1);
    }
}

proof fn lemma_servers_len(ds: Seq<DeviceRecord>, cidr: Seq<char>)
    ensures
        servers(ds, cidr).len() <= ds.len(),
    decreases ds.len(),
{
    if ds.len() > 0 {
        lemma_servers_len(ds.drop_last(), cidr);
    }
}

proof fn lemma_pair_crossings(
    s: Session,
    seed: u64,
    max: int,
    level: int,
    norths: Seq<usize>,
    souths: Seq<usize>,
)
    requires
        max >= 0,
        s.devices@.len() <= usize::MAX,
        forall|k: int|
            0 <= k < norths.len() ==> (#[trigger] norths[k]) < s.subnets@.len()
                && s.subnets@[norths[k] as int].purdue_level == level,
        forall|k: int|
            0 <= k < souths.len() ==> (#[trigger] souths[k]) < s.subnets@.len()
                && s.subnets@[souths[k] as int].purdue_level == level - 1,
    ensures
        ({
            let cs = pair_crossings(s, seed, max, norths, souths);
            &&& cs.len() <= max * norths.len()
            &&& forall|i: int| 0 <= i < cs.len() ==> adjacent(s, #[trigger] cs[i])
        }),
    decreases norths.len(),
{
    if norths.len() > 0 && souths.len() > 0 {
        let head = norths.drop_last();
        assert forall|k: int| 0 <= k < head.len() implies (#[trigger] head[k]) < s.subnets@.len()
            && s.subnets@[head[k] as int].purdue_level == level by {
            assert(head[k] == norths[k]);
        }
        lemma_pair_crossings(s, seed, max, level, head, souths);
        assert(norths[norths.len() - 1] < s.subnets@.len());
        lemma_zone_crossings(s, seed, max, level, norths.last() as int, souths);
        assert(max * norths.len() == max * head.len() + max) by (nonlinear_arith)
            requires
                norths.len() == head.len() + 1,
        ;
        let a = pair_crossings(s, seed, max, head, souths);
        let b = zone_crossings(s, seed, max, norths.last() as int, souths);
        assert forall|i: int| 0 <= i < (a + b).len() implies adjacent(s, #[trigger] (a + b)[i]) by {
            if i < a.len() {
                assert((a + b)[i] == a[i]);
            } else {
                assert((a + b)[i] == b[i - a.len()]);
            }
        }
    } else {
        assert(0 <= max * norths.len()) by (nonlinear_arith)
            requires
                max >= 0,
        ;
    }
}

/// Crossings only join zones on adjacent levels, from the higher one's station to
/// a server of the lower one.
pub proof fn law_crossings_are_adjacent(s: Session, seed: u64, max: int, level: nat)
    requires
        max >= 0,
        s.subnets@.len() <= usize::MAX,
        s.devices@.len() <= usize::MAX,
    ensures
        forall|i: int|
            0 <= i < level_crossings(s, seed, max, level).len() ==> adjacent(
                s,
                #[trigger] level_crossings(s, seed, max, level)[i],
            ),
    decreases level,
{
    if level > 0 {
        law_crossings_are_adjacent(s, seed, max, (level - 1) as nat);
        let n = s.subnets@.len();
        lemma_zones_at(s.subnets@, level as int, n);
        lemma_zones_at(s.subnets@, level - 1, n);
        let norths = zones_at(s.subnets@, level as int, n);
        let souths = zones_at(s.subnets@, level - 1, n);
        lemma_pair_crossings(s, seed, max, level as int, norths, souths);
        let a = level_crossings(s, seed, max, (level - 1) as nat);
        let b = pair_crossings(s, seed, max, norths, souths);
        assert forall|i: int| 0 <= i < (a + b).len() implies adjacent(s, #[trigger] (a + b)[i]) by {
            if i < a.len() {
                assert((a + b)[i] == a[i]);
            } else {
                assert((a + b)[i] == b[i - a.len()]);
            }
        }
    }
}

/// A north zone has at most `max` crossings, however many servers there are, and
/// a level at most `max` for each of its zones.
pub proof fn law_crossings_are_bounded(s: Session, seed: u64, max: int, level: nat)
    requires
        max >= 0,
        level > 0,
        s.subnets@.len() <= usize::MAX,
        s.devices@.len() <= usize::MAX,
    ensures
        ({
            let n = s.subnets@.len();
            let norths = zones_at(s.subnets@, level as int, n);
            let souths = zones_at(s.subnets@, level - 1, n);
            &&& norths.len() <= n
            &&& pair_crossings(s, seed, max, norths, souths).len() <= max * norths.len()
            &&& forall|k: int|
                0 <= k < norths.len() ==> zone_crossings(
                    s,
                    seed,
                    max,
                    #[trigger] norths[k] as int,
                    souths,
                ).len() <= max
        }),
{
    let n = s.subnets@.len();
    lemma_zones_at(s.subnets@, level as int, n);
    lemma_zones_at(s.subnets@, level - 1, n);
    lemma_pair_crossings(
        s,
        seed,
        max,
        level as int,
        zones_at(s.subnets@, level as int, n),
        zones_at(s.subnets@, level - 1, n),
    );
}

} // verus!
