//! What holds of every fabricated plant: whose devices stand in a zone, what each
//! device and zone says of itself, and when fabrication stops short.

use vstd::prelude::*;
use crate::ledger::{DeviceModel, SubnetModel, MAX_DEVICES, MAX_SUBNETS};
use crate::mac::mac_text;
use crate::net::{
    cidr_net, law_net_text_roundtrip, lemma_cidr_net_wf, lemma_first_free, lemma_span_values,
};
use crate::proto::l3::{lemma_ten_net, net_blocks, room_left, ten_count, ten_net};
use crate::proto::l3_laws::law_new_net_is_free;
use crate::simulate::bom::{label_text, AssetType};
use crate::simulate::devices::{
    any_core, carriers, core_profile, free_in, gateway, has_room, known,
    lemma_choose_zone, lemma_draw_bytes, lemma_known_prefix, lemma_no_core, lemma_pick_profile,
    lemma_place_device, lemma_places, of_proto, of_vendor, places, present,
    room_list, vendor_of, zone_nets, AllocParams, Fab,
};
use crate::text::texts;
use crate::vuln::{covers, profile_prefix, proto_tag, DeviceProfile, ProfileProto};

verus! {

/// The zone at `j` is the first of its network text.
pub open spec fn first_of_text(subnets: Seq<SubnetModel>, j: int) -> bool {
    0 <= j < subnets.len() && forall|i: int|
        0 <= i < j ==> (#[trigger] subnets[i]).cidr != subnets[j].cidr
}

/// A core profile of the vendor exists.
pub open spec fn makes_core(ps: Seq<DeviceProfile>, vendor: Seq<char>) -> bool {
    exists|k: int| 0 <= k < ps.len() && core_profile(#[trigger] ps[k]) && ps[k].vendor@ == vendor
}

/// The device is of the vendor that its zone names, if that vendor makes any.
pub open spec fn of_its_zone(
    ps: Seq<DeviceProfile>,
    subnets: Seq<SubnetModel>,
    d: DeviceModel,
) -> bool {
    forall|j: int|
        #![trigger subnets[j]]
        first_of_text(subnets, j) && subnets[j].cidr == d.subnet_cidr && subnets[j].vendor is Some
            && makes_core(ps, subnets[j].vendor->0) ==> d.vendor == subnets[j].vendor->0
}

/// The hardware address is one that the profile's maker would give: under the
/// maker's prefix, or, with none known, one that is globally administered and
/// unicast.
pub open spec fn mac_of_maker(p: DeviceProfile, mac: Seq<u8>) -> bool {
    &&& mac.len() == 6
    &&& match profile_prefix(p) {
        Some(oui) => mac.take(3) == oui,
        None => mac[0] % 4 == 0,
    }
}

/// The device says of itself what the profile says, and is classed by what it
/// speaks: a switch if SNMP, else a controller.
pub open spec fn made_after(p: DeviceProfile, d: DeviceModel) -> bool {
    &&& d.vendor == p.vendor@
    &&& d.model == p.model@
    &&& d.firmware == p.firmware@
    &&& d.protocol == proto_tag(p.protocol)
    &&& d.cves == texts(p.cves@)
    &&& d.hostname is None
    &&& p.protocol == ProfileProto::SwitchSnmp ==> d.asset_type == Some(
        label_text(AssetType::Switch),
    )
    &&& p.protocol != ProfileProto::SwitchSnmp ==> d.asset_type == Some(
        label_text(AssetType::Controller),
    )
    &&& exists|mac: Seq<u8>| d.mac == #[trigger] mac_text(mac) && mac_of_maker(p, mac)
}

/// The device is made after a core profile.
pub open spec fn made_after_core(ps: Seq<DeviceProfile>, d: DeviceModel) -> bool {
    exists|k: int| 0 <= k < ps.len() && core_profile(#[trigger] ps[k]) && made_after(ps[k], d)
}

/// The zone is the vendor's and at the level of a core profile of the protocol.
pub open spec fn zone_for(ps: Seq<DeviceProfile>, proto: ProfileProto, z: SubnetModel) -> bool {
    exists|k: int|
        0 <= k < ps.len() && core_profile(#[trigger] ps[k]) && ps[k].protocol == proto
            && z.vendor == Some(ps[k].vendor@) && z.purdue_level == ps[k].purdue_level
}

/// The zone at `i` lies in the 10/8 block with the prefix length asked for, and,
/// while the block has room, shares no address with a zone before it.
pub open spec fn zone_apart(params: AllocParams, subnets: Seq<SubnetModel>, i: int) -> bool {
    let n = cidr_net(subnets[i].cidr)->0;
    &&& cidr_net(subnets[i].cidr) is Some
    &&& 8 <= params.default_prefix <= 30 ==> n.prefix == params.default_prefix
    &&& 0x0A00_0000 <= n.first()
    &&& n.last() <= 0x0AFF_FFFF
    &&& room_left(n.prefix as int, net_blocks(zone_nets(subnets.take(i)))) ==> forall|j: int|
        0 <= j < i && cidr_net((#[trigger] subnets[j]).cidr) is Some ==> {
            let m = cidr_net(subnets[j].cidr)->0;
            m.last() < n.first() || n.last() < m.first()
        }
}

/// What every step of fabrication does: it adds devices and zones behind those
/// that are there, each device of its zone's vendor and made after a core
/// profile, each zone for the carrier protocol whose turn it is and apart from the others.
spec fn made(ps: Seq<DeviceProfile>, params: AllocParams, a: Fab, b: Fab) -> bool {
    &&& a.devices.is_prefix_of(b.devices)
    &&& a.subnets.is_prefix_of(b.subnets)
    &&& forall|i: int|
        a.devices.len() <= i < b.devices.len() ==> made_after_core(ps, #[trigger] b.devices[i])
            && of_its_zone(ps, b.subnets, b.devices[i]) && known(
            b.subnets,
            b.devices[i].subnet_cidr,
        )
    &&& forall|i: int|
        a.subnets.len() <= i < b.subnets.len() ==> #[trigger] zone_in_turn(
            ps,
            params,
            b.subnets,
            i,
        )
}

spec fn zone_in_turn(
    ps: Seq<DeviceProfile>,
    params: AllocParams,
    subnets: Seq<SubnetModel>,
    i: int,
) -> bool {
    &&& present(ps).len() > 0
    &&& zone_for(ps, present(ps)[i % present(ps).len() as int], subnets[i])
    &&& zone_apart(params, subnets, i)
}

proof fn lemma_vendor_of(subnets: Seq<SubnetModel>, j: int)
    requires
        first_of_text(subnets, j),
    ensures
        vendor_of(subnets, subnets[j].cidr) == subnets[j].vendor,
    decreases subnets.len(),
{
    if j > 0 {
        let rest = subnets.drop_first();
        assert(subnets[0].cidr != subnets[j].cidr);
        assert(rest[j - 1] == subnets[j]);
        assert forall|i: int| 0 <= i < j - 1 implies (#[trigger] rest[i]).cidr != rest[j - 1].cidr by {
            assert(rest[i] == subnets[i + 1]);
        }
        lemma_vendor_of(rest, j - 1);
    }
}

/// A zone added behind the others changes nothing for a device of one of them.
proof fn lemma_zone_stays(
    ps: Seq<DeviceProfile>,
    a: Seq<SubnetModel>,
    b: Seq<SubnetModel>,
    d: DeviceModel,
)
    requires
        a.is_prefix_of(b),
        known(a, d.subnet_cidr),
        of_its_zone(ps, a, d),
    ensures
        of_its_zone(ps, b, d),
{
    assert(a == b.take(a.len() as int));
    let w = choose|i: int| 0 <= i < a.len() && (#[trigger] a[i]).cidr == d.subnet_cidr;
    assert forall|j: int|
        #![trigger b[j]]
        first_of_text(b, j) && b[j].cidr == d.subnet_cidr && b[j].vendor is Some && makes_core(
            ps,
            b[j].vendor->0,
        ) implies d.vendor == b[j].vendor->0 by {
        assert(b[w] == a[w]);
        assert(j <= w);
        assert(a[j] == b[j]);
        assert forall|i: int| 0 <= i < j implies (#[trigger] a[i]).cidr != a[j].cidr by {
            assert(a[i] == b[i]);
        }
        assert(first_of_text(a, j));
    }
}

proof fn lemma_made_trans(ps: Seq<DeviceProfile>, params: AllocParams, a: Fab, b: Fab, c: Fab)
    requires
        made(ps, params, a, b),
        made(ps, params, b, c),
    ensures
        made(ps, params, a, c),
{
    assert(a.devices == b.devices.take(a.devices.len() as int));
    assert(b.devices == c.devices.take(b.devices.len() as int));
    assert(a.subnets == b.subnets.take(a.subnets.len() as int));
    assert(b.subnets == c.subnets.take(b.subnets.len() as int));
    assert(a.devices =~= c.devices.take(a.devices.len() as int));
    assert(a.subnets =~= c.subnets.take(a.subnets.len() as int));
    assert forall|i: int| a.devices.len() <= i < c.devices.len() implies made_after_core(
        ps,
        #[trigger] c.devices[i],
    ) && of_its_zone(ps, c.subnets, c.devices[i]) && known(
        c.subnets,
        c.devices[i].subnet_cidr,
    ) by {
        if i < b.devices.len() {
            assert(c.devices[i] == b.devices[i]);
            lemma_known_prefix(b.subnets, c.subnets, b.devices[i].subnet_cidr);
            lemma_zone_stays(ps, b.subnets, c.subnets, b.devices[i]);
        }
    }
    assert forall|i: int| a.subnets.len() <= i < c.subnets.len() implies #[trigger] zone_in_turn(
        ps,
        params,
        c.subnets,
        i,
    ) by {
        if i < b.subnets.len() {
            assert(c.subnets[i] == b.subnets[i]);
            assert(zone_in_turn(ps, params, b.subnets, i));
            assert(c.subnets.take(i) =~= b.subnets.take(i));
            assert forall|j: int| 0 <= j < i implies #[trigger] c.subnets[j] == b.subnets[j] by {}
        }
    }
}

proof fn lemma_made_same(ps: Seq<DeviceProfile>, params: AllocParams, a: Fab, b: Fab)
    requires
        a.devices == b.devices,
        a.subnets == b.subnets,
    ensures
        made(ps, params, a, b),
{
    assert(a.devices =~= b.devices.take(a.devices.len() as int));
    assert(a.subnets =~= b.subnets.take(a.subnets.len() as int));
}

/// A profile picked for a zone's vendor is that vendor's, if the vendor has one.
proof fn lemma_picked_is_the_vendors(f: Fab, ps: Seq<DeviceProfile>, vendor: Seq<char>)
    requires
        ps.len() <= usize::MAX,
        makes_core(ps, vendor),
    ensures
        ps[f.pick_profile(ps, Some(vendor)).0].vendor@ == vendor,
{
    let want = of_vendor(vendor);
    lemma_places(ps, want);
    let k = choose|k: int|
        0 <= k < ps.len() && core_profile(#[trigger] ps[k]) && ps[k].vendor@ == vendor;
    assert(core_profile(ps[k]) && want(ps[k]));
    let from = places(ps, want);
    assert(from.len() > 0);
    let i = f.draw(from.len()).0;
    assert(want(ps[from[i] as int]));
}

proof fn lemma_clear_two_bits(b: u8)
    ensures
        (b & 0xFC) % 4 == 0,
{
    assert((b & 0xFC) % 4 == 0) by (bit_vector);
}

proof fn lemma_place_device_made(
    f: Fab,
    ps: Seq<DeviceProfile>,
    params: AllocParams,
    cidr: Seq<char>,
    ip: u32,
)
    requires
        any_core(ps),
        ps.len() <= usize::MAX,
        known(f.subnets, cidr),
    ensures
        made(ps, params, f, f.place_device(ps, cidr, ip)),
{
    let vendor = vendor_of(f.subnets, cidr);
    let (k, g) = f.pick_profile(ps, vendor);
    lemma_pick_profile(f, ps, vendor);
    let p = ps[k];
    let (mac, h) = g.make_mac(p);
    lemma_draw_bytes(g, 3);
    lemma_draw_bytes(g, 6);
    lemma_clear_two_bits(g.draw_bytes(6).0[0]);
    let r = f.place_device(ps, cidr, ip);
    if r.devices.len() == f.devices.len() {
        lemma_made_same(ps, params, f, r);
    } else {
        let d = r.devices.last();
        assert(f.devices =~= r.devices.take(f.devices.len() as int));
        assert(f.subnets =~= r.subnets.take(f.subnets.len() as int));
        if profile_prefix(p) is Some {
            assert(mac.take(3) =~= profile_prefix(p)->0);
        }
        assert(mac_of_maker(p, mac));
        assert(d.mac == mac_text(mac));
        assert(made_after(ps[k], d));
        assert(made_after_core(ps, d));
        assert forall|j: int|
            #![trigger r.subnets[j]]
            first_of_text(r.subnets, j) && r.subnets[j].cidr == d.subnet_cidr
                && r.subnets[j].vendor is Some && makes_core(
                ps,
                r.subnets[j].vendor->0,
            ) implies d.vendor == r.subnets[j].vendor->0 by {
            lemma_vendor_of(f.subnets, j);
            lemma_picked_is_the_vendors(f, ps, f.subnets[j].vendor->0);
        }
    }
}

/// Each zone that is a network is among the networks of the zones.
proof fn lemma_zone_nets(subnets: Seq<SubnetModel>, j: int) -> (k: int)
    requires
        0 <= j < subnets.len(),
        cidr_net(subnets[j].cidr) is Some,
    ensures
        0 <= k < zone_nets(subnets).len(),
        zone_nets(subnets)[k] == cidr_net(subnets[j].cidr)->0,
    decreases subnets.len(),
{
    if j == subnets.len() - 1 {
        zone_nets(subnets).len() - 1
    } else {
        lemma_zone_nets(subnets.drop_last(), j)
    }
}

/// A fresh network is well formed, in the 10/8 block, and apart from the zones
/// while the block has room.
proof fn lemma_fresh_apart(f: Fab, params: AllocParams)
    ensures
        ({
            let n = f.fresh(params).0;
            &&& n.wf()
            &&& 8 <= params.default_prefix <= 30 ==> n.prefix == params.default_prefix
            &&& n.first() == n.addr
            &&& 0x0A00_0000 <= n.first()
            &&& n.last() <= 0x0AFF_FFFF
            &&& room_left(n.prefix as int, net_blocks(zone_nets(f.subnets))) ==> forall|j: int|
                0 <= j < f.subnets.len() && cidr_net((#[trigger] f.subnets[j]).cidr) is Some ==> {
                    let m = cidr_net(f.subnets[j].cidr)->0;
                    m.last() < n.first() || n.last() < m.first()
                }
        }),
{
    let n = f.fresh(params).0;
    let p = n.prefix as int;
    let blocks = net_blocks(zone_nets(f.subnets));
    law_new_net_is_free(n.prefix, f.words, blocks);
    let idx = choose|idx: int| 0 <= idx < ten_count(p)
        && n.addr as int == #[trigger] ten_net(p, idx);
    lemma_ten_net(p, idx);
    lemma_span_values();
    if room_left(p, blocks) {
        assert forall|j: int|
            0 <= j < f.subnets.len() && cidr_net((#[trigger] f.subnets[j]).cidr) is Some implies {
            let m = cidr_net(f.subnets[j].cidr)->0;
            m.last() < n.first() || n.last() < m.first()
        } by {
            let k = lemma_zone_nets(f.subnets, j);
            let m = zone_nets(f.subnets)[k];
            lemma_cidr_net_wf(f.subnets[j].cidr);
            m.lemma_bounds();
            assert(blocks[k] == (m.first() as u32, m.prefix));
        }
    }
}

proof fn lemma_choose_zone_made(f: Fab, ps: Seq<DeviceProfile>, params: AllocParams)
    requires
        ps.len() <= usize::MAX,
    ensures
        made(ps, params, f, f.choose_zone(ps, params).1),
{
    lemma_choose_zone(f, ps, params);
    let (zone, g) = f.choose_zone(ps, params);
    assert(f.devices =~= g.devices.take(f.devices.len() as int));
    assert(f.subnets =~= g.subnets.take(f.subnets.len() as int));
    if g.subnets.len() > f.subnets.len() {
        let protos = present(ps);
        let keep = |p: ProfileProto| covers(ps, p);
        let proto = protos[f.subnets.len() as int % protos.len() as int];
        carriers().lemma_filter_pred(keep, f.subnets.len() as int % protos.len() as int);
        let want = of_proto(proto);
        lemma_places(ps, want);
        let w = choose|i: int|
            0 <= i < ps.len() && (#[trigger] ps[i]).protocol == proto && ps[i].asset_class is None;
        assert(core_profile(ps[w]) && want(ps[w]));
        let cands = places(ps, want);
        let z = g.subnets[f.subnets.len() as int];
        let (due, f1) = f.wants_zone(ps, params);
        let (net, f2) = f1.fresh(params);
        let i = f2.draw(cands.len()).0;
        let k = cands[i] as int;
        assert(core_profile(ps[k]) && want(ps[k]));
        assert(z.vendor == Some(ps[k].vendor@));
        assert(zone_for(ps, proto, z));
        lemma_fresh_apart(f1, params);
        law_net_text_roundtrip(net);
        assert(g.subnets.take(f.subnets.len() as int) =~= f.subnets);
        assert(zone_apart(params, g.subnets, f.subnets.len() as int)) by {
            assert forall|j: int| 0 <= j < f.subnets.len() implies #[trigger] g.subnets[j]
                == f.subnets[j] by {}
        }
    }
}

/// Every free host address of the zone is in use, its gateway aside.
pub open spec fn zone_filled(z: SubnetModel, used: Set<u32>) -> bool {
    cidr_net(z.cidr) is Some ==> forall|ip: u32|
        cidr_net(z.cidr)->0.host_lo() <= ip <= cidr_net(z.cidr)->0.host_hi() && ip != gateway(
            cidr_net(z.cidr)->0,
        ) ==> #[trigger] used.contains(ip)
}

/// Where the list of zones with room is empty, every zone is filled.
proof fn lemma_no_room(subnets: Seq<SubnetModel>, used: Set<u32>)
    requires
        room_list(subnets, used).len() == 0,
    ensures
        forall|i: int| 0 <= i < subnets.len() ==> zone_filled(#[trigger] subnets[i], used),
    decreases subnets.len(),
{
    if subnets.len() > 0 {
        let z = subnets.last();
        lemma_no_room(subnets.drop_last(), used);
        assert forall|i: int| 0 <= i < subnets.len() implies zone_filled(
            #[trigger] subnets[i],
            used,
        ) by {
            if i < subnets.len() - 1 {
                assert(subnets.drop_last()[i] == subnets[i]);
            } else if cidr_net(z.cidr) is Some {
                let n = cidr_net(z.cidr)->0;
                lemma_cidr_net_wf(z.cidr);
                n.lemma_bounds();
                lemma_first_free(n.host_lo(), n.host_hi(), used.insert(gateway(n)));
                assert(!has_room(z.cidr, used));
                assert forall|ip: u32|
                    n.host_lo() <= ip <= n.host_hi() && ip != gateway(
                        n,
                    ) implies #[trigger] used.contains(ip) by {
                    assert(used.insert(gateway(n)).contains(ip));
                }
            }
        }
    }
}

/// A zone drawn among those with room has a free address.
proof fn lemma_rooms_have_room(subnets: Seq<SubnetModel>, used: Set<u32>)
    ensures
        forall|i: int|
            0 <= i < room_list(subnets, used).len() ==> has_room(
                #[trigger] room_list(subnets, used)[i],
                used,
            ),
    decreases subnets.len(),
{
    if subnets.len() > 0 {
        let head = room_list(subnets.drop_last(), used);
        lemma_rooms_have_room(subnets.drop_last(), used);
        assert forall|i: int| 0 <= i < room_list(subnets, used).len() implies has_room(
            #[trigger] room_list(subnets, used)[i],
            used,
        ) by {
            if i < head.len() {
                assert(room_list(subnets, used)[i] == head[i]);
            }
        }
    }
}

/// Either the plant is filled, or the zone chosen for the next device can be
/// gone on with: it has a free address, or it was added just now.
proof fn lemma_chosen_zone(f: Fab, ps: Seq<DeviceProfile>, params: AllocParams)
    ensures
        ({
            let (zone, g) = f.choose_zone(ps, params);
            match zone {
                None => forall|i: int|
                    0 <= i < g.subnets.len() ==> zone_filled(#[trigger] g.subnets[i], g.used),
                Some(cidr) => cidr_net(cidr) is Some && (free_in(cidr_net(cidr)->0, g.used) is Some
                    || (g.subnets.len() > f.subnets.len() && f.subnets.len() < MAX_SUBNETS)),
            }
        }),
{
    lemma_choose_zone(f, ps, params);
    lemma_rooms_have_room(f.subnets, f.used);
    let (zone, g) = f.choose_zone(ps, params);
    let (due, f1) = f.wants_zone(ps, params);
    if due && f1.create_zone(ps, params).0 is Some {
        let net = f1.fresh(params).0;
        lemma_fresh_apart(f1, params);
        law_net_text_roundtrip(net);
    } else if zone is None {
        assert(g.subnets == f.subnets);
        lemma_no_room(g.subnets, g.used);
    }
}

proof fn lemma_fabricate(f: Fab, ps: Seq<DeviceProfile>, params: AllocParams, target: nat)
    requires
        any_core(ps) || room_list(f.subnets, f.used).len() == 0,
        ps.len() <= usize::MAX,
    ensures
        made(ps, params, f, f.fabricate(ps, params, target)),
        ({
            let g = f.fabricate(ps, params, target);
            g.devices.len() < target && g.devices.len() < MAX_DEVICES ==> forall|i: int|
                0 <= i < g.subnets.len() ==> zone_filled(#[trigger] g.subnets[i], g.used)
        }),
    decreases
            target - f.devices.len(),
            if f.subnets.len() < MAX_SUBNETS {
                MAX_SUBNETS - f.subnets.len()
            } else {
                0
            },
{
    lemma_made_same(ps, params, f, f);
    if f.devices.len() < target {
        let (zone, g) = f.choose_zone(ps, params);
        lemma_choose_zone(f, ps, params);
        lemma_choose_zone_made(f, ps, params);
        lemma_chosen_zone(f, ps, params);
        if !any_core(ps) {
            lemma_no_core(ps);
        }
        if zone is Some && cidr_net(zone->0) is Some {
            let net = cidr_net(zone->0)->0;
            lemma_cidr_net_wf(zone->0);
            match free_in(net, g.used) {
                None => {
                    lemma_fabricate(g, ps, params, target);
                    lemma_made_trans(ps, params, f, g, g.fabricate(ps, params, target));
                },
                Some(ip) => {
                    lemma_place_device(g, ps, zone->0, ip);
                    lemma_place_device_made(g, ps, params, zone->0, ip);
                    let h = g.place_device(ps, zone->0, ip);
                    lemma_made_trans(ps, params, f, g, h);
                    if h.devices.len() == f.devices.len() + 1 {
                        lemma_fabricate(h, ps, params, target);
                        lemma_made_trans(ps, params, f, h, h.fabricate(ps, params, target));
                    }
                },
            }
        }
    }
}

/// In a zone that names a vendor who makes controllers or switches, every
/// fabricated device is that vendor's.
pub proof fn law_devices_are_of_their_zones_vendor(
    f: Fab,
    ps: Seq<DeviceProfile>,
    params: AllocParams,
    target: nat,
    i: int,
    j: int,
)
    requires
        any_core(ps),
        ps.len() <= usize::MAX,
        f.devices.len() <= i < f.fabricate(ps, params, target).devices.len(),
        first_of_text(f.fabricate(ps, params, target).subnets, j),
        f.fabricate(ps, params, target).subnets[j].cidr == f.fabricate(
            ps,
            params,
            target,
        ).devices[i].subnet_cidr,
        f.fabricate(ps, params, target).subnets[j].vendor is Some,
        makes_core(ps, f.fabricate(ps, params, target).subnets[j].vendor->0),
    ensures
        Some(f.fabricate(ps, params, target).devices[i].vendor) == f.fabricate(
            ps,
            params,
            target,
        ).subnets[j].vendor,
{
    lemma_fabricate(f, ps, params, target);
    let g = f.fabricate(ps, params, target);
    assert(of_its_zone(ps, g.subnets, g.devices[i]));
    assert(g.subnets[j].cidr == g.devices[i].subnet_cidr);
}

/// Every fabricated device says of itself what one core profile says: vendor,
/// model, firmware, protocol and advisories together; it is classed by its
/// protocol, and its hardware address is under the profile's prefix.
pub proof fn law_devices_are_made_after_a_profile(
    f: Fab,
    ps: Seq<DeviceProfile>,
    params: AllocParams,
    target: nat,
    i: int,
)
    requires
        any_core(ps),
        ps.len() <= usize::MAX,
        f.devices.len() <= i < f.fabricate(ps, params, target).devices.len(),
    ensures
        exists|k: int|
            0 <= k < ps.len() && core_profile(#[trigger] ps[k]) && made_after(
                ps[k],
                f.fabricate(ps, params, target).devices[i],
            ),
{
    lemma_fabricate(f, ps, params, target);
    assert(made_after_core(ps, f.fabricate(ps, params, target).devices[i]));
}

/// The carrier protocols take turns: among any four zones added one after the
/// other, each protocol that a core profile speaks has a zone, of the vendor and
/// at the level of such a profile.
pub proof fn law_carriers_take_turns(
    f: Fab,
    ps: Seq<DeviceProfile>,
    params: AllocParams,
    target: nat,
    at: int,
    proto: ProfileProto,
) -> (i: int)
    requires
        any_core(ps),
        ps.len() <= usize::MAX,
        f.subnets.len() <= at,
        at + 4 <= f.fabricate(ps, params, target).subnets.len(),
        covers(ps, proto),
    ensures
        at <= i < at + 4,
        zone_for(ps, proto, f.fabricate(ps, params, target).subnets[i]),
{
    lemma_fabricate(f, ps, params, target);
    let g = f.fabricate(ps, params, target);
    let protos = present(ps);
    let keep = |p: ProfileProto| covers(ps, p);
    assert(carriers()[0] == ProfileProto::Enip && carriers()[1] == ProfileProto::Modbus
        && carriers()[2] == ProfileProto::S7 && carriers()[3] == ProfileProto::SwitchSnmp);
    assert(carriers().contains(proto));
    let c = choose|c: int| 0 <= c < carriers().len() && carriers()[c] == proto;
    carriers().lemma_filter_contains(keep, c);
    carriers().lemma_filter_len(keep);
    let n = protos.len() as int;
    let m = choose|m: int| 0 <= m < protos.len() && protos[m] == proto;
    let d: int = (m - at) % n;
    let i = at + d;
    assert(i % n == m) by (nonlinear_arith)
        requires
            n > 0,
            0 <= m < n,
            d == (m - at) % n,
            i == at + d,
    {
        let q: int = (m - at) / n;
        assert(m - at == n * q + d) by (nonlinear_arith)
            requires
                n > 0,
                q == (m - at) / n,
                d == (m - at) % n,
        ;
        assert(i == m + n * (-q)) by (nonlinear_arith)
            requires
                m - at == n * q + d,
                i == at + d,
        ;
        vstd::arithmetic::div_mod::lemma_mod_multiples_vanish(-q, m, n);
        vstd::arithmetic::div_mod::lemma_small_mod(m as nat, n as nat);
    }
    assert(zone_in_turn(ps, params, g.subnets, i));
    i
}

/// Every zone that fabrication adds lies in the 10/8 block, has the prefix length
/// asked for, and shares no address with a zone before it while the block has
/// room.
pub proof fn law_new_zones_lie_apart(
    f: Fab,
    ps: Seq<DeviceProfile>,
    params: AllocParams,
    target: nat,
    i: int,
)
    requires
        any_core(ps),
        ps.len() <= usize::MAX,
        f.subnets.len() <= i < f.fabricate(ps, params, target).subnets.len(),
    ensures
        zone_apart(params, f.fabricate(ps, params, target).subnets, i),
{
    lemma_fabricate(f, ps, params, target);
    assert(zone_in_turn(ps, params, f.fabricate(ps, params, target).subnets, i));
}

/// Fabrication stops short of its target, below the hard cap, only when no zone
/// has a host address left.
pub proof fn law_short_plant_is_full(
    f: Fab,
    ps: Seq<DeviceProfile>,
    params: AllocParams,
    target: nat,
)
    requires
        any_core(ps),
        ps.len() <= usize::MAX,
        f.fabricate(ps, params, target).devices.len() < target,
        f.fabricate(ps, params, target).devices.len() < MAX_DEVICES,
    ensures
        forall|i: int|
            0 <= i < f.fabricate(ps, params, target).subnets.len() ==> zone_filled(
                #[trigger] f.fabricate(ps, params, target).subnets[i],
                f.fabricate(ps, params, target).used,
            ),
{
    lemma_fabricate(f, ps, params, target);
}

} // verus!
