//! What holds of every enriched plant: what stands in which zone, and what each
//! asset says of itself.

use vstd::prelude::*;
use crate::ledger::{DeviceModel, SubnetModel, MAX_SUBNETS};
use crate::mac::mac_text;
use crate::net::{cidr_net, ip_text, lemma_cidr_net_wf, lemma_first_free};
use crate::oui::{has_row, law_picked_prefix_is_the_vendors, law_prefixes_for, prefix_bytes, prefixes_for};
use crate::simulate::bom::{bom_lines, label_text, AssetType, BomEntry};
use crate::simulate::devices::{gateway, AllocParams, Fab};
use crate::simulate::enrich::{
    class_places, domain_of, infra_place, l3_zones, lemma_naming_keeps_addresses, name_zones,
    with_domains, Stock,
};
use crate::text::{opt_text, texts};
use crate::vuln::{proto_tag, DeviceProfile};

verus! {

/// A bill of materials for the level asks for the class.
pub open spec fn stands_at(level: u8, class: AssetType) -> bool {
    match class {
        AssetType::Firewall => true,
        AssetType::Switch => 1 <= level <= 3,
        AssetType::Hmi => 1 <= level <= 2,
        AssetType::EngWorkstation => 1 <= level <= 3,
        AssetType::Historian => 2 <= level <= 3,
        AssetType::Server => level == 3,
        AssetType::Router => false,
        AssetType::Controller => false,
    }
}

/// How many of a class a bill of materials asks for.
pub open spec fn asked(lines: Seq<BomEntry>, class: AssetType) -> nat
    decreases lines.len(),
{
    if lines.len() == 0 {
        0
    } else {
        asked(lines.drop_last(), class) + if lines.last().0 == class {
            lines.last().1 as nat
        } else {
            0
        }
    }
}

/// Every zone has one firewall; a control zone of level 1 or 2 has a switch, an
/// operator panel and an engineering workstation besides, one of level 2 a
/// historian too; an operations zone of level 3 has a switch, a historian, four
/// servers and two workstations. No zone has a router or a controller on its bill.
pub proof fn law_bill_of_materials(level: u8)
    ensures
        asked(bom_lines(level), AssetType::Firewall) == 1,
        asked(bom_lines(level), AssetType::Switch) == if 1 <= level <= 3 {
            1nat
        } else {
            0
        },
        asked(bom_lines(level), AssetType::Hmi) == if 1 <= level <= 2 {
            1nat
        } else {
            0
        },
        asked(bom_lines(level), AssetType::EngWorkstation) == if level == 3 {
            2nat
        } else if 1 <= level <= 2 {
            1
        } else {
            0
        },
        asked(bom_lines(level), AssetType::Historian) == if 2 <= level <= 3 {
            1nat
        } else {
            0
        },
        asked(bom_lines(level), AssetType::Server) == if level == 3 {
            4nat
        } else {
            0
        },
        asked(bom_lines(level), AssetType::Router) == 0,
        asked(bom_lines(level), AssetType::Controller) == 0,
{
    reveal_with_fuel(asked, 7);
    let b = bom_lines(level);
    let b1 = b.drop_last();
    let b2 = b1.drop_last();
    let b3 = b2.drop_last();
    let b4 = b3.drop_last();
    assert(b.len() >= 1);
}

/// The asset was put there for a line of the zone's bill of materials.
spec fn on_bill(st: Stock, zones: Seq<SubnetModel>, d: DeviceModel) -> bool {
    exists|zi: int, class: AssetType, n: nat, ip: u32| #[trigger]
        bill_asset(st, zones, d, zi, class, n, ip)
}

spec fn bill_asset(
    st: Stock,
    zones: Seq<SubnetModel>,
    d: DeviceModel,
    zi: int,
    class: AssetType,
    n: nat,
    ip: u32,
) -> bool {
    &&& 0 <= zi < zones.len()
    &&& cidr_net(zones[zi].cidr) is Some
    &&& stands_at(zones[zi].purdue_level, class)
    &&& class_address(zones[zi], class, ip)
    &&& d == st.asset(zones[zi], zi as nat, class, n, ip)
}

/// A firewall stands on the first address behind that of its zone's network, any
/// other asset on another host address of that network.
pub open spec fn class_address(z: SubnetModel, class: AssetType, ip: u32) -> bool {
    let net = cidr_net(z.cidr)->0;
    if class == AssetType::Firewall {
        ip == gateway(net)
    } else {
        net.host_lo() <= ip <= net.host_hi() && ip != gateway(net)
    }
}

/// What adding assets does: those that were there stay, and each new one is on
/// the bill of a zone.
spec fn added(st: Stock, zones: Seq<SubnetModel>, a: Fab, b: Fab) -> bool {
    &&& a.devices.len() <= b.devices.len()
    &&& forall|i: int| 0 <= i < a.devices.len() ==> #[trigger] b.devices[i] == a.devices[i]
    &&& forall|i: int|
        a.devices.len() <= i < b.devices.len() ==> on_bill(st, zones, #[trigger] b.devices[i])
}

proof fn lemma_added_trans(st: Stock, zones: Seq<SubnetModel>, a: Fab, b: Fab, c: Fab)
    requires
        added(st, zones, a, b),
        added(st, zones, b, c),
    ensures
        added(st, zones, a, c),
{
    assert forall|i: int| 0 <= i < a.devices.len() implies #[trigger] c.devices[i]
        == a.devices[i] by {
        assert(b.devices[i] == a.devices[i]);
    }
    assert forall|i: int| a.devices.len() <= i < c.devices.len() implies on_bill(
        st,
        zones,
        #[trigger] c.devices[i],
    ) by {
        if i < b.devices.len() {
            assert(c.devices[i] == b.devices[i]);
        }
    }
}

proof fn lemma_asset_added(
    st: Stock,
    zones: Seq<SubnetModel>,
    f: Fab,
    zi: int,
    class: AssetType,
    n: nat,
)
    requires
        0 <= zi < zones.len(),
        cidr_net(zones[zi].cidr) is Some,
        stands_at(zones[zi].purdue_level, class),
    ensures
        added(st, zones, f, st.add_asset(f, zones[zi], zi as nat, class, n)),
{
    let z = zones[zi];
    let net = cidr_net(z.cidr)->0;
    lemma_cidr_net_wf(z.cidr);
    net.lemma_bounds();
    lemma_first_free(net.host_lo(), net.host_hi(), f.used.insert(gateway(net)));
    let r = st.add_asset(f, z, zi as nat, class, n);
    if r.devices.len() > f.devices.len() {
        let ip = if class == AssetType::Firewall {
            gateway(net)
        } else {
            crate::simulate::devices::free_in(net, f.used)->0
        };
        assert(bill_asset(st, zones, r.devices.last(), zi, class, n, ip));
    }
}

proof fn lemma_line_added(
    st: Stock,
    zones: Seq<SubnetModel>,
    f: Fab,
    zi: int,
    class: AssetType,
    count: nat,
)
    requires
        0 <= zi < zones.len(),
        cidr_net(zones[zi].cidr) is Some,
        stands_at(zones[zi].purdue_level, class),
    ensures
        added(st, zones, f, st.add_line(f, zones[zi], zi as nat, class, count)),
    decreases count,
{
    if count > 0 {
        let c = (count - 1) as nat;
        lemma_line_added(st, zones, f, zi, class, c);
        let g = st.add_line(f, zones[zi], zi as nat, class, c);
        lemma_asset_added(st, zones, g, zi, class, c);
        lemma_added_trans(st, zones, f, g, st.add_asset(g, zones[zi], zi as nat, class, c));
    }
}

proof fn lemma_lines_added(
    st: Stock,
    zones: Seq<SubnetModel>,
    f: Fab,
    zi: int,
    lines: Seq<BomEntry>,
)
    requires
        0 <= zi < zones.len(),
        cidr_net(zones[zi].cidr) is Some,
        forall|k: int|
            0 <= k < lines.len() ==> stands_at(zones[zi].purdue_level, (#[trigger] lines[k]).0),
    ensures
        added(st, zones, f, st.add_lines(f, zones[zi], zi as nat, lines)),
    decreases lines.len(),
{
    if lines.len() > 0 {
        let head = lines.drop_last();
        assert forall|k: int| 0 <= k < head.len() implies stands_at(
            zones[zi].purdue_level,
            (#[trigger] head[k]).0,
        ) by {
            assert(head[k] == lines[k]);
        }
        lemma_lines_added(st, zones, f, zi, head);
        let g = st.add_lines(f, zones[zi], zi as nat, head);
        let last = lines[lines.len() - 1];
        lemma_line_added(st, zones, g, zi, last.0, last.1 as nat);
        lemma_added_trans(
            st,
            zones,
            f,
            g,
            st.add_line(g, zones[zi], zi as nat, last.0, last.1 as nat),
        );
    }
}

proof fn lemma_boms_added(st: Stock, zones: Seq<SubnetModel>, f: Fab, n: int)
    requires
        0 <= n <= zones.len(),
    ensures
        added(st, zones, f, st.add_boms(f, zones.take(n))),
    decreases n,
{
    let z = zones.take(n);
    if n > 0 {
        assert(z.drop_last() =~= zones.take(n - 1));
        lemma_boms_added(st, zones, f, n - 1);
        let g = st.add_boms(f, zones.take(n - 1));
        let last = zones[n - 1];
        if cidr_net(last.cidr) is Some {
            lemma_lines_added(st, zones, g, n - 1, bom_lines(last.purdue_level));
            lemma_added_trans(
                st,
                zones,
                f,
                g,
                st.add_lines(g, last, (n - 1) as nat, bom_lines(last.purdue_level)),
            );
        }
    }
}

/// The class's label is the profile's asset class.
pub open spec fn of_class(p: DeviceProfile, class: AssetType) -> bool {
    opt_text(p.asset_class) == Some(label_text(class))
}

/// The asset says of itself what the profile says.
pub open spec fn after_profile(p: DeviceProfile, d: DeviceModel) -> bool {
    &&& d.vendor == p.vendor@
    &&& d.model == p.model@
    &&& d.firmware == p.firmware@
    &&& d.protocol == proto_tag(p.protocol)
    &&& d.cves == texts(p.cves@)
}

/// The hardware address starts with a prefix of the vendor, if the table has any.
pub open spec fn branded(rows: Seq<(u32, Seq<char>)>, d: DeviceModel) -> bool {
    (exists|p: u32| #[trigger] has_row(rows, p, d.vendor)) ==> exists|p: u32, low: Seq<u8>|
        #[trigger] has_row(rows, p, d.vendor) && low.len() == 3 && d.mac == #[trigger] mac_text(
            prefix_bytes(p) + low,
        )
}

/// An asset of the class in the zone: at an address that is the class's, under the
/// class's label, with a hardware address of its vendor, and named, if at all,
/// under the zone's domain. A firewall or switch is made after a profile of its
/// class where there is one; any other asset carries no advisory.
pub open spec fn stands_in(st: Stock, z: SubnetModel, class: AssetType, d: DeviceModel) -> bool {
    &&& stands_at(z.purdue_level, class)
    &&& exists|ip: u32| d.ip == #[trigger] ip_text(ip) && class_address(z, class, ip)
    &&& d.subnet_cidr == z.cidr
    &&& d.asset_type == Some(label_text(class))
    &&& branded(st.rows, d)
    &&& d.hostname is Some && z.domain is Some ==> exists|host: Seq<char>|
        d.hostname->0 == #[trigger] (host + "."@) + z.domain->0
    &&& if (class == AssetType::Firewall || class == AssetType::Switch) && exists|k: int|
        0 <= k < st.profiles.len() && of_class(#[trigger] st.profiles[k], class) {
        exists|k: int|
            0 <= k < st.profiles.len() && of_class(#[trigger] st.profiles[k], class)
                && after_profile(st.profiles[k], d)
    } else {
        d.cves.len() == 0 && d.protocol == "none"@
    }
}

proof fn lemma_class_places(ps: Seq<DeviceProfile>, class: Seq<char>)
    requires
        ps.len() <= usize::MAX,
    ensures
        forall|i: int|
            0 <= i < class_places(ps, class).len() ==> (#[trigger] class_places(ps, class)[i])
                < ps.len() && opt_text(ps[class_places(ps, class)[i] as int].asset_class) == Some(
                class,
            ),
        (exists|k: int| 0 <= k < ps.len()
            && opt_text((#[trigger] ps[k]).asset_class) == Some(class))
            <==> class_places(ps, class).len() > 0,
    decreases ps.len(),
{
    if ps.len() > 0 {
        let head = ps.drop_last();
        lemma_class_places(head, class);
        let r = class_places(head, class);
        let all = class_places(ps, class);
        assert forall|i: int| 0 <= i < all.len() implies (#[trigger] all[i]) < ps.len()
            && opt_text(ps[all[i] as int].asset_class) == Some(class) by {
            if i < r.len() {
                assert(all[i] == r[i]);
                assert(head[r[i] as int] == ps[r[i] as int]);
            }
        }
        if exists|k: int| 0 <= k < ps.len() && opt_text((#[trigger] ps[k]).asset_class) == Some(
            class,
        ) {
            let k = choose|k: int|
                0 <= k < ps.len() && opt_text((#[trigger] ps[k]).asset_class) == Some(class);
            if k < head.len() {
                assert(opt_text(head[k].asset_class) == Some(class));
            }
        }
        if all.len() > 0 {
            assert(opt_text(ps[all[0] as int].asset_class) == Some(class));
        }
    }
}

proof fn lemma_branded(st: Stock, z: SubnetModel, zi: nat, class: AssetType, n: nat, ip: u32)
    ensures
        branded(st.rows, st.asset(z, zi, class, n, ip)),
{
    let d = st.asset(z, zi, class, n, ip);
    if exists|p: u32| #[trigger] has_row(st.rows, p, d.vendor) {
        let p0 = choose|p: u32| #[trigger] has_row(st.rows, p, d.vendor);
        law_prefixes_for(st.rows, d.vendor);
        let ps = prefixes_for(st.rows, d.vendor);
        assert(ps.contains(p0));
        law_picked_prefix_is_the_vendors(st.rows, d.vendor, ip as u64);
        let p = ps[(ip as u64 as usize) as int % ps.len() as int];
        let low = crate::proto::l3::host_mac(st.seed, ip).subrange(3, 6);
        assert(has_row(st.rows, p, d.vendor));
        assert(d.mac == mac_text(prefix_bytes(p) + low));
    }
}

proof fn lemma_stands_in(st: Stock, z: SubnetModel, zi: nat, class: AssetType, n: nat, ip: u32)
    requires
        st.profiles.len() <= usize::MAX,
        stands_at(z.purdue_level, class),
        class_address(z, class, ip),
    ensures
        stands_in(st, z, class, st.asset(z, zi, class, n, ip)),
{
    let d = st.asset(z, zi, class, n, ip);
    lemma_branded(st, z, zi, class, n, ip);
    assert(d.ip == ip_text(ip));
    if d.hostname is Some && z.domain is Some {
        let host = crate::simulate::bom::hostname_text(Some(d.vendor), class, zi, n);
        assert(d.hostname->0 == (host + "."@) + z.domain->0);
    }
    let label = label_text(class);
    lemma_class_places(st.profiles, label);
    let c = class_places(st.profiles, label);
    if class == AssetType::Firewall || class == AssetType::Switch {
        if c.len() > 0 {
            let k = infra_place(st.profiles, label, st.seed, ip)->0;
            assert(of_class(st.profiles[k], class) && after_profile(st.profiles[k], d));
        } else {
            assert forall|k: int| 0 <= k < st.profiles.len() implies !of_class(
                #[trigger] st.profiles[k],
                class,
            ) by {
                assert(opt_text(st.profiles[k].asset_class) != Some(label));
            }
        }
    }
}

/// Every asset that enriching adds stands in a zone of the plant, on that zone's
/// bill of materials.
pub proof fn law_assets_stand_in_their_zones(st: Stock, f: Fab, i: int) -> (r: (int, AssetType))
    requires
        st.profiles.len() <= usize::MAX,
        f.devices.len() <= i < st.enrich(f).devices.len(),
    ensures
        0 <= r.0 < f.subnets.len(),
        cidr_net(f.subnets[r.0].cidr) is Some,
        stands_in(st, f.subnets[r.0], r.1, st.enrich(f).devices[i]),
{
    let g = Fab { devices: name_zones(f.devices, f.subnets, st.seed), ..f };
    lemma_naming_keeps_addresses(f.devices, f.subnets, st.seed);
    let zones = f.subnets;
    assert(zones.take(zones.len() as int) =~= zones);
    lemma_boms_added(st, zones, g, zones.len() as int);
    let d = st.enrich(f).devices[i];
    assert(on_bill(st, zones, d));
    let (zi, class, n, ip) = choose|zi: int, class: AssetType, n: nat, ip: u32| #[trigger]
        bill_asset(st, zones, d, zi, class, n, ip);
    lemma_stands_in(st, zones[zi], zi as nat, class, n, ip);
    (zi, class)
}

/// With domains given, every zone gets one of them and keeps all else; with one
/// domain given, every zone gets that one.
pub proof fn law_zones_share_the_sites_domains(
    subnets: Seq<SubnetModel>,
    domains: Seq<Seq<char>>,
    seed: u64,
    i: int,
)
    requires
        domains.len() > 0,
        0 <= i < subnets.len(),
    ensures
        with_domains(subnets, domains, seed).len() == subnets.len(),
        ({
            let z = with_domains(subnets, domains, seed)[i];
            &&& z.domain is Some
            &&& domains.contains(z.domain->0)
            &&& z.cidr == subnets[i].cidr
            &&& z.zone_name == subnets[i].zone_name
            &&& z.purdue_level == subnets[i].purdue_level
            &&& z.vendor == subnets[i].vendor
        }),
        domains.len() == 1 ==> with_domains(subnets, domains, seed)[i].domain == Some(domains[0]),
{
    let d = domain_of(i, domains, seed);
    if domains.len() == 1 || d == domains[0] {
        assert(domains[0] == d);
    } else {
        let k = 1 + i % (domains.len() - 1);
        assert(0 <= i % (domains.len() - 1) < domains.len() - 1);
        assert(domains[k] == d);
    }
}

/// Every operations zone is added behind the zones that are there, at level 3 and
/// without a domain, no more of them than asked for and none past the caps; any
/// three in a row are branded with three makers.
pub proof fn law_operations_zones(f: Fab, params: AllocParams, count: nat)
    ensures
        ({
            let g = l3_zones(f, params, count);
            &&& g.devices == f.devices
            &&& f.subnets.len() <= g.subnets.len() <= f.subnets.len() + count
            &&& g.subnets.len() > f.subnets.len() ==> g.subnets.len() <= params.max_subnets
                && g.subnets.len() <= MAX_SUBNETS
            &&& forall|i: int| 0 <= i < f.subnets.len() ==> #[trigger] g.subnets[i] == f.subnets[i]
            &&& forall|i: int|
                f.subnets.len() <= i < g.subnets.len() ==> (#[trigger] g.subnets[i]).purdue_level
                    == 3 && g.subnets[i].domain is None && g.subnets[i].vendor == Some(
                    maker(i % 3),
                )
        }),
    decreases count,
{
    if count > 0 && f.subnets.len() < params.max_subnets {
        let (net, g) = f.fresh(params);
        let idx = f.subnets.len();
        let vendor = crate::simulate::enrich::l3_vendor(idx as int);
        let s = SubnetModel {
            cidr: crate::net::net_text(net),
            zone_name: crate::simulate::zones::zone_name(Some(vendor), None, 3, idx),
            purdue_level: 3,
            vendor: Some(vendor),
            domain: None,
        };
        let h = match g.add_subnet(s) {
            Some(h) => h,
            None => g,
        };
        law_operations_zones(h, params, (count - 1) as nat);
        let done = l3_zones(f, params, count);
        assert(done == l3_zones(h, params, (count - 1) as nat));
        assert forall|i: int| 0 <= i < f.subnets.len() implies #[trigger] done.subnets[i]
            == f.subnets[i] by {
            assert(h.subnets[i] == f.subnets[i]);
        }
        if h.subnets.len() > idx {
            assert(done.subnets[idx as int] == h.subnets[idx as int]);
        }
    }
}

/// The maker of an operations zone whose number leaves the remainder by three.
pub open spec fn maker(rest: int) -> Seq<char> {
    if rest == 0 {
        "VMware"@
    } else if rest == 1 {
        "Dell"@
    } else {
        "Hewlett Packard"@
    }
}

} // verus!
