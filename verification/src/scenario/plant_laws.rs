//! What holds of every declared plant: each zone and each device is there as it
//! was declared.

use vstd::prelude::*;
use crate::ledger::{DeviceModel, SubnetModel};
use crate::mac::mac_text;
use crate::net::{cidr_net, ip_of, ip_text};
use crate::scenario::action_laws::lemma_place;
use crate::scenario::plant::{
    address_for, declares, pin_one, pinned, pinned_record, zones_of, DeviceSpec, ZoneSpec,
};
use crate::simulate::enrich::Stock;
use crate::text::{opt_text, texts};
use crate::vuln::{model_place, profile_prefix, proto_tag, DeviceProfile, ProfileProto};

verus! {

/// The zones of an accepted declaration are those declared, in order, each with
/// its own network, name, level and vendor; no two share a network text.
pub proof fn law_zones_are_as_declared(zones: Seq<ZoneSpec>)
    requires
        zones_of(zones) is Ok,
    ensures
        ({
            let r = zones_of(zones)->Ok_0;
            &&& r.len() == zones.len()
            &&& forall|i: int|
                0 <= i < r.len() ==> {
                    &&& (#[trigger] r[i]).cidr == zones[i].cidr@
                    &&& cidr_net(r[i].cidr) is Some
                    &&& r[i].zone_name == zones[i].name@
                    &&& r[i].purdue_level == zones[i].purdue_level
                    &&& r[i].vendor == opt_text(zones[i].vendor)
                }
            &&& forall|i: int, j: int|
                0 <= i < j < r.len() ==> (#[trigger] r[i]).cidr != (#[trigger] r[j]).cidr
        }),
    decreases zones.len(),
{
    if zones.len() > 0 {
        let head = zones.drop_last();
        law_zones_are_as_declared(head);
        let prior = zones_of(head)->Ok_0;
        let r = zones_of(zones)->Ok_0;
        assert forall|i: int| 0 <= i < r.len() implies {
            &&& (#[trigger] r[i]).cidr == zones[i].cidr@
            &&& cidr_net(r[i].cidr) is Some
            &&& r[i].zone_name == zones[i].name@
            &&& r[i].purdue_level == zones[i].purdue_level
            &&& r[i].vendor == opt_text(zones[i].vendor)
        } by {
            if i < prior.len() {
                assert(r[i] == prior[i]);
                assert(head[i] == zones[i]);
            }
        }
        assert forall|i: int, j: int| 0 <= i < j < r.len() implies (#[trigger] r[i]).cidr != (
        #[trigger] r[j]).cidr by {
            assert(r[i] == prior[i]);
            if j < prior.len() {
                assert(r[j] == prior[j]);
            }
        }
    }
}

/// The profile at `k` is the first of the model.
pub open spec fn leads(ps: Seq<DeviceProfile>, model: Seq<char>, k: int) -> bool {
    &&& 0 <= k < ps.len()
    &&& ps[k].model@ == model
    &&& forall|j: int| 0 <= j < k ==> (#[trigger] ps[j]).model@ != model
}

/// The record is the profile's: its vendor, model, firmware, protocol and
/// advisories, and a hardware address under its prefix, if it has one.
pub open spec fn of_profile(p: DeviceProfile, d: DeviceModel) -> bool {
    &&& d.vendor == p.vendor@
    &&& d.model == p.model@
    &&& d.firmware == p.firmware@
    &&& d.protocol == proto_tag(p.protocol)
    &&& d.cves == texts(p.cves@)
    &&& profile_prefix(p) is Some ==> exists|low: Seq<u8>|
        low.len() == 3 && d.mac == #[trigger] mac_text(profile_prefix(p)->0 + low)
}

/// The record says what was declared, and carries no advisory.
pub open spec fn of_declaration(s: DeviceSpec, d: DeviceModel) -> bool {
    &&& d.cves.len() == 0
    &&& match s.vendor {
        Some(v) => d.vendor == v@,
        None => d.vendor.len() == 0,
    }
    &&& match (s.model, s.asset_type) {
        (Some(m), _) => d.model == m@,
        (None, Some(t)) => d.model == t@,
        (None, None) => d.model == "Device"@,
    }
    &&& match s.firmware {
        Some(v) => d.firmware == v@,
        None => d.firmware == "1.0"@,
    }
    &&& match s.protocol {
        Some(v) => d.protocol == v@,
        None => d.protocol == "none"@,
    }
}

/// The record is that of the declared device: in its zone, at its address and
/// under its name and class, if it has them; the first profile of its model's if
/// there is one, else what it says of itself.
pub open spec fn as_declared(ps: Seq<DeviceProfile>, s: DeviceSpec, d: DeviceModel) -> bool {
    &&& d.subnet_cidr == s.zone@
    &&& s.ip is Some ==> d.ip == s.ip->0@
    &&& exists|ip: u32| d.ip == #[trigger] ip_text(ip)
    &&& d.hostname == opt_text(s.hostname)
    &&& s.asset_type is Some ==> d.asset_type == Some(s.asset_type->0@)
    &&& s.model is Some ==> forall|k: int| #[trigger]
        leads(ps, s.model->0@, k) ==> of_profile(ps[k], d) && (s.asset_type is None
            ==> d.asset_type == Some(
            if ps[k].protocol == ProfileProto::SwitchSnmp {
                "Switch"@
            } else {
                "Controller"@
            },
        ))
    &&& s.model is None || (forall|k: int|
        0 <= k < ps.len() ==> (#[trigger] ps[k]).model@ != s.model->0@)
            ==> of_declaration(s, d) && (
    s.asset_type is None ==> d.asset_type == Some("Controller"@))
}

proof fn lemma_record(st: Stock, s: DeviceSpec, ip: u32)
    requires
        s.ip is Some ==> ip_of(s.ip->0@) == Some(ip),
    ensures
        as_declared(st.profiles, s, pinned_record(st, s, ip)),
{
    let d = pinned_record(st, s, ip);
    reveal_strlit("");
    assert(d.ip == ip_text(ip));
    if s.model is Some {
        let m = s.model->0@;
        lemma_place(st.profiles, m);
        let k0 = model_place(st.profiles, m);
        assert forall|k: int| #[trigger] leads(st.profiles, m, k) implies k == k0 by {
            if k < k0 {
                assert(st.profiles[k].model@ != m);
            }
            if k0 < k {
                assert(st.profiles[k0].model@ != m);
            }
        }
        if k0 < st.profiles.len() {
            let p = st.profiles[k0];
            if profile_prefix(p) is Some {
                let low = crate::proto::l3::host_mac(st.seed, ip).subrange(3, 6);
                assert(d.mac == mac_text(profile_prefix(p)->0 + low));
            }
            assert(st.profiles[k0].model@ == m);
        }
    }
}

/// Every device of an accepted declaration is pinned, in order and as declared, in
/// a zone that is declared.
pub proof fn law_devices_are_as_declared(
    st: Stock,
    zones: Seq<SubnetModel>,
    ds: Seq<DeviceSpec>,
    i: int,
)
    requires
        pinned(st, zones, ds) is Ok,
        0 <= i < ds.len(),
    ensures
        pinned(st, zones, ds)->Ok_0.devices.len() == ds.len(),
        as_declared(st.profiles, ds[i], pinned(st, zones, ds)->Ok_0.devices[i]),
        declares(zones, ds[i].zone@),
    decreases ds.len(),
{
    let head = ds.drop_last();
    let prior = pinned(st, zones, head)->Ok_0;
    let s = ds.last();
    reveal(pin_one);
    lemma_pinned_len(st, zones, head);
    let ip = address_for(prior.devices, s)->Ok_0;
    let done = pinned(st, zones, ds)->Ok_0;
    assert(done.devices == prior.devices.push(pinned_record(st, s, ip)));
    if i < head.len() {
        law_devices_are_as_declared(st, zones, head, i);
        assert(head[i] == ds[i]);
        assert(done.devices[i] == prior.devices[i]);
    } else {
        lemma_record(st, s, ip);
        assert(done.devices[i] == pinned_record(st, s, ip));
    }
}

proof fn lemma_pinned_len(st: Stock, zones: Seq<SubnetModel>, ds: Seq<DeviceSpec>)
    requires
        pinned(st, zones, ds) is Ok,
    ensures
        pinned(st, zones, ds)->Ok_0.devices.len() == ds.len(),
    decreases ds.len(),
{
    if ds.len() > 0 {
        reveal(pin_one);
        lemma_pinned_len(st, zones, ds.drop_last());
    }
}

/// A declaration with a device in a zone that is not declared is refused.
pub proof fn law_undeclared_zone_is_refused(
    st: Stock,
    zones: Seq<SubnetModel>,
    ds: Seq<DeviceSpec>,
    i: int,
)
    requires
        0 <= i < ds.len(),
        !declares(zones, ds[i].zone@),
    ensures
        pinned(st, zones, ds) is Err,
{
    if pinned(st, zones, ds) is Ok {
        law_devices_are_as_declared(st, zones, ds, i);
    }
}

} // verus!
