//! Vulnerable-device profiles: the models that devices are fabricated from, with
//! the CVEs they carry and what they say on the wire.

use vstd::prelude::*;
use crate::oui::{parse_prefix, prefix_bytes, prefix_of};
use crate::simulate::devices::any_core;
use crate::text::{clone_opt, clone_strings, str_eq};

verus! {

/// The protocol that carries a device's identity.
#[derive(Clone, Copy, Debug, PartialEq, Eq, Structural)]
pub enum ProfileProto {
    Enip,
    Modbus,
    S7,
    SwitchSnmp,
}

/// The tag of a carrier protocol.
pub open spec fn proto_tag(p: ProfileProto) -> Seq<char> {
    match p {
        ProfileProto::Enip => "enip"@,
        ProfileProto::Modbus => "modbus"@,
        ProfileProto::S7 => "s7"@,
        ProfileProto::SwitchSnmp => "switch_snmp"@,
    }
}

impl ProfileProto {
    pub fn as_str(self) -> (r: &'static str)
        ensures
            r@ == proto_tag(self),
    {
        match self {
            ProfileProto::Enip => "enip",
            ProfileProto::Modbus => "modbus",
            ProfileProto::S7 => "s7",
            ProfileProto::SwitchSnmp => "switch_snmp",
        }
    }
}

#[derive(Debug)]
pub struct DeviceProfile {
    pub vendor: String,
    pub model: String,
    pub firmware: String,
    pub protocol: ProfileProto,
    pub purdue_level: u8,
    pub oui: Option<String>,
    pub cves: Vec<String>,
    pub enip_vendor_id: Option<u16>,
    pub enip_device_type: Option<u16>,
    pub enip_product_code: Option<u16>,
    pub enip_product_name: Option<String>,
    pub s7_order_number: Option<String>,
    pub sys_descr: Option<String>,
    pub sys_object_id: Option<String>,
    pub firmware_oid: Option<String>,
    /// Set on infrastructure placed by the bill of materials ("Firewall",
    /// "Router"); `None` on a core controller or switch.
    pub asset_class: Option<String>,
    pub modbus_vendor_name: Option<String>,
    pub modbus_product_code: Option<String>,
    pub modbus_revision: Option<String>,
}

/// Two profiles say the same, their CVE lists compared by content.
pub open spec fn same_profile(a: DeviceProfile, b: DeviceProfile) -> bool {
    &&& a.cves@ == b.cves@
    &&& a == (DeviceProfile { cves: a.cves, ..b })
}

impl Clone for DeviceProfile {
    fn clone(&self) -> (r: Self)
        ensures
            same_profile(r, *self),
    {
        DeviceProfile {
            vendor: self.vendor.clone(),
            model: self.model.clone(),
            firmware: self.firmware.clone(),
            protocol: self.protocol,
            purdue_level: self.purdue_level,
            oui: clone_opt(&self.oui),
            cves: clone_strings(&self.cves),
            enip_vendor_id: self.enip_vendor_id,
            enip_device_type: self.enip_device_type,
            enip_product_code: self.enip_product_code,
            enip_product_name: clone_opt(&self.enip_product_name),
            s7_order_number: clone_opt(&self.s7_order_number),
            sys_descr: clone_opt(&self.sys_descr),
            sys_object_id: clone_opt(&self.sys_object_id),
            firmware_oid: clone_opt(&self.firmware_oid),
            asset_class: clone_opt(&self.asset_class),
            modbus_vendor_name: clone_opt(&self.modbus_vendor_name),
            modbus_product_code: clone_opt(&self.modbus_product_code),
            modbus_revision: clone_opt(&self.modbus_revision),
        }
    }
}

/// The prefix that a profile's OUI text stands for.
pub open spec fn profile_prefix(p: DeviceProfile) -> Option<Seq<u8>> {
    match p.oui {
        Some(s) => match prefix_of(s@) {
            Some(n) => Some(prefix_bytes(n)),
            None => None,
        },
        None => None,
    }
}

impl DeviceProfile {
    /// The OUI prefix of the profile's vendor, if it names one.
    pub fn oui_prefix(&self) -> (r: Option<[u8; 3]>)
        ensures
            r is Some <==> profile_prefix(*self) is Some,
            r matches Some(b) ==> profile_prefix(*self) == Some(b@),
    {
        match &self.oui {
            Some(s) => parse_prefix(s.as_str()),
            None => None,
        }
    }
}

/// The profile database.
#[derive(Debug)]
pub struct VulnDb {
    pub profiles: Vec<DeviceProfile>,
}

/// The place of the first profile of a model, the number of profiles if there is
/// none.
pub open spec fn model_place(ps: Seq<DeviceProfile>, model: Seq<char>) -> int
    decreases ps.len(),
{
    if ps.len() == 0 || ps[0].model@ == model {
        0
    } else {
        1 + model_place(ps.drop_first(), model)
    }
}

impl VulnDb {
    /// A database of the given profiles.
    pub fn new(profiles: Vec<DeviceProfile>) -> (r: VulnDb)
        ensures
            r.profiles == profiles,
    {
        VulnDb { profiles }
    }

    pub fn is_empty(&self) -> (r: bool)
        ensures
            r == (self.profiles@.len() == 0),
    {
        self.profiles.len() == 0
    }

    pub fn profiles(&self) -> (r: &Vec<DeviceProfile>)
        ensures
            *r == self.profiles,
    {
        &self.profiles
    }

    /// The first profile of a model.
    pub fn by_model(&self, model: &str) -> (r: Option<&DeviceProfile>)
        ensures
            ({
                let i = model_place(self.profiles@, model@);
                &&& 0 <= i <= self.profiles@.len()
                &&& r is Some <==> i < self.profiles@.len()
                &&& r matches Some(p) ==> *p == self.profiles@[i] && p.model@ == model@
            }),
    {
        let mut i: usize = 0;
        proof {
            assert(self.profiles@.skip(0) =~= self.profiles@);
        }
        while i < self.profiles.len()
            invariant
                i <= self.profiles@.len(),
                model_place(self.profiles@, model@) == i + model_place(
                    self.profiles@.skip(i as int),
                    model@,
                ),
            decreases self.profiles@.len() - i,
        {
            proof {
                assert(self.profiles@.skip(i as int).drop_first() =~= self.profiles@.skip(
                    i as int + 1,
                ));
            }
            if str_eq(self.profiles[i].model.as_str(), model) {
                return Some(&self.profiles[i]);
            }
            i += 1;
        }
        None
    }

    /// The built-in profiles: a core of controllers and switches over every
    /// carrier protocol, and a firewall and a router for the bill of materials.
    pub fn embedded() -> (r: VulnDb)
        ensures
            r.profiles@.len() > 0,
            any_core(r.profiles@),
            forall|p: ProfileProto| #[trigger] covers(r.profiles@, p),
            forall|i: int| 0 <= i < r.profiles@.len() ==> (#[trigger] r.profiles@[i]).cves@.len() > 0,
    {
        let mut ps: Vec<DeviceProfile> = Vec::new();
        ps.push(enip("Rockwell Automation", "1756-L61", "20.011", "00:00:BC", "CVE-2021-22681", 1, 14, 54));
        ps.push(enip("Rockwell Automation", "1769-L33ER", "30.014", "00:1D:9C", "CVE-2022-1161", 1, 14, 107));
        ps.push(modbus("Schneider Electric", "BMX P34 2020", "v2.7", "00:80:F4", "CVE-2021-22779"));
        ps.push(modbus("ABB", "AC500 PM573-ETH", "2.4.1", "00:24:59", "CVE-2020-24685"));
        ps.push(s7("Siemens AG", "SIMATIC S7-300 CPU 315-2 PN/DP", "V3.2.12", "00:0E:8C", "CVE-2016-9159", "6ES7 315-2EH14-0AB0"));
        ps.push(s7("Siemens AG", "SIMATIC S7-1200 CPU 1212C", "V4.4.0", "00:1B:1B", "CVE-2020-15782", "6ES7 212-1AE40-0XB0"));
        ps.push(snmp("Moxa", "EDS-408A", "3.8", "00:90:E8", "CVE-2019-6561", 2, None));
        ps.push(snmp("Cisco Systems", "IE-3000-8TC", "15.2(2)E", "00:1A:A1", "CVE-2017-3881", 2, None));
        ps.push(snmp("Fortinet", "FortiGate 100E", "6.0.4", "00:09:0F", "CVE-2018-13379", 3, Some("Firewall")));
        ps.push(snmp("Cisco Systems", "ISR 4321", "16.6.4", "00:00:0C", "CVE-2019-1862", 3, Some("Router")));
        proof {
            assert(ps@[0].protocol == ProfileProto::Enip && ps@[0].asset_class is None);
            assert(ps@[2].protocol == ProfileProto::Modbus && ps@[2].asset_class is None);
            assert(ps@[4].protocol == ProfileProto::S7 && ps@[4].asset_class is None);
            assert(ps@[6].protocol == ProfileProto::SwitchSnmp && ps@[6].asset_class is None);
            assert forall|p: ProfileProto| #[trigger] covers(ps@, p) by {
                let i = match p {
                    ProfileProto::Enip => 0int,
                    ProfileProto::Modbus => 2,
                    ProfileProto::S7 => 4,
                    ProfileProto::SwitchSnmp => 6,
                };
                assert(ps@[i].protocol == p);
            }
        }
        VulnDb { profiles: ps }
    }
}

/// Some core profile is carried by the protocol.
pub open spec fn covers(ps: Seq<DeviceProfile>, p: ProfileProto) -> bool {
    exists|i: int|
        0 <= i < ps.len() && (#[trigger] ps[i]).protocol == p && ps[i].asset_class is None
}

fn profile(
    protocol: ProfileProto,
    vendor: &str,
    model: &str,
    firmware: &str,
    oui: &str,
    cve: &str,
    purdue_level: u8,
) -> (r: DeviceProfile)
    ensures
        r.protocol == protocol,
        r.asset_class is None,
        r.cves@.len() == 1,
{
    let mut cves: Vec<String> = Vec::new();
    cves.push(cve.to_owned());
    DeviceProfile {
        vendor: vendor.to_owned(),
        model: model.to_owned(),
        firmware: firmware.to_owned(),
        protocol,
        purdue_level,
        oui: Some(oui.to_owned()),
        cves,
        enip_vendor_id: None,
        enip_device_type: None,
        enip_product_code: None,
        enip_product_name: None,
        s7_order_number: None,
        sys_descr: None,
        sys_object_id: None,
        firmware_oid: None,
        asset_class: None,
        modbus_vendor_name: None,
        modbus_product_code: None,
        modbus_revision: None,
    }
}

fn enip(
    vendor: &str,
    model: &str,
    firmware: &str,
    oui: &str,
    cve: &str,
    vendor_id: u16,
    device_type: u16,
    product_code: u16,
) -> (r: DeviceProfile)
    ensures
        r.protocol == ProfileProto::Enip,
        r.asset_class is None,
        r.cves@.len() == 1,
{
    let mut p = profile(ProfileProto::Enip, vendor, model, firmware, oui, cve, 1);
    p.enip_vendor_id = Some(vendor_id);
    p.enip_device_type = Some(device_type);
    p.enip_product_code = Some(product_code);
    p
}

fn modbus(vendor: &str, model: &str, firmware: &str, oui: &str, cve: &str) -> (r: DeviceProfile)
    ensures
        r.protocol == ProfileProto::Modbus,
        r.asset_class is None,
        r.cves@.len() == 1,
{
    profile(ProfileProto::Modbus, vendor, model, firmware, oui, cve, 1)
}

fn s7(vendor: &str, model: &str, firmware: &str, oui: &str, cve: &str, order: &str) -> (r:
    DeviceProfile)
    ensures
        r.protocol == ProfileProto::S7,
        r.asset_class is None,
        r.cves@.len() == 1,
{
    let mut p = profile(ProfileProto::S7, vendor, model, firmware, oui, cve, 1);
    p.s7_order_number = Some(order.to_owned());
    p
}

fn snmp(
    vendor: &str,
    model: &str,
    firmware: &str,
    oui: &str,
    cve: &str,
    level: u8,
    class: Option<&str>,
) -> (r: DeviceProfile)
    ensures
        r.protocol == ProfileProto::SwitchSnmp,
        r.asset_class is None <==> class is None,
        r.cves@.len() == 1,
{
    let mut p = profile(ProfileProto::SwitchSnmp, vendor, model, firmware, oui, cve, level);
    p.asset_class = match class {
        Some(c) => Some(c.to_owned()),
        None => None,
    };
    p
}

} // verus!
