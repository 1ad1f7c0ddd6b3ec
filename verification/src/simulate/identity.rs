//! What one asset says of itself on the wire.
//!
//! Each exchange is one call of a frame builder, with everything that the builder
//! is told. The asset is the server, answering its zone's engineering station.

use vstd::prelude::*;
use crate::ledger::DeviceRecord;
use crate::scenario::action::{Link, LinkModel};
use crate::scenario::engine::or;
use crate::text::{clamp_str, clamped, clone_opt, clone_strings, opt_is, opt_text, str_eq};
use crate::vuln::{DeviceProfile, ProfileProto};

verus! {

/// One call of a frame builder.
#[derive(Clone, Debug)]
pub enum Exchange {
    /// A who-has request, and the owner's is-at reply.
    Arp { requester_mac: [u8; 6], requester_ip: u32, owner_mac: [u8; 6], owner_ip: u32 },
    /// A List Identity request and its reply.
    Enip {
        link: Link,
        vendor_id: u16,
        device_type: u16,
        product_code: u16,
        firmware: String,
        serial: u32,
        product_name: String,
    },
    /// A read of the device identification.
    Modbus { link: Link, unit: u8, vendor_name: String, product_code: String, revision: String },
    /// A read of the module identification.
    S7 { link: Link, order: String, firmware: String },
    /// A discovery beacon.
    Lldp { mac: [u8; 6], ip: u32, name: String, descr: String },
    /// A discovery beacon.
    Cdp { mac: [u8; 6], ip: u32, device: String, version: String, platform: String },
    /// A fetch of the system group, with the firmware version where there is one,
    /// under its own object id where the profile gives one.
    Snmp {
        link: Link,
        community: String,
        request_id: u32,
        descr: String,
        object_id: Option<String>,
        firmware_oid: Option<String>,
        firmware: Option<String>,
    },
    /// A lookup of a host's own name at its zone's resolver.
    Dns {
        host_mac: [u8; 6],
        resolver_mac: [u8; 6],
        host_ip: u32,
        resolver_ip: u32,
        port: u16,
        id: u16,
        name: String,
    },
}

/// The value of an exchange.
pub ghost enum ExchangeModel {
    Arp { requester_mac: Seq<u8>, requester_ip: u32, owner_mac: Seq<u8>, owner_ip: u32 },
    Enip {
        link: LinkModel,
        vendor_id: u16,
        device_type: u16,
        product_code: u16,
        firmware: Seq<char>,
        serial: u32,
        product_name: Seq<char>,
    },
    Modbus {
        link: LinkModel,
        unit: u8,
        vendor_name: Seq<char>,
        product_code: Seq<char>,
        revision: Seq<char>,
    },
    S7 { link: LinkModel, order: Seq<char>, firmware: Seq<char> },
    Lldp { mac: Seq<u8>, ip: u32, name: Seq<char>, descr: Seq<char> },
    Cdp { mac: Seq<u8>, ip: u32, device: Seq<char>, version: Seq<char>, platform: Seq<char> },
    Snmp {
        link: LinkModel,
        community: Seq<char>,
        request_id: u32,
        descr: Seq<char>,
        object_id: Option<Seq<char>>,
        firmware_oid: Option<Seq<char>>,
        firmware: Option<Seq<char>>,
    },
    Dns {
        host_mac: Seq<u8>,
        resolver_mac: Seq<u8>,
        host_ip: u32,
        resolver_ip: u32,
        port: u16,
        id: u16,
        name: Seq<char>,
    },
}

impl View for Exchange {
    type V = ExchangeModel;

    open spec fn view(&self) -> ExchangeModel {
        match *self {
            Exchange::Arp { requester_mac, requester_ip, owner_mac, owner_ip } => ExchangeModel::Arp {
                requester_mac: requester_mac@,
                requester_ip,
                owner_mac: owner_mac@,
                owner_ip,
            },
            Exchange::Enip {
                link,
                vendor_id,
                device_type,
                product_code,
                firmware,
                serial,
                product_name,
            } => ExchangeModel::Enip {
                link: link@,
                vendor_id,
                device_type,
                product_code,
                firmware: firmware@,
                serial,
                product_name: product_name@,
            },
            Exchange::Modbus { link, unit, vendor_name, product_code, revision } => ExchangeModel::Modbus {
                link: link@,
                unit,
                vendor_name: vendor_name@,
                product_code: product_code@,
                revision: revision@,
            },
            Exchange::S7 { link, order, firmware } => ExchangeModel::S7 {
                link: link@,
                order: order@,
                firmware: firmware@,
            },
            Exchange::Lldp { mac, ip, name, descr } => ExchangeModel::Lldp {
                mac: mac@,
                ip,
                name: name@,
                descr: descr@,
            },
            Exchange::Cdp { mac, ip, device, version, platform } => ExchangeModel::Cdp {
                mac: mac@,
                ip,
                device: device@,
                version: version@,
                platform: platform@,
            },
            Exchange::Snmp {
                link,
                community,
                request_id,
                descr,
                object_id,
                firmware_oid,
                firmware,
            } => ExchangeModel::Snmp {
                link: link@,
                community: community@,
                request_id,
                descr: descr@,
                object_id: opt_text(object_id),
                firmware_oid: opt_text(firmware_oid),
                firmware: opt_text(firmware),
            },
            Exchange::Dns { host_mac, resolver_mac, host_ip, resolver_ip, port, id, name } => ExchangeModel::Dns {
                host_mac: host_mac@,
                resolver_mac: resolver_mac@,
                host_ip,
                resolver_ip,
                port,
                id,
                name: name@,
            },
        }
    }
}

/// The values of exchanges.
pub open spec fn exchange_models(v: Seq<Exchange>) -> Seq<ExchangeModel> {
    v.map_values(|e: Exchange| e@)
}

/// The client port of a burst and a device, in the dynamic range.
pub open spec fn scan_port(nonce: u64, ip: u32) -> u16 {
    let h = nonce.wrapping_mul(0x9E37_79B9_7F4A_7C15) ^ (ip as u64).wrapping_mul(
        0x2545_F491_4F6C_DD1D,
    );
    (49152 + h % 16384) as u16
}

/// A fresh ephemeral client port in the IANA dynamic range, varied per burst and
/// per device, so that every scan is a new conversation.
pub fn ephemeral_port(nonce: u64, dev_ip: u32) -> (r: u16)
    ensures
        r == scan_port(nonce, dev_ip),
        49152 <= r,
{
    let h: u64 = nonce.wrapping_mul(0x9E37_79B9_7F4A_7C15) ^ (dev_ip as u64).wrapping_mul(
        0x2545_F491_4F6C_DD1D,
    );
    49152 + (h % 16384) as u16
}

/// The carrier protocol that a record's tag stands for.
pub open spec fn tagged_proto(s: Seq<char>) -> ProfileProto {
    if s == "modbus"@ {
        ProfileProto::Modbus
    } else if s == "s7"@ {
        ProfileProto::S7
    } else if s == "switch_snmp"@ {
        ProfileProto::SwitchSnmp
    } else {
        ProfileProto::Enip
    }
}

/// The carrier protocol of a record's tag; what is not known is EtherNet/IP.
pub fn proto_from_str(s: &str) -> (r: ProfileProto)
    ensures
        r == tagged_proto(s@),
{
    if str_eq(s, "modbus") {
        ProfileProto::Modbus
    } else if str_eq(s, "s7") {
        ProfileProto::S7
    } else if str_eq(s, "switch_snmp") {
        ProfileProto::SwitchSnmp
    } else {
        ProfileProto::Enip
    }
}

/// A generic profile recovered from a ledger device whose model is no longer in
/// the profile database, so that it still announces a coherent identity.
pub fn fallback_profile(dev: &DeviceRecord) -> (r: DeviceProfile)
    ensures
        profile_model(r) == fallback_of(*dev),
        r.cves@ == dev.cves@,
        r.purdue_level == 0,
        r.oui is None,
{
    DeviceProfile {
        vendor: dev.vendor.clone(),
        model: dev.model.clone(),
        firmware: dev.firmware.clone(),
        protocol: proto_from_str(dev.protocol.as_str()),
        purdue_level: 0,
        oui: None,
        cves: clone_strings(&dev.cves),
        enip_vendor_id: None,
        enip_device_type: None,
        enip_product_code: None,
        enip_product_name: None,
        s7_order_number: None,
        sys_descr: None,
        sys_object_id: None,
        firmware_oid: None,
        asset_class: None,
        modbus_vendor_name: None,
        modbus_product_code: None,
        modbus_revision: None,
    }
}

/// What an identity reads of a profile.
pub ghost struct ProfileModel {
    pub vendor: Seq<char>,
    pub model: Seq<char>,
    pub firmware: Seq<char>,
    pub protocol: ProfileProto,
    pub enip_vendor_id: Option<u16>,
    pub enip_device_type: Option<u16>,
    pub enip_product_code: Option<u16>,
    pub enip_product_name: Option<Seq<char>>,
    pub s7_order_number: Option<Seq<char>>,
    pub sys_descr: Option<Seq<char>>,
    pub sys_object_id: Option<Seq<char>>,
    pub firmware_oid: Option<Seq<char>>,
    pub asset_class: Option<Seq<char>>,
    pub modbus_vendor_name: Option<Seq<char>>,
    pub modbus_product_code: Option<Seq<char>>,
    pub modbus_revision: Option<Seq<char>>,
}

/// What an identity reads of a profile.
pub open spec fn profile_model(p: DeviceProfile) -> ProfileModel {
    ProfileModel {
        vendor: p.vendor@,
        model: p.model@,
        firmware: p.firmware@,
        protocol: p.protocol,
        enip_vendor_id: p.enip_vendor_id,
        enip_device_type: p.enip_device_type,
        enip_product_code: p.enip_product_code,
        enip_product_name: opt_text(p.enip_product_name),
        s7_order_number: opt_text(p.s7_order_number),
        sys_descr: opt_text(p.sys_descr),
        sys_object_id: opt_text(p.sys_object_id),
        firmware_oid: opt_text(p.firmware_oid),
        asset_class: opt_text(p.asset_class),
        modbus_vendor_name: opt_text(p.modbus_vendor_name),
        modbus_product_code: opt_text(p.modbus_product_code),
        modbus_revision: opt_text(p.modbus_revision),
    }
}

/// What is recovered from a device whose model has no profile.
pub open spec fn fallback_of(d: DeviceRecord) -> ProfileModel {
    ProfileModel {
        vendor: d.vendor@,
        model: d.model@,
        firmware: d.firmware@,
        protocol: tagged_proto(d.protocol@),
        enip_vendor_id: None,
        enip_device_type: None,
        enip_product_code: None,
        enip_product_name: None,
        s7_order_number: None,
        sys_descr: None,
        sys_object_id: None,
        firmware_oid: None,
        asset_class: None,
        modbus_vendor_name: None,
        modbus_product_code: None,
        modbus_revision: None,
    }
}

/// The exchanges by which an asset asserts its identity, by its profile's carrier
/// protocol. A switch adds discovery beacons on their cadence; a zone-edge
/// firewall or router, which sends none, does not.
pub open spec fn identity_of(
    p: ProfileModel,
    link: LinkModel,
    beacons: bool,
    nonce: u64,
) -> Seq<ExchangeModel> {
    let ip = link.device_ip;
    match p.protocol {
        ProfileProto::Enip => seq![
            ExchangeModel::Enip {
                link,
                vendor_id: or(p.enip_vendor_id, 0),
                device_type: or(p.enip_device_type, 0),
                product_code: or(p.enip_product_code, 0),
                firmware: p.firmware,
                serial: ip,
                product_name: clamped(or(p.enip_product_name, p.model), 255),
            },
        ],
        ProfileProto::Modbus => seq![
            ExchangeModel::Modbus {
                link,
                unit: 1,
                vendor_name: clamped(or(p.modbus_vendor_name, p.vendor), 255),
                product_code: clamped(or(p.modbus_product_code, p.model), 255),
                revision: clamped(or(p.modbus_revision, p.firmware), 255),
            },
        ],
        ProfileProto::S7 => seq![
            ExchangeModel::S7 {
                link,
                order: or(p.s7_order_number, p.model),
                firmware: p.firmware,
            },
        ],
        ProfileProto::SwitchSnmp => {
            let descr = or(p.sys_descr, p.vendor + " "@ + p.model);
            let infra = p.asset_class == Some("Firewall"@) || p.asset_class == Some("Router"@);
            let fetch = ExchangeModel::Snmp {
                link,
                community: "public"@,
                request_id: (0x1000 + nonce % 0x1000) as u32,
                descr,
                object_id: p.sys_object_id,
                firmware_oid: if p.firmware.len() > 0 {
                    p.firmware_oid
                } else {
                    None
                },
                firmware: if p.firmware.len() > 0 {
                    Some(p.firmware)
                } else {
                    None
                },
            };
            if beacons && !infra {
                seq![
                    ExchangeModel::Lldp {
                        mac: link.device_mac,
                        ip,
                        name: clamped(p.model, 511),
                        descr: clamped(descr, 511),
                    },
                    ExchangeModel::Cdp {
                        mac: link.device_mac,
                        ip,
                        device: p.model,
                        version: p.firmware,
                        platform: p.model,
                    },
                    fetch,
                ]
            } else {
                seq![fetch]
            }
        },
    }
}

fn pick<'a>(o: &'a Option<String>, d: &'a String) -> (r: &'a str)
    ensures
        r@ == or(opt_text(*o), d@),
{
    match o {
        Some(s) => s.as_str(),
        None => d.as_str(),
    }
}

fn number(o: Option<u16>) -> (r: u16)
    ensures
        r == or(o, 0),
{
    match o {
        Some(n) => n,
        None => 0,
    }
}

/// The exchanges by which one asset asserts its identity. `client_ip` and
/// `client_mac` are its zone's engineering station; `nonce` varies the client
/// port, so that each burst is a fresh connection.
pub fn assert_identity(
    mac: [u8; 6],
    ip: u32,
    client_ip: u32,
    client_mac: [u8; 6],
    profile: &DeviceProfile,
    switch_beacons: bool,
    nonce: u64,
) -> (r: Vec<Exchange>)
    ensures
        exchange_models(r@) == identity_of(
            profile_model(*profile),
            LinkModel {
                client_mac: client_mac@,
                device_mac: mac@,
                client_ip,
                device_ip: ip,
                port: scan_port(nonce, ip),
            },
            switch_beacons,
            nonce,
        ),
{
    let link = Link {
        client_mac,
        device_mac: mac,
        client_ip,
        device_ip: ip,
        port: ephemeral_port(nonce, ip),
    };
    let mut out: Vec<Exchange> = Vec::new();
    match profile.protocol {
        ProfileProto::Enip => {
            out.push(
                Exchange::Enip {
                    link,
                    vendor_id: number(profile.enip_vendor_id),
                    device_type: number(profile.enip_device_type),
                    product_code: number(profile.enip_product_code),
                    firmware: profile.firmware.clone(),
                    serial: ip,
                    product_name: clamp_str(
                        pick(&profile.enip_product_name, &profile.model),
                        255,
                    ).to_owned(),
                },
            );
        },
        ProfileProto::Modbus => {
            out.push(
                Exchange::Modbus {
                    link,
                    unit: 1,
                    vendor_name: clamp_str(
                        pick(&profile.modbus_vendor_name, &profile.vendor),
                        255,
                    ).to_owned(),
                    product_code: clamp_str(
                        pick(&profile.modbus_product_code, &profile.model),
                        255,
                    ).to_owned(),
                    revision: clamp_str(
                        pick(&profile.modbus_revision, &profile.firmware),
                        255,
                    ).to_owned(),
                },
            );
        },
        ProfileProto::S7 => {
            out.push(
                Exchange::S7 {
                    link,
                    order: pick(&profile.s7_order_number, &profile.model).to_owned(),
                    firmware: profile.firmware.clone(),
                },
            );
        },
        ProfileProto::SwitchSnmp => {
            let descr: String = match &profile.sys_descr {
                Some(d) => d.clone(),
                None => {
                    let mut s = profile.vendor.clone();
                    s.append(" ");
                    s.append(profile.model.as_str());
                    s
                },
            };
            let infra: bool = opt_is(&profile.asset_class, "Firewall") || opt_is(
                &profile.asset_class,
                "Router",
            );
            if switch_beacons && !infra {
                out.push(
                    Exchange::Lldp {
                        mac,
                        ip,
                        name: clamp_str(profile.model.as_str(), 511).to_owned(),
                        descr: clamp_str(descr.as_str(), 511).to_owned(),
                    },
                );
                out.push(
                    Exchange::Cdp {
                        mac,
                        ip,
                        device: profile.model.clone(),
                        version: profile.firmware.clone(),
                        platform: profile.model.clone(),
                    },
                );
            }
            let versioned: bool = !str_eq(profile.firmware.as_str(), "");
            proof {
                reveal_strlit("");
                if profile.firmware@.len() == 0 {
                    assert(profile.firmware@ =~= ""@);
                }
            }
            out.push(
                Exchange::Snmp {
                    link,
                    community: "public".to_owned(),
                    request_id: 0x1000 + (nonce % 0x1000) as u32,
                    descr,
                    object_id: clone_opt(&profile.sys_object_id),
                    firmware_oid: if versioned {
                        clone_opt(&profile.firmware_oid)
                    } else {
                        None
                    },
                    firmware: if versioned {
                        Some(profile.firmware.clone())
                    } else {
                        None
                    },
                },
            );
        },
    }
    proof {
        let want = identity_of(profile_model(*profile), link@, switch_beacons, nonce);
        assert(exchange_models(out@) =~= want);
    }
    out
}

/// Every client port is in the dynamic range.
pub proof fn law_ports_are_dynamic(nonce: u64, ip: u32)
    ensures
        49152 <= scan_port(nonce, ip) <= 65535,
{
}

} // verus!
