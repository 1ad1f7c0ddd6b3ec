//! Per-zone bill of materials and recognisable OT hostnames.
//!
//! A real control zone is more than its PLCs: it carries a managed switch, an
//! operator HMI, an engineering workstation, and a zone-edge firewall; an
//! operations (Purdue L3 / DCS) zone is mostly servers and operator stations.
//! This module names those asset classes, the believable mix per Purdue level,
//! and the area-line-device hostnames an OT engineer recognises.

use vstd::prelude::*;
use crate::reload::{padded, push_padded};
use crate::text::{contains, holds, opt_str};

verus! {

/// A coarse asset class, stored on the ledger record and shown in analysis.
#[derive(Clone, Copy, Debug, PartialEq, Eq, Structural)]
pub enum AssetType {
    Controller,
    Switch,
    Router,
    Hmi,
    EngWorkstation,
    Historian,
    Firewall,
    Server,
}

/// The label of an asset class.
pub open spec fn label_text(a: AssetType) -> Seq<char> {
    match a {
        AssetType::Controller => "Controller"@,
        AssetType::Switch => "Switch"@,
        AssetType::Router => "Router"@,
        AssetType::Hmi => "HMI"@,
        AssetType::EngWorkstation => "EWS"@,
        AssetType::Historian => "Historian"@,
        AssetType::Firewall => "Firewall"@,
        AssetType::Server => "Server"@,
    }
}

/// The hostname token of an asset class.
pub open spec fn token_text(a: AssetType) -> Seq<char> {
    match a {
        AssetType::Controller => "PLC"@,
        AssetType::Switch => "SW"@,
        AssetType::Router => "RTR"@,
        AssetType::Hmi => "HMI"@,
        AssetType::EngWorkstation => "EWS"@,
        AssetType::Historian => "HIST"@,
        AssetType::Firewall => "FW"@,
        AssetType::Server => "SRV"@,
    }
}

impl AssetType {
    /// Stable label persisted on the ledger record (`DeviceRecord.asset_type`).
    pub fn label(self) -> (r: &'static str)
        ensures
            r@ == label_text(self),
    {
        match self {
            AssetType::Controller => "Controller",
            AssetType::Switch => "Switch",
            AssetType::Router => "Router",
            AssetType::Hmi => "HMI",
            AssetType::EngWorkstation => "EWS",
            AssetType::Historian => "Historian",
            AssetType::Firewall => "Firewall",
            AssetType::Server => "Server",
        }
    }

    /// Short token used inside a hostname.
    pub fn host_token(self) -> (r: &'static str)
        ensures
            r@ == token_text(self),
    {
        match self {
            AssetType::Controller => "PLC",
            AssetType::Switch => "SW",
            AssetType::Router => "RTR",
            AssetType::Hmi => "HMI",
            AssetType::EngWorkstation => "EWS",
            AssetType::Historian => "HIST",
            AssetType::Firewall => "FW",
            AssetType::Server => "SRV",
        }
    }

    /// CVE-bearing by construction? Only controllers and switches are, so the
    /// vulnerable share stays about the fabricated controller fleet.
    pub fn cve_bearing(self) -> (r: bool)
        ensures
            r == (self == AssetType::Controller || self == AssetType::Switch),
    {
        matches!(self, AssetType::Controller | AssetType::Switch)
    }
}

/// One line of a zone's bill of materials: a class and how many of it.
pub type BomEntry = (AssetType, usize);

/// A zone's bill of materials, by Purdue level.
pub open spec fn bom_lines(level: u8) -> Seq<BomEntry> {
    if level == 1 {
        seq![
            (AssetType::Firewall, 1usize),
            (AssetType::Switch, 1usize),
            (AssetType::Hmi, 1usize),
            (AssetType::EngWorkstation, 1usize),
        ]
    } else if level == 2 {
        seq![
            (AssetType::Firewall, 1usize),
            (AssetType::Switch, 1usize),
            (AssetType::Hmi, 1usize),
            (AssetType::EngWorkstation, 1usize),
            (AssetType::Historian, 1usize),
        ]
    } else if level == 3 {
        seq![
            (AssetType::Firewall, 1usize),
            (AssetType::Switch, 1usize),
            (AssetType::Historian, 1usize),
            (AssetType::Server, 4usize),
            (AssetType::EngWorkstation, 2usize),
        ]
    } else {
        seq![(AssetType::Firewall, 1usize)]
    }
}

/// The non-controller core a zone should carry, by Purdue level. L1/L2 control
/// zones get a switch + HMI + engineering workstation + a zone-edge firewall
/// (L2 also a historian); L3 operations zones are server-heavy (a DCS: OPC /
/// domain / application servers and operator workstations behind a firewall).
/// Controllers are fabricated separately to hit the planned fleet size, so they
/// are not listed here.
pub fn bom_for(purdue_level: u8) -> (r: Vec<BomEntry>)
    ensures
        r@ == bom_lines(purdue_level),
        r@.len() > 0,
        r@[0] == (AssetType::Firewall, 1usize),
{
    let r: Vec<BomEntry> = match purdue_level {
        1 => vec![
            (AssetType::Firewall, 1),
            (AssetType::Switch, 1),
            (AssetType::Hmi, 1),
            (AssetType::EngWorkstation, 1),
        ],
        2 => vec![
            (AssetType::Firewall, 1),
            (AssetType::Switch, 1),
            (AssetType::Hmi, 1),
            (AssetType::EngWorkstation, 1),
            (AssetType::Historian, 1),
        ],
        3 => vec![
            (AssetType::Firewall, 1),
            (AssetType::Switch, 1),
            (AssetType::Historian, 1),
            (AssetType::Server, 4),
            (AssetType::EngWorkstation, 2),
        ],
        _ => vec![(AssetType::Firewall, 1)],
    };
    proof {
        assert(r@ =~= bom_lines(purdue_level));
    }
    r
}

/// The area prefix and controller token of a vendor.
pub open spec fn style_of(vendor: Option<Seq<char>>) -> (Seq<char>, Seq<char>) {
    match vendor {
        None => ("LINE"@, "PLC"@),
        Some(v) => if holds(v, "Rockwell"@) {
            ("LINE"@, "PLC"@)
        } else if holds(v, "Siemens"@) {
            ("CELL"@, "S7"@)
        } else if holds(v, "Schneider"@) {
            ("LINE"@, "M340"@)
        } else if holds(v, "GE"@) {
            ("LINE"@, "RX3i"@)
        } else if holds(v, "ABB"@) {
            ("LINE"@, "AC500"@)
        } else {
            ("LINE"@, "PLC"@)
        },
    }
}

/// The per-vendor area prefix and controller token, so a controller name reads
/// the way that vendor's installs usually do.
fn vendor_style(vendor: Option<&str>) -> (r: (&'static str, &'static str))
    ensures
        (r.0@, r.1@) == style_of(opt_str(vendor)),
{
    match vendor {
        None => ("LINE", "PLC"),
        Some(v) => {
            if contains(v, "Rockwell") {
                ("LINE", "PLC")
            } else if contains(v, "Siemens") {
                ("CELL", "S7")
            } else if contains(v, "Schneider") {
                ("LINE", "M340")
            } else if contains(v, "GE") {
                ("LINE", "RX3i")
            } else if contains(v, "ABB") {
                ("LINE", "AC500")
            } else {
                ("LINE", "PLC")
            }
        },
    }
}

/// The hostname of an asset. Indices count from one, in at least two digits.
pub open spec fn hostname_text(
    vendor: Option<Seq<char>>,
    asset_type: AssetType,
    area_idx: nat,
    dev_idx: nat,
) -> Seq<char> {
    let area = padded(area_idx + 1, 2);
    let dev = padded(dev_idx + 1, 2);
    match asset_type {
        AssetType::Controller => style_of(vendor).0 + "-"@ + area + "-"@ + style_of(vendor).1 + "-"@
            + dev,
        AssetType::Firewall => "FW-"@ + area,
        AssetType::Historian => "HIST-"@ + area,
        other => token_text(other) + "-"@ + area + "-"@ + dev,
    }
}

/// A recognisable, deterministic OT hostname: `<AREA>-<nn>-<TOKEN>-<nn>` for a
/// controller (e.g. `LINE-01-PLC-02`, `CELL-03-S7-01`), or `<TOKEN>-<nn>-<nn>`
/// for infrastructure and servers (`HMI-01-01`, `FW-04`, `HIST-02`, `SRV-05-03`).
pub fn hostname_for(
    vendor: Option<&str>,
    asset_type: AssetType,
    area_idx: usize,
    dev_idx: usize,
) -> (r: String)
    requires
        area_idx < usize::MAX,
        dev_idx < usize::MAX,
    ensures
        r@ == hostname_text(opt_str(vendor), asset_type, area_idx as nat, dev_idx as nat),
{
    let area: usize = area_idx + 1;
    let dev: usize = dev_idx + 1;
    match asset_type {
        AssetType::Controller => {
            let (prefix, token) = vendor_style(vendor);
            let mut s = prefix.to_owned();
            s.append("-");
            push_padded(&mut s, area as u64, 2);
            s.append("-");
            s.append(token);
            s.append("-");
            push_padded(&mut s, dev as u64, 2);
            s
        },
        AssetType::Firewall => {
            let mut s = "FW-".to_owned();
            push_padded(&mut s, area as u64, 2);
            s
        },
        AssetType::Historian => {
            let mut s = "HIST-".to_owned();
            push_padded(&mut s, area as u64, 2);
            s
        },
        other => {
            let mut s = other.host_token().to_owned();
            s.append("-");
            push_padded(&mut s, area as u64, 2);
            s.append("-");
            push_padded(&mut s, dev as u64, 2);
            s
        },
    }
}

/// A hostname under a DNS domain, single-label without one.
pub open spec fn fqdn_text(host: Seq<char>, domain: Option<Seq<char>>) -> Seq<char> {
    match domain {
        Some(d) => host + "."@ + d,
        None => host,
    }
}

/// A hostname under a DNS domain, single-label without one.
pub fn fqdn(host: String, domain: Option<&str>) -> (r: String)
    ensures
        r@ == fqdn_text(host@, opt_str(domain)),
{
    match domain {
        Some(d) => {
            let mut s = host;
            s.append(".");
            s.append(d);
            s
        },
        None => host,
    }
}

} // verus!
