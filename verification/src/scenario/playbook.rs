//! The phased attack playbook.
//!
//! A playbook is an ordered list of phases. Each phase carries its technique
//! ids, a dwell (how many announce bursts it occupies), and the events that
//! render to attack traffic. The scenario engine walks it one step per burst.

use vstd::prelude::*;
use crate::scenario::document::{missing, missing_message, unreadable, unreadable_message, Read};
use crate::text::{quote, quoted};

verus! {

/// A whole attack timeline.
#[derive(Clone, Debug)]
pub struct Playbook {
    pub phases: Vec<Phase>,
}

/// One stage of the attack.
#[derive(Clone, Debug)]
pub struct Phase {
    /// Short stable id.
    pub id: String,
    /// Human label for the status readout.
    pub name: Option<String>,
    /// Technique ids this phase represents.
    pub techniques: Vec<String>,
    /// Minimum announce bursts to dwell in this phase before advancing.
    pub dwell_runs: u64,
    /// The attack actions emitted while in this phase.
    pub events: Vec<Event>,
}

/// One attack action. The `emit` kind selects the frame builder; the remaining
/// fields are its parameters, of which only those relevant to the kind are read.
#[derive(Clone, Debug)]
pub struct Event {
    pub emit: EmitKind,
    /// The plant device this action targets.
    pub target: Option<DeviceRef>,
    pub value: Option<u16>,
    pub register: Option<u16>,
    pub db: Option<u16>,
    pub offset: Option<u16>,
    pub unit: Option<u8>,
    pub ioa: Option<u32>,
    pub common_addr: Option<u16>,
    pub point: Option<u16>,
    pub close: Option<bool>,
    pub block_id: Option<String>,
    pub payload_hex: Option<String>,
    pub chunk: Option<usize>,
    pub domain: Option<String>,
    pub ip: Option<String>,
    pub port: Option<u16>,
    pub share: Option<String>,
}

/// Which frame builder an event drives.
#[derive(Clone, Copy, Debug, PartialEq, Eq, Structural)]
pub enum EmitKind {
    /// Read an S7 CPU's identity (recon).
    S7Read,
    /// S7 block program-download sequence.
    S7ProgramDownload,
    /// S7 write-var into a data block.
    S7Write,
    /// S7 PLC STOP.
    S7Stop,
    /// Modbus write register.
    ModbusWrite,
    /// TriStation control-processor status poll (recon).
    TristationStatus,
    /// TriStation program download.
    TristationDownload,
    /// IEC-104 station interrogation (recon).
    Iec104Interrogation,
    /// IEC-104 single command.
    Iec104Command,
    /// DNP3 integrity poll (recon).
    Dnp3Read,
    /// DNP3 select-then-operate.
    Dnp3Operate,
    /// EtherNet/IP CIP attribute read (recon).
    CipRead,
    /// EtherNet/IP CIP attribute write.
    CipWrite,
    /// OPC-UA handshake (recon).
    OpcuaRead,
    /// IEC 60870-5-101 station interrogation (recon).
    Iec101Interrogation,
    /// IEC 60870-5-101 single command.
    Iec101Command,
    /// C2 beacon: resolve the actor domain and contact its address.
    C2Beacon,
    /// Inbound remote-access session.
    RemoteAccess,
    /// Write to a network share.
    Wiper,
    /// Serial-converter firmware overwrite.
    MoxaBrick,
}

/// How an event selects a plant device. First match wins, checked ip, model,
/// asset_type, so a precise ip pins one device while a model or an asset type
/// matches the first of its kind.
#[derive(Clone, Debug)]
pub struct DeviceRef {
    pub ip: Option<String>,
    pub model: Option<String>,
    pub asset_type: Option<String>,
}

/// What reading a document as a playbook comes to: one that cannot be read, and one
/// with nothing to play, are refused.
pub open spec fn parsed_playbook(read: Result<Playbook, String>) -> Result<Playbook, Seq<char>> {
    match read {
        Err(e) => Err(unreadable("playbook"@, e@)),
        Ok(p) => if p.phases@.len() == 0 {
            Err("playbook has no phases"@)
        } else {
            Ok(p)
        },
    }
}

/// What a playbook's file comes to.
pub open spec fn loaded_playbook(read: Read<Playbook>) -> Result<Playbook, Seq<char>> {
    match read {
        Read::Missing { path, error } => Err(missing("playbook"@, path@, error@)),
        Read::Malformed(e) => Err(unreadable("playbook"@, e@)),
        Read::Given(p) => parsed_playbook(Ok(p)),
    }
}

impl Playbook {
    /// A playbook, given what reading its document as one gave.
    pub fn parse(read: Result<Playbook, String>) -> (r: Result<Playbook, String>)
        ensures
            match r {
                Ok(p) => parsed_playbook(read) == Ok::<Playbook, Seq<char>>(p) && p.phases@.len()
                    > 0,
                Err(e) => parsed_playbook(read) == Err::<Playbook, Seq<char>>(e@),
            },
    {
        match read {
            Err(e) => Err(unreadable_message("playbook", e.as_str())),
            Ok(p) => if p.phases.len() == 0 {
                Err("playbook has no phases".to_owned())
            } else {
                Ok(p)
            },
        }
    }

    /// A playbook, given what reading its file gave.
    pub fn load(read: Read<Playbook>) -> (r: Result<Playbook, String>)
        ensures
            match r {
                Ok(p) => loaded_playbook(read) == Ok::<Playbook, Seq<char>>(p) && p.phases@.len()
                    > 0,
                Err(e) => loaded_playbook(read) == Err::<Playbook, Seq<char>>(e@),
            },
    {
        match read {
            Read::Missing { path, error } => Err(
                missing_message("playbook", path.as_str(), error.as_str()),
            ),
            Read::Malformed(e) => Playbook::parse(Err(e)),
            Read::Given(p) => Playbook::parse(Ok(p)),
        }
    }
}

/// The name of an emit kind, as it is reported.
pub open spec fn emit_tag(k: EmitKind) -> Seq<char> {
    match k {
        EmitKind::S7Read => "S7Read"@,
        EmitKind::S7ProgramDownload => "S7ProgramDownload"@,
        EmitKind::S7Write => "S7Write"@,
        EmitKind::S7Stop => "S7Stop"@,
        EmitKind::ModbusWrite => "ModbusWrite"@,
        EmitKind::TristationStatus => "TristationStatus"@,
        EmitKind::TristationDownload => "TristationDownload"@,
        EmitKind::Iec104Interrogation => "Iec104Interrogation"@,
        EmitKind::Iec104Command => "Iec104Command"@,
        EmitKind::Dnp3Read => "Dnp3Read"@,
        EmitKind::Dnp3Operate => "Dnp3Operate"@,
        EmitKind::CipRead => "CipRead"@,
        EmitKind::CipWrite => "CipWrite"@,
        EmitKind::OpcuaRead => "OpcuaRead"@,
        EmitKind::Iec101Interrogation => "Iec101Interrogation"@,
        EmitKind::Iec101Command => "Iec101Command"@,
        EmitKind::C2Beacon => "C2Beacon"@,
        EmitKind::RemoteAccess => "RemoteAccess"@,
        EmitKind::Wiper => "Wiper"@,
        EmitKind::MoxaBrick => "MoxaBrick"@,
    }
}

impl EmitKind {
    /// The name that the kind is reported by.
    pub fn tag(self) -> (r: &'static str)
        ensures
            r@ == emit_tag(self),
    {
        match self {
            EmitKind::S7Read => "S7Read",
            EmitKind::S7ProgramDownload => "S7ProgramDownload",
            EmitKind::S7Write => "S7Write",
            EmitKind::S7Stop => "S7Stop",
            EmitKind::ModbusWrite => "ModbusWrite",
            EmitKind::TristationStatus => "TristationStatus",
            EmitKind::TristationDownload => "TristationDownload",
            EmitKind::Iec104Interrogation => "Iec104Interrogation",
            EmitKind::Iec104Command => "Iec104Command",
            EmitKind::Dnp3Read => "Dnp3Read",
            EmitKind::Dnp3Operate => "Dnp3Operate",
            EmitKind::CipRead => "CipRead",
            EmitKind::CipWrite => "CipWrite",
            EmitKind::OpcuaRead => "OpcuaRead",
            EmitKind::Iec101Interrogation => "Iec101Interrogation",
            EmitKind::Iec101Command => "Iec101Command",
            EmitKind::C2Beacon => "C2Beacon",
            EmitKind::RemoteAccess => "RemoteAccess",
            EmitKind::Wiper => "Wiper",
            EmitKind::MoxaBrick => "MoxaBrick",
        }
    }
}

/// An optional text, as it is reported.
pub open spec fn opt_shown(o: Option<String>) -> Seq<char> {
    match o {
        Some(s) => "Some("@ + quoted(s@) + ")"@,
        None => "None"@,
    }
}

/// A device reference, as it is reported.
pub open spec fn ref_shown(t: DeviceRef) -> Seq<char> {
    "DeviceRef { ip: "@ + opt_shown(t.ip) + ", model: "@ + opt_shown(t.model) + ", asset_type: "@
        + opt_shown(t.asset_type) + " }"@
}

fn show_opt(o: &Option<String>) -> (r: String)
    ensures
        r@ == opt_shown(*o),
{
    match o {
        Some(s) => {
            let mut t = "Some(".to_owned();
            t.append(quote(s.as_str()).as_str());
            t.append(")");
            t
        },
        None => "None".to_owned(),
    }
}

impl DeviceRef {
    /// The reference in print.
    pub fn shown(&self) -> (r: String)
        ensures
            r@ == ref_shown(*self),
    {
        let mut s = "DeviceRef { ip: ".to_owned();
        s.append(show_opt(&self.ip).as_str());
        s.append(", model: ");
        s.append(show_opt(&self.model).as_str());
        s.append(", asset_type: ");
        s.append(show_opt(&self.asset_type).as_str());
        s.append(" }");
        s
    }
}

} // verus!
