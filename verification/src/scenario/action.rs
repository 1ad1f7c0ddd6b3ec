//! What one attack event asks a frame builder for.

use vstd::prelude::*;
use crate::scenario::playbook::EmitKind;

verus! {

/// The two ends of an exchange with a device, and the client's port.
#[derive(Clone, Copy, Debug)]
pub struct Link {
    pub client_mac: [u8; 6],
    pub device_mac: [u8; 6],
    pub client_ip: u32,
    pub device_ip: u32,
    pub port: u16,
}

/// The value of a link.
pub ghost struct LinkModel {
    pub client_mac: Seq<u8>,
    pub device_mac: Seq<u8>,
    pub client_ip: u32,
    pub device_ip: u32,
    pub port: u16,
}

impl View for Link {
    type V = LinkModel;

    open spec fn view(&self) -> LinkModel {
        LinkModel {
            client_mac: self.client_mac@,
            device_mac: self.device_mac@,
            client_ip: self.client_ip,
            device_ip: self.device_ip,
            port: self.port,
        }
    }
}

/// One call of a frame builder.
#[derive(Clone, Debug)]
pub enum Action {
    S7Read { link: Link, order: String, firmware: String },
    S7ProgramDownload { link: Link, block: String, payload: Vec<u8> },
    S7Write { link: Link, db: u16, offset: u16, value: u16 },
    S7Stop { link: Link },
    ModbusWrite { link: Link, unit: u8, register: u16, value: u16 },
    TristationStatus { link: Link },
    TristationDownload { link: Link, payload: Vec<u8>, chunk: usize },
    Iec104Interrogation { link: Link, common_addr: u16 },
    Iec104Command { link: Link, common_addr: u16, ioa: u32, close: bool },
    ShareWrite { link: Link, share: String },
    MoxaBrick { link: Link, firmware: Vec<u8> },
    /// An action of another kind on a device, with the parameters of its event.
    OnDevice {
        kind: EmitKind,
        link: Link,
        value: Option<u16>,
        register: Option<u16>,
        unit: Option<u8>,
        ioa: Option<u32>,
        common_addr: Option<u16>,
        point: Option<u16>,
        close: Option<bool>,
    },
    /// A session from outside, forwarded to the host by its gateway.
    RemoteAccess {
        gateway_mac: [u8; 6],
        external_ip: u32,
        host_mac: [u8; 6],
        host_ip: u32,
        port: u16,
        service_port: u16,
    },
    /// A lookup of the actor's domain at the resolver, and a contact to its
    /// address through the gateway.
    C2Beacon {
        host_mac: [u8; 6],
        host_ip: u32,
        resolver_mac: [u8; 6],
        resolver_ip: u32,
        gateway_mac: [u8; 6],
        domain: String,
        c2_ip: u32,
        c2_port: u16,
        port: u16,
        id: u16,
    },
}

/// The value of an action.
pub ghost enum ActionModel {
    S7Read { link: LinkModel, order: Seq<char>, firmware: Seq<char> },
    S7ProgramDownload { link: LinkModel, block: Seq<char>, payload: Seq<u8> },
    S7Write { link: LinkModel, db: u16, offset: u16, value: u16 },
    S7Stop { link: LinkModel },
    ModbusWrite { link: LinkModel, unit: u8, register: u16, value: u16 },
    TristationStatus { link: LinkModel },
    TristationDownload { link: LinkModel, payload: Seq<u8>, chunk: usize },
    Iec104Interrogation { link: LinkModel, common_addr: u16 },
    Iec104Command { link: LinkModel, common_addr: u16, ioa: u32, close: bool },
    ShareWrite { link: LinkModel, share: Seq<char> },
    MoxaBrick { link: LinkModel, firmware: Seq<u8> },
    OnDevice {
        kind: EmitKind,
        link: LinkModel,
        value: Option<u16>,
        register: Option<u16>,
        unit: Option<u8>,
        ioa: Option<u32>,
        common_addr: Option<u16>,
        point: Option<u16>,
        close: Option<bool>,
    },
    RemoteAccess {
        gateway_mac: Seq<u8>,
        external_ip: u32,
        host_mac: Seq<u8>,
        host_ip: u32,
        port: u16,
        service_port: u16,
    },
    C2Beacon {
        host_mac: Seq<u8>,
        host_ip: u32,
        resolver_mac: Seq<u8>,
        resolver_ip: u32,
        gateway_mac: Seq<u8>,
        domain: Seq<char>,
        c2_ip: u32,
        c2_port: u16,
        port: u16,
        id: u16,
    },
}

impl View for Action {
    type V = ActionModel;

    open spec fn view(&self) -> ActionModel {
        match *self {
            Action::S7Read { link, order, firmware } => ActionModel::S7Read {
                link: link@,
                order: order@,
                firmware: firmware@,
            },
            Action::S7ProgramDownload { link, block, payload } => ActionModel::S7ProgramDownload {
                link: link@,
                block: block@,
                payload: payload@,
            },
            Action::S7Write { link, db, offset, value } => ActionModel::S7Write {
                link: link@,
                db,
                offset,
                value,
            },
            Action::S7Stop { link } => ActionModel::S7Stop { link: link@ },
            Action::ModbusWrite { link, unit, register, value } => ActionModel::ModbusWrite {
                link: link@,
                unit,
                register,
                value,
            },
            Action::TristationStatus { link } => ActionModel::TristationStatus { link: link@ },
            Action::TristationDownload { link, payload, chunk } => ActionModel::TristationDownload {
                link: link@,
                payload: payload@,
                chunk,
            },
            Action::Iec104Interrogation { link, common_addr } => ActionModel::Iec104Interrogation {
                link: link@,
                common_addr,
            },
            Action::Iec104Command { link, common_addr, ioa, close } => ActionModel::Iec104Command {
                link: link@,
                common_addr,
                ioa,
                close,
            },
            Action::ShareWrite { link, share } => ActionModel::ShareWrite {
                link: link@,
                share: share@,
            },
            Action::MoxaBrick { link, firmware } => ActionModel::MoxaBrick {
                link: link@,
                firmware: firmware@,
            },
            Action::OnDevice {
                kind,
                link,
                value,
                register,
                unit,
                ioa,
                common_addr,
                point,
                close,
            } => ActionModel::OnDevice {
                kind,
                link: link@,
                value,
                register,
                unit,
                ioa,
                common_addr,
                point,
                close,
            },
            Action::RemoteAccess {
                gateway_mac,
                external_ip,
                host_mac,
                host_ip,
                port,
                service_port,
            } => ActionModel::RemoteAccess {
                gateway_mac: gateway_mac@,
                external_ip,
                host_mac: host_mac@,
                host_ip,
                port,
                service_port,
            },
            Action::C2Beacon {
                host_mac,
                host_ip,
                resolver_mac,
                resolver_ip,
                gateway_mac,
                domain,
                c2_ip,
                c2_port,
                port,
                id,
            } => ActionModel::C2Beacon {
                host_mac: host_mac@,
                host_ip,
                resolver_mac: resolver_mac@,
                resolver_ip,
                gateway_mac: gateway_mac@,
                domain: domain@,
                c2_ip,
                c2_port,
                port,
                id,
            },
        }
    }
}

} // verus!
