//! EtherNet/IP and CIP mutator. Remaps the CIP Identity object fields (vendor
//! id, device type, product code, serial number) in a List Identity reply.
//! All are fixed-width little-endian numerics, so no length field changes; the
//! product name string is left untouched to avoid cascading length edits.

use vstd::prelude::*;
use crate::bytes::{
    be16, le16, le32, put_le16, put_le32, read_le16, read_le32, write_le16, write_le32,
};
use crate::proto::frame::{FrameLayout, L4Kind, ParsedFrame};
use crate::proto::mapper::{Domain, MapperModel, SeededMapper};
use crate::proto::{
    lemma_report_push, report_models, MutationReport, OtMutator, Protocol, ReportModel, Rewrite,
};

verus! {

pub const ENIP_TCP_PORT: u16 = 44818;
pub const ENIP_IO_PORT: u16 = 2222;
pub const CMD_LIST_IDENTITY: u16 = 0x0063;
pub const ITEM_CIP_IDENTITY: u16 = 0x000C;

pub struct Enip;

pub open spec fn is_enip_port(p: int) -> bool {
    p == ENIP_TCP_PORT || p == ENIP_IO_PORT
}

pub open spec fn report_of(field: Seq<char>, original: u64, new: u64) -> ReportModel {
    ReportModel { protocol: Protocol::Enip, field, original, new }
}

/// The rewrite of the 16-bit field at `at`.
pub open spec fn remap16(w: Rewrite, at: int, d: Domain, field: Seq<char>) -> Rewrite {
    let orig = le16(w.payload, at);
    let m = w.mapper.map(d, orig as u64, 0, 0xffff);
    let new = m.0 as u16;
    Rewrite {
        payload: put_le16(w.payload, at, new as int),
        mapper: m.1,
        reports: if new == orig {
            w.reports
        } else {
            w.reports.push(report_of(field, orig as u64, new as u64))
        },
    }
}

/// The rewrite of the 32-bit field at `at`.
pub open spec fn remap32(w: Rewrite, at: int, d: Domain, field: Seq<char>) -> Rewrite {
    let orig = le32(w.payload, at);
    let m = w.mapper.map(d, orig as u64, 0, 0xffff_ffff);
    let new = m.0 as u32;
    Rewrite {
        payload: put_le32(w.payload, at, new as int),
        mapper: m.1,
        reports: if new == orig {
            w.reports
        } else {
            w.reports.push(report_of(field, orig as u64, new as u64))
        },
    }
}

/// The rewrite of an identity object whose data starts at `data`: vendor at 18,
/// device type at 20, product code at 22, serial number at 28.
pub open spec fn remap_identity(w: Rewrite, data: int) -> Rewrite {
    let a = remap16(w, data + 18, Domain::EnipVendor, "vendor_id"@);
    let b = remap16(a, data + 20, Domain::EnipDeviceType, "device_type"@);
    let c = remap16(b, data + 22, Domain::EnipProductCode, "product_code"@);
    remap32(c, data + 28, Domain::EnipSerial, "serial"@)
}

/// The rewrite of the `items` items from `off` on.
pub open spec fn walk(w: Rewrite, off: int, items: nat) -> Rewrite
    decreases items,
{
    if items == 0 || off + 4 > w.payload.len() {
        w
    } else {
        let data = off + 4;
        let item_len = le16(w.payload, off + 2);
        let next = if le16(w.payload, off) == ITEM_CIP_IDENTITY && data + 32 <= w.payload.len() {
            remap_identity(w, data)
        } else {
            w
        };
        walk(next, data + item_len, (items - 1) as nat)
    }
}

fn remap_u16_le(
    p: &mut [u8],
    at: usize,
    dom: Domain,
    field: &str,
    mapper: &mut SeededMapper,
    reports: &mut Vec<MutationReport>,
)
    requires
        at + 2 <= old(p).len(),
        old(mapper).wf(),
    ensures
        final(mapper).wf(),
        (Rewrite {
            payload: final(p)@,
            mapper: final(mapper)@,
            reports: report_models(final(reports)@),
        }) == remap16(
            Rewrite {
                payload: old(p)@,
                mapper: old(mapper)@,
                reports: report_models(old(reports)@),
            },
            at as int,
            dom,
            field@,
        ),
{
    let orig: u16 = read_le16(p, at);
    let new: u16 = mapper.map_u16(dom, orig);
    if new != orig {
        write_le16(p, at, new);
        reports.push(
            MutationReport {
                protocol: Protocol::Enip,
                field: field.to_owned(),
                original: orig as u64,
                new: new as u64,
            },
        );
        proof {
            lemma_report_push(old(reports)@, reports@.last());
        }
    } else {
        proof {
            assert(put_le16(p@, at as int, orig as int) =~= p@);
        }
    }
}

fn remap_u32_le(
    p: &mut [u8],
    at: usize,
    dom: Domain,
    field: &str,
    mapper: &mut SeededMapper,
    reports: &mut Vec<MutationReport>,
)
    requires
        at + 4 <= old(p).len(),
        old(mapper).wf(),
    ensures
        final(mapper).wf(),
        (Rewrite {
            payload: final(p)@,
            mapper: final(mapper)@,
            reports: report_models(final(reports)@),
        }) == remap32(
            Rewrite {
                payload: old(p)@,
                mapper: old(mapper)@,
                reports: report_models(old(reports)@),
            },
            at as int,
            dom,
            field@,
        ),
{
    let orig: u32 = read_le32(p, at);
    let new: u32 = mapper.map_u32(dom, orig);
    if new != orig {
        write_le32(p, at, new);
        reports.push(
            MutationReport {
                protocol: Protocol::Enip,
                field: field.to_owned(),
                original: orig as u64,
                new: new as u64,
            },
        );
        proof {
            lemma_report_push(old(reports)@, reports@.last());
        }
    } else {
        proof {
            assert(put_le32(p@, at as int, orig as int) =~= p@);
        }
    }
}

impl OtMutator for Enip {
    open spec fn serves(&self) -> Protocol {
        Protocol::Enip
    }

    /// A TCP or UDP frame to or from an EtherNet/IP port whose payload starts
    /// with the List Identity command.
    open spec fn handles(&self, b: Seq<u8>, l: FrameLayout) -> bool {
        &&& l.l4_kind != L4Kind::Other
        &&& is_enip_port(be16(b, l.l4 as int)) || is_enip_port(be16(b, l.l4 + 2))
        &&& l.end - l.payload >= 26
        &&& le16(b, l.payload as int) == CMD_LIST_IDENTITY
    }

    open spec fn rewritten(&self, payload: Seq<u8>, mapper: MapperModel) -> Rewrite {
        let w = Rewrite { payload, mapper, reports: Seq::empty() };
        if payload.len() < 26 || le16(payload, 0) != CMD_LIST_IDENTITY {
            w
        } else {
            walk(w, 26, le16(payload, 24) as nat)
        }
    }

    fn protocol(&self) -> Protocol {
        Protocol::Enip
    }

    fn matches(&self, f: &ParsedFrame) -> bool {
        if f.l4_kind() == L4Kind::Other {
            return false;
        }
        let on_port = match (f.src_port(), f.dst_port()) {
            (Some(s), Some(d)) => s == ENIP_TCP_PORT || s == ENIP_IO_PORT || d == ENIP_TCP_PORT
                || d == ENIP_IO_PORT,
            _ => false,
        };
        let p = f.payload();
        on_port && p.len() >= 26 && read_le16(p, 0) == CMD_LIST_IDENTITY
    }

    fn mutate(&self, f: &mut ParsedFrame, mapper: &mut SeededMapper) -> (r: Vec<MutationReport>) {
        let p = f.payload_mut();
        let ghost start = Rewrite { payload: p@, mapper: mapper@, reports: Seq::empty() };
        let mut reports: Vec<MutationReport> = Vec::new();
        proof {
            assert(report_models(reports@) =~= Seq::empty());
        }
        if p.len() < 26 || read_le16(p, 0) != CMD_LIST_IDENTITY {
            return reports;
        }
        let item_count: u16 = read_le16(p, 24);
        let mut left: u16 = item_count;
        let mut off: usize = 26;
        while left > 0 && p.len() - off >= 4
            invariant_except_break
                mapper.wf(),
                p@.len() == start.payload.len(),
                off <= p.len(),
                walk(start, 26, item_count as nat) == walk(
                    Rewrite { payload: p@, mapper: mapper@, reports: report_models(reports@) },
                    off as int,
                    left as nat,
                ),
            ensures
                mapper.wf(),
                p@.len() == start.payload.len(),
                walk(start, 26, item_count as nat) == (Rewrite {
                    payload: p@,
                    mapper: mapper@,
                    reports: report_models(reports@),
                }),
            decreases left,
        {
            let item_type: u16 = read_le16(p, off);
            let item_len: usize = read_le16(p, off + 2) as usize;
            let data: usize = off + 4;
            if item_type == ITEM_CIP_IDENTITY && p.len() - data >= 32 {
                remap_u16_le(p, data + 18, Domain::EnipVendor, "vendor_id", mapper, &mut reports);
                remap_u16_le(
                    p,
                    data + 20,
                    Domain::EnipDeviceType,
                    "device_type",
                    mapper,
                    &mut reports,
                );
                remap_u16_le(
                    p,
                    data + 22,
                    Domain::EnipProductCode,
                    "product_code",
                    mapper,
                    &mut reports,
                );
                remap_u32_le(p, data + 28, Domain::EnipSerial, "serial", mapper, &mut reports);
            }
            left -= 1;
            proof {
                let now = Rewrite {
                    payload: p@,
                    mapper: mapper@,
                    reports: report_models(reports@),
                };
                assert(walk(start, 26, item_count as nat) == walk(now, data + item_len, left as nat));
                assert(data + item_len > p@.len() ==> walk(now, data + item_len, left as nat)
                    == now);
            }
            if item_len > p.len() - data {
                break ;
            }
            off = data + item_len;
        }
        reports
    }
}

} // verus!
