//! Modbus/TCP mutator. Remaps the MBAP unit identifier, the per-slave asset id,
//! consistently across the capture. Walks pipelined ADUs within a segment.
//! Fixed width (one byte), so the MBAP length field is untouched.

use vstd::prelude::*;
use crate::bytes::{be16, read_be16};
use crate::proto::frame::{FrameLayout, L4Kind, ParsedFrame};
use crate::proto::mapper::{Domain, MapperModel, SeededMapper};
use crate::proto::{lemma_report_push, report_models, MutationReport, OtMutator, Protocol, ReportModel, Rewrite};

verus! {

pub const MODBUS_PORT: u16 = 502;

pub struct Modbus;

/// The rewrite of the ADUs from `off` on: the unit identifier of each is mapped
/// while another MBAP header with a nonzero length follows.
pub open spec fn walk(w: Rewrite, off: int) -> Rewrite
    decreases w.payload.len() + 0x10000 - off,
{
    let p = w.payload;
    if off < 0 || off + 7 > p.len() || p[off + 2] != 0 || p[off + 3] != 0 || be16(p, off + 4) == 0 {
        w
    } else {
        let orig = p[off + 6];
        let m = w.mapper.map(Domain::ModbusUnitId, orig as u64, 0, 0xff);
        let new = m.0 as u8;
        walk(
            Rewrite {
                payload: p.update(off + 6, new),
                mapper: m.1,
                reports: if new == orig {
                    w.reports
                } else {
                    w.reports.push(
                        ReportModel {
                            protocol: Protocol::Modbus,
                            field: "unit_id"@,
                            original: orig as u64,
                            new: new as u64,
                        },
                    )
                },
            },
            off + 6 + be16(p, off + 4),
        )
    }
}

impl OtMutator for Modbus {
    open spec fn serves(&self) -> Protocol {
        Protocol::Modbus
    }

    /// A TCP segment to or from the Modbus port whose payload starts with an
    /// MBAP header: its protocol identifier is zero.
    open spec fn handles(&self, b: Seq<u8>, l: FrameLayout) -> bool {
        &&& l.l4_kind == L4Kind::Tcp
        &&& be16(b, l.l4 as int) == MODBUS_PORT || be16(b, l.l4 + 2) == MODBUS_PORT
        &&& l.end - l.payload >= 8
        &&& b[l.payload + 2] == 0
        &&& b[l.payload + 3] == 0
    }

    open spec fn rewritten(&self, payload: Seq<u8>, mapper: MapperModel) -> Rewrite {
        walk(Rewrite { payload, mapper, reports: Seq::empty() }, 0)
    }

    fn protocol(&self) -> Protocol {
        Protocol::Modbus
    }

    fn matches(&self, f: &ParsedFrame) -> bool {
        if f.l4_kind() != L4Kind::Tcp {
            return false;
        }
        let on_port = f.src_port() == Some(MODBUS_PORT) || f.dst_port() == Some(MODBUS_PORT);
        let p = f.payload();
        on_port && p.len() >= 8 && p[2] == 0 && p[3] == 0
    }

    fn mutate(&self, f: &mut ParsedFrame, mapper: &mut SeededMapper) -> (r: Vec<MutationReport>) {
        let p = f.payload_mut();
        let ghost start = Rewrite { payload: p@, mapper: mapper@, reports: Seq::empty() };
        let mut reports: Vec<MutationReport> = Vec::new();
        let mut off: usize = 0;
        proof {
            assert(report_models(reports@) =~= Seq::empty());
        }
        while p.len() >= 7 && off <= p.len() - 7
            invariant_except_break
                mapper.wf(),
                p@.len() == start.payload.len(),
                off <= p@.len(),
                walk(start, 0) == walk(
                    Rewrite { payload: p@, mapper: mapper@, reports: report_models(reports@) },
                    off as int,
                ),
            ensures
                mapper.wf(),
                p@.len() == start.payload.len(),
                walk(start, 0) == (Rewrite {
                    payload: p@,
                    mapper: mapper@,
                    reports: report_models(reports@),
                }),
            decreases p@.len() - off,
        {
            if p[off + 2] != 0 || p[off + 3] != 0 {
                break ;
            }
            let len: usize = read_be16(p, off + 4) as usize;
            if len == 0 {
                break ;
            }
            let unit_at: usize = off + 6;
            let orig: u8 = p[unit_at];
            let ghost before = p@;
            let ghost so_far = reports@;
            let new: u8 = mapper.map_u8(Domain::ModbusUnitId, orig);
            if new != orig {
                p[unit_at] = new;
                reports.push(
                    MutationReport {
                        protocol: Protocol::Modbus,
                        field: "unit_id".to_owned(),
                        original: orig as u64,
                        new: new as u64,
                    },
                );
            }
            proof {
                assert(p@ =~= before.update(unit_at as int, new));
                if new != orig {
                    lemma_report_push(so_far, reports@.last());
                }
                let now = Rewrite {
                    payload: p@,
                    mapper: mapper@,
                    reports: report_models(reports@),
                };
                assert(walk(start, 0) == walk(now, unit_at + len));
                assert(unit_at + len > p@.len() ==> walk(now, unit_at + len) == now);
            }
            if len > p.len() - unit_at {
                break ;
            }
            off = unit_at + len;
        }
        reports
    }
}

} // verus!
