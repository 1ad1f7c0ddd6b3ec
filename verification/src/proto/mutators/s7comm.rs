//! S7comm mutator. Remaps the COTP called and calling TSAP values in the
//! connection request and confirm. The called TSAP encodes the target PLC rack
//! and slot, the addressing identity a sensor keys on. Two-byte fixed-width
//! values, so the COTP, TPKT, and S7 length fields are untouched.

use vstd::prelude::*;
use crate::bytes::{be16, put_be16, read_be16, write_be16};
use crate::proto::frame::{min_int, FrameLayout, L4Kind, ParsedFrame};
use crate::proto::mapper::{Domain, MapperModel, SeededMapper};
use crate::proto::{
    lemma_report_push, report_models, MutationReport, OtMutator, Protocol, ReportModel, Rewrite,
};

verus! {

pub const S7_PORT: u16 = 102;
pub const COTP_CR: u8 = 0xE0;
pub const COTP_CC: u8 = 0xD0;
pub const PARAM_CALLING_TSAP: u8 = 0xC1;
pub const PARAM_CALLED_TSAP: u8 = 0xC2;

pub struct S7;

/// The rewrite of the COTP parameters from `k` on, up to `end`: each two-byte
/// called or calling TSAP is mapped. A parameter that overruns `end` stops it.
pub open spec fn walk(w: Rewrite, k: int, end: int) -> Rewrite
    decreases end - k,
{
    let p = w.payload;
    let val = k + 2;
    if k < 0 || val > end || end > p.len() || val + p[k + 1] > end {
        w
    } else if (p[k] == PARAM_CALLED_TSAP || p[k] == PARAM_CALLING_TSAP) && p[k + 1] == 2 {
        let called = p[k] == PARAM_CALLED_TSAP;
        let orig = be16(p, val);
        let m = w.mapper.map(
            if called {
                Domain::S7ModuleId
            } else {
                Domain::S7Serial
            },
            orig as u64,
            0,
            0xffff,
        );
        let new = m.0 as u16;
        walk(
            Rewrite {
                payload: put_be16(p, val, new as int),
                mapper: m.1,
                reports: if new == orig {
                    w.reports
                } else {
                    w.reports.push(
                        ReportModel {
                            protocol: Protocol::S7,
                            field: if called {
                                "called_tsap"@
                            } else {
                                "calling_tsap"@
                            },
                            original: orig as u64,
                            new: new as u64,
                        },
                    )
                },
            },
            val + 2,
            end,
        )
    } else {
        walk(w, val + p[k + 1], end)
    }
}

impl OtMutator for S7 {
    open spec fn serves(&self) -> Protocol {
        Protocol::S7
    }

    /// A TCP segment to or from the S7 port whose payload starts with TPKT
    /// version 3.
    open spec fn handles(&self, b: Seq<u8>, l: FrameLayout) -> bool {
        &&& l.l4_kind == L4Kind::Tcp
        &&& be16(b, l.l4 as int) == S7_PORT || be16(b, l.l4 + 2) == S7_PORT
        &&& l.end - l.payload >= 6
        &&& b[l.payload as int] == 0x03
    }

    /// Only connection setup carries TSAPs; its parameters start at offset 11
    /// and end where the COTP header does.
    open spec fn rewritten(&self, payload: Seq<u8>, mapper: MapperModel) -> Rewrite {
        let w = Rewrite { payload, mapper, reports: Seq::empty() };
        if payload.len() < 7 || payload[0] != 0x03 || (payload[5] != COTP_CR && payload[5]
            != COTP_CC) {
            w
        } else {
            walk(w, 11, min_int(5 + payload[4], payload.len() as int))
        }
    }

    fn protocol(&self) -> Protocol {
        Protocol::S7
    }

    fn matches(&self, f: &ParsedFrame) -> bool {
        if f.l4_kind() != L4Kind::Tcp {
            return false;
        }
        let on_port = f.src_port() == Some(S7_PORT) || f.dst_port() == Some(S7_PORT);
        let p = f.payload();
        on_port && p.len() >= 6 && p[0] == 0x03
    }

    fn mutate(&self, f: &mut ParsedFrame, mapper: &mut SeededMapper) -> (r: Vec<MutationReport>) {
        let p = f.payload_mut();
        let ghost start = Rewrite { payload: p@, mapper: mapper@, reports: Seq::empty() };
        let mut reports: Vec<MutationReport> = Vec::new();
        proof {
            assert(report_models(reports@) =~= Seq::empty());
        }
        if p.len() < 7 || p[0] != 0x03 {
            return reports;
        }
        let cotp_len: usize = p[4] as usize;
        let pdu_type: u8 = p[5];
        if pdu_type != COTP_CR && pdu_type != COTP_CC {
            return reports;
        }
        let cotp_end: usize = if 5 + cotp_len <= p.len() {
            5 + cotp_len
        } else {
            p.len()
        };
        let mut k: usize = 11;
        while k + 2 <= cotp_end
            invariant_except_break
                mapper.wf(),
                p@.len() == start.payload.len(),
                cotp_end <= p.len(),
                cotp_end <= 260,
                k <= 600,
                walk(start, 11, cotp_end as int) == walk(
                    Rewrite { payload: p@, mapper: mapper@, reports: report_models(reports@) },
                    k as int,
                    cotp_end as int,
                ),
            ensures
                mapper.wf(),
                p@.len() == start.payload.len(),
                walk(start, 11, cotp_end as int) == (Rewrite {
                    payload: p@,
                    mapper: mapper@,
                    reports: report_models(reports@),
                }),
            decreases cotp_end - k,
        {
            let code: u8 = p[k];
            let plen: usize = p[k + 1] as usize;
            let val: usize = k + 2;
            if val + plen > cotp_end {
                break ;
            }
            let ghost before = p@;
            let ghost so_far = reports@;
            if (code == PARAM_CALLED_TSAP || code == PARAM_CALLING_TSAP) && plen == 2 {
                let called: bool = code == PARAM_CALLED_TSAP;
                let domain: Domain = if called {
                    Domain::S7ModuleId
                } else {
                    Domain::S7Serial
                };
                let orig: u16 = read_be16(p, val);
                let new: u16 = mapper.map_u16(domain, orig);
                if new != orig {
                    write_be16(p, val, new);
                    reports.push(
                        MutationReport {
                            protocol: Protocol::S7,
                            field: if called {
                                "called_tsap".to_owned()
                            } else {
                                "calling_tsap".to_owned()
                            },
                            original: orig as u64,
                            new: new as u64,
                        },
                    );
                    proof {
                        lemma_report_push(so_far, reports@.last());
                    }
                } else {
                    proof {
                        assert(put_be16(before, val as int, orig as int) =~= before);
                    }
                }
            }
            k = val + plen;
        }
        reports
    }
}

} // verus!
