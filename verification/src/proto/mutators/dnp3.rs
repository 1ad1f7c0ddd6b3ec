//! DNP3 mutator. Remaps the data link layer source and destination addresses,
//! the per-device identity, and recomputes the header block CRC. Addresses are
//! fixed-width (two bytes each), so the LEN field and the user-data block CRCs
//! stay valid; only the header CRC and the L3/L4 checksums change. Walks
//! multiple link frames packed into one TCP segment.

use vstd::prelude::*;
use vstd::slice::slice_subrange;
use crate::bytes::{be16, le16, put_le16, read_le16, write_le16};
use crate::proto::crc::{crc16_dnp, dnp3};
use crate::proto::frame::{FrameLayout, L4Kind, ParsedFrame};
use crate::proto::mapper::{Domain, MapperModel, SeededMapper};
use crate::proto::{
    lemma_report_push, report_models, MutationReport, OtMutator, Protocol, ReportModel, Rewrite,
};

verus! {

pub const DNP3_PORT: u16 = 20000;
pub const START_0: u8 = 0x05;
pub const START_1: u8 = 0x64;

pub struct Dnp3;

/// The rewrite of the link address at `at`.
pub open spec fn remap_addr(w: Rewrite, at: int, field: Seq<char>) -> Rewrite {
    let orig = le16(w.payload, at);
    let m = w.mapper.map(Domain::Dnp3Addr, orig as u64, 0, 0xffff);
    let new = m.0 as u16;
    Rewrite {
        payload: put_le16(w.payload, at, new as int),
        mapper: m.1,
        reports: if new == orig {
            w.reports
        } else {
            w.reports.push(
                ReportModel {
                    protocol: Protocol::Dnp3,
                    field,
                    original: orig as u64,
                    new: new as u64,
                },
            )
        },
    }
}

/// The bytes of a link frame with `len` in its length octet: the header of ten,
/// then the user data, whose blocks of sixteen carry two CRC bytes each.
pub open spec fn link_frame_size(len: int) -> int {
    10 + (len - 5) + 2 * ((len - 5 + 15) / 16)
}

/// The rewrite of one link frame at `o`: destination, source, header CRC.
pub open spec fn remap_link_frame(w: Rewrite, o: int) -> Rewrite {
    let d = remap_addr(w, o + 4, "dst"@);
    let s = remap_addr(d, o + 6, "src"@);
    Rewrite {
        payload: put_le16(s.payload, o + 8, crc16_dnp(s.payload.subrange(o, o + 8)) as int),
        mapper: s.mapper,
        reports: s.reports,
    }
}

/// The rewrite of the link frames from `o` on, for as long as one with a start
/// mark and a length of at least five follows.
pub open spec fn walk(w: Rewrite, o: int) -> Rewrite
    decreases w.payload.len() + 0x1000 - o,
{
    let p = w.payload;
    if o < 0 || o + 10 > p.len() || p[o] != START_0 || p[o + 1] != START_1 || p[o + 2] < 5 {
        w
    } else {
        walk(remap_link_frame(w, o), o + link_frame_size(p[o + 2] as int))
    }
}

fn remap_u16(
    p: &mut [u8],
    at: usize,
    field: &str,
    mapper: &mut SeededMapper,
    reports: &mut Vec<MutationReport>,
)
    requires
        at + 2 <= old(p).len(),
        old(mapper).wf(),
    ensures
        final(mapper).wf(),
        (Rewrite {
            payload: final(p)@,
            mapper: final(mapper)@,
            reports: report_models(final(reports)@),
        }) == remap_addr(
            Rewrite {
                payload: old(p)@,
                mapper: old(mapper)@,
                reports: report_models(old(reports)@),
            },
            at as int,
            field@,
        ),
{
    let orig: u16 = read_le16(p, at);
    let new: u16 = mapper.map_u16(Domain::Dnp3Addr, orig);
    if new != orig {
        write_le16(p, at, new);
        reports.push(report(field, orig, new));
        proof {
            lemma_report_push(old(reports)@, reports@.last());
        }
    } else {
        proof {
            assert(put_le16(p@, at as int, orig as int) =~= p@);
        }
    }
}

fn report(field: &str, original: u16, new: u16) -> (r: MutationReport)
    ensures
        r@ == (ReportModel {
            protocol: Protocol::Dnp3,
            field: field@,
            original: original as u64,
            new: new as u64,
        }),
{
    MutationReport {
        protocol: Protocol::Dnp3,
        field: field.to_owned(),
        original: original as u64,
        new: new as u64,
    }
}

impl OtMutator for Dnp3 {
    open spec fn serves(&self) -> Protocol {
        Protocol::Dnp3
    }

    /// A TCP or UDP frame to or from the DNP3 port whose payload starts with a
    /// link frame's start mark.
    open spec fn handles(&self, b: Seq<u8>, l: FrameLayout) -> bool {
        &&& l.l4_kind != L4Kind::Other
        &&& be16(b, l.l4 as int) == DNP3_PORT || be16(b, l.l4 + 2) == DNP3_PORT
        &&& l.end - l.payload >= 10
        &&& b[l.payload as int] == START_0
        &&& b[l.payload + 1] == START_1
    }

    open spec fn rewritten(&self, payload: Seq<u8>, mapper: MapperModel) -> Rewrite {
        walk(Rewrite { payload, mapper, reports: Seq::empty() }, 0)
    }

    fn protocol(&self) -> Protocol {
        Protocol::Dnp3
    }

    fn matches(&self, f: &ParsedFrame) -> bool {
        if f.l4_kind() == L4Kind::Other {
            return false;
        }
        let on_port = f.src_port() == Some(DNP3_PORT) || f.dst_port() == Some(DNP3_PORT);
        let p = f.payload();
        on_port && p.len() >= 10 && p[0] == START_0 && p[1] == START_1
    }

    fn mutate(&self, f: &mut ParsedFrame, mapper: &mut SeededMapper) -> (r: Vec<MutationReport>) {
        let p = f.payload_mut();
        let ghost start = Rewrite { payload: p@, mapper: mapper@, reports: Seq::empty() };
        let mut reports: Vec<MutationReport> = Vec::new();
        proof {
            assert(report_models(reports@) =~= Seq::empty());
        }
        let mut o: usize = 0;
        while p.len() - o >= 10
            invariant_except_break
                mapper.wf(),
                p@.len() == start.payload.len(),
                o <= p.len(),
                walk(start, 0) == walk(
                    Rewrite { payload: p@, mapper: mapper@, reports: report_models(reports@) },
                    o as int,
                ),
            ensures
                mapper.wf(),
                p@.len() == start.payload.len(),
                walk(start, 0) == (Rewrite {
                    payload: p@,
                    mapper: mapper@,
                    reports: report_models(reports@),
                }),
            decreases p.len() - o,
        {
            if p[o] != START_0 || p[o + 1] != START_1 {
                break ;
            }
            let len: usize = p[o + 2] as usize;
            if len < 5 {
                break ;
            }
            remap_u16(p, o + 4, "dst", mapper, &mut reports);
            remap_u16(p, o + 6, "src", mapper, &mut reports);
            let header_crc: u16 = dnp3(slice_subrange(p, o, o + 8));
            write_le16(p, o + 8, header_crc);
            let user: usize = len - 5;
            let blocks: usize = (user + 15) / 16;
            let rest: usize = user + 2 * blocks;
            proof {
                let now = Rewrite {
                    payload: p@,
                    mapper: mapper@,
                    reports: report_models(reports@),
                };
                assert(walk(start, 0) == walk(now, o + 10 + rest));
                assert(o + 10 + rest > p@.len() ==> walk(now, o + 10 + rest) == now);
            }
            if rest > p.len() - (o + 10) {
                break ;
            }
            o = o + 10 + rest;
        }
        reports
    }
}

} // verus!
