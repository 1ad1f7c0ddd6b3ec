//! What forging a round keeps.

use vstd::prelude::*;
use crate::bytes::{be16, le16, put_be16};
use crate::pcapio::PacketModel;
use crate::proto::frame::{
    checksums_hold, law_layout_depends_on_headers, law_layout_in_bounds,
    law_recompute_keeps_layout, law_recompute_validates, layout_of, lemma_checksum_bytes, min_int,
    FrameLayout, L3Kind, L4Kind,
};
use crate::proto::mapper::{Domain, MapperModel};
use crate::proto::mutators::{dnp3, enip, modbus, s7comm, Mutator};
use crate::proto::{with_payload, OtMutator, Protocol, ReportModel, Rewrite};
use crate::reload::pipeline::{forge_frame, forge_packets};

verus! {

proof fn lemma_modbus_keeps_length(w: Rewrite, off: int)
    ensures
        modbus::walk(w, off).payload.len() == w.payload.len(),
    decreases w.payload.len() + 0x10000 - off,
{
    let p = w.payload;
    if !(off < 0 || off + 7 > p.len() || p[off + 2] != 0 || p[off + 3] != 0 || be16(
        p,
        off + 4,
    ) == 0) {
        let m = w.mapper.map(
            Domain::ModbusUnitId,
            p[off + 6] as u64,
            0,
            0xff,
        );
        let new = m.0 as u8;
        let next = Rewrite {
            payload: p.update(off + 6, new),
            mapper: m.1,
            reports: if new == p[off + 6] {
                w.reports
            } else {
                w.reports.push(
                    ReportModel {
                        protocol: Protocol::Modbus,
                        field: "unit_id"@,
                        original: p[off + 6] as u64,
                        new: new as u64,
                    },
                )
            },
        };
        lemma_modbus_keeps_length(next, off + 6 + be16(p, off + 4));
    }
}

proof fn lemma_enip_keeps_length(w: Rewrite, off: int, items: nat)
    requires
        0 <= off,
    ensures
        enip::walk(w, off, items).payload.len() == w.payload.len(),
    decreases items,
{
    if !(items == 0 || off + 4 > w.payload.len()) {
        let data = off + 4;
        let item_len = le16(w.payload, off + 2);
        let next = if le16(w.payload, off) == enip::ITEM_CIP_IDENTITY && data + 32
            <= w.payload.len() {
            enip::remap_identity(w, data)
        } else {
            w
        };
        lemma_enip_keeps_length(next, data + item_len, (items - 1) as nat);
    }
}

proof fn lemma_dnp3_keeps_length(w: Rewrite, o: int)
    ensures
        dnp3::walk(w, o).payload.len() == w.payload.len(),
    decreases w.payload.len() + 0x1000 - o,
{
    let p = w.payload;
    if !(o < 0 || o + 10 > p.len() || p[o] != dnp3::START_0 || p[o + 1] != dnp3::START_1 || p[o + 2]
        < 5) {
        lemma_dnp3_keeps_length(
            dnp3::remap_link_frame(w, o),
            o + dnp3::link_frame_size(p[o + 2] as int),
        );
    }
}

proof fn lemma_s7_keeps_length(w: Rewrite, k: int, end: int)
    ensures
        s7comm::walk(w, k, end).payload.len() == w.payload.len(),
    decreases end - k,
{
    let p = w.payload;
    let val = k + 2;
    if k < 0 || val > end || end > p.len() || val + p[k + 1] > end {
    } else if (p[k] == s7comm::PARAM_CALLED_TSAP || p[k] == s7comm::PARAM_CALLING_TSAP) && p[k + 1]
        == 2 {
        let called = p[k] == s7comm::PARAM_CALLED_TSAP;
        let orig = be16(p, val);
        let m = w.mapper.map(
            if called {
                Domain::S7ModuleId
            } else {
                Domain::S7Serial
            },
            orig as u64,
            0,
            0xffff,
        );
        let new = m.0 as u16;
        let next = Rewrite {
            payload: put_be16(p, val, new as int),
            mapper: m.1,
            reports: if new == orig {
                w.reports
            } else {
                w.reports.push(
                    ReportModel {
                        protocol: Protocol::S7,
                        field: if called {
                            "called_tsap"@
                        } else {
                            "calling_tsap"@
                        },
                        original: orig as u64,
                        new: new as u64,
                    },
                )
            },
        };
        lemma_s7_keeps_length(next, val + 2, end);
    } else {
        lemma_s7_keeps_length(w, val + p[k + 1], end);
    }
}

/// Every mutator is fixed width: a payload keeps its length.
pub proof fn law_mutators_are_fixed_width(m: Mutator, payload: Seq<u8>, mapper: MapperModel)
    ensures
        m.rewritten(payload, mapper).payload.len() == payload.len(),
{
    let w = Rewrite { payload, mapper, reports: Seq::empty() };
    match m {
        Mutator::Modbus(_) => lemma_modbus_keeps_length(w, 0),
        Mutator::Enip(_) => if payload.len() >= 26 {
            lemma_enip_keeps_length(w, 26, le16(payload, 24) as nat);
        },
        Mutator::S7(_) => if payload.len() >= 7 {
            lemma_s7_keeps_length(
                w,
                11,
                min_int(5 + payload[4], payload.len() as int),
            );
        },
        Mutator::Dnp3(_) => lemma_dnp3_keeps_length(w, 0),
    }
}

/// A byte of a frame that is neither payload nor checksum.
pub open spec fn fixed_byte(l: FrameLayout, i: int) -> bool {
    &&& i < l.payload || l.end <= i
    &&& i != l.l3 + 10 && i != l.l3 + 11
    &&& !(l.l4_kind != L4Kind::Other && l.l4 + l.csum_off() <= i <= l.l4 + l.csum_off() + 1)
}

/// Forging a frame keeps its length and its layout and touches no byte but the
/// payload's and the checksums'. If an identifier changed, both checksums hold
/// afterwards, given room for the transport checksum in the IP packet.
pub proof fn law_forge_keeps_frame(b: Seq<u8>, mapper: MapperModel, muts: Seq<Mutator>)
    requires
        b.len() <= usize::MAX,
    ensures
        forge_frame(b, mapper, muts).0.len() == b.len(),
        layout_of(forge_frame(b, mapper, muts).0) == layout_of(b),
        layout_of(b) is None ==> forge_frame(b, mapper, muts).0 == b,
        layout_of(b) matches Some(l) ==> forall|i: int|
            0 <= i < b.len() && fixed_byte(l, i) ==> #[trigger] forge_frame(b, mapper, muts).0[i]
                == b[i],
        ({
            let f = forge_frame(b, mapper, muts);
            f.2.len() > 0 ==> {
                &&& layout_of(b) is Some
                &&& layout_of(b)->0.csum_inside() ==> checksums_hold(f.0, layout_of(b)->0)
            }
        }),
    decreases muts.len(),
{
    if layout_of(b) is Some && muts.len() > 0 {
        let l = layout_of(b)->0;
        law_layout_in_bounds(b);
        if muts[0].handles(b, l) {
            let p = b.subrange(l.payload as int, l.end as int);
            law_mutators_are_fixed_width(muts[0], p, mapper);
            let w = muts[0].rewritten(p, mapper);
            let out = with_payload(b, l, w.payload);
            law_layout_depends_on_headers(b, out, l);
            law_recompute_keeps_layout(out, l);
            if l.l3_kind == L3Kind::Ipv4 {
                lemma_checksum_bytes(out, l);
            }
            if l.csum_inside() {
                law_recompute_validates(out, l);
            }
        } else {
            law_forge_keeps_frame(b, mapper, muts.drop_first());
        }
    }
}

/// A round holds as many packets as the capture it is made from, each with its
/// time and its length.
pub proof fn law_round_keeps_packets(
    packets: Seq<PacketModel>,
    mapper: MapperModel,
    muts: Seq<Mutator>,
)
    requires
        forall|i: int| 0 <= i < packets.len() ==> (#[trigger] packets[i]).data.len() <= usize::MAX,
    ensures
        ({
            let done = forge_packets(packets, mapper, muts).packets;
            &&& done.len() == packets.len()
            &&& forall|i: int|
                0 <= i < packets.len() ==> {
                    &&& (#[trigger] done[i]).ts == packets[i].ts
                    &&& done[i].orig_len == packets[i].orig_len
                    &&& done[i].data.len() == packets[i].data.len()
                }
        }),
    decreases packets.len(),
{
    if packets.len() > 0 {
        let head = packets.drop_last();
        assert forall|i: int| 0 <= i < head.len() implies (#[trigger] head[i]).data.len()
            <= usize::MAX by {
            assert(head[i] == packets[i]);
        }
        law_round_keeps_packets(head, mapper, muts);
        let prior = forge_packets(head, mapper, muts);
        law_forge_keeps_frame(packets.last().data, prior.mapper, muts);
    }
}

/// A frame goes to the first mutator that takes it, and to no other: the mapper,
/// the reports and the payload behind the forging are what that mutator made of
/// the payload.
pub proof fn law_first_match_forges(
    b: Seq<u8>,
    mapper: MapperModel,
    muts: Seq<Mutator>,
    l: FrameLayout,
    k: int,
)
    requires
        b.len() <= usize::MAX,
        layout_of(b) == Some(l),
        0 <= k < muts.len(),
        muts[k].handles(b, l),
        forall|j: int| 0 <= j < k ==> !(#[trigger] muts[j]).handles(b, l),
    ensures
        ({
            let f = forge_frame(b, mapper, muts);
            let w = muts[k].rewritten(b.subrange(l.payload as int, l.end as int), mapper);
            &&& f.1 == w.mapper
            &&& f.2 == w.reports
            &&& forall|i: int|
                l.payload <= i < l.end && i != l.l3 + 10 && i != l.l3 + 11 && !(l.l4_kind
                    != L4Kind::Other && l.l4 + l.csum_off() <= i <= l.l4 + l.csum_off() + 1)
                    ==> #[trigger] f.0[i] == w.payload[i - l.payload]
        }),
    decreases k,
{
    law_layout_in_bounds(b);
    if k > 0 {
        let rest = muts.drop_first();
        assert(!muts[0].handles(b, l));
        assert(rest[k - 1] == muts[k]);
        assert forall|j: int| 0 <= j < k - 1 implies !(#[trigger] rest[j]).handles(b, l) by {
            assert(rest[j] == muts[j + 1]);
        }
        law_first_match_forges(b, mapper, rest, l, k - 1);
    } else {
        let p = b.subrange(l.payload as int, l.end as int);
        law_mutators_are_fixed_width(muts[0], p, mapper);
        let w = muts[0].rewritten(p, mapper);
        let out = with_payload(b, l, w.payload);
        law_layout_depends_on_headers(b, out, l);
        if l.l3_kind == L3Kind::Ipv4 {
            lemma_checksum_bytes(out, l);
        }
    }
}

/// A frame that no mutator takes is left as it is.
pub proof fn law_unmatched_frames_stay(b: Seq<u8>, mapper: MapperModel, muts: Seq<Mutator>)
    requires
        layout_of(b) is Some ==> forall|j: int|
            0 <= j < muts.len() ==> !(#[trigger] muts[j]).handles(b, layout_of(b)->0),
    ensures
        forge_frame(b, mapper, muts) == (b, mapper, Seq::<ReportModel>::empty()),
    decreases muts.len(),
{
    if layout_of(b) is Some && muts.len() > 0 {
        let rest = muts.drop_first();
        assert(!muts[0].handles(b, layout_of(b)->0));
        assert forall|j: int| 0 <= j < rest.len() implies !(#[trigger] rest[j]).handles(
            b,
            layout_of(b)->0,
        ) by {
            assert(rest[j] == muts[j + 1]);
        }
        law_unmatched_frames_stay(b, mapper, rest);
    }
}

} // verus!
