//! What the mutators do to a payload, byte by byte.

use vstd::prelude::*;
use crate::bytes::{be16, le16, le32, put_be16, put_le16, put_le32};
use crate::proto::crc::crc16_dnp;
use crate::proto::frame::{FrameLayout, L4Kind};
use crate::proto::mapper::{law_mapping_only_grows, Domain, MapperModel};
use crate::proto::mutators::{dnp3, enip, modbus, s7comm};
use crate::proto::{OtMutator, Protocol, ReportModel, Rewrite};

verus! {

/// A field of a payload that identifies a device: where it stands, its width of
/// one, two or four bytes, its byte order, and the domain and name it goes by.
pub ghost struct Field {
    pub at: int,
    pub width: int,
    pub big: bool,
    pub domain: Domain,
    pub name: Seq<char>,
}

/// The number in the field.
#[verifier::opaque]
pub open spec fn value(b: Seq<u8>, f: Field) -> int {
    if f.width == 1 {
        b[f.at] as int
    } else if f.width == 2 {
        if f.big {
            b[f.at] as int * 256 + b[f.at + 1] as int
        } else {
            b[f.at] as int + b[f.at + 1] as int * 256
        }
    } else {
        b[f.at] as int + b[f.at + 1] as int * 256 + b[f.at + 2] as int * 0x1_0000 + b[f.at + 3] as int
            * 0x100_0000
    }
}

/// The low bytes of a number, as many as the field has.
#[verifier::opaque]
pub open spec fn cut(v: u64, f: Field) -> int {
    if f.width == 1 {
        v as u8 as int
    } else if f.width == 2 {
        v as u16 as int
    } else {
        v as u32 as int
    }
}

/// The byte belongs to the field.
pub open spec fn inside(f: Field, i: int) -> bool {
    f.at <= i < f.at + f.width
}

/// The byte belongs to one of the fields.
pub open spec fn inside_any(fs: Seq<Field>, i: int) -> bool {
    exists|k: int| 0 <= k < fs.len() && inside(#[trigger] fs[k], i)
}

/// The field now holds what the mapper gives for the number it held.
pub open spec fn mapped(p: Seq<u8>, w: Rewrite, f: Field) -> bool {
    &&& w.mapper.fwd.contains_key((f.domain, value(p, f) as u64))
    &&& value(w.payload, f) == cut(w.mapper.fwd[(f.domain, value(p, f) as u64)], f)
}

/// The report tells of the field's change.
pub open spec fn tells(r: ReportModel, p: Seq<u8>, w: Rewrite, proto: Protocol, f: Field) -> bool {
    &&& r.protocol == proto
    &&& r.field == f.name
    &&& r.original == value(p, f)
    &&& r.new == value(w.payload, f)
    &&& r.original != r.new
}

/// Some report tells of the field's change.
pub open spec fn reported(p: Seq<u8>, w: Rewrite, proto: Protocol, f: Field) -> bool {
    exists|j: int| 0 <= j < w.reports.len() && tells(#[trigger] w.reports[j], p, w, proto, f)
}

/// The report tells of the change of one of the fields.
pub open spec fn accounted(
    r: ReportModel,
    p: Seq<u8>,
    w: Rewrite,
    proto: Protocol,
    fs: Seq<Field>,
) -> bool {
    exists|k: int| 0 <= k < fs.len() && tells(r, p, w, proto, #[trigger] fs[k])
}

/// A payload was rewritten in just these fields: its length and every byte outside
/// them (and outside `free`) are as before; each field holds the mapper's image of
/// what it held; the mapper kept what it had assigned; and the reports tell of
/// each field that changed and of nothing else.
pub open spec fn rewritten_in(
    p: Seq<u8>,
    m: MapperModel,
    w: Rewrite,
    proto: Protocol,
    fs: Seq<Field>,
    free: Set<int>,
) -> bool {
    &&& w.payload.len() == p.len()
    &&& m.fwd.submap_of(w.mapper.fwd)
    &&& forall|i: int|
        0 <= i < p.len() && !inside_any(fs, i) && !free.contains(i) ==> #[trigger] w.payload[i]
            == p[i]
    &&& forall|k: int| 0 <= k < fs.len() ==> mapped(p, w, #[trigger] fs[k])
    &&& forall|k: int|
        0 <= k < fs.len() && value(w.payload, #[trigger] fs[k]) != value(p, fs[k]) ==> reported(
            p,
            w,
            proto,
            fs[k],
        )
    &&& forall|j: int|
        0 <= j < w.reports.len() ==> accounted(#[trigger] w.reports[j], p, w, proto, fs)
}

/// The field lies in the payload.
spec fn fits(f: Field, n: int) -> bool {
    &&& 0 <= f.at
    &&& f.at + f.width <= n
    &&& f.width == 1 || f.width == 2 || f.width == 4
}

spec fn apart(f: Field, g: Field) -> bool {
    f.at + f.width <= g.at || g.at + g.width <= f.at
}

/// One step of a rewrite: the field is mapped, reported if it changed, and nothing
/// else is touched.
spec fn steps(w: Rewrite, v: Rewrite, proto: Protocol, f: Field) -> bool {
    let orig = value(w.payload, f);
    &&& v.payload.len() == w.payload.len()
    &&& forall|i: int| 0 <= i < w.payload.len() && !inside(f, i)
        ==> #[trigger] v.payload[i] == w.payload[i]
    &&& w.mapper.fwd.submap_of(v.mapper.fwd)
    &&& v.mapper.fwd.contains_key((f.domain, orig as u64))
    &&& value(v.payload, f) == cut(v.mapper.fwd[(f.domain, orig as u64)], f)
    &&& v.reports == if value(v.payload, f) == orig {
        w.reports
    } else {
        w.reports.push(
            ReportModel {
                protocol: proto,
                field: f.name,
                original: orig as u64,
                new: value(v.payload, f) as u64,
            },
        )
    }
}

/// A field apart from the touched bytes holds what it held.
proof fn lemma_value_same(p: Seq<u8>, q: Seq<u8>, f: Field)
    requires
        fits(f, p.len() as int),
        p.len() == q.len(),
        forall|i: int| inside(f, i) ==> #[trigger] q[i] == p[i],
    ensures
        value(p, f) == value(q, f),
{
    reveal(value);
    assert(inside(f, f.at));
    assert(q[f.at] == p[f.at]);
    if f.width >= 2 {
        assert(q[f.at + 1] == p[f.at + 1]);
    }
    if f.width == 4 {
        assert(q[f.at + 2] == p[f.at + 2]);
        assert(q[f.at + 3] == p[f.at + 3]);
    }
}

proof fn lemma_value_bound(p: Seq<u8>, f: Field)
    ensures
        0 <= value(p, f) <= 0xffff_ffff,
{
    reveal(value);
}

/// What a step leaves as it was: the fields before it, and what its own field
/// held.
proof fn lemma_step_values(
    p: Seq<u8>,
    m: MapperModel,
    w: Rewrite,
    v: Rewrite,
    proto: Protocol,
    fs: Seq<Field>,
    free: Set<int>,
    f: Field,
)
    requires
        rewritten_in(p, m, w, proto, fs, free),
        steps(w, v, proto, f),
        fits(f, p.len() as int),
        forall|k: int| 0 <= k < fs.len() ==> fits(#[trigger] fs[k], p.len() as int)
            && apart(fs[k], f),
        forall|i: int| #[trigger] free.contains(i) ==> !inside(f, i),
    ensures
        value(w.payload, f) == value(p, f),
        forall|k: int|
            0 <= k < fs.len() ==> value(w.payload, #[trigger] fs[k]) == value(v.payload, fs[k]),
{
    assert forall|i: int| inside(f, i) implies #[trigger] w.payload[i] == p[i] by {
        if inside_any(fs, i) {
            let k = choose|k: int| 0 <= k < fs.len() && inside(#[trigger] fs[k], i);
            assert(apart(fs[k], f));
        }
    }
    lemma_value_same(p, w.payload, f);
    assert forall|k: int| 0 <= k < fs.len() implies value(w.payload, #[trigger] fs[k]) == value(
        v.payload,
        fs[k],
    ) by {
        assert(apart(fs[k], f));
        assert forall|i: int| inside(fs[k], i) implies #[trigger] v.payload[i] == w.payload[i] by {}
        lemma_value_same(w.payload, v.payload, fs[k]);
    }
}

proof fn lemma_step_bytes(
    p: Seq<u8>,
    m: MapperModel,
    w: Rewrite,
    v: Rewrite,
    proto: Protocol,
    fs: Seq<Field>,
    free: Set<int>,
    f: Field,
)
    requires
        rewritten_in(p, m, w, proto, fs, free),
        steps(w, v, proto, f),
        fits(f, p.len() as int),
        forall|k: int| 0 <= k < fs.len() ==> fits(#[trigger] fs[k], p.len() as int)
            && apart(fs[k], f),
        forall|i: int| #[trigger] free.contains(i) ==> !inside(f, i),
    ensures
        forall|i: int|
            0 <= i < p.len() && !inside_any(fs.push(f), i) && !free.contains(i)
                ==> #[trigger] v.payload[i] == p[i],
{
    let gs = fs.push(f);
    assert forall|i: int|
        0 <= i < p.len() && !inside_any(gs, i) && !free.contains(i) implies #[trigger] v.payload[i]
        == p[i] by {
        assert(gs[fs.len() as int] == f);
        assert(!inside(f, i));
        if inside_any(fs, i) {
            let k = choose|k: int| 0 <= k < fs.len() && inside(#[trigger] fs[k], i);
            assert(gs[k] == fs[k]);
        }
        assert(w.payload[i] == p[i]);
    }
}

proof fn lemma_step_reports(
    p: Seq<u8>,
    m: MapperModel,
    w: Rewrite,
    v: Rewrite,
    proto: Protocol,
    fs: Seq<Field>,
    free: Set<int>,
    f: Field,
)
    requires
        rewritten_in(p, m, w, proto, fs, free),
        steps(w, v, proto, f),
        fits(f, p.len() as int),
        forall|k: int| 0 <= k < fs.len() ==> fits(#[trigger] fs[k], p.len() as int)
            && apart(fs[k], f),
        forall|i: int| #[trigger] free.contains(i) ==> !inside(f, i),
    ensures
        forall|k: int|
            0 <= k < fs.push(f).len() && value(v.payload, #[trigger] fs.push(f)[k]) != value(
                p,
                fs.push(f)[k],
            ) ==> reported(p, v, proto, fs.push(f)[k]),
        forall|j: int|
            0 <= j < v.reports.len() ==> accounted(
                #[trigger] v.reports[j],
                p,
                v,
                proto,
                fs.push(f),
            ),
{
    let gs = fs.push(f);
    lemma_step_values(p, m, w, v, proto, fs, free, f);
    lemma_value_bound(p, f);
    lemma_value_bound(v.payload, f);
    let n = w.reports.len() as int;
    assert forall|k: int|
        0 <= k < gs.len() && value(v.payload, #[trigger] gs[k]) != value(p, gs[k]) implies reported(
        p,
        v,
        proto,
        gs[k],
    ) by {
        if k < fs.len() {
            assert(gs[k] == fs[k]);
            assert(value(w.payload, fs[k]) == value(v.payload, fs[k]));
            let j = choose|j: int|
                0 <= j < w.reports.len() && tells(#[trigger] w.reports[j], p, w, proto, fs[k]);
            assert(v.reports[j] == w.reports[j]);
            assert(tells(v.reports[j], p, v, proto, gs[k]));
        } else {
            assert(tells(v.reports[n], p, v, proto, gs[k]));
        }
    }
    assert forall|j: int| 0 <= j < v.reports.len() implies accounted(
        #[trigger] v.reports[j],
        p,
        v,
        proto,
        gs,
    ) by {
        if j < n {
            assert(v.reports[j] == w.reports[j]);
            let k = choose|k: int|
                0 <= k < fs.len() && tells(w.reports[j], p, w, proto, #[trigger] fs[k]);
            assert(value(w.payload, fs[k]) == value(v.payload, fs[k]));
            assert(gs[k] == fs[k]);
            assert(tells(v.reports[j], p, v, proto, gs[k]));
        } else {
            assert(tells(v.reports[j], p, v, proto, gs[fs.len() as int]));
        }
    }
}

/// A step into a field that is apart from those before it.
proof fn lemma_step(
    p: Seq<u8>,
    m: MapperModel,
    w: Rewrite,
    v: Rewrite,
    proto: Protocol,
    fs: Seq<Field>,
    free: Set<int>,
    f: Field,
)
    requires
        rewritten_in(p, m, w, proto, fs, free),
        steps(w, v, proto, f),
        fits(f, p.len() as int),
        forall|k: int| 0 <= k < fs.len() ==> fits(#[trigger] fs[k], p.len() as int)
            && apart(fs[k], f),
        forall|i: int| #[trigger] free.contains(i) ==> !inside(f, i),
    ensures
        rewritten_in(p, m, v, proto, fs.push(f), free),
{
    let gs = fs.push(f);
    lemma_step_values(p, m, w, v, proto, fs, free, f);
    lemma_step_bytes(p, m, w, v, proto, fs, free, f);
    lemma_step_reports(p, m, w, v, proto, fs, free, f);
    assert(m.fwd.submap_of(v.mapper.fwd)) by {
        assert forall|k: (Domain, u64)| #[trigger] m.fwd.dom().contains(k) implies v.mapper.fwd.dom().contains(
            k,
        ) && m.fwd[k] == v.mapper.fwd[k] by {
            assert(w.mapper.fwd.dom().contains(k));
            assert(v.mapper.fwd.dom().contains(k));
        }
    }
    assert forall|k: int| 0 <= k < gs.len() implies mapped(p, v, #[trigger] gs[k]) by {
        if k < fs.len() {
            assert(gs[k] == fs[k]);
            assert(mapped(p, w, fs[k]));
            assert(value(w.payload, fs[k]) == value(v.payload, fs[k]));
            let key = (fs[k].domain, value(p, fs[k]) as u64);
            assert(w.mapper.fwd.dom().contains(key));
            assert(v.mapper.fwd.dom().contains(key));
            assert(v.mapper.fwd[key] == w.mapper.fwd[key]);
        } else {
            assert(gs[k] == f);
        }
    }
}

proof fn lemma_start(p: Seq<u8>, m: MapperModel, proto: Protocol)
    ensures
        rewritten_in(
            p,
            m,
            Rewrite { payload: p, mapper: m, reports: Seq::empty() },
            proto,
            Seq::empty(),
            Set::empty(),
        ),
{
}

/// An application data unit starts at `o`: its header fits, its protocol
/// identifier is zero and its length is not.
pub open spec fn adu_at(p: Seq<u8>, o: int) -> bool {
    0 <= o && o + 7 <= p.len() && p[o + 2] == 0 && p[o + 3] == 0 && !(p[o + 4] == 0 && p[o + 5]
        == 0)
}

/// Where the unit that follows the one at `o` would start.
pub open spec fn adu_end(p: Seq<u8>, o: int) -> int {
    o + 6 + p[o + 4] as int * 256 + p[o + 5] as int
}

/// The offsets are those of the units that follow one another from the start of
/// the payload, all of them.
pub open spec fn adus(p: Seq<u8>, offs: Seq<int>) -> bool {
    &&& offs.len() == 0 ==> !adu_at(p, 0)
    &&& offs.len() > 0 ==> offs[0] == 0 && !adu_at(p, adu_end(p, offs.last()))
    &&& forall|k: int| 0 <= k < offs.len() ==> adu_at(p, #[trigger] offs[k])
    &&& forall|k: int, l: int|
        0 <= k && l == k + 1 && l < offs.len() ==> #[trigger] offs[l] == adu_end(
            p,
            #[trigger] offs[k],
        )
}

/// The unit identifier of the unit at `o`.
pub open spec fn unit_field(o: int) -> Field {
    Field { at: o + 6, width: 1, big: true, domain: Domain::ModbusUnitId, name: "unit_id"@ }
}

pub open spec fn unit_fields(offs: Seq<int>) -> Seq<Field> {
    offs.map_values(|o: int| unit_field(o))
}

proof fn lemma_modbus_walk(
    p: Seq<u8>,
    m: MapperModel,
    w: Rewrite,
    offs: Seq<int>,
    n: int,
    off: int,
)
    requires
        adus(p, offs),
        0 <= n <= offs.len(),
        rewritten_in(p, m, w, Protocol::Modbus, unit_fields(offs.take(n)), Set::empty()),
        n < offs.len() ==> off == offs[n],
        n == offs.len() ==> off == if n == 0 {
            0
        } else {
            adu_end(p, offs.last())
        },
        forall|k: int| 0 <= k < n ==> (#[trigger] offs[k]) + 6 < off,
    ensures
        rewritten_in(
            p,
            m,
            modbus::walk(w, off),
            Protocol::Modbus,
            unit_fields(offs),
            Set::empty(),
        ),
    decreases offs.len() - n,
{
    let fs = unit_fields(offs.take(n));
    assert(0 <= off) by {
        if n > 0 && n == offs.len() {
            assert(adu_at(p, offs[n - 1]));
        } else if n < offs.len() {
            assert(adu_at(p, offs[n]));
        }
    }
    assert forall|i: int| off <= i < p.len() implies #[trigger] w.payload[i] == p[i] by {
        if inside_any(fs, i) {
            let k = choose|k: int| 0 <= k < fs.len() && inside(#[trigger] fs[k], i);
            assert(fs[k] == unit_field(offs[k]));
        }
    }
    assert(adu_at(p, off) ==> adu_at(w.payload, off));
    assert(adu_at(w.payload, off) ==> adu_at(p, off));
    if n == offs.len() {
        assert(offs.take(n) =~= offs);
        assert(modbus::walk(w, off) == w);
    } else {
        let f = unit_field(off);
        let q = w.payload;
        let orig = q[off + 6];
        let mm = w.mapper.map(Domain::ModbusUnitId, orig as u64, 0, 0xff);
        let new = mm.0 as u8;
        let v = Rewrite {
            payload: q.update(off + 6, new),
            mapper: mm.1,
            reports: if new == orig {
                w.reports
            } else {
                w.reports.push(
                    ReportModel {
                        protocol: Protocol::Modbus,
                        field: "unit_id"@,
                        original: orig as u64,
                        new: new as u64,
                    },
                )
            },
        };
        let next = adu_end(p, off);
        law_mapping_only_grows(w.mapper, Domain::ModbusUnitId, orig as u64, 0, 0xff);
        reveal(value);
        reveal(cut);
        assert(adu_at(p, offs[n]));
        assert(steps(w, v, Protocol::Modbus, f));
        assert forall|k: int| 0 <= k < fs.len() implies fits(#[trigger] fs[k], p.len() as int)
            && apart(fs[k], f) by {
            assert(fs[k] == unit_field(offs[k]));
            assert(adu_at(p, offs[k]));
        }
        lemma_step(p, m, w, v, Protocol::Modbus, fs, Set::empty(), f);
        assert(unit_fields(offs.take(n + 1)) =~= fs.push(f));
        assert(modbus::walk(w, off) == modbus::walk(v, next));
        if n + 1 < offs.len() {
            assert(offs[n + 1] == adu_end(p, offs[n]));
        }
        lemma_modbus_walk(p, m, v, offs, n + 1, next);
    }
}

/// A Modbus payload is rewritten in the unit identifier of each of its units, and
/// nowhere else.
pub proof fn law_modbus_rewrites_unit_ids(p: Seq<u8>, m: MapperModel, offs: Seq<int>)
    requires
        adus(p, offs),
    ensures
        rewritten_in(
            p,
            m,
            modbus::Modbus.rewritten(p, m),
            Protocol::Modbus,
            unit_fields(offs),
            Set::empty(),
        ),
{
    lemma_start(p, m, Protocol::Modbus);
    assert(unit_fields(offs.take(0)) =~= Seq::empty());
    lemma_modbus_walk(
        p,
        m,
        Rewrite { payload: p, mapper: m, reports: Seq::empty() },
        offs,
        0,
        0,
    );
}

/// A little-endian field of an identity object.
pub open spec fn le_field(at: int, width: int, domain: Domain, name: Seq<char>) -> Field {
    Field { at, width, big: false, domain, name }
}

proof fn lemma_put_le16(b: Seq<u8>, at: int, v: u16)
    requires
        0 <= at,
        at + 2 <= b.len(),
    ensures
        put_le16(b, at, v as int)[at] as int + put_le16(b, at, v as int)[at + 1] as int * 256 == v,
        put_le16(b, at, v as int).len() == b.len(),
        forall|i: int|
            0 <= i < b.len() && i != at && i != at + 1 ==> #[trigger] put_le16(b, at, v as int)[i]
                == b[i],
{
}

proof fn lemma_put_le32(b: Seq<u8>, at: int, v: u32)
    requires
        0 <= at,
        at + 4 <= b.len(),
    ensures
        ({
            let q = put_le32(b, at, v as int);
            &&& q.len() == b.len()
            &&& q[at] as int + q[at + 1] as int * 256 + q[at + 2] as int * 0x1_0000 + q[at + 3] as int
                * 0x100_0000 == v
            &&& forall|i: int| 0 <= i < b.len() && !(at <= i < at + 4) ==> #[trigger] q[i] == b[i]
        }),
{
    let lo = (v % 65536) as u16;
    let hi = (v / 65536) as u16;
    let mid = put_le16(b, at, lo as int);
    lemma_put_le16(b, at, lo);
    lemma_put_le16(mid, at + 2, hi);
    let q = put_le32(b, at, v as int);
    assert(q == put_le16(mid, at + 2, hi as int));
    assert(q[at] == mid[at]);
    assert(q[at + 1] == mid[at + 1]);
}

proof fn lemma_remap16_steps(w: Rewrite, at: int, d: Domain, name: Seq<char>)
    requires
        0 <= at,
        at + 2 <= w.payload.len(),
    ensures
        steps(w, enip::remap16(w, at, d, name), Protocol::Enip, le_field(at, 2, d, name)),
{
    let orig = le16(w.payload, at);
    let m = w.mapper.map(d, orig as u64, 0, 0xffff);
    law_mapping_only_grows(w.mapper, d, orig as u64, 0, 0xffff);
    lemma_put_le16(w.payload, at, m.0 as u16);
    reveal(value);
    reveal(cut);
}

proof fn lemma_remap32_steps(w: Rewrite, at: int, d: Domain, name: Seq<char>)
    requires
        0 <= at,
        at + 4 <= w.payload.len(),
    ensures
        steps(w, enip::remap32(w, at, d, name), Protocol::Enip, le_field(at, 4, d, name)),
{
    let orig = le32(w.payload, at);
    let m = w.mapper.map(d, orig as u64, 0, 0xffff_ffff);
    law_mapping_only_grows(w.mapper, d, orig as u64, 0, 0xffff_ffff);
    lemma_put_le32(w.payload, at, m.0 as u32);
    reveal(value);
    reveal(cut);
}

/// The item at `o` is a CIP identity object whose fixed part fits in the payload.
pub open spec fn identity_at(p: Seq<u8>, o: int) -> bool {
    0 <= o && o + 36 <= p.len() && p[o] == 0x0C && p[o + 1] == 0
}

/// Where the item that follows the one at `o` would start.
pub open spec fn item_end(p: Seq<u8>, o: int) -> int {
    o + 4 + p[o + 2] as int + p[o + 3] as int * 256
}

/// The byte is one of bytes 18 to 23 or 28 to 31 of the object in the item at `o`,
/// whose data follow a header of four bytes.
pub open spec fn identity_byte(o: int, i: int) -> bool {
    o + 4 + 18 <= i < o + 4 + 24 || o + 4 + 28 <= i < o + 4 + 32
}

/// The offsets are those of the items of a List Identity reply: as many as byte 24
/// and 25 say, from byte 26 on, as far as their headers fit. No header and no
/// identity field lies in an identity field of an item before it.
pub open spec fn items(p: Seq<u8>, offs: Seq<int>) -> bool {
    &&& 26 <= p.len()
    &&& p[0] == 0x63 && p[1] == 0
    &&& offs.len() <= p[24] as int + p[25] as int * 256
    &&& offs.len() > 0 ==> offs[0] == 26
    &&& forall|k: int| 0 <= k < offs.len() ==> (#[trigger] offs[k]) + 4 <= p.len()
    &&& forall|k: int, l: int|
        0 <= k && l == k + 1 && l < offs.len() ==> #[trigger] offs[l] == item_end(
            p,
            #[trigger] offs[k],
        )
    &&& offs.len() < p[24] as int + p[25] as int * 256 ==> p.len() < 4 + if offs.len() == 0 {
        26
    } else {
        item_end(p, offs.last())
    }
    &&& forall|j: int, k: int, i: int|
        0 <= j < k < offs.len() && identity_at(p, offs[j]) && #[trigger] identity_byte(offs[j], i)
            ==> !(#[trigger] offs[k] <= i < offs[k] + 4) && !(identity_at(p, offs[k])
            && identity_byte(offs[k], i))
}

/// The identity fields of the item at `o`: the vendor at byte 18 of the object,
/// the device type at 20, the product code at 22, the serial number at 28.
pub open spec fn object_fields(p: Seq<u8>, o: int) -> Seq<Field> {
    if identity_at(p, o) {
        seq![
            le_field(o + 22, 2, Domain::EnipVendor, "vendor_id"@),
            le_field(o + 24, 2, Domain::EnipDeviceType, "device_type"@),
            le_field(o + 26, 2, Domain::EnipProductCode, "product_code"@),
            le_field(o + 32, 4, Domain::EnipSerial, "serial"@),
        ]
    } else {
        Seq::empty()
    }
}

/// The identity fields of all items.
pub open spec fn identity_fields(p: Seq<u8>, offs: Seq<int>) -> Seq<Field>
    decreases offs.len(),
{
    if offs.len() == 0 {
        Seq::empty()
    } else {
        identity_fields(p, offs.drop_last()) + object_fields(p, offs.last())
    }
}

/// Every identity field is one of an item.
proof fn lemma_identity_field(p: Seq<u8>, offs: Seq<int>, k: int) -> (j: int)
    requires
        0 <= k < identity_fields(p, offs).len(),
    ensures
        0 <= j < offs.len(),
        identity_at(p, offs[j]),
        forall|i: int| #[trigger]
            inside(identity_fields(p, offs)[k], i) ==> identity_byte(offs[j], i),
        fits(identity_fields(p, offs)[k], p.len() as int),
    decreases offs.len(),
{
    let head = identity_fields(p, offs.drop_last());
    if k < head.len() {
        let j = lemma_identity_field(p, offs.drop_last(), k);
        assert(offs.drop_last()[j] == offs[j]);
        assert(identity_fields(p, offs)[k] == head[k]);
        j
    } else {
        assert(identity_fields(p, offs)[k] == object_fields(p, offs.last())[k - head.len()]);
        offs.len() - 1
    }
}

/// The rewrite of an identity object apart from the fields before it.
proof fn lemma_identity_steps(
    p: Seq<u8>,
    m: MapperModel,
    w: Rewrite,
    fs: Seq<Field>,
    o: int,
)
    requires
        rewritten_in(p, m, w, Protocol::Enip, fs, Set::empty()),
        identity_at(p, o),
        forall|k: int| 0 <= k < fs.len() ==> fits(#[trigger] fs[k], p.len() as int),
        forall|k: int, i: int|
            0 <= k < fs.len() && #[trigger] inside(fs[k], i) ==> !identity_byte(o, i),
    ensures
        rewritten_in(
            p,
            m,
            enip::remap_identity(w, o + 4),
            Protocol::Enip,
            fs + object_fields(p, o),
            Set::empty(),
        ),
{
    let fa = le_field(o + 22, 2, Domain::EnipVendor, "vendor_id"@);
    let fb = le_field(o + 24, 2, Domain::EnipDeviceType, "device_type"@);
    let fc = le_field(o + 26, 2, Domain::EnipProductCode, "product_code"@);
    let fd = le_field(o + 32, 4, Domain::EnipSerial, "serial"@);
    assert forall|k: int| 0 <= k < fs.len() implies fits(#[trigger] fs[k], p.len() as int) && apart(
        fs[k],
        fa,
    ) && apart(fs[k], fb) && apart(fs[k], fc) && apart(fs[k], fd) by {
        lemma_apart(fs[k], fa, o);
        lemma_apart(fs[k], fb, o);
        lemma_apart(fs[k], fc, o);
        lemma_apart(fs[k], fd, o);
    }
    let none = Set::<int>::empty();
    let a = enip::remap16(w, o + 22, Domain::EnipVendor, "vendor_id"@);
    lemma_remap16_steps(w, o + 22, Domain::EnipVendor, "vendor_id"@);
    lemma_step(p, m, w, a, Protocol::Enip, fs, none, fa);
    let b = enip::remap16(a, o + 24, Domain::EnipDeviceType, "device_type"@);
    lemma_remap16_steps(a, o + 24, Domain::EnipDeviceType, "device_type"@);
    let fs1 = fs.push(fa);
    assert forall|k: int| 0 <= k < fs1.len() implies fits(#[trigger] fs1[k], p.len() as int)
        && apart(fs1[k], fb) by {
        if k < fs.len() {
            assert(fs1[k] == fs[k]);
        }
    }
    lemma_step(p, m, a, b, Protocol::Enip, fs1, none, fb);
    let c = enip::remap16(b, o + 26, Domain::EnipProductCode, "product_code"@);
    lemma_remap16_steps(b, o + 26, Domain::EnipProductCode, "product_code"@);
    let fs2 = fs1.push(fb);
    assert forall|k: int| 0 <= k < fs2.len() implies fits(#[trigger] fs2[k], p.len() as int)
        && apart(fs2[k], fc) by {
        if k < fs.len() {
            assert(fs2[k] == fs[k]);
        }
    }
    lemma_step(p, m, b, c, Protocol::Enip, fs2, none, fc);
    let d = enip::remap32(c, o + 32, Domain::EnipSerial, "serial"@);
    lemma_remap32_steps(c, o + 32, Domain::EnipSerial, "serial"@);
    let fs3 = fs2.push(fc);
    assert forall|k: int| 0 <= k < fs3.len() implies fits(#[trigger] fs3[k], p.len() as int)
        && apart(fs3[k], fd) by {
        if k < fs.len() {
            assert(fs3[k] == fs[k]);
        }
    }
    lemma_step(p, m, c, d, Protocol::Enip, fs3, none, fd);
    assert(fs3.push(fd) =~= fs + object_fields(p, o));
}

proof fn lemma_apart(g: Field, f: Field, o: int)
    requires
        g.width >= 1,
        f.width >= 1,
        forall|i: int| inside(f, i) ==> #[trigger] identity_byte(o, i),
        forall|i: int| #[trigger] inside(g, i) ==> !identity_byte(o, i),
    ensures
        apart(g, f),
{
    if !apart(g, f) {
        let i: int = if g.at < f.at {
            f.at
        } else {
            g.at
        };
        assert(inside(g, i) && inside(f, i));
        assert(identity_byte(o, i));
    }
}

proof fn lemma_enip_walk(
    p: Seq<u8>,
    m: MapperModel,
    w: Rewrite,
    offs: Seq<int>,
    n: int,
    off: int,
)
    requires
        items(p, offs),
        0 <= n <= offs.len(),
        rewritten_in(p, m, w, Protocol::Enip, identity_fields(p, offs.take(n)), Set::empty()),
        n < offs.len() ==> off == offs[n],
        n == offs.len() ==> off == if n == 0 {
            26
        } else {
            item_end(p, offs.last())
        },
        0 <= off,
    ensures
        rewritten_in(
            p,
            m,
            enip::walk(w, off, (p[24] as int + p[25] as int * 256 - n) as nat),
            Protocol::Enip,
            identity_fields(p, offs),
            Set::empty(),
        ),
    decreases offs.len() - n,
{
    let count = p[24] as int + p[25] as int * 256;
    let head = offs.take(n);
    let fs = identity_fields(p, head);
    if n == offs.len() {
        assert(head =~= offs);
        assert(count == n || off + 4 > w.payload.len());
    } else {
        assert forall|k: int| 0 <= k < fs.len() implies fits(#[trigger] fs[k], p.len() as int) by {
            let j = lemma_identity_field(p, head, k);
        }
        assert forall|i: int| off <= i < off + 4 implies #[trigger] w.payload[i] == p[i] by {
            if inside_any(fs, i) {
                let k = choose|k: int| 0 <= k < fs.len() && inside(#[trigger] fs[k], i);
                let j = lemma_identity_field(p, head, k);
                assert(head[j] == offs[j]);
                assert(identity_byte(offs[j], i));
                assert(!(offs[n] <= i < offs[n] + 4));
            }
        }
        assert(offs[n] + 4 <= p.len());
        assert(w.payload[off] == p[off]);
        assert(w.payload[off + 1] == p[off + 1]);
        assert(w.payload[off + 2] == p[off + 2]);
        assert(w.payload[off + 3] == p[off + 3]);
        let next = if identity_at(p, off) {
            enip::remap_identity(w, off + 4)
        } else {
            w
        };
        if identity_at(p, off) {
            assert forall|k: int, i: int|
                0 <= k < fs.len() && #[trigger] inside(fs[k], i) implies !identity_byte(off, i) by {
                let j = lemma_identity_field(p, head, k);
                assert(head[j] == offs[j]);
                assert(identity_byte(offs[j], i));
                assert(identity_at(p, offs[n]));
                assert(!identity_byte(offs[n], i));
            }
            lemma_identity_steps(p, m, w, fs, off);
        } else {
            assert(fs + object_fields(p, off) =~= fs);
        }
        assert(offs.take(n + 1).drop_last() =~= head);
        assert(identity_fields(p, offs.take(n + 1)) == fs + object_fields(p, off));
        let end = item_end(p, off);
        assert(enip::walk(w, off, (count - n) as nat) == enip::walk(
            next,
            end,
            (count - n - 1) as nat,
        ));
        if n + 1 < offs.len() {
            assert(offs[n + 1] == item_end(p, offs[n]));
        }
        lemma_enip_walk(p, m, next, offs, n + 1, end);
    }
}

/// A List Identity reply is rewritten in bytes 18 to 23 and 28 to 31 of each of its
/// CIP identity objects, and nowhere else: the vendor, the device type, the
/// product code and the serial number there become the mapper's images of the
/// little-endian numbers that they were, each in its own domain.
pub proof fn law_enip_rewrites_identity_objects(p: Seq<u8>, m: MapperModel, offs: Seq<int>)
    requires
        items(p, offs),
    ensures
        rewritten_in(
            p,
            m,
            enip::Enip.rewritten(p, m),
            Protocol::Enip,
            identity_fields(p, offs),
            Set::empty(),
        ),
{
    lemma_start(p, m, Protocol::Enip);
    assert(offs.take(0) =~= Seq::empty());
    lemma_enip_walk(
        p,
        m,
        Rewrite { payload: p, mapper: m, reports: Seq::empty() },
        offs,
        0,
        26,
    );
}

/// A payload that is no List Identity reply is left as it is.
pub proof fn law_enip_leaves_other_commands(p: Seq<u8>, m: MapperModel)
    requires
        p.len() < 26 || p[0] != 0x63 || p[1] != 0,
    ensures
        enip::Enip.rewritten(p, m) == (Rewrite { payload: p, mapper: m, reports: Seq::empty() }),
{
}

/// Where the parameters of a connection request or confirm end: behind the COTP
/// header, whose length without itself is byte 4, or with the payload.
pub open spec fn cotp_end(p: Seq<u8>) -> int {
    if 5 + p[4] as int <= p.len() {
        5 + p[4] as int
    } else {
        p.len() as int
    }
}

/// A parameter starts at `k`: its code, its length and as many bytes fit.
pub open spec fn param_at(p: Seq<u8>, k: int) -> bool {
    0 <= k && k + 2 <= cotp_end(p) && k + 2 + p[k + 1] as int <= cotp_end(p)
}

/// The offsets are those of the parameters of a connection request or confirm,
/// from byte 11 on, all of them.
pub open spec fn params(p: Seq<u8>, offs: Seq<int>) -> bool {
    &&& 7 <= p.len()
    &&& p[0] == 3
    &&& p[5] == 0xE0 || p[5] == 0xD0
    &&& offs.len() > 0 ==> offs[0] == 11
    &&& forall|k: int| 0 <= k < offs.len() ==> param_at(p, #[trigger] offs[k])
    &&& forall|k: int, l: int|
        0 <= k && l == k + 1 && l < offs.len() ==> #[trigger] offs[l] == (#[trigger] offs[k]) + 2
            + p[offs[k] + 1]
    &&& !param_at(
        p,
        if offs.len() == 0 {
            11
        } else {
            offs.last() + 2 + p[offs.last() + 1]
        },
    )
}

/// The transport selector in the parameter at `k`, if it is one of two bytes: the
/// called one under code C2, the calling one under code C1.
pub open spec fn tsap_field(p: Seq<u8>, k: int) -> Seq<Field> {
    if p[k + 1] != 2 {
        Seq::empty()
    } else if p[k] == 0xC2 {
        seq![
            Field {
                at: k + 2,
                width: 2,
                big: true,
                domain: Domain::S7ModuleId,
                name: "called_tsap"@,
            },
        ]
    } else if p[k] == 0xC1 {
        seq![
            Field { at: k + 2, width: 2, big: true, domain: Domain::S7Serial, name: "calling_tsap"@ },
        ]
    } else {
        Seq::empty()
    }
}

/// The transport selectors of all parameters.
pub open spec fn tsap_fields(p: Seq<u8>, offs: Seq<int>) -> Seq<Field>
    decreases offs.len(),
{
    if offs.len() == 0 {
        Seq::empty()
    } else {
        tsap_fields(p, offs.drop_last()) + tsap_field(p, offs.last())
    }
}

/// The selectors of the first parameters lie before where these end.
proof fn lemma_tsap_fields(p: Seq<u8>, offs: Seq<int>, end: int)
    requires
        forall|k: int|
            0 <= k < offs.len() ==> 11 <= (#[trigger] offs[k]) && offs[k] + 2 + p[offs[k] + 1]
                <= end,
        end <= p.len(),
    ensures
        forall|k: int|
            0 <= k < tsap_fields(p, offs).len() ==> fits(
                #[trigger] tsap_fields(p, offs)[k],
                p.len() as int,
            ) && tsap_fields(p, offs)[k].at + tsap_fields(p, offs)[k].width <= end,
    decreases offs.len(),
{
    if offs.len() > 0 {
        let head = offs.drop_last();
        assert forall|k: int| 0 <= k < head.len() implies 11 <= (#[trigger] head[k]) && head[k] + 2
            + p[head[k] + 1] <= end by {
            assert(head[k] == offs[k]);
        }
        lemma_tsap_fields(p, head, end);
        assert(offs[offs.len() - 1] == offs.last());
        let fs = tsap_fields(p, head);
        assert forall|k: int| 0 <= k < tsap_fields(p, offs).len() implies fits(
            #[trigger] tsap_fields(p, offs)[k],
            p.len() as int,
        ) && tsap_fields(p, offs)[k].at + tsap_fields(p, offs)[k].width <= end by {
            if k < fs.len() {
                assert(tsap_fields(p, offs)[k] == fs[k]);
            } else {
                assert(tsap_fields(p, offs)[k] == tsap_field(p, offs.last())[k - fs.len()]);
            }
        }
    }
}

proof fn lemma_s7_walk(p: Seq<u8>, m: MapperModel, w: Rewrite, offs: Seq<int>, n: int, off: int)
    requires
        params(p, offs),
        0 <= n <= offs.len(),
        rewritten_in(p, m, w, Protocol::S7, tsap_fields(p, offs.take(n)), Set::empty()),
        off == if n == 0 {
            11
        } else {
            offs[n - 1] + 2 + p[offs[n - 1] + 1]
        },
        forall|k: int|
            0 <= k < n ==> 11 <= (#[trigger] offs[k]) && offs[k] + 2 + p[offs[k] + 1] <= off,
        11 <= off,
    ensures
        rewritten_in(
            p,
            m,
            s7comm::walk(w, off, cotp_end(p)),
            Protocol::S7,
            tsap_fields(p, offs),
            Set::empty(),
        ),
    decreases offs.len() - n,
{
    let head = offs.take(n);
    let fs = tsap_fields(p, head);
    let end = cotp_end(p);
    if n > 0 {
        assert(param_at(p, offs[n - 1]));
        assert forall|k: int| 0 <= k < head.len() implies 11 <= (#[trigger] head[k]) && head[k] + 2
            + p[head[k] + 1] <= off by {
            assert(head[k] == offs[k]);
        }
        lemma_tsap_fields(p, head, off);
    }
    assert forall|i: int| off <= i < p.len() implies #[trigger] w.payload[i] == p[i] by {
        if inside_any(fs, i) {
            let k = choose|k: int| 0 <= k < fs.len() && inside(#[trigger] fs[k], i);
        }
    }
    if n == offs.len() {
        assert(head =~= offs);
        if n > 0 {
            assert(offs.last() == offs[n - 1]);
        }
        assert(!param_at(p, off));
        assert(s7comm::walk(w, off, end) == w);
    } else {
        assert(offs[n] == off) by {
            if n > 0 {
                assert(offs[n] == offs[n - 1] + 2 + p[offs[n - 1] + 1]);
            }
        }
        assert(param_at(p, offs[n]));
        let q = w.payload;
        assert(q[off] == p[off] && q[off + 1] == p[off + 1]);
        let val = off + 2;
        let next = val + p[off + 1];
        let one = tsap_field(p, off);
        assert(offs.take(n + 1).drop_last() =~= head);
        assert(offs.take(n + 1).last() == off);
        assert(tsap_fields(p, offs.take(n + 1)) == fs + one);
        let v = if one.len() == 0 {
            w
        } else {
            let called = p[off] == 0xC2;
            let orig = be16(q, val);
            let mm = w.mapper.map(
                if called {
                    Domain::S7ModuleId
                } else {
                    Domain::S7Serial
                },
                orig as u64,
                0,
                0xffff,
            );
            let new = mm.0 as u16;
            Rewrite {
                payload: put_be16(q, val, new as int),
                mapper: mm.1,
                reports: if new == orig {
                    w.reports
                } else {
                    w.reports.push(
                        ReportModel {
                            protocol: Protocol::S7,
                            field: if called {
                                "called_tsap"@
                            } else {
                                "calling_tsap"@
                            },
                            original: orig as u64,
                            new: new as u64,
                        },
                    )
                },
            }
        };
        if one.len() == 0 {
            assert(fs + one =~= fs);
        } else {
            let f = one[0];
            let orig = be16(q, val);
            law_mapping_only_grows(w.mapper, f.domain, orig as u64, 0, 0xffff);
            reveal(value);
            reveal(cut);
            assert(steps(w, v, Protocol::S7, f));
            lemma_step(p, m, w, v, Protocol::S7, fs, Set::empty(), f);
            assert(fs.push(f) =~= fs + one);
        }
        assert(s7comm::walk(w, off, end) == s7comm::walk(v, next, end));
        lemma_s7_walk(p, m, v, offs, n + 1, next);
    }
}

/// An S7 connection request or confirm is rewritten in the two-byte transport
/// selectors among its parameters, and nowhere else.
pub proof fn law_s7_rewrites_selectors(p: Seq<u8>, m: MapperModel, offs: Seq<int>)
    requires
        params(p, offs),
    ensures
        rewritten_in(
            p,
            m,
            s7comm::S7.rewritten(p, m),
            Protocol::S7,
            tsap_fields(p, offs),
            Set::empty(),
        ),
{
    lemma_start(p, m, Protocol::S7);
    assert(offs.take(0) =~= Seq::empty());
    lemma_s7_walk(p, m, Rewrite { payload: p, mapper: m, reports: Seq::empty() }, offs, 0, 11);
}

/// A payload that is no S7 connection request or confirm is left as it is.
pub proof fn law_s7_leaves_other_messages(p: Seq<u8>, m: MapperModel)
    requires
        p.len() < 7 || p[0] != 3 || (p[5] != 0xE0 && p[5] != 0xD0),
    ensures
        s7comm::S7.rewritten(p, m) == (Rewrite { payload: p, mapper: m, reports: Seq::empty() }),
{
}

/// A link frame starts at `o`: its header of ten bytes fits, starts with the mark
/// 05 64, and its length octet is at least five.
pub open spec fn link_at(p: Seq<u8>, o: int) -> bool {
    0 <= o && o + 10 <= p.len() && p[o] == 0x05 && p[o + 1] == 0x64 && p[o + 2] >= 5
}

/// Where the link frame that follows the one at `o` would start: behind the header
/// and the user data, in blocks of up to sixteen bytes with two more for the CRC.
pub open spec fn link_end(p: Seq<u8>, o: int) -> int {
    let user = p[o + 2] as int - 5;
    o + 10 + user + 2 * (user / 16) + if user % 16 == 0 {
        0int
    } else {
        2
    }
}

/// The offsets are those of the link frames that follow one another from the start
/// of the payload, all of them.
pub open spec fn links(p: Seq<u8>, offs: Seq<int>) -> bool {
    &&& offs.len() > 0 ==> offs[0] == 0
    &&& forall|k: int| 0 <= k < offs.len() ==> link_at(p, #[trigger] offs[k])
    &&& forall|k: int, l: int|
        0 <= k && l == k + 1 && l < offs.len() ==> #[trigger] offs[l] == link_end(
            p,
            #[trigger] offs[k],
        )
    &&& !link_at(
        p,
        if offs.len() == 0 {
            0
        } else {
            link_end(p, offs.last())
        },
    )
}

/// The addresses of the link frames: of each the destination at byte 4 and the
/// source at byte 6.
pub open spec fn link_fields(offs: Seq<int>) -> Seq<Field>
    decreases offs.len(),
{
    if offs.len() == 0 {
        Seq::empty()
    } else {
        link_fields(offs.drop_last()).push(
            le_field(offs.last() + 4, 2, Domain::Dnp3Addr, "dst"@),
        ).push(le_field(offs.last() + 6, 2, Domain::Dnp3Addr, "src"@))
    }
}

/// The header CRC bytes of the link frames.
pub open spec fn crc_bytes(offs: Seq<int>) -> Set<int> {
    Set::new(
        |i: int| exists|k: int| 0 <= k < offs.len() && (#[trigger] offs[k]) + 8 <= i < offs[k] + 10,
    )
}

/// The header of the link frame at `o` carries the CRC of its first eight bytes.
pub open spec fn crc_holds(b: Seq<u8>, o: int) -> bool {
    b[o + 8] as int + b[o + 9] as int * 256 == crc16_dnp(b.subrange(o, o + 8))
}

proof fn lemma_link_fields(p: Seq<u8>, offs: Seq<int>, end: int)
    requires
        forall|k: int| 0 <= k < offs.len() ==> link_at(p, #[trigger] offs[k])
            && offs[k] + 10 <= end,
    ensures
        forall|k: int|
            0 <= k < link_fields(offs).len() ==> fits(
                #[trigger] link_fields(offs)[k],
                p.len() as int,
            ) && link_fields(offs)[k].at + link_fields(offs)[k].width <= end,
    decreases offs.len(),
{
    if offs.len() > 0 {
        let head = offs.drop_last();
        assert forall|k: int| 0 <= k < head.len() implies link_at(p, #[trigger] head[k]) && head[k]
            + 10 <= end by {
            assert(head[k] == offs[k]);
        }
        lemma_link_fields(p, head, end);
        assert(offs[offs.len() - 1] == offs.last());
        let fs = link_fields(head);
        assert forall|k: int| 0 <= k < link_fields(offs).len() implies fits(
            #[trigger] link_fields(offs)[k],
            p.len() as int,
        ) && link_fields(offs)[k].at + link_fields(offs)[k].width <= end by {
            if k < fs.len() {
                assert(link_fields(offs)[k] == fs[k]);
            }
        }
    }
}

proof fn lemma_addr_steps(w: Rewrite, at: int, name: Seq<char>)
    requires
        0 <= at,
        at + 2 <= w.payload.len(),
    ensures
        steps(
            w,
            dnp3::remap_addr(w, at, name),
            Protocol::Dnp3,
            le_field(at, 2, Domain::Dnp3Addr, name),
        ),
{
    let orig = le16(w.payload, at);
    let m = w.mapper.map(Domain::Dnp3Addr, orig as u64, 0, 0xffff);
    law_mapping_only_grows(w.mapper, Domain::Dnp3Addr, orig as u64, 0, 0xffff);
    lemma_put_le16(w.payload, at, m.0 as u16);
    reveal(value);
    reveal(cut);
}

/// Bytes outside the fields may change where they are free to.
proof fn lemma_free_step(
    p: Seq<u8>,
    m: MapperModel,
    w: Rewrite,
    v: Rewrite,
    proto: Protocol,
    fs: Seq<Field>,
    free: Set<int>,
)
    requires
        rewritten_in(p, m, w, proto, fs, free),
        v.mapper == w.mapper,
        v.reports == w.reports,
        v.payload.len() == w.payload.len(),
        forall|i: int|
            0 <= i < w.payload.len() && !free.contains(i) ==> #[trigger] v.payload[i]
                == w.payload[i],
        forall|k: int| 0 <= k < fs.len() ==> fits(#[trigger] fs[k], p.len() as int),
        forall|k: int, i: int|
            0 <= k < fs.len() && #[trigger] inside(fs[k], i) ==> !free.contains(i),
    ensures
        rewritten_in(p, m, v, proto, fs, free),
{
    assert forall|k: int| 0 <= k < fs.len() implies value(w.payload, #[trigger] fs[k]) == value(
        v.payload,
        fs[k],
    ) by {
        assert forall|i: int| inside(fs[k], i) implies #[trigger] v.payload[i] == w.payload[i] by {}
        lemma_value_same(w.payload, v.payload, fs[k]);
    }
    assert forall|i: int|
        0 <= i < p.len() && !inside_any(fs, i) && !free.contains(i) implies #[trigger] v.payload[i]
        == p[i] by {
        assert(w.payload[i] == p[i]);
    }
    assert forall|k: int| 0 <= k < fs.len() implies mapped(p, v, #[trigger] fs[k]) by {
        assert(mapped(p, w, fs[k]));
    }
    assert forall|k: int|
        0 <= k < fs.len() && value(v.payload, #[trigger] fs[k]) != value(p, fs[k]) implies reported(
        p,
        v,
        proto,
        fs[k],
    ) by {
        assert(reported(p, w, proto, fs[k]));
        let j = choose|j: int|
            0 <= j < w.reports.len() && tells(#[trigger] w.reports[j], p, w, proto, fs[k]);
        assert(tells(v.reports[j], p, v, proto, fs[k]));
    }
    assert forall|j: int| 0 <= j < v.reports.len() implies accounted(
        #[trigger] v.reports[j],
        p,
        v,
        proto,
        fs,
    ) by {
        assert(accounted(w.reports[j], p, w, proto, fs));
        let k = choose|k: int|
            0 <= k < fs.len() && tells(w.reports[j], p, w, proto, #[trigger] fs[k]);
        assert(tells(v.reports[j], p, v, proto, fs[k]));
    }
}

/// Each frame starts no sooner than ten bytes behind any before it.
proof fn lemma_links_apart(p: Seq<u8>, offs: Seq<int>, j: int, k: int)
    requires
        links(p, offs),
        0 <= j < k < offs.len(),
    ensures
        offs[j] + 10 <= offs[k],
    decreases k - j,
{
    assert(link_at(p, offs[k - 1]));
    assert(offs[k] == link_end(p, offs[k - 1]));
    if j < k - 1 {
        lemma_links_apart(p, offs, j, k - 1);
    }
}

/// The rewrite of the link frame `n`: its two addresses and its header CRC.
proof fn lemma_link_steps(p: Seq<u8>, m: MapperModel, w: Rewrite, offs: Seq<int>, n: int)
    requires
        links(p, offs),
        0 <= n < offs.len(),
        rewritten_in(p, m, w, Protocol::Dnp3, link_fields(offs.take(n)), crc_bytes(offs)),
        forall|k: int| 0 <= k < n ==> crc_holds(w.payload, #[trigger] offs[k]),
    ensures
        ({
            let v = dnp3::remap_link_frame(w, offs[n]);
            &&& rewritten_in(p, m, v, Protocol::Dnp3, link_fields(offs.take(n + 1)), crc_bytes(offs))
            &&& forall|k: int| 0 <= k <= n ==> crc_holds(v.payload, #[trigger] offs[k])
        }),
{
    let free = crc_bytes(offs);
    let o = offs[n];
    let head = offs.take(n);
    let fs = link_fields(head);
    assert(link_at(p, offs[n]));
    assert forall|k: int| 0 <= k < head.len() implies link_at(p, #[trigger] head[k]) && head[k] + 10
        <= o by {
        assert(head[k] == offs[k]);
        lemma_links_apart(p, offs, k, n);
    }
    lemma_link_fields(p, head, o);
    let fd = le_field(o + 4, 2, Domain::Dnp3Addr, "dst"@);
    let fe = le_field(o + 6, 2, Domain::Dnp3Addr, "src"@);
    assert forall|i: int| #[trigger] free.contains(i) implies !(o <= i < o + 8) by {
        let k = choose|k: int|
            0 <= k < offs.len() && (#[trigger] offs[k]) + 8 <= i < offs[k] + 10;
        if k < n {
            lemma_links_apart(p, offs, k, n);
        } else if n < k {
            lemma_links_apart(p, offs, n, k);
        }
    }
    let d = dnp3::remap_addr(w, o + 4, "dst"@);
    lemma_addr_steps(w, o + 4, "dst"@);
    lemma_step(p, m, w, d, Protocol::Dnp3, fs, free, fd);
    let fs1 = fs.push(fd);
    let e = dnp3::remap_addr(d, o + 6, "src"@);
    lemma_addr_steps(d, o + 6, "src"@);
    assert forall|k: int| 0 <= k < fs1.len() implies fits(#[trigger] fs1[k], p.len() as int)
        && apart(fs1[k], fe) by {
        if k < fs.len() {
            assert(fs1[k] == fs[k]);
        }
    }
    lemma_step(p, m, d, e, Protocol::Dnp3, fs1, free, fe);
    let fs2 = fs1.push(fe);
    assert(offs.take(n + 1).drop_last() =~= head);
    assert(offs.take(n + 1).last() == o);
    assert(link_fields(offs.take(n + 1)) == fs2);
    let v = dnp3::remap_link_frame(w, o);
    let crc = crc16_dnp(e.payload.subrange(o, o + 8));
    lemma_put_le16(e.payload, o + 8, crc);
    assert forall|i: int|
        0 <= i < e.payload.len() && !free.contains(i) implies #[trigger] v.payload[i]
        == e.payload[i] by {
        if i == o + 8 || i == o + 9 {
            assert(offs[n] + 8 <= i < offs[n] + 10);
        }
    }
    let upto = offs.take(n + 1);
    assert forall|k: int| 0 <= k < upto.len() implies link_at(p, #[trigger] upto[k]) && upto[k] + 10
        <= o + 10 by {
        assert(upto[k] == offs[k]);
        if k < n {
            lemma_links_apart(p, offs, k, n);
        }
    }
    lemma_link_fields(p, upto, o + 10);
    assert forall|k: int, i: int|
        0 <= k < fs2.len() && #[trigger] inside(fs2[k], i) implies !free.contains(i) by {
        lemma_link_field_free(p, offs, n + 1, k, i);
    }
    lemma_free_step(p, m, e, v, Protocol::Dnp3, fs2, free);
    assert(v.payload.subrange(o, o + 8) =~= e.payload.subrange(o, o + 8));
    assert forall|k: int| 0 <= k <= n implies crc_holds(v.payload, #[trigger] offs[k]) by {
        if k < n {
            lemma_links_apart(p, offs, k, n);
            assert(link_at(p, offs[k]));
            assert(crc_holds(w.payload, offs[k]));
            assert forall|i: int| 0 <= i < o implies #[trigger] v.payload[i] == w.payload[i] by {
                assert(v.payload[i] == e.payload[i]);
                assert(e.payload[i] == d.payload[i]);
                assert(d.payload[i] == w.payload[i]);
            }
            assert(v.payload.subrange(offs[k], offs[k] + 8) =~= w.payload.subrange(
                offs[k],
                offs[k] + 8,
            ));
        }
    }
}

/// No byte of an address is one of a CRC.
proof fn lemma_link_field_free(p: Seq<u8>, offs: Seq<int>, n: int, k: int, i: int)
    requires
        links(p, offs),
        0 <= n <= offs.len(),
        0 <= k < link_fields(offs.take(n)).len(),
        inside(link_fields(offs.take(n))[k], i),
    ensures
        !crc_bytes(offs).contains(i),
    decreases n,
{
    if n > 0 {
        let head = offs.take(n - 1);
        assert(offs.take(n).drop_last() =~= head);
        let fs = link_fields(head);
        if k < fs.len() {
            assert(link_fields(offs.take(n))[k] == fs[k]);
            lemma_link_field_free(p, offs, n - 1, k, i);
        } else {
            let o = offs[n - 1];
            assert(o + 4 <= i < o + 8);
            if crc_bytes(offs).contains(i) {
                let l = choose|l: int|
                    0 <= l < offs.len() && (#[trigger] offs[l]) + 8 <= i < offs[l] + 10;
                if l < n - 1 {
                    lemma_links_apart(p, offs, l, n - 1);
                } else if n - 1 < l {
                    lemma_links_apart(p, offs, n - 1, l);
                }
            }
        }
    }
}

/// What follows the first frames is as it was.
proof fn lemma_rest_same(p: Seq<u8>, m: MapperModel, w: Rewrite, offs: Seq<int>, n: int, off: int)
    requires
        links(p, offs),
        0 <= n <= offs.len(),
        rewritten_in(p, m, w, Protocol::Dnp3, link_fields(offs.take(n)), crc_bytes(offs)),
        off == if n == 0 {
            0
        } else {
            link_end(p, offs[n - 1])
        },
    ensures
        0 <= off,
        n < offs.len() ==> offs[n] == off,
        forall|i: int| off <= i < off + 8 && i < p.len() ==> #[trigger] w.payload[i] == p[i],
{
    let head = offs.take(n);
    let fs = link_fields(head);
    let free = crc_bytes(offs);
    if n > 0 {
        assert(link_at(p, offs[n - 1]));
    }
    assert forall|k: int| 0 <= k < head.len() implies link_at(p, #[trigger] head[k]) && head[k] + 10
        <= off by {
        assert(head[k] == offs[k]);
        if k < n - 1 {
            lemma_links_apart(p, offs, k, n - 1);
        }
    }
    lemma_link_fields(p, head, off);
    assert forall|i: int| off <= i < off + 8 && i < p.len() implies #[trigger] w.payload[i]
        == p[i] by {
        if inside_any(fs, i) {
            let k = choose|k: int| 0 <= k < fs.len() && inside(#[trigger] fs[k], i);
        }
        if free.contains(i) {
            let k = choose|k: int|
                0 <= k < offs.len() && (#[trigger] offs[k]) + 8 <= i < offs[k] + 10;
            if k < n - 1 {
                lemma_links_apart(p, offs, k, n - 1);
            } else if k >= n {
                if n > 0 {
                    assert(offs[n] == link_end(p, offs[n - 1]));
                }
                if n < k {
                    lemma_links_apart(p, offs, n, k);
                }
            }
        }
    }
    if 0 < n < offs.len() {
        assert(offs[n] == link_end(p, offs[n - 1]));
    }
}

proof fn lemma_link_size(p: Seq<u8>, o: int)
    requires
        link_at(p, o),
    ensures
        o + dnp3::link_frame_size(p[o + 2] as int) == link_end(p, o),
{
    let user = p[o + 2] as int - 5;
    if user % 16 == 0 {
        assert((user + 15) / 16 == user / 16);
    } else {
        assert((user + 15) / 16 == user / 16 + 1);
    }
}

proof fn lemma_dnp3_walk(p: Seq<u8>, m: MapperModel, w: Rewrite, offs: Seq<int>, n: int, off: int)
    requires
        links(p, offs),
        0 <= n <= offs.len(),
        rewritten_in(p, m, w, Protocol::Dnp3, link_fields(offs.take(n)), crc_bytes(offs)),
        forall|k: int| 0 <= k < n ==> crc_holds(w.payload, #[trigger] offs[k]),
        off == if n == 0 {
            0
        } else {
            link_end(p, offs[n - 1])
        },
    ensures
        ({
            let v = dnp3::walk(w, off);
            &&& rewritten_in(p, m, v, Protocol::Dnp3, link_fields(offs), crc_bytes(offs))
            &&& forall|k: int| 0 <= k < offs.len() ==> crc_holds(v.payload, #[trigger] offs[k])
        }),
    decreases offs.len() - n,
{
    assert(offs.take(offs.len() as int) =~= offs);
    lemma_rest_same(p, m, w, offs, n, off);
    if off + 10 <= p.len() {
        assert(w.payload[off] == p[off]);
        assert(w.payload[off + 1] == p[off + 1]);
        assert(w.payload[off + 2] == p[off + 2]);
    }
    if n == offs.len() {
        if n > 0 {
            assert(offs.last() == offs[n - 1]);
        }
        assert(!link_at(p, off));
        assert(dnp3::walk(w, off) == w);
    } else {
        assert(link_at(p, offs[n]));
        lemma_link_steps(p, m, w, offs, n);
        lemma_link_size(p, off);
        let v = dnp3::remap_link_frame(w, off);
        assert(dnp3::walk(w, off) == dnp3::walk(v, link_end(p, off)));
        lemma_dnp3_walk(p, m, v, offs, n + 1, link_end(p, off));
    }
}

/// A DNP3 payload is rewritten in the destination and source of each of its link
/// frames, and otherwise only in their header CRCs, each of which holds again.
pub proof fn law_dnp3_rewrites_addresses(p: Seq<u8>, m: MapperModel, offs: Seq<int>)
    requires
        links(p, offs),
    ensures
        rewritten_in(
            p,
            m,
            dnp3::Dnp3.rewritten(p, m),
            Protocol::Dnp3,
            link_fields(offs),
            crc_bytes(offs),
        ),
        forall|k: int|
            0 <= k < offs.len() ==> crc_holds(
                dnp3::Dnp3.rewritten(p, m).payload,
                #[trigger] offs[k],
            ),
{
    let w = Rewrite { payload: p, mapper: m, reports: Seq::empty() };
    assert(offs.take(0) =~= Seq::empty());
    assert(rewritten_in(p, m, w, Protocol::Dnp3, Seq::empty(), crc_bytes(offs)));
    lemma_dnp3_walk(p, m, w, offs, 0, 0);
}

/// The frame goes to or comes from the port.
pub open spec fn on_port(b: Seq<u8>, l: FrameLayout, port: int) -> bool {
    b[l.l4 as int] as int * 256 + b[l.l4 + 1] as int == port || b[l.l4 + 2] as int * 256 + b[l.l4
        + 3] as int == port
}

/// Each mutator takes the frames on its protocol's own ports whose payload starts
/// as that protocol's does, and no others: Modbus on TCP port 502 with a protocol
/// identifier of zero; S7 on TCP port 102 with version 3; EtherNet/IP on port 44818
/// or 2222 with a List Identity command; DNP3 on port 20000 with its start mark.
pub proof fn law_mutators_take_their_own_frames(b: Seq<u8>, l: FrameLayout)
    ensures
        modbus::Modbus.handles(b, l) <==> l.l4_kind == L4Kind::Tcp && on_port(b, l, 502) && l.end
            - l.payload >= 8 && b[l.payload + 2] == 0 && b[l.payload + 3] == 0,
        s7comm::S7.handles(b, l) <==> l.l4_kind == L4Kind::Tcp && on_port(b, l, 102) && l.end
            - l.payload >= 6 && b[l.payload as int] == 3,
        enip::Enip.handles(b, l) <==> l.l4_kind != L4Kind::Other && (on_port(b, l, 44818)
            || on_port(b, l, 2222)) && l.end - l.payload >= 26 && b[l.payload as int] == 0x63
            && b[l.payload + 1] == 0,
        dnp3::Dnp3.handles(b, l) <==> l.l4_kind != L4Kind::Other && on_port(b, l, 20000) && l.end
            - l.payload >= 10 && b[l.payload as int] == 0x05 && b[l.payload + 1] == 0x64,
{
}

} // verus!
