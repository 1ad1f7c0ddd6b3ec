//! What an operator is told about a forged round.

use vstd::prelude::*;
use crate::proto::{report_models, MutationReport, Protocol, ReportModel};
use crate::reload::pipeline::{subnet_pairs, RoundResult};
use crate::text::{hex, push_hex};

verus! {

/// The contents of a round. Its duration is not part of it.
pub struct Manifest {
    pub source: String,
    pub seed: u64,
    pub seed_hex: String,
    pub mode: String,
    pub frames: usize,
    pub mutations: Vec<MutationEntry>,
    pub l3: Vec<L3Entry>,
}

pub struct MutationEntry {
    pub protocol: String,
    pub field: String,
    pub original: u64,
    pub new: u64,
}

pub struct L3Entry {
    pub old: String,
    pub new: String,
}

/// One round in the roster of an output directory.
pub struct IndexEntry {
    pub file: String,
    pub seed: u64,
    pub frames: usize,
    pub mutations: usize,
}

pub open spec fn proto_text(p: Protocol) -> Seq<char> {
    match p {
        Protocol::Modbus => "modbus"@,
        Protocol::Enip => "enip"@,
        Protocol::S7 => "s7"@,
        Protocol::Dnp3 => "dnp3"@,
    }
}

pub fn proto_name(p: Protocol) -> (r: &'static str)
    ensures
        r@ == proto_text(p),
{
    match p {
        Protocol::Modbus => "modbus",
        Protocol::Enip => "enip",
        Protocol::S7 => "s7",
        Protocol::Dnp3 => "dnp3",
    }
}

/// The entry says what the report says.
pub open spec fn entry_matches(e: MutationEntry, r: ReportModel) -> bool {
    &&& e.protocol@ == proto_text(r.protocol)
    &&& e.field@ == r.field
    &&& e.original == r.original
    &&& e.new == r.new
}

/// The distinct reports of a list, each where it comes first.
pub open spec fn distinct(rs: Seq<ReportModel>) -> Seq<ReportModel>
    decreases rs.len(),
{
    if rs.len() == 0 {
        Seq::empty()
    } else {
        let d = distinct(rs.drop_last());
        if d.contains(rs.last()) {
            d
        } else {
            d.push(rs.last())
        }
    }
}

/// The distinct reports hold no report twice and every report of the list.
pub proof fn law_distinct(rs: Seq<ReportModel>)
    ensures
        distinct(rs).no_duplicates(),
        forall|r: ReportModel| distinct(rs).contains(r) <==> rs.contains(r),
    decreases rs.len(),
{
    if rs.len() > 0 {
        let head = rs.drop_last();
        law_distinct(head);
        let d = distinct(head);
        let x = rs.last();
        assert forall|r: ReportModel| distinct(rs).contains(r) <==> rs.contains(r) by {
            if rs.contains(r) {
                let k = choose|k: int| 0 <= k < rs.len() && rs[k] == r;
                if k < head.len() {
                    assert(head[k] == r);
                    assert(head.contains(r));
                    assert(d.contains(r));
                    let m = choose|m: int| 0 <= m < d.len() && d[m] == r;
                    assert(distinct(rs)[m] == r);
                } else if !d.contains(x) {
                    assert(distinct(rs)[d.len() as int] == r);
                }
            }
            if distinct(rs).contains(r) {
                let k = choose|k: int| 0 <= k < distinct(rs).len() && distinct(rs)[k] == r;
                if k < d.len() {
                    assert(d[k] == r);
                    assert(head.contains(r));
                    let m = choose|m: int| 0 <= m < head.len() && head[m] == r;
                    assert(rs[m] == r);
                } else {
                    assert(rs[rs.len() - 1] == r);
                }
            }
        }
    }
}

proof fn lemma_distinct_reports(rs: Seq<MutationReport>, i: int)
    requires
        0 <= i < rs.len(),
    ensures
        report_models(rs.take(i + 1)).drop_last() == report_models(
            rs.take(i),
        ),
        report_models(rs.take(i + 1)).last() == rs[i]@,
{
    assert(report_models(rs.take(i + 1)).drop_last()
        =~= report_models(rs.take(i)));
}

fn same_report(a: &MutationReport, b: &MutationReport) -> (r: bool)
    ensures
        r == (a@ == b@),
{
    a.protocol == b.protocol && a.field == b.field && a.original == b.original && a.new == b.new
}

/// The places of the reports that come first.
fn first_places(rs: &Vec<MutationReport>) -> (r: Vec<usize>)
    ensures
        forall|k: int| 0 <= k < r@.len() ==> (#[trigger] r@[k]) < rs@.len(),
        r@.map_values(|i: usize| rs@[i as int]@) == distinct(
            report_models(rs@),
        ),
{
    let ghost pick = |i: usize| rs@[i as int]@;
    let mut r: Vec<usize> = Vec::new();
    let mut i: usize = 0;
    proof {
        assert(report_models(rs@.take(0)) =~= Seq::empty());
        assert(r@.map_values(pick) =~= Seq::empty());
    }
    while i < rs.len()
        invariant
            i <= rs@.len(),
            pick == (|i: usize| rs@[i as int]@),
            forall|k: int| 0 <= k < r@.len() ==> (#[trigger] r@[k]) < i,
            r@.map_values(pick) == distinct(report_models(rs@.take(i as int))),
        decreases rs@.len() - i,
    {
        let ghost d = distinct(report_models(rs@.take(i as int)));
        let mut seen = false;
        let mut k: usize = 0;
        while k < r.len()
            invariant
                k <= r@.len(),
                i < rs@.len(),
                pick == (|i: usize| rs@[i as int]@),
                d == r@.map_values(pick),
                forall|j: int| 0 <= j < r@.len() ==> (#[trigger] r@[j]) < i,
                seen <==> exists|j: int| 0 <= j < k && #[trigger] d[j] == rs@[i as int]@,
            decreases r@.len() - k,
        {
            if same_report(&rs[r[k]], &rs[i]) {
                proof {
                    assert(d[k as int] == rs@[i as int]@);
                }
                seen = true;
            }
            k += 1;
        }
        proof {
            lemma_distinct_reports(rs@, i as int);
            assert(seen <==> d.contains(rs@[i as int]@));
        }
        if !seen {
            let ghost o = r@;
            r.push(i);
            proof {
                assert(r@.map_values(pick) =~= d.push(rs@[i as int]@));
            }
        }
        i += 1;
    }
    proof {
        assert(rs@.take(i as int) =~= rs@);
    }
    r
}

/// The manifest of a round: mutations repeat per packet, so only the distinct
/// identifier rewrites are listed.
pub fn build(source: &str, seed: u64, mode: &str, result: &RoundResult) -> (m: Manifest)
    ensures
        m.source@ == source@,
        m.seed == seed,
        m.seed_hex@ == hex(seed as nat),
        m.mode@ == mode@,
        m.frames == result.frames,
        ({
            let d = distinct(report_models(result.mutations@));
            &&& m.mutations@.len() == d.len()
            &&& forall|i: int|
                0 <= i < d.len() ==> entry_matches(#[trigger] m.mutations@[i], d[i])
        }),
        ({
            let pairs = match result.l3 {
                Some(s) => subnet_pairs(s.subnets@),
                None => Seq::empty(),
            };
            &&& m.l3@.len() == pairs.len()
            &&& forall|i: int|
                0 <= i < pairs.len() ==> ((#[trigger] m.l3@[i]).old@, m.l3@[i].new@) == pairs[i]
        }),
{
    let mut seed_hex = String::new();
    push_hex(&mut seed_hex, seed);
    proof {
        assert(seed_hex@ =~= hex(seed as nat));
    }
    let places = first_places(&result.mutations);
    let ghost d = distinct(report_models(result.mutations@));
    let mut mutations: Vec<MutationEntry> = Vec::new();
    let mut i: usize = 0;
    while i < places.len()
        invariant
            i <= places@.len(),
            forall|k: int|
                0 <= k < places@.len() ==> (#[trigger] places@[k]) < result.mutations@.len(),
            d == places@.map_values(|i: usize| result.mutations@[i as int]@),
            mutations@.len() == i,
            forall|k: int| 0 <= k < i ==> entry_matches(#[trigger] mutations@[k], d[k]),
        decreases places@.len() - i,
    {
        let r = &result.mutations[places[i]];
        proof {
            assert(d[i as int] == r@);
        }
        mutations.push(
            MutationEntry {
                protocol: proto_name(r.protocol).to_owned(),
                field: r.field.clone(),
                original: r.original,
                new: r.new,
            },
        );
        i += 1;
    }
    let mut l3: Vec<L3Entry> = Vec::new();
    if let Some(s) = &result.l3 {
        let mut j: usize = 0;
        while j < s.subnets.len()
            invariant
                j <= s.subnets@.len(),
                l3@.len() == j,
                forall|k: int|
                    0 <= k < j ==> ((#[trigger] l3@[k]).old@, l3@[k].new@) == subnet_pairs(
                        s.subnets@,
                    )[k],
            decreases s.subnets@.len() - j,
        {
            l3.push(L3Entry { old: s.subnets[j].0.clone(), new: s.subnets[j].1.clone() });
            j += 1;
        }
    }
    Manifest {
        source: source.to_owned(),
        seed,
        seed_hex,
        mode: mode.to_owned(),
        frames: result.frames,
        mutations,
        l3,
    }
}

} // verus!
