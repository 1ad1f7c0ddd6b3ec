//! The reload forge pipeline: clone the source, optionally remap L3, dispatch
//! each frame to the first matching mutator, recompute checksums, and report
//! what changed. Deterministic: same source and seed yield byte-identical out.

use vstd::prelude::*;
use crate::net::{net_text, Ipv4Net};
use crate::pcapio::{frames, Capture, OwnedPacket, PacketModel};
use crate::proto::frame::{layout_of, with_checksums, ParsedFrame};
use crate::proto::l3::{
    assign_nets, group_list, hosts_in, moved_hosts, nets_wf, remap_capture, safe_frame, HostMap,
    RemapSummary,
};
use crate::proto::mapper::{MapperModel, SeededMapper};
use crate::proto::mutators::Mutator;
use crate::proto::{report_models, with_payload, MutationReport, OtMutator, ReportModel};
use crate::rng::seeded_words;

verus! {

pub struct ReloadOptions {
    pub remap_l3: bool,
    pub hints: Vec<Ipv4Net>,
    pub mutators: Vec<Mutator>,
}

pub struct RoundResult {
    pub mutations: Vec<MutationReport>,
    pub l3: Option<RemapSummary>,
    pub frames: usize,
}

/// A capture under mutation: its packets so far, the mapper, and the reports.
#[verifier::ext_equal]
pub struct Forge {
    pub packets: Seq<PacketModel>,
    pub mapper: MapperModel,
    pub reports: Seq<ReportModel>,
}

/// What a frame becomes: the first mutator that matches rewrites its payload,
/// and the checksums are filled in if that changed an identifier.
pub open spec fn forge_frame(b: Seq<u8>, mapper: MapperModel, muts: Seq<Mutator>) -> (
    Seq<u8>,
    MapperModel,
    Seq<ReportModel>,
)
    decreases muts.len(),
{
    match layout_of(b) {
        None => (b, mapper, Seq::empty()),
        Some(l) => if muts.len() == 0 {
            (b, mapper, Seq::empty())
        } else if muts[0].handles(b, l) {
            let w = muts[0].rewritten(b.subrange(l.payload as int, l.end as int), mapper);
            let out = with_payload(b, l, w.payload);
            if w.reports.len() == 0 {
                (out, w.mapper, w.reports)
            } else {
                (with_checksums(out, l), w.mapper, w.reports)
            }
        } else {
            forge_frame(b, mapper, muts.drop_first())
        },
    }
}

/// The packets mutated one after the other with one mapper.
pub open spec fn forge_packets(
    packets: Seq<PacketModel>,
    mapper: MapperModel,
    muts: Seq<Mutator>,
) -> Forge
    decreases packets.len(),
{
    if packets.len() == 0 {
        Forge { packets: Seq::empty(), mapper, reports: Seq::empty() }
    } else {
        let prior = forge_packets(packets.drop_last(), mapper, muts);
        let p = packets.last();
        let f = forge_frame(p.data, prior.mapper, muts);
        Forge {
            packets: prior.packets.push(p.with_data(f.0)),
            mapper: f.1,
            reports: prior.reports + f.2,
        }
    }
}

/// The packets with every host relocated and unsafe frames dropped.
pub open spec fn relocated(
    packets: Seq<PacketModel>,
    hints: Seq<Ipv4Net>,
    seed: u64,
) -> Seq<PacketModel> {
    let hm = HostMap {
        addrs: moved_hosts(hosts_in(frames(packets)), hints, seed),
        macs: Map::empty(),
        seed,
        remap_mac: true,
    };
    packets.map_values(|p: PacketModel| p.with_data(hm.frame(p.data))).filter(
        |p: PacketModel| safe_frame(p.data),
    )
}

/// A round of a source under a seed.
pub open spec fn round_of(
    src: Seq<PacketModel>,
    seed: u64,
    remap_l3: bool,
    hints: Seq<Ipv4Net>,
    muts: Seq<Mutator>,
) -> Forge {
    let base = if remap_l3 {
        relocated(src, hints, seed)
    } else {
        src
    };
    forge_packets(base, MapperModel::fresh(seed), muts)
}

fn copy_bytes(v: &Vec<u8>) -> (r: Vec<u8>)
    ensures
        r@ == v@,
{
    let mut r: Vec<u8> = Vec::new();
    crate::bytes::push_bytes(&mut r, v.as_slice());
    proof {
        assert(r@ =~= v@);
    }
    r
}

fn copy_packets(src: &Vec<OwnedPacket>) -> (r: Vec<OwnedPacket>)
    ensures
        r@.map_values(|p: OwnedPacket| p@) == src@.map_values(|p: OwnedPacket| p@),
{
    let mut r: Vec<OwnedPacket> = Vec::new();
    let mut i: usize = 0;
    while i < src.len()
        invariant
            i <= src@.len(),
            r@.len() == i,
            forall|k: int| 0 <= k < i ==> (#[trigger] r@[k])@ == src@[k]@,
        decreases src@.len() - i,
    {
        r.push(
            OwnedPacket {
                ts: src[i].ts,
                orig_len: src[i].orig_len,
                data: copy_bytes(&src[i].data),
            },
        );
        i += 1;
    }
    proof {
        assert(r@.map_values(|p: OwnedPacket| p@) =~= src@.map_values(|p: OwnedPacket| p@));
    }
    r
}

/// The first mutator that matches a frame.
fn first_match(f: &ParsedFrame, muts: &Vec<Mutator>) -> (r: Option<usize>)
    requires
        f.wf(),
        layout_of(f.bytes()) == Some(f.layout),
    ensures
        match r {
            Some(i) => i < muts@.len() && muts@[i as int].handles(f.bytes(), f.layout),
            None => true,
        },
        forall|m: MapperModel|
            #![trigger forge_frame(f.bytes(), m, muts@)]
            forge_frame(f.bytes(), m, muts@) == (match r {
                Some(i) => forge_frame(f.bytes(), m, muts@.skip(i as int)),
                None => (f.bytes(), m, Seq::empty()),
            }),
{
    let mut i: usize = 0;
    proof {
        assert(muts@.skip(0) =~= muts@);
    }
    while i < muts.len()
        invariant
            i <= muts@.len(),
            f.wf(),
            layout_of(f.bytes()) == Some(f.layout),
            forall|m: MapperModel|
                #![trigger forge_frame(f.bytes(), m, muts@)]
                forge_frame(f.bytes(), m, muts@) == forge_frame(
                    f.bytes(),
                    m,
                    muts@.skip(i as int),
                ),
        decreases muts@.len() - i,
    {
        if muts[i].matches(f) {
            return Some(i);
        }
        proof {
            assert(muts@.skip(i as int).drop_first() =~= muts@.skip(i as int + 1));
        }
        i += 1;
    }
    None
}

/// Dispatch a frame to the first mutator that matches it.
fn mutate_frame(data: &mut Vec<u8>, muts: &Vec<Mutator>, mapper: &mut SeededMapper) -> (reports:
    Vec<MutationReport>)
    requires
        old(mapper).wf(),
    ensures
        final(mapper).wf(),
        (final(data)@, final(mapper)@, report_models(reports@)) == forge_frame(
            old(data)@,
            old(mapper)@,
            muts@,
        ),
{
    let ghost m0 = mapper@;
    let mut reports: Vec<MutationReport> = Vec::new();
    proof {
        assert(report_models(reports@) =~= Seq::empty());
    }
    if let Some(mut f) = ParsedFrame::parse(data.as_mut_slice()) {
        if let Some(i) = first_match(&f, muts) {
            reports = muts[i].mutate(&mut f, mapper);
            if reports.len() > 0 {
                f.recompute_checksums();
            }
        }
    }
    reports
}

/// Forge one round. The source capture is not modified.
pub fn forge_round(src: &Capture, seed: u64, opts: &ReloadOptions) -> (r: (Capture, RoundResult))
    requires
        nets_wf(opts.hints@),
    ensures
        r.0.header == src.header,
        ({
            let round = round_of(src@, seed, opts.remap_l3, opts.hints@, opts.mutators@);
            &&& r.0@ == round.packets
            &&& report_models(r.1.mutations@) == round.reports
        }),
        r.1.frames == r.0@.len(),
        r.1.l3 is Some <==> opts.remap_l3,
        r.1.l3 matches Some(s) ==> s.host_count == hosts_in(frames(src@)).len(),
        r.1.l3 matches Some(s) ==> subnet_pairs(s.subnets@) == remapped_subnets(
            src@,
            opts.hints@,
            seed,
        ),
{
    let mut cap = Capture { header: src.header, packets: copy_packets(&src.packets) };
    let mut mapper = SeededMapper::from_seed(seed);
    let l3: Option<RemapSummary> = if opts.remap_l3 {
        Some(remap_capture(&mut cap, opts.hints.as_slice(), seed, true))
    } else {
        None
    };
    proof {
        if l3 is Some {
            assert(subnet_pairs(l3->0.subnets@) =~= remapped_subnets(src@, opts.hints@, seed));
        }
    }
    let ghost base = cap@;
    let ghost muts = opts.mutators@;
    let mut mutations: Vec<MutationReport> = Vec::new();
    let mut i: usize = 0;
    proof {
        assert(base.take(0) =~= Seq::empty());
        assert(report_models(mutations@) =~= Seq::empty());
    }
    while i < cap.packets.len()
        invariant
            i <= cap.packets@.len(),
            cap.header == src.header,
            cap.packets@.len() == base.len(),
            muts == opts.mutators@,
            mapper.wf(),
            ({
                let done = forge_packets(base.take(i as int), MapperModel::fresh(seed), muts);
                &&& done.packets.len() == i
                &&& forall|k: int| 0 <= k < i ==> (#[trigger] cap.packets@[k])@ == done.packets[k]
                &&& mapper@ == done.mapper
                &&& report_models(mutations@) == done.reports
            }),
            forall|k: int| i <= k < base.len() ==> (#[trigger] cap.packets@[k])@ == base[k],
        decreases cap.packets@.len() - i,
    {
        let ghost prior = forge_packets(base.take(i as int), MapperModel::fresh(seed), muts);
        let ghost before = cap.packets@;
        let ghost so_far = mutations@;
        let mut reports = mutate_frame(&mut cap.packets[i].data, &opts.mutators, &mut mapper);
        let ghost new_reports = reports@;
        mutations.append(&mut reports);
        proof {
            assert(base.take(i as int + 1).drop_last() =~= base.take(i as int));
            assert(base.take(i as int + 1).last() == base[i as int]);
            assert(report_models(so_far + new_reports) =~= report_models(so_far) + report_models(
                new_reports,
            ));
            let done = forge_packets(base.take(i as int + 1), MapperModel::fresh(seed), muts);
            assert forall|k: int| 0 <= k < i + 1 implies (#[trigger] cap.packets@[k])@
                == done.packets[k] by {
                if k < i {
                    assert(cap.packets@[k] == before[k]);
                }
            }
        }
        i += 1;
    }
    proof {
        assert(base.take(i as int) =~= base);
        assert(cap@ =~= forge_packets(base, MapperModel::fresh(seed), muts).packets);
    }
    let n: usize = cap.packets.len();
    (cap, RoundResult { mutations, l3, frames: n })
}

/// The texts of a summary's subnet pairs.
pub open spec fn subnet_pairs(v: Seq<(String, String)>) -> Seq<(Seq<char>, Seq<char>)> {
    v.map_values(|p: (String, String)| (p.0@, p.1@))
}

/// The old and new subnet of each group that a remap moves, in order.
pub open spec fn remapped_subnets(src: Seq<PacketModel>, hints: Seq<Ipv4Net>, seed: u64) -> Seq<
    (Seq<char>, Seq<char>),
> {
    let gs = group_list(hosts_in(frames(src)), hints);
    let nets = assign_nets(gs, seeded_words(seed)).0;
    Seq::new(
        gs.len(),
        |i: int|
            (
                net_text(Ipv4Net { addr: gs[i].1, prefix: gs[i].0 }),
                net_text(Ipv4Net { addr: nets[i].0, prefix: gs[i].0 }),
            ),
    )
}

} // verus!
