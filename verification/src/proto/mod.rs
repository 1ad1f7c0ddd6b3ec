//! The protocol library: frame access, checksums, and identifier remapping.
//!
//! [`frame::ParsedFrame`] gives offset-checked access to L2 through L4 of one
//! frame and recomputes checksums. [`mapper::SeededMapper`] provides the
//! capture-wide, seeded, consistent identifier remap. Each protocol implements
//! [`OtMutator`].

pub mod crc;
pub mod frame;
pub mod frame_laws;
pub mod l3;
pub mod l3_laws;
pub mod mapper;
pub mod mutators;
pub mod reconcile;
pub mod reconcile_laws;
pub mod testutil;
pub mod thin;

use vstd::prelude::*;
use crate::proto::frame::{FrameLayout, ParsedFrame};
use crate::proto::mapper::{MapperModel, SeededMapper};

verus! {

#[derive(Clone, Copy, Debug, PartialEq, Eq, Structural)]
pub enum Protocol {
    Modbus,
    Enip,
    S7,
    Dnp3,
}

/// One identifier rewrite, recorded for the round's manifest.
#[derive(Clone, Debug)]
pub struct MutationReport {
    pub protocol: Protocol,
    pub field: String,
    pub original: u64,
    pub new: u64,
}

/// What a mutation report says.
pub struct ReportModel {
    pub protocol: Protocol,
    pub field: Seq<char>,
    pub original: u64,
    pub new: u64,
}

impl View for MutationReport {
    type V = ReportModel;

    open spec fn view(&self) -> ReportModel {
        ReportModel {
            protocol: self.protocol,
            field: self.field@,
            original: self.original,
            new: self.new,
        }
    }
}

/// What the reports of a list say.
pub open spec fn report_models(v: Seq<MutationReport>) -> Seq<ReportModel> {
    v.map_values(|r: MutationReport| r@)
}

pub proof fn lemma_report_push(v: Seq<MutationReport>, r: MutationReport)
    ensures
        report_models(v.push(r)) == report_models(v).push(r@),
{
    assert(report_models(v.push(r)) =~= report_models(v).push(r@));
}

/// A payload under rewriting: its bytes, the mapper, and the reports so far.
#[verifier::ext_equal]
pub struct Rewrite {
    pub payload: Seq<u8>,
    pub mapper: MapperModel,
    pub reports: Seq<ReportModel>,
}

/// A frame with its payload replaced by one of the same length.
pub open spec fn with_payload(b: Seq<u8>, l: FrameLayout, payload: Seq<u8>) -> Seq<u8> {
    b.take(l.payload as int) + payload + b.skip(l.end as int)
}

/// A per-protocol payload mutator. Implementations mutate only fixed-width
/// identity fields in the app-layer payload (and their own protocol CRC, if
/// any). The reload pipeline recomputes the L3 and L4 checksums after dispatch,
/// so mutators never touch those.
pub trait OtMutator {
    /// The protocol it handles.
    spec fn serves(&self) -> Protocol;

    /// The frame's payload is of this protocol.
    spec fn handles(&self, b: Seq<u8>, l: FrameLayout) -> bool;

    /// The payload with its identity fields rewritten.
    spec fn rewritten(&self, payload: Seq<u8>, mapper: MapperModel) -> Rewrite;

    fn protocol(&self) -> (r: Protocol)
        ensures
            r == self.serves(),
    ;

    /// Cheap check that this frame's payload is this protocol.
    fn matches(&self, frame: &ParsedFrame) -> (r: bool)
        requires
            frame.wf(),
        ensures
            r == self.handles(frame.bytes(), frame.layout),
    ;

    /// Rewrite identity fields in place, returning what changed.
    fn mutate(&self, frame: &mut ParsedFrame, mapper: &mut SeededMapper) -> (r: Vec<MutationReport>)
        requires
            old(frame).wf(),
            old(mapper).wf(),
        ensures
            ({
                let payload = old(frame).bytes().subrange(
                    old(frame).layout.payload as int,
                    old(frame).layout.end as int,
                );
                let w = self.rewritten(payload, old(mapper)@);
                &&& w.payload.len() == payload.len()
                &&& final(frame).edited(
                    old(frame),
                    with_payload(old(frame).bytes(), old(frame).layout, w.payload),
                )
                &&& final(mapper)@ == w.mapper
                &&& report_models(r@) == w.reports
            }),
            final(frame).wf(),
            final(mapper).wf(),
            final(final(frame).buf)@ == final(old(frame).buf)@,
    ;
}

} // verus!
