//! The per-protocol mutators and a registry over them.

pub mod dnp3;
pub mod enip;
pub mod laws;
pub mod modbus;
pub mod s7comm;

use vstd::prelude::*;
use crate::proto::frame::{FrameLayout, ParsedFrame};
use crate::proto::mapper::{MapperModel, SeededMapper};
use crate::proto::mutators::dnp3::Dnp3;
use crate::proto::mutators::enip::Enip;
use crate::proto::mutators::modbus::Modbus;
use crate::proto::mutators::s7comm::S7;
use crate::proto::{MutationReport, OtMutator, Protocol, Rewrite};

verus! {

/// Any one of the mutators.
pub enum Mutator {
    Modbus(Modbus),
    Enip(Enip),
    S7(S7),
    Dnp3(Dnp3),
}

impl OtMutator for Mutator {
    open spec fn serves(&self) -> Protocol {
        match self {
            Mutator::Modbus(m) => m.serves(),
            Mutator::Enip(m) => m.serves(),
            Mutator::S7(m) => m.serves(),
            Mutator::Dnp3(m) => m.serves(),
        }
    }

    open spec fn handles(&self, b: Seq<u8>, l: FrameLayout) -> bool {
        match self {
            Mutator::Modbus(m) => m.handles(b, l),
            Mutator::Enip(m) => m.handles(b, l),
            Mutator::S7(m) => m.handles(b, l),
            Mutator::Dnp3(m) => m.handles(b, l),
        }
    }

    open spec fn rewritten(&self, payload: Seq<u8>, mapper: MapperModel) -> Rewrite {
        match self {
            Mutator::Modbus(m) => m.rewritten(payload, mapper),
            Mutator::Enip(m) => m.rewritten(payload, mapper),
            Mutator::S7(m) => m.rewritten(payload, mapper),
            Mutator::Dnp3(m) => m.rewritten(payload, mapper),
        }
    }

    fn protocol(&self) -> Protocol {
        match self {
            Mutator::Modbus(m) => m.protocol(),
            Mutator::Enip(m) => m.protocol(),
            Mutator::S7(m) => m.protocol(),
            Mutator::Dnp3(m) => m.protocol(),
        }
    }

    fn matches(&self, frame: &ParsedFrame) -> bool {
        match self {
            Mutator::Modbus(m) => m.matches(frame),
            Mutator::Enip(m) => m.matches(frame),
            Mutator::S7(m) => m.matches(frame),
            Mutator::Dnp3(m) => m.matches(frame),
        }
    }

    fn mutate(&self, frame: &mut ParsedFrame, mapper: &mut SeededMapper) -> (r: Vec<
        MutationReport,
    >) {
        match self {
            Mutator::Modbus(m) => m.mutate(frame, mapper),
            Mutator::Enip(m) => m.mutate(frame, mapper),
            Mutator::S7(m) => m.mutate(frame, mapper),
            Mutator::Dnp3(m) => m.mutate(frame, mapper),
        }
    }
}

/// Every mutator, in dispatch order.
pub open spec fn all_mutators() -> Seq<Mutator> {
    seq![
        Mutator::Modbus(Modbus),
        Mutator::Enip(Enip),
        Mutator::S7(S7),
        Mutator::Dnp3(Dnp3),
    ]
}

/// Every mutator, in dispatch order. The first whose `matches` returns true
/// handles a frame.
pub fn all() -> (r: Vec<Mutator>)
    ensures
        r@ == all_mutators(),
{
    let r = vec![
        Mutator::Modbus(Modbus),
        Mutator::Enip(Enip),
        Mutator::S7(S7),
        Mutator::Dnp3(Dnp3),
    ];
    proof {
        assert(r@ =~= all_mutators());
    }
    r
}

/// The mutator that serves a protocol.
pub open spec fn mutator_for(p: Protocol) -> Mutator {
    match p {
        Protocol::Modbus => Mutator::Modbus(Modbus),
        Protocol::Enip => Mutator::Enip(Enip),
        Protocol::S7 => Mutator::S7(S7),
        Protocol::Dnp3 => Mutator::Dnp3(Dnp3),
    }
}

/// The mutator set for a chosen protocol, or all of them.
pub fn for_protocol(p: Option<Protocol>) -> (r: Vec<Mutator>)
    ensures
        r@ == match p {
            None => all_mutators(),
            Some(want) => seq![mutator_for(want)],
        },
        forall|i: int| 0 <= i < r@.len() ==> p is Some ==> (#[trigger] r@[i]).serves() == p->0,
{
    let r = match p {
        None => all(),
        Some(Protocol::Modbus) => vec![Mutator::Modbus(Modbus)],
        Some(Protocol::Enip) => vec![Mutator::Enip(Enip)],
        Some(Protocol::S7) => vec![Mutator::S7(S7)],
        Some(Protocol::Dnp3) => vec![Mutator::Dnp3(Dnp3)],
    };
    proof {
        if p is Some {
            assert(r@ =~= seq![mutator_for(p->0)]);
        }
    }
    r
}

} // verus!
