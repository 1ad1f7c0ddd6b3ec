//! The choices that the command line offers.

use vstd::prelude::*;

verus! {

/// Protocol selector for reload. `auto` dispatches by sniffing each frame.
#[derive(Clone, Copy, Debug, PartialEq, Eq, Structural)]
pub enum ProtoSel {
    Auto,
    Modbus,
    Enip,
    S7,
    Dnp3,
}

/// Randomisation mode shared by run and reload.
#[derive(Clone, Copy, Debug, PartialEq, Eq, Structural)]
pub enum ModeSel {
    RedLaser,
    GreenLaser,
}

} // verus!
