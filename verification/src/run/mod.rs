//! The replay daemon's decisions.

pub mod cycle;
pub mod replay;
pub mod scan;
pub mod seed;
pub mod selection;
pub mod status;
pub mod watchdog;
