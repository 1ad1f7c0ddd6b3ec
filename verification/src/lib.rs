//! Core of a headless ICS/OT capture replay appliance.

pub mod bytes;
pub mod cli;
pub mod config;
pub mod control;
pub mod ledger;
pub mod mac;
pub mod net;
pub mod netinfo;
pub mod order;
pub mod oui;
pub mod pcapio;
pub mod pewpew;
pub mod proto;
pub mod readout;
pub mod reload;
pub mod rng;
pub mod run;
pub mod scenario;
pub mod simulate;
pub mod text;
pub mod vuln;
