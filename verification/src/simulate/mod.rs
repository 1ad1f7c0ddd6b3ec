//! The simulated plant: zones, devices, their roles, and what they announce.

pub mod announce;
pub mod announce_laws;
pub mod bom;
pub mod cache;
pub mod capture_laws;
pub mod crossings;
pub mod crossings_laws;
pub mod devices;
pub mod devices_laws;
pub mod engine;
pub mod enrich;
pub mod enrich_laws;
pub mod identity;
pub mod listing;
pub mod plan;
pub mod remap;
pub mod remap_laws;
pub mod roles;
pub mod roles_laws;
pub mod wire;
pub mod zones;
