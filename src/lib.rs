//! Block-device management for a thin-provisioned storage pool: segment
//! bookkeeping, device-mapper table construction, per-device allocation,
//! pool-wide metadata fan-out and device discovery.

pub mod blockdev;
pub mod blockdevmgr;
pub mod devices;
pub mod dm;
pub mod identify;
mod outside;
pub mod pool_model;
pub mod runs;
pub mod segment;
pub mod sim_engine;
pub mod types;
