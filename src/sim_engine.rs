//! A simulated engine whose pools keep no state on any device.
use vstd::prelude::*;

use crate::types::StratisError;

verus! {

/// An engine that creates simulated pools.
pub struct SimEngine {}

impl SimEngine {
    pub fn new() -> (r: SimEngine) {
        SimEngine {}
    }

    /// Create a simulated pool; it always succeeds.
    pub fn create_pool(&self, name: &str, blockdev_paths: &[&str], raid_level: i32) -> (r: Result<SimPool, StratisError>)
        ensures
            r is Ok,
            r.unwrap().tmp() == 4,
    {
        Ok(SimPool::new())
    }

    /// Destroy a simulated pool; it always succeeds.
    pub fn destroy_pool(&self, name: &str) -> (r: Result<(), StratisError>)
        ensures
            r is Ok,
    {
        Ok(())
    }

    /// List the simulated pools; it always succeeds.
    pub fn list_pools(&self) -> (r: Result<(), StratisError>)
        ensures
            r is Ok,
    {
        Ok(())
    }
}

/// A simulated pool.
pub struct SimPool {
    tmp: u32,
}

impl SimPool {
    pub closed spec fn tmp(&self) -> u32 {
        self.tmp
    }

    pub fn new() -> (r: SimPool)
        ensures
            r.tmp() == 4,
    {
        SimPool { tmp: 4 }
    }

    /// Add a block device; it always succeeds and changes nothing.
    pub fn add_blockdev(&mut self, path: &str) -> (r: Result<(), StratisError>)
        ensures
            r is Ok,
            final(self).tmp() == old(self).tmp(),
    {
        Ok(())
    }

    /// Add a cache device; it always succeeds and changes nothing.
    pub fn add_cachedev(&mut self, path: &str) -> (r: Result<(), StratisError>)
        ensures
            r is Ok,
            final(self).tmp() == old(self).tmp(),
    {
        Ok(())
    }

    /// Destroy the pool; it always succeeds and changes nothing.
    pub fn destroy(&mut self) -> (r: Result<(), StratisError>)
        ensures
            r is Ok,
            final(self).tmp() == old(self).tmp(),
    {
        Ok(())
    }
}

} // verus!
