//! Default values of strategy settings that are whole numbers.

use vstd::prelude::*;

verus! {

/// The default priority of the V2 winter strategy (highest).
pub fn default_winter_adaptive_v2_priority() -> (r: u8)
    ensures
        r == 100,
{
    100
}

/// The default time to live of the HDO cache, in seconds (one hour).
pub fn default_hdo_cache_ttl() -> (r: u64)
    ensures
        r == 3600,
{
    3600
}

} // verus!
