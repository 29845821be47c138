//! The defaults of the proxy's configuration.

use vstd::prelude::*;

verus! {

/// The interval between active health checks, in seconds, when the configuration gives none.
pub fn default_health_interval() -> (r: u64)
    ensures
        r == 10,
{
    10
}

/// The path of the health-check request, when the configuration gives none.
pub fn default_health_path() -> (r: String)
    ensures
        r@ == "/health"@,
{
    "/health".to_owned()
}

} // verus!
