//! How the node names itself to others.

use vstd::prelude::*;

verus! {

/// The user agent that the node gives.
pub fn ovr_user_agent() -> (agent: &'static str)
    ensures
        agent@ == "OVERLAY/0.1.0 COREOVERLAY/0.1.0 DHT/Kademlia WASMER/3.1.0"@,
{
    "OVERLAY/0.1.0 COREOVERLAY/0.1.0 DHT/Kademlia WASMER/3.1.0"
}

} // verus!
