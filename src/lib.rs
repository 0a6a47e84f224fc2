//! Fan-out of text messages to a live set of server-sent-event subscribers,
//! with a liveness sweep and the decisions of the upstream relay.
use vstd::prelude::*;

pub mod transport;
pub mod broadcast;
pub mod relay;
pub mod state;

verus! {

} // verus!
