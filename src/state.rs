//! State shared by every request handler, and the sweep's configuration.
use vstd::prelude::*;

use crate::broadcast::Broadcaster;

verus! {

/// The mutex of parking_lot, held here only to carry the registry.
#[verifier::external_type_specification]
#[verifier::external_body]
#[verifier::reject_recursive_types(R)]
#[verifier::reject_recursive_types(T)]
pub struct ExMutex<R, T: ?Sized>(parking_lot::lock_api::Mutex<R, T>);

/// The raw lock underneath parking_lot's mutex.
#[verifier::external_type_specification]
#[verifier::external_body]
pub struct ExRawMutex(parking_lot::RawMutex);

/// Interval between two liveness sweeps, in seconds.
pub const SWEEP_INTERVAL_SECS: u64 = 10;

/// Relies on parking_lot::Mutex::new: a new unlocked mutex guarding `b`.
#[verifier::external_body]
fn guard_registry(b: Broadcaster) -> (r: parking_lot::Mutex<Broadcaster>) {
    parking_lot::Mutex::new(b)
}

/// The registry, behind the one mutex through which every handler and the
/// sweeper reach it.
pub struct AppState {
    pub broadcaster: std::sync::Arc<parking_lot::Mutex<Broadcaster>>,
}

impl AppState {
    /// Shares a registry among the handlers.
    pub fn new(b: Broadcaster) -> (r: AppState) {
        AppState { broadcaster: std::sync::Arc::new(guard_registry(b)) }
    }
}

/// Accepts a sweep interval in seconds; an interval of zero is refused.
pub fn validate_sweep_interval(secs: u64) -> (r: Option<u64>)
    ensures
        secs > 0 ==> r == Some(secs),
        secs == 0 ==> r is None,
{
    if secs > 0 {
        Some(secs)
    } else {
        None
    }
}

} // verus!
