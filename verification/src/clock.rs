use vstd::prelude::*;

verus! {

/// Relies on std::time::SystemTime::now and duration_since(UNIX_EPOCH).
/// Nothing is promised of the clock: a reading before the epoch, or beyond
/// the range of u64 nanoseconds, comes back as None, and two calls may
/// return anything.
#[verifier::external_body]
pub fn now_nanos() -> (r: Option<u64>) {
    match std::time::SystemTime::now().duration_since(std::time::UNIX_EPOCH) {
        Ok(d) => u64::try_from(d.as_nanos()).ok(),
        Err(_) => None,
    }
}

} // verus!
