use vstd::prelude::*;

verus! {

/// Relies on std::time::SystemTime::now for the wall clock: seconds since
/// the UNIX epoch, or 0 if the clock reports a time before the epoch.
/// Nothing can be promised of the value, so no clause constrains it.
#[verifier::external_body]
pub fn now_secs() -> u64 {
    std::time::SystemTime::now()
        .duration_since(std::time::UNIX_EPOCH)
        .map(|d| d.as_secs())
        .unwrap_or(0)
}

} // verus!
