use vstd::prelude::*;

verus! {

#[verifier::external_type_specification]
#[verifier::external_body]
pub struct ExInstant(std::time::Instant);

/// Relies on `std::time::Instant::now`: returns the current instant.
/// The result depends on the clock, so nothing is promised about it.
#[verifier::external_body]
pub(crate) fn instant_now() -> std::time::Instant {
    std::time::Instant::now()
}

/// Relies on `std::time::Instant::elapsed`: returns the time that has
/// passed since `start`.  The result depends on the clock, so nothing
/// is promised about it.
#[verifier::external_body]
pub(crate) fn elapsed_since(start: &std::time::Instant) -> std::time::Duration {
    start.elapsed()
}

/// Relies on `Duration`'s saturating addition
/// (`std::time::Duration::saturating_add`), so the accumulation of
/// step timings cannot panic on overflow.
#[verifier::external_body]
pub(crate) fn duration_accumulate(total: &mut std::time::Duration, d: std::time::Duration) {
    *total = total.saturating_add(d);
}

} // verus!
