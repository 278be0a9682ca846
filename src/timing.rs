use vstd::prelude::*;

verus! {

#[verifier::external_type_specification]
#[verifier::external_body]
pub struct ExInstant(std::time::Instant);

/// Relies on `std::time::Instant::now`: the current instant of a monotonic clock.
#[verifier::external_body]
fn now() -> std::time::Instant {
    std::time::Instant::now()
}

/// Whether timing diagnostics are on: exactly when the `CRUXLINES_TIMING` variable is
/// present, whatever its value.
pub fn is_enabled(variable: &Option<String>) -> (r: bool)
    ensures
        r == variable.is_some(),
{
    variable.is_some()
}

/// A labelled measurement that started when it was made.
#[derive(Debug)]
pub struct TimingGuard {
    pub label: String,
    pub start: std::time::Instant,
}

impl TimingGuard {
    /// Starts measuring under `label`.
    pub fn new(label: &str) -> (r: TimingGuard)
        ensures
            r.label@ == label@,
    {
        TimingGuard { label: String::from_str(label), start: now() }
    }
}

} // verus!
