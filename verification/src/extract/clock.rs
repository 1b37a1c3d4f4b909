//! The wall clock, as far as a solver with a timeout needs it.

use core::time::Duration;
use std::time::Instant;
use vstd::prelude::*;

verus! {

/// `std::time::Instant`: a moment of a clock that never runs backwards. It is
/// carried through as it is.
#[verifier::external_type_specification]
#[verifier::external_body]
pub struct ExInstant(Instant);

/// `Instant::now`: the present moment. Nothing is claimed of it.
pub assume_specification[ Instant::now ]() -> (now: Instant)
;

/// `Instant::elapsed`: the time that has passed since `start`. Nothing is claimed of
/// it.
pub assume_specification[ Instant::elapsed ](start: &Instant) -> (span: Duration)
;

/// `Duration::as_secs`: the whole seconds of `span`. Nothing is claimed of them.
pub assume_specification[ Duration::as_secs ](span: &Duration) -> (secs: u64)
;

/// A moment after which work is to stop, if there is one.
pub(crate) struct Deadline {
    /// When the work began.
    pub start: Instant,
    /// How many seconds the work may take; `None` where it may take any time.
    pub limit_secs: Option<u64>,
}

impl Deadline {
    /// A deadline `limit_secs` seconds from now; none where `limit_secs` is `None`.
    pub(crate) fn starting_now(limit_secs: Option<u64>) -> (deadline: Deadline)
        ensures
            deadline.limit_secs == limit_secs,
    {
        Deadline { start: Instant::now(), limit_secs }
    }

    /// Whether the deadline has passed: whether the whole seconds that the clock
    /// says have gone by since the start have reached the limit. The clock decides
    /// how many those are; without a limit the deadline has never passed, and with
    /// a limit of no seconds it always has.
    pub(crate) fn passed(&self) -> (late: bool)
        ensures
            exists|secs: u64| late == #[trigger] overdue(secs, self.limit_secs),
            self.limit_secs is None ==> !late,
            self.limit_secs == Some(0u64) ==> late,
    {
        match self.limit_secs {
            None => {
                assert(!overdue(0, self.limit_secs));
                false
            },
            Some(_) => {
                let span = self.start.elapsed();
                is_overdue(span.as_secs(), self.limit_secs)
            },
        }
    }
}

/// Whether work that has taken `elapsed_secs` whole seconds has reached a limit of
/// `limit_secs` seconds; never where there is no limit.
pub open spec fn overdue(elapsed_secs: u64, limit_secs: Option<u64>) -> bool {
    match limit_secs {
        Some(limit) => elapsed_secs >= limit,
        None => false,
    }
}

/// Tests [`overdue`].
pub fn is_overdue(elapsed_secs: u64, limit_secs: Option<u64>) -> (late: bool)
    ensures
        late == overdue(elapsed_secs, limit_secs),
{
    match limit_secs {
        Some(limit) => elapsed_secs >= limit,
        None => false,
    }
}

} // verus!
