//! Running a computation while measuring how long it takes.
use vstd::prelude::*;
use std::time::{Duration, Instant};
use crate::point::{Points, PairOfPoints};
use crate::pairs::is_closest_pair;
use crate::divide_and_conquer::closest_pair;

verus! {

#[verifier::external_type_specification]
#[verifier::external_body]
pub struct ExInstant(std::time::Instant);

/// What a computation returned, with the wall-clock time it took.
pub struct TimeMeasuredOutput<T> {
    pub duration: Duration,
    pub output: T,
}

/// Relies on `std::time::Instant::now`: reads the monotonic clock. Nothing is
/// known of the value read.
#[verifier::external_body]
fn now() -> Instant {
    Instant::now()
}

/// Relies on `std::time::Instant::elapsed`: the time passed since `start`.
/// Nothing is known of the value read.
#[verifier::external_body]
fn elapsed(start: &Instant) -> Duration {
    start.elapsed()
}

/// Calls `function` on `args` and returns its result with the time the call took.
pub fn measure_execution_time<FunctionType, ArgsType, ReturnType>(
    function: FunctionType,
    args: ArgsType,
) -> (r: TimeMeasuredOutput<ReturnType>) where FunctionType: Fn(ArgsType) -> ReturnType
    requires
        function.requires((args,)),
    ensures
        function.ensures((args,), r.output),
{
    let start = now();
    let output = function(args);
    let duration = elapsed(&start);
    TimeMeasuredOutput { duration, output }
}

/// The divide-and-conquer search on `points`, with the time it took.
pub fn closest_pair_timed(points: &Points) -> (r: TimeMeasuredOutput<Option<PairOfPoints>>)
    ensures
        r.output is None <==> points@.len() < 2,
        r.output matches Some((p, q)) ==> is_closest_pair(points@, p, q),
{
    let search = |pts: &Points| -> (found: Option<PairOfPoints>)
        ensures
            found is None <==> pts@.len() < 2,
            found matches Some((p, q)) ==> is_closest_pair(pts@, p, q),
        { closest_pair(pts) };
    measure_execution_time(search, points)
}

} // verus!
