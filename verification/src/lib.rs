pub mod bar_state;
pub mod bars;
pub mod batch;
pub mod ingest;
pub mod iqfeed_date_time;
pub mod num;
pub mod time_bars;
pub mod vol;

use vstd::prelude::*;

verus! {

/// Everything that makes the processing of one input file fail: a malformed
/// timestamp or numeric field, a record without the configured columns, an
/// accumulator that no longer fits its machine word, an empty bar file, a
/// wall-clock time the zone does not know, or a zero close that no return
/// can be computed against.
#[derive(Clone, Copy, PartialEq, Eq, Structural, Debug)]
pub enum DataError {
    BadTimestamp,
    BadNumber,
    ShortRecord,
    Overflow,
    EmptyInput,
    BadTime,
    ZeroClose,
}

/// Decides whether a stale sibling output file should be removed after a run:
/// any file other than the one just written whose modification time lies more
/// than five minutes before the current time is swept away.
pub fn should_delete(now_millis: i64, modified_millis: i64, is_current: bool) -> (r: bool)
    requires
        now_millis - modified_millis <= i64::MAX,
        modified_millis - now_millis <= i64::MAX,
    ensures
        r == (!is_current && now_millis - modified_millis > 300_000),
{
    !is_current && now_millis - modified_millis > 300_000i64
}

} // verus!
