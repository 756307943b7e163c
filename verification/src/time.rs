use vstd::prelude::*;

verus! {

/// The system clock, which the logic loop's timer waits on. The library reads
/// time as nanoseconds on the runtime's monotonic clock.
pub struct StdTime;

} // verus!
