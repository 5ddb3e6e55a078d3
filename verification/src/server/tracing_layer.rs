//! The threshold of the slow-request log: a request whose span lives at
//! least this long is reported as slow.

use std::time::Duration;
use vstd::prelude::*;

verus! {

/// Reports the requests whose span lasts at least `threshold`.
pub struct SlowRequestLayer {
    threshold: Duration,
}

impl SlowRequestLayer {
    pub fn new(threshold: Duration) -> (s: Self)
        ensures
            s.threshold() == threshold,
    {
        SlowRequestLayer { threshold }
    }

    /// The duration from which a request counts as slow.
    pub closed spec fn threshold(self) -> Duration {
        self.threshold
    }

    /// The duration from which a request counts as slow.
    pub fn slow_after(&self) -> (d: Duration)
        ensures
            d == self.threshold(),
    {
        self.threshold
    }
}

} // verus!
