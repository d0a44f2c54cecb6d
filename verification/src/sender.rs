//! The capability through which the search streams its events.

use vstd::prelude::*;

use crate::CrackProgress;

verus! {

/// Accepts progress events; the result reports whether the consumer is still
/// listening. A `false` result is the cooperative cancellation signal.
pub trait Sender: Clone + Send {
    fn send(&self, progress: CrackProgress) -> bool;
}

} // verus!
