//! The shared application state handle. The services are stateless; the
//! handle only hands out fresh instances through the per-service traits.

use vstd::prelude::*;

verus! {

/// The process-wide state handle.
pub struct State {}

impl State {
    /// A fresh state handle.
    pub fn new() -> (r: State) {
        State {  }
    }
}

} // verus!
