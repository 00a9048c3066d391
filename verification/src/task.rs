//! Task registration: a shared liveness marker tied to one logical operation
//! (a stream or a UDP relay flow). While any handle derived from one creation
//! is alive, the connection's keep-alive logic must not treat the connection
//! as idle.

use std::sync::Arc;
use vstd::prelude::*;

verus! {

/// A reference-counted liveness handle with no payload: its whole job is to
/// outlive the operation it was created for. Cloning it shares the same
/// underlying count; dropping the last clone releases the signal.
#[derive(Clone)]
pub struct TaskRegister {
    handle: Arc<()>,
}

impl TaskRegister {
    pub fn new() -> (t: TaskRegister) {
        TaskRegister { handle: Arc::new(()) }
    }
}

} // verus!
