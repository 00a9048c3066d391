//! The "connect" protocol object: a connection-open request tied to one
//! transport stream, statically tagged with the side it is valid for.

use vstd::prelude::*;

verus! {

use crate::address::Address;
use crate::header::{ConnectHeader, ConnectHeaderModel, Header, HeaderModel};
use crate::side::SideMarker;
use crate::task::TaskRegister;

/// Transmit-side state: the header to be serialized, and the task
/// registration that must stay alive until the header has been fully sent.
pub struct Tx {
    pub header: Header,
    pub task_reg: TaskRegister,
}

/// Receive-side placeholder: a connect request observed from the wire is
/// populated by the decode path, never through the transmit constructor.
pub struct Rx;

impl SideMarker for Tx {

}

impl SideMarker for Rx {

}

/// A connection-open protocol object, statically tagged with the side it is
/// valid for.
pub struct Connect<M: SideMarker> {
    pub side: M,
}

impl Connect<Tx> {
    /// Builds a transmit-side connect request for the given tunnel target,
    /// taking ownership of the task registration for the pending send.
    pub fn new(task_reg: TaskRegister, addr: Address) -> (c: Self)
        ensures
            c.side.header@ == HeaderModel::Connect(ConnectHeaderModel { addr: addr@ }),
    {
        Connect { side: Tx { header: Header::Connect(ConnectHeader::new(addr)), task_reg } }
    }

    /// The header this request will serialize to.
    pub fn header(&self) -> (h: &Header)
        ensures
            *h == self.side.header,
    {
        &self.side.header
    }
}

} // verus!
