//! Side markers for the type-state protocol objects: a value built for
//! transmission and a value observed from the wire get distinct types, so one
//! can never be used as the other.

use vstd::prelude::*;

verus! {

/// Implemented by the per-side payload types of the protocol objects. The
/// side a protocol object is valid for is the type of its one field.
pub trait SideMarker {

}

} // verus!
