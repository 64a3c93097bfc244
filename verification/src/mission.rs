//! Mission-level vocabulary shared with the layers around the core.

use vstd::prelude::*;

verus! {

/// An action a vehicle performs at a waypoint.
#[derive(Clone, Copy, Debug, PartialEq, Eq, Structural)]
pub enum DroneAction {
    TakeOff,
    TakePhoto,
    Recharge,
}

} // verus!
