//! The services of the player: their label and error types.
use vstd::prelude::*;

use crate::service::{ServiceError, ServiceLabel as IsServiceLabel};

verus! {

/// The label of the player's services.
#[derive(Clone, Copy, Debug, PartialEq, Eq, Structural, Hash)]
pub enum ServiceLabel {
    /// The player camera service.
    PlayerCam,
    /// The player service.
    Player,
}

impl IsServiceLabel for ServiceLabel {

}

/// Errors of the player camera service.
#[derive(Clone, Copy, Debug, PartialEq, Eq, Structural)]
pub enum PlayerCamError {
    /// No player camera.
    NoCam,
}

impl ServiceError for PlayerCamError {

}

/// The walking direction that the pressed arrow keys ask for, as steps
/// along x and z: up goes toward negative z, down toward positive z, left
/// toward negative x and right toward positive x; opposite keys cancel.
pub fn arrow_direction(up: bool, down: bool, left: bool, right: bool) -> (r: (i32, i32))
    ensures
        r.0 == (if right { 1int } else { 0int }) - (if left { 1int } else { 0int }),
        r.1 == (if down { 1int } else { 0int }) - (if up { 1int } else { 0int }),
{
    let mut x: i32 = 0;
    let mut z: i32 = 0;
    if up {
        z = z - 1;
    }
    if down {
        z = z + 1;
    }
    if left {
        x = x - 1;
    }
    if right {
        x = x + 1;
    }
    (x, z)
}

} // verus!
