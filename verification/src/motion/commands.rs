//! What robots are told to do.

use crate::scalar::Scalar;
use vstd::prelude::*;

verus! {

/// Tells a robot how to move.
#[derive(Debug, Clone, Copy, PartialEq, Eq, Structural)]
pub struct MotionCommand {
    pub id: i32,
    pub team: i32,
    /// In metres per second.
    pub vx: Scalar,
    /// In metres per second.
    pub vy: Scalar,
    /// In radians per second.
    pub omega: Scalar,
    /// Where the robot faces when the command is made, in radians.
    pub orientation: Scalar,
}

/// Tells a robot what to do with the ball.
#[derive(Debug, Clone, Copy, PartialEq, Eq, Structural)]
pub struct KickerCommand {
    pub id: i32,
    pub team: i32,
    /// Kick along the ground.
    pub kick_x: bool,
    /// Chip the ball.
    pub kick_z: bool,
    /// The speed of the dribbler.
    pub dribbler: Scalar,
}

} // verus!
