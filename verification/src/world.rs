//! What is known of the robots and the ball.

use crate::scalar::Scalar;
use crate::single::Vec2;
use vstd::prelude::*;

verus! {

/// The blue team's number.
pub const BLUE_TEAM: i32 = 0;

/// The yellow team's number.
pub const YELLOW_TEAM: i32 = 1;

/// A robot as the engine sees it.
#[derive(Debug, Clone, Copy, PartialEq, Eq, Structural)]
pub struct RobotState {
    pub id: i32,
    pub team: i32,
    /// In metres.
    pub position: Vec2,
    /// In metres per second.
    pub velocity: Vec2,
    /// In radians.
    pub orientation: Scalar,
    pub active: bool,
}

/// The ball as the engine sees it.
#[derive(Debug, Clone, Copy, PartialEq, Eq, Structural)]
pub struct BallState {
    /// In metres.
    pub position: Vec2,
    /// In metres per second.
    pub velocity: Vec2,
}

} // verus!
