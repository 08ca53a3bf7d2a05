//! The control of motion: from a robot's state and a target to a command.
//!
//! The angle of a direction is handed in, and so is what controllers with a
//! memory ask for.

use crate::scalar::Scalar;
use crate::single::{Single, Vec2};
use crate::world::RobotState;
use vstd::prelude::*;

pub mod acceleration;
pub mod aim;
pub mod angles;
pub mod bang_bang;
pub mod bounds;
pub mod commands;
pub mod directions;
pub mod geometry;
pub mod limits;
pub mod profile;
pub mod speeds;
pub mod symmetry;
pub mod turning;

use crate::motion::bang_bang::{BangBangController, Vec2F64};
use crate::motion::commands::MotionCommand;

verus! {

/// How deep the path planner searches.
pub const PLANNER_DEPTH: u32 = 5;

/// The largest acceleration: 15 m/s^2.
pub const MAX_ACCELERATION: u64 = 0x402e_0000_0000_0000;

/// The largest speed: 2.5 m/s.
pub const MAX_VELOCITY: u64 = 0x4004_0000_0000_0000;

/// A whole turn, in radians.
pub const FULL_TURN: u64 = 0x4019_21fb_5444_2d18;

/// Half a turn, in radians.
pub const HALF_TURN: u64 = 0x4009_21fb_5444_2d18;

/// Half a turn the other way, in radians.
pub const BACKWARD_HALF_TURN: u64 = 0xc009_21fb_5444_2d18;

/// The speed along a planned path: 2.5 m/s.
pub const PATH_SPEED: u64 = 0x4004_0000_0000_0000;

/// The turning speed along a planned path, for each radian of error: 2.
pub const PATH_TURN_GAIN: u64 = 0x4000_0000_0000_0000;

/// The largest turning speed on a planned path, and towards an angle: 3 rad/s.
pub const MAX_OMEGA: u64 = 0x4008_0000_0000_0000;

/// The same the other way: -3 rad/s.
pub const MIN_OMEGA: u64 = 0xc008_0000_0000_0000;

/// The turning speed on a straight line, for each radian of error: 1.5.
pub const DIRECT_TURN_GAIN: u64 = 0x3ff8_0000_0000_0000;

/// The largest turning speed on a straight line: 2 rad/s.
pub const MAX_DIRECT_OMEGA: u64 = 0x4000_0000_0000_0000;

/// The same the other way: -2 rad/s.
pub const MIN_DIRECT_OMEGA: u64 = 0xc000_0000_0000_0000;

/// Nearer than this a straight move is over: 0.05 m, in single precision.
pub const DIRECT_REACHED: u32 = 0x3d4c_cccd;

/// The speed on a straight line, for each metre of distance: 2, in single
/// precision.
pub const DIRECT_GAIN: u32 = 0x4000_0000;

/// The largest speed on a straight line: 2 m/s, in single precision.
pub const MAX_DIRECT_SPEED: u32 = 0x4000_0000;

/// The least speed on a straight line: 0.1 m/s, in single precision.
pub const MIN_DIRECT_SPEED: u32 = 0x3dcc_cccd;

/// The largest speed under control in x and y: 1.5 m/s.
pub const MAX_CONTROL_SPEED: u64 = 0x3ff8_0000_0000_0000;

/// The time between two commands: 0.016 s.
pub const STEP_SECONDS: u64 = 0x3f90_624d_d2f1_a9fc;

/// The control of motion.
#[derive(Debug, Clone, Copy, PartialEq, Eq, Structural)]
pub struct Motion {
    pub planner_depth: u32,
    pub bangbang: BangBangController,
}

/// A turning speed, raised to the least and then lowered to the largest.
pub open spec fn limited_omega(omega: Scalar, min: Scalar, max: Scalar) -> Scalar {
    omega.larger(min).smaller(max)
}

/// The command that moves a robot.
pub open spec fn driven(robot: RobotState, vx: Scalar, vy: Scalar, omega: Scalar) -> MotionCommand {
    MotionCommand {
        id: robot.id,
        team: robot.team,
        vx,
        vy,
        omega,
        orientation: robot.orientation,
    }
}

/// The command that has a robot stand still.
pub open spec fn stand_still(robot: RobotState) -> MotionCommand {
    driven(robot, Scalar::zero(), Scalar::zero(), Scalar::zero())
}

impl Motion {
    /// An angle within half a turn either way. Half a turn stays, half a turn
    /// the other way does not.
    pub open spec fn normalized_angle(angle: Scalar) -> Scalar {
        let turn = Scalar { bits: FULL_TURN };
        let rest = angle.remainder(turn);
        if (Scalar { bits: HALF_TURN }).less(rest) {
            rest.difference(turn)
        } else if rest.at_most(Scalar { bits: BACKWARD_HALF_TURN }) {
            rest.sum(turn)
        } else {
            rest
        }
    }

    /// How far a robot has to turn to face an angle.
    pub open spec fn angle_error(robot: RobotState, target_angle: Scalar) -> Scalar {
        Self::normalized_angle(target_angle.difference(robot.orientation))
    }

    /// How far a robot is from a point in x and y.
    pub open spec fn offset(robot: RobotState, point: Vec2) -> (Scalar, Scalar) {
        let way = point.from_point(robot.position);
        (way.x.widened(), way.y.widened())
    }

    /// The direction from a robot to a point.
    pub open spec fn direction(robot: RobotState, point: Vec2) -> Vec2 {
        point.from_point(robot.position).unit()
    }

    /// The next point of a path, after the one where the robot is.
    pub open spec fn waypoint(path: Seq<Vec2>) -> Option<Vec2> {
        if path.len() > 1 {
            Some(path[1])
        } else {
            None
        }
    }

    /// The command along a planned path: towards its next point, which lies at
    /// this angle, or none.
    pub open spec fn path_command(
        robot: RobotState,
        path: Seq<Vec2>,
        target_angle: Single,
    ) -> MotionCommand {
        match Self::waypoint(path) {
            Some(next) => {
                let direction = Self::direction(robot, next);
                let speed = Scalar { bits: PATH_SPEED };
                driven(
                    robot,
                    direction.x.widened().product(speed),
                    direction.y.widened().product(speed),
                    limited_omega(
                        Self::angle_error(robot, target_angle.widened()).product(
                            Scalar { bits: PATH_TURN_GAIN },
                        ),
                        Scalar { bits: MIN_OMEGA },
                        Scalar { bits: MAX_OMEGA },
                    ),
                )
            },
            None => stand_still(robot),
        }
    }

    /// The speed on a straight line: in proportion to the distance, within the
    /// least and the largest.
    pub open spec fn direct_speed(distance: Single) -> Single {
        (Single { bits: MAX_DIRECT_SPEED }).smaller(
            distance.product(Single { bits: DIRECT_GAIN }),
        ).larger(Single { bits: MIN_DIRECT_SPEED })
    }

    /// The command on a straight line: towards the target, which lies at this
    /// angle, or none where it is reached.
    pub open spec fn direct_command(
        robot: RobotState,
        target: Vec2,
        target_angle: Single,
    ) -> MotionCommand {
        let distance = target.from_point(robot.position).norm();
        if distance.less(Single { bits: DIRECT_REACHED }) {
            stand_still(robot)
        } else {
            let direction = Self::direction(robot, target);
            let speed = Self::direct_speed(distance);
            driven(
                robot,
                direction.x.product(speed).widened(),
                direction.y.product(speed).widened(),
                limited_omega(
                    Self::angle_error(robot, target_angle.widened()).product(
                        Scalar { bits: DIRECT_TURN_GAIN },
                    ),
                    Scalar { bits: MIN_DIRECT_OMEGA },
                    Scalar { bits: MAX_DIRECT_OMEGA },
                ),
            )
        }
    }

    /// The command under control in x and y, at no more than the largest speed.
    pub open spec fn controlled_command(
        robot: RobotState,
        vx: Scalar,
        vy: Scalar,
    ) -> MotionCommand {
        let velocity = (Vec2F64 { x: vx, y: vy }).shortened(Scalar { bits: MAX_CONTROL_SPEED });
        driven(robot, velocity.x, velocity.y, Scalar::zero())
    }

    /// The command that turns a robot on the spot.
    pub open spec fn turn_command(robot: RobotState, omega: Scalar) -> MotionCommand {
        driven(
            robot,
            Scalar::zero(),
            Scalar::zero(),
            limited_omega(omega, Scalar { bits: MIN_OMEGA }, Scalar { bits: MAX_OMEGA }),
        )
    }

    /// The command that follows a planned path and turns at a speed of its own.
    pub open spec fn turning_path_command(
        robot: RobotState,
        path: Seq<Vec2>,
        path_angle: Single,
        omega: Scalar,
    ) -> MotionCommand {
        let path = Self::path_command(robot, path, path_angle);
        driven(robot, path.vx, path.vy, Self::turn_command(robot, omega).omega)
    }

    /// The control of motion with the engine's limits.
    pub fn new() -> (result: Self)
        ensures
            result.planner_depth == PLANNER_DEPTH,
            result.bangbang.acceleration_limit() == (Scalar { bits: MAX_ACCELERATION }),
            result.bangbang.velocity_limit() == (Scalar { bits: MAX_VELOCITY }),
            result.bangbang.velocity() == Vec2::zero(),
    {
        Motion {
            planner_depth: PLANNER_DEPTH,
            bangbang: BangBangController::new(
                Scalar { bits: MAX_ACCELERATION },
                Scalar { bits: MAX_VELOCITY },
            ),
        }
    }

    /// Brings an angle into the range of half a turn either way.
    pub fn normalize_angle(angle: Scalar) -> (result: Scalar)
        ensures
            result == Self::normalized_angle(angle),
    {
        let turn = Scalar { bits: FULL_TURN };
        let half = Scalar { bits: HALF_TURN };
        let backward = Scalar { bits: BACKWARD_HALF_TURN };
        let rest = angle.modulo(&turn);
        if half.lt(&rest) {
            rest.minus(&turn)
        } else if rest.le(&backward) {
            rest.plus(&turn)
        } else {
            rest
        }
    }

    /// How far a robot has to turn to face an angle: the error that a turning
    /// controller works on.
    pub fn turn_error(robot: &RobotState, target_angle: Scalar) -> (result: Scalar)
        ensures
            result == Self::angle_error(*robot, target_angle),
    {
        Self::normalize_angle(target_angle.minus(&robot.orientation))
    }

    /// How far a robot is from a target in x and y: the errors that the
    /// controllers in x and y work on.
    pub fn position_error(robot: &RobotState, target: Vec2) -> (result: (Scalar, Scalar))
        ensures
            result == Self::offset(*robot, target),
    {
        let way = target.minus(&robot.position);
        (way.x.widen(), way.y.widen())
    }

    /// The direction from a robot to a point. Its angle is the one at which the
    /// point lies.
    pub fn heading(robot: &RobotState, point: &Vec2) -> (result: Vec2)
        ensures
            result == Self::direction(*robot, *point),
    {
        point.minus(&robot.position).normalize()
    }

    /// The next point of a path, after the one where the robot is.
    pub fn next_waypoint(path: &Vec<Vec2>) -> (result: Option<Vec2>)
        ensures
            result == Self::waypoint(path@),
    {
        if path.len() > 1 {
            Some(path[1])
        } else {
            None
        }
    }

    /// The command along a planned path, whose next point lies at this angle.
    pub fn move_to(robot: &RobotState, path: &Vec<Vec2>, target_angle: Single) -> (result:
        MotionCommand)
        ensures
            result == Self::path_command(*robot, path@, target_angle),
    {
        match Self::next_waypoint(path) {
            Some(next_point) => {
                let direction = Self::heading(robot, &next_point);
                let speed = Scalar { bits: PATH_SPEED };
                let gain = Scalar { bits: PATH_TURN_GAIN };
                let min = Scalar { bits: MIN_OMEGA };
                let max = Scalar { bits: MAX_OMEGA };
                let error = Self::turn_error(robot, target_angle.widen());
                let omega = error.times(&gain);
                MotionCommand {
                    id: robot.id,
                    team: robot.team,
                    vx: direction.x.widen().times(&speed),
                    vy: direction.y.widen().times(&speed),
                    omega: omega.max(&min).min(&max),
                    orientation: robot.orientation,
                }
            },
            None => MotionCommand {
                id: robot.id,
                team: robot.team,
                vx: Scalar::zero(),
                vy: Scalar::zero(),
                omega: Scalar::zero(),
                orientation: robot.orientation,
            },
        }
    }

    /// The command on a straight line to a target, which lies at this angle.
    pub fn move_direct(robot: &RobotState, target: Vec2, target_angle: Single) -> (result:
        MotionCommand)
        ensures
            result == Self::direct_command(*robot, target, target_angle),
    {
        let diff = target.minus(&robot.position);
        let distance = diff.length();
        let reached = Single { bits: DIRECT_REACHED };
        if distance.lt(&reached) {
            return MotionCommand {
                id: robot.id,
                team: robot.team,
                vx: Scalar::zero(),
                vy: Scalar::zero(),
                omega: Scalar::zero(),
                orientation: robot.orientation,
            };
        }
        let direction = diff.normalize();
        let most = Single { bits: MAX_DIRECT_SPEED };
        let least = Single { bits: MIN_DIRECT_SPEED };
        let gain = Single { bits: DIRECT_GAIN };
        let speed = most.min(&distance.times(&gain)).max(&least);
        let turn_gain = Scalar { bits: DIRECT_TURN_GAIN };
        let min = Scalar { bits: MIN_DIRECT_OMEGA };
        let max = Scalar { bits: MAX_DIRECT_OMEGA };
        let error = Self::turn_error(robot, target_angle.widen());
        let omega = error.times(&turn_gain);
        MotionCommand {
            id: robot.id,
            team: robot.team,
            vx: direction.x.times(&speed).widen(),
            vy: direction.y.times(&speed).widen(),
            omega: omega.max(&min).min(&max),
            orientation: robot.orientation,
        }
    }

    /// The command under control in x and y: controllers that work on the error
    /// in position ask for this velocity.
    pub fn motion(robot: &RobotState, vx: Scalar, vy: Scalar) -> (result: MotionCommand)
        ensures
            result == Self::controlled_command(*robot, vx, vy),
    {
        let limit = Scalar { bits: MAX_CONTROL_SPEED };
        let asked = Vec2F64 { x: vx, y: vy };
        let velocity = asked.shorten(&limit);
        MotionCommand {
            id: robot.id,
            team: robot.team,
            vx: velocity.x,
            vy: velocity.y,
            omega: Scalar::zero(),
            orientation: robot.orientation,
        }
    }

    /// The command that turns a robot on the spot, at the speed that its
    /// controller asks for.
    pub fn face_to_angle(robot: &RobotState, omega: Scalar) -> (result: MotionCommand)
        ensures
            result == Self::turn_command(*robot, omega),
    {
        let min = Scalar { bits: MIN_OMEGA };
        let max = Scalar { bits: MAX_OMEGA };
        MotionCommand {
            id: robot.id,
            team: robot.team,
            vx: Scalar::zero(),
            vy: Scalar::zero(),
            omega: omega.max(&min).min(&max),
            orientation: robot.orientation,
        }
    }

    /// The command that follows a planned path and turns at the speed that a
    /// controller asks for, whatever way the path leads.
    pub fn motion_with_orientation(
        robot: &RobotState,
        path: &Vec<Vec2>,
        path_angle: Single,
        omega: Scalar,
    ) -> (result: MotionCommand)
        ensures
            result == (MotionCommand {
                omega: Self::turn_command(*robot, omega).omega,
                ..Self::path_command(*robot, path@, path_angle)
            }),
            result == Self::turning_path_command(*robot, path@, path_angle, omega),
    {
        let motion_cmd = Self::move_to(robot, path, path_angle);
        let face_cmd = Self::face_to_angle(robot, omega);
        MotionCommand {
            id: robot.id,
            team: robot.team,
            vx: motion_cmd.vx,
            vy: motion_cmd.vy,
            omega: face_cmd.omega,
            orientation: robot.orientation,
        }
    }
}

/// Every command is for the robot whose state it was made from, and holds where
/// that robot faces.
pub proof fn law_commands_are_for_the_robot(
    robot: RobotState,
    path: Seq<Vec2>,
    target: Vec2,
    angle: Single,
    velocity: (Scalar, Scalar),
    omega: Scalar,
)
    ensures
        forall|c: MotionCommand|
            c == Motion::path_command(robot, path, angle) || c == Motion::direct_command(
                robot,
                target,
                angle,
            ) || c == Motion::controlled_command(robot, velocity.0, velocity.1) || c
                == Motion::turn_command(robot, omega) ==> (#[trigger] c.id) == robot.id && c.team
                == robot.team && c.orientation == robot.orientation,
{
}

/// No command turns a robot faster than 3 rad/s either way, and none on a
/// straight line faster than 2 rad/s, even where the turning speed that was
/// asked for is no number.
pub proof fn law_turning_is_limited(
    robot: RobotState,
    path: Seq<Vec2>,
    target: Vec2,
    angle: Single,
    omega: Scalar,
)
    ensures
        (Scalar { bits: MIN_OMEGA }).at_most(Motion::path_command(robot, path, angle).omega),
        Motion::path_command(robot, path, angle).omega.at_most(Scalar { bits: MAX_OMEGA }),
        (Scalar { bits: MIN_OMEGA }).at_most(Motion::turn_command(robot, omega).omega),
        Motion::turn_command(robot, omega).omega.at_most(Scalar { bits: MAX_OMEGA }),
        (Scalar { bits: MIN_DIRECT_OMEGA }).at_most(
            Motion::direct_command(robot, target, angle).omega,
        ),
        Motion::direct_command(robot, target, angle).omega.at_most(
            Scalar { bits: MAX_DIRECT_OMEGA },
        ),
{
}

/// A robot that has arrived stands still: at the end of a path, and within
/// reach of the target on a straight line.
pub proof fn law_arrived_robot_stands_still(
    robot: RobotState,
    path: Seq<Vec2>,
    target: Vec2,
    angle: Single,
)
    ensures
        path.len() <= 1 ==> Motion::path_command(robot, path, angle) == stand_still(robot),
        target.from_point(robot.position).norm().less(Single { bits: DIRECT_REACHED })
            ==> Motion::direct_command(robot, target, angle) == stand_still(robot),
{
}

/// The speed on a straight line is between 0.1 and 2 m/s, whatever the distance.
pub proof fn law_direct_speed_is_limited(distance: Single)
    ensures
        !Motion::direct_speed(distance).nan(),
        (Single { bits: MIN_DIRECT_SPEED }).rank() <= Motion::direct_speed(distance).rank(),
        Motion::direct_speed(distance).rank() <= (Single { bits: MAX_DIRECT_SPEED }).rank(),
{
}

} // verus!
