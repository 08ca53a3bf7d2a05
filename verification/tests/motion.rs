//! Motion: the controller's limits and the commands for robots.

use glam::Vec2 as Vector2;
use rustengine::motion::bang_bang::BangBangController;
use rustengine::motion::commands::MotionCommand;
use rustengine::motion::Motion;
use rustengine::scalar::Scalar;
use rustengine::single::{Single, Vec2};
use rustengine::world::RobotState;

fn number(x: f64) -> Scalar {
    Scalar::from_bits(x.to_bits())
}

fn value(x: Scalar) -> f64 {
    f64::from_bits(x.to_bits())
}

fn single(x: f32) -> Single {
    Single::from_bits(x.to_bits())
}

fn single_value(x: Single) -> f32 {
    f32::from_bits(x.to_bits())
}

fn point(v: Vector2) -> Vec2 {
    Vec2 { x: single(v.x), y: single(v.y) }
}

fn vector(v: Vec2) -> Vector2 {
    Vector2::new(single_value(v.x), single_value(v.y))
}

fn compute_profile(
    controller: &mut BangBangController,
    position: Vector2,
    target: Vector2,
    velocity: Vector2,
    dt: f64,
) -> Vector2 {
    vector(controller.compute_profile(point(position), point(target), point(velocity), number(dt)))
}

fn controller(max_acceleration: f64, max_velocity: f64) -> BangBangController {
    BangBangController::new(number(max_acceleration), number(max_velocity))
}

fn robot(id: i32, team: i32) -> RobotState {
    RobotState {
        id,
        team,
        position: Vec2::zero(),
        velocity: Vec2::zero(),
        orientation: Scalar::zero(),
        active: false,
    }
}

fn normalize_angle(angle: f64) -> f64 {
    value(Motion::normalize_angle(number(angle)))
}

fn angle_of(direction: Vec2) -> Single {
    let direction = vector(direction);
    single(direction.y.atan2(direction.x))
}

fn move_direct(robot: &RobotState, target: Vector2) -> MotionCommand {
    let angle = angle_of(Motion::heading(robot, &point(target)));
    Motion::move_direct(robot, point(target), angle)
}

fn move_to(robot: &RobotState, path: &Vec<Vec2>) -> MotionCommand {
    let angle = match Motion::next_waypoint(path) {
        Some(next) => angle_of(Motion::heading(robot, &next)),
        None => Single::zero(),
    };
    Motion::move_to(robot, path, angle)
}

#[test]
fn test_bang_bang_new() {
    let controller = controller(2.5, 5.0);
    assert_eq!(value(controller.get_max_acceleration()), 2.5);
    assert_eq!(value(controller.get_max_velocity()), 5.0);
    assert_eq!(vector(controller.get_current_velocity()), Vector2::ZERO);
}

#[test]
fn test_bang_bang_reset() {
    let mut controller = controller(2.5, 5.0);
    let _ = compute_profile(
        &mut controller,
        Vector2::new(0.0, 0.0),
        Vector2::new(1.0, 0.0),
        Vector2::ZERO,
        0.016,
    );
    assert_ne!(vector(controller.get_current_velocity()), Vector2::ZERO);

    controller.reset();
    assert_eq!(vector(controller.get_current_velocity()), Vector2::ZERO);
}

#[test]
fn test_bang_bang_stop_at_target() {
    let mut controller = controller(2.5, 5.0);
    let vel = compute_profile(
        &mut controller,
        Vector2::new(0.0, 0.0),
        Vector2::new(0.01, 0.0),
        Vector2::ZERO,
        0.016,
    );
    assert!(vel.length() < 0.1);
    assert_eq!(vel, Vector2::ZERO);
}

#[test]
fn test_bang_bang_respects_max_velocity() {
    let mut controller = controller(10.0, 2.0);
    let dt = 0.016;

    let mut current_pos = Vector2::new(0.0, 0.0);
    let target_pos = Vector2::new(10.0, 0.0);
    let mut current_vel = Vector2::ZERO;

    for _ in 0..100 {
        current_vel = compute_profile(&mut controller, current_pos, target_pos, current_vel, dt);
        assert!(current_vel.length() <= 2.0 + 0.01);
        current_pos += current_vel * dt as f32;
    }
}

#[test]
fn test_bang_bang_respects_max_acceleration() {
    let mut controller = controller(2.5, 10.0);
    let dt = 0.016;

    let current_vel = Vector2::ZERO;
    let target_pos = Vector2::new(10.0, 0.0);
    let current_pos = Vector2::new(0.0, 0.0);

    let new_vel = compute_profile(&mut controller, current_pos, target_pos, current_vel, dt);

    let velocity_change = (new_vel.length() - current_vel.length()) as f64;
    let max_change = value(controller.get_max_acceleration()) * dt;

    assert!(velocity_change <= max_change + 0.001);
}

#[test]
fn test_normalize_angle() {
    let pi = std::f64::consts::PI;
    assert!((normalize_angle(0.0) - 0.0).abs() < 1e-10);
    assert!((normalize_angle(pi) - pi).abs() < 1e-10);
    let normalized_neg_pi = normalize_angle(-pi);
    assert!(
        (normalized_neg_pi - (-pi)).abs() < 1e-10 || (normalized_neg_pi - pi).abs() < 1e-10
    );
    assert!((normalize_angle(2.0 * pi) - 0.0).abs() < 1e-10);
}

#[test]
fn test_move_direct() {
    let robot = robot(0, 0);
    let cmd = move_direct(&robot, Vector2::new(1.0, 0.0));

    assert_eq!(cmd.id, 0);
    assert!(value(cmd.vx) > 0.0);
    assert_eq!(value(cmd.vy), 0.0);
}

#[test]
fn angles_are_normalized_by_whole_turns() {
    let pi = std::f64::consts::PI;
    assert_eq!(normalize_angle(-pi), pi);
    assert_eq!(normalize_angle(3.0), 3.0);
    assert_eq!(normalize_angle(4.0), 4.0 - 2.0 * pi);
    assert_eq!(normalize_angle(-4.0), -4.0 + 2.0 * pi);
    assert_eq!(normalize_angle(1e6), {
        let rest = 1e6 % (2.0 * pi);
        if rest > pi { rest - 2.0 * pi } else { rest }
    });
    assert!(normalize_angle(f64::NAN).is_nan());
    assert!(normalize_angle(f64::INFINITY).is_nan());
    for i in -2000..2000 {
        let angle = 0.37 * i as f64;
        let normalized = normalize_angle(angle);
        assert!(-pi <= normalized && normalized <= pi);
        let turns = (angle - normalized) / (2.0 * pi);
        assert!((turns - turns.round()).abs() < 1e-9);
    }
}

#[test]
fn desired_speed_follows_the_profile() {
    let controller = controller(2.0, 4.0);
    let speed = |distance: f64, current: f64| {
        value(controller.compute_desired_speed(number(distance), number(current), number(0.1)))
    };
    // At the target.
    assert_eq!(speed(0.04, 3.0), 0.0);
    // Within the distance that it takes to stop.
    assert_eq!(speed(1.0, 3.0), 2.0);
    assert_eq!(speed(0.0625, 0.5), 0.5);
    // Near the target.
    assert_eq!(speed(0.25, 0.0), 1.0);
    // Too short a way for the whole profile: one step faster.
    assert_eq!(speed(4.0, 1.0), 1.0 + 2.0 * 0.1);
    assert_eq!(speed(4.5, 3.9), 4.0);
    // A long way, and a speed that is reached.
    assert_eq!(speed(8.0, 0.0), 4.0);
    assert_eq!(speed(7.9, 4.0), 4.0);
}

#[test]
fn a_changed_velocity_is_limited() {
    let controller = controller(1.0, 2.0);
    let next = |target: Vector2, velocity: Vector2, dt: f64| {
        vector(controller.compute_profile_with_velocity(
            Vec2::zero(),
            point(target),
            point(velocity),
            number(dt),
        ))
    };
    // By the acceleration: at most one metre per second in a second.
    assert_eq!(next(Vector2::new(100.0, 0.0), Vector2::ZERO, 1.0), Vector2::new(1.0, 0.0));
    assert_eq!(next(Vector2::new(0.0, -100.0), Vector2::ZERO, 0.25), Vector2::new(0.0, -0.25));
    // By the largest speed.
    assert_eq!(next(Vector2::new(100.0, 0.0), Vector2::new(4.0, 0.0), 0.5), Vector2::new(2.0, 0.0));
    // Not at all: the whole change is small enough.
    assert_eq!(next(Vector2::new(0.25, 0.0), Vector2::ZERO, 1.0), Vector2::new(1.0, 0.0));
    assert_eq!(vector(controller.get_current_velocity()), Vector2::ZERO);
}

#[test]
fn a_velocity_that_was_taken_is_kept() {
    let mut controller = controller(1.0, 2.0);
    let target = Vector2::new(3.0, 4.0);
    let taken = compute_profile(&mut controller, Vector2::ZERO, target, Vector2::ZERO, 0.5);
    assert_eq!(taken, Vector2::new(0.3, 0.4));
    assert_eq!(vector(controller.get_current_velocity()), taken);
    assert_eq!(value(controller.get_max_acceleration()), 1.0);
    assert_eq!(value(controller.get_max_velocity()), 2.0);
}

#[test]
fn every_velocity_is_within_the_limits() {
    let mut controller = controller(3.0, 2.5);
    let dt = 0.016;
    let mut position = Vector2::new(-2.0, 1.5);
    let target = Vector2::new(1.0, -0.75);
    let mut velocity = Vector2::new(0.3, 0.8);
    for _ in 0..400 {
        let next = compute_profile(&mut controller, position, target, velocity, dt);
        assert!(next.length() <= 2.5 + 1e-6);
        if (target - position).length() >= 0.051 {
            assert!((next - velocity).length() as f64 <= 3.0 * dt + 1e-6);
        }
        velocity = next;
        position += velocity * dt as f32;
    }
    assert!((target - position).length() < 0.06);
}

#[test]
fn motion_starts_with_its_limits() {
    let motion = Motion::new();
    assert_eq!(motion.planner_depth, 5);
    assert_eq!(value(motion.bangbang.get_max_acceleration()), 15.0);
    assert_eq!(value(motion.bangbang.get_max_velocity()), 2.5);
}

#[test]
fn a_path_leads_to_its_second_point() {
    let here = point(Vector2::new(0.0, 0.0));
    let next = point(Vector2::new(0.0, 2.0));
    let end = point(Vector2::new(3.0, 4.0));
    assert_eq!(Motion::next_waypoint(&vec![here, next, end]), Some(next));
    assert_eq!(Motion::next_waypoint(&vec![here]), None);
    assert_eq!(Motion::next_waypoint(&vec![]), None);

    let robot = RobotState { orientation: number(0.5), ..robot(7, 1) };
    let cmd = move_to(&robot, &vec![here, next, end]);
    assert_eq!((cmd.id, cmd.team), (7, 1));
    assert_eq!((value(cmd.vx), value(cmd.vy)), (0.0, 2.5));
    let quarter = std::f32::consts::FRAC_PI_2 as f64;
    assert_eq!(value(cmd.omega), (quarter - 0.5) * 2.0);
    assert_eq!(value(cmd.orientation), 0.5);
    let stop = move_to(&robot, &vec![here]);
    assert_eq!((value(stop.vx), value(stop.vy), value(stop.omega)), (0.0, 0.0, 0.0));
    assert_eq!(value(stop.orientation), 0.5);
    // The other way round: as fast as a turn can be.
    let behind = RobotState { orientation: number(-1.5), ..robot };
    assert_eq!(value(move_to(&behind, &vec![here, next]).omega), 3.0);
}

#[test]
fn a_straight_move_ends_within_reach() {
    let robot = RobotState { orientation: number(-3.0), ..robot(3, 0) };
    let stop = move_direct(&robot, Vector2::new(0.0, 0.0499));
    assert_eq!((value(stop.vx), value(stop.vy), value(stop.omega)), (0.0, 0.0, 0.0));
    let go = move_direct(&robot, Vector2::new(0.05, 0.0));
    assert_eq!(value(go.vx), 0.1f32 as f64);
    assert_eq!(value(go.omega), 2.0);
    assert_eq!(value(move_direct(&robot, Vector2::new(0.25, 0.0)).vx), 0.5);
    assert_eq!(value(move_direct(&robot, Vector2::new(9.0, 0.0)).vx), 2.0);
    assert_eq!(value(move_direct(&robot, Vector2::new(0.03, 0.0)).vx), 0.0);
}

#[test]
fn controlled_speed_is_limited() {
    let robot = robot(1, 1);
    let fast = Motion::motion(&robot, number(3.0), number(4.0));
    let scale: f64 = 1.5 / 5.0;
    assert_eq!((value(fast.vx), value(fast.vy)), (3.0 * scale, 4.0 * scale));
    let slow = Motion::motion(&robot, number(0.9), number(1.2));
    assert_eq!((value(slow.vx), value(slow.vy)), (0.9, 1.2));
    assert_eq!(value(slow.omega), 0.0);
}

#[test]
fn turning_is_limited() {
    let robot = robot(2, 0);
    assert_eq!(value(Motion::face_to_angle(&robot, number(1.0)).omega), 1.0);
    assert_eq!(value(Motion::face_to_angle(&robot, number(7.0)).omega), 3.0);
    assert_eq!(value(Motion::face_to_angle(&robot, number(-7.0)).omega), -3.0);
    assert_eq!(value(Motion::face_to_angle(&robot, number(f64::NAN)).omega), -3.0);
    assert_eq!(value(Motion::face_to_angle(&robot, number(1.0)).vx), 0.0);
}

#[test]
fn the_error_of_a_turn_is_the_shorter_way() {
    let robot = RobotState { orientation: number(3.0), ..robot(2, 0) };
    let pi = std::f64::consts::PI;
    assert_eq!(value(Motion::turn_error(&robot, number(-3.0))), -6.0 + 2.0 * pi);
    assert_eq!(value(Motion::turn_error(&robot, number(1.0))), -2.0);
}

#[test]
fn a_turn_is_added_to_a_path() {
    let robot = robot(4, 1);
    let path = vec![Vec2::zero(), point(Vector2::new(1.0, 0.0))];
    let cmd = Motion::motion_with_orientation(&robot, &path, Single::zero(), number(-8.0));
    assert_eq!((value(cmd.vx), value(cmd.vy), value(cmd.omega)), (2.5, 0.0, -3.0));
    assert_eq!((cmd.id, cmd.team), (4, 1));
}

#[test]
fn directions_are_those_of_the_vector_library() {
    let robot = RobotState { position: point(Vector2::new(0.3, -1.7)), ..robot(0, 0) };
    let mut seed: u32 = 7;
    for _ in 0..500 {
        seed = seed.wrapping_mul(1664525).wrapping_add(1013904223);
        let x = (seed >> 16) as f32 / 9000.0 - 3.0;
        let y = (seed & 0xffff) as f32 / 9000.0 - 3.0;
        let target = Vector2::new(x, y);
        let direction = (target - vector(robot.position)).normalize();
        assert_eq!(vector(Motion::heading(&robot, &point(target))), direction);
        let length = point(target).length();
        assert_eq!(single_value(length), target.length());
    }
}

/// Numbers between -1 and 1.
fn numbers(count: usize, mut seed: u32) -> Vec<f32> {
    (0..count)
        .map(|_| {
            seed = seed.wrapping_mul(1664525).wrapping_add(1013904223);
            (seed >> 8) as f32 / 8388608.0 - 1.0
        })
        .collect()
}

#[test]
fn no_step_exceeds_the_acceleration() {
    let mut controller = controller(15.0, 2.5);
    let dt = 0.016;
    for n in numbers(6 * 500, 11).chunks(6) {
        let position = Vector2::new(n[0], n[1]) * 3.0;
        let target = Vector2::new(n[2], n[3]) * 3.0;
        // Some at the largest speed, some slower.
        let velocity = (Vector2::new(n[4], n[5]) * 4.0).clamp_length_max(2.4999);
        if (target - position).length() < 0.06 {
            continue;
        }
        let next = compute_profile(&mut controller, position, target, velocity, dt);
        let change = (next - velocity).length() as f64;
        assert!(change <= 15.0 * dt + (15.0 * dt + 2.5) / 1048576.0 + 1e-6, "{change}");
    }
    // At the target the controller stops at once.
    let fast = Vector2::new(2.0, 0.0);
    let here = Vector2::new(1.0, 1.0);
    assert_eq!(compute_profile(&mut controller, here, here, fast, dt), Vector2::ZERO);
}

#[test]
fn no_direction_is_preferred() {
    let mut controller = controller(15.0, 2.5);
    for n in numbers(6 * 500, 23).chunks(6) {
        let (p, t, v) = (
            Vector2::new(n[0], n[1]) * 2.0,
            Vector2::new(n[2], n[3]) * 2.0,
            Vector2::new(n[4], n[5]) * 3.0,
        );
        let there = compute_profile(&mut controller, p, t, v, 0.016);
        assert_eq!(compute_profile(&mut controller, -p, -t, -v, 0.016), -there);
        let crossed = |a: Vector2| Vector2::new(a.y, a.x);
        assert_eq!(
            compute_profile(&mut controller, crossed(p), crossed(t), crossed(v), 0.016),
            crossed(there)
        );
    }
}

#[test]
fn a_path_is_followed_at_its_speed() {
    for n in numbers(5 * 500, 31).chunks(5) {
        let robot = RobotState {
            position: point(Vector2::new(n[0], n[1])),
            orientation: number(3.0 * n[4] as f64),
            ..robot(3, 1)
        };
        let next = Vector2::new(n[2], n[3]);
        let e = next - vector(robot.position);
        let cmd = move_to(&robot, &vec![robot.position, point(next)]);
        let (vx, vy) = (value(cmd.vx), value(cmd.vy));
        assert!((vx.hypot(vy) - 2.5).abs() < 1e-5);
        let (ex, ey) = (e.x as f64, e.y as f64);
        let length = ex.hypot(ey);
        assert!((vx - 2.5 * ex / length).hypot(vy - 2.5 * ey / length) < 1e-5);
        let angle = e.normalize();
        let error = normalize_angle(angle.y.atan2(angle.x) as f64 - 3.0 * n[4] as f64);
        assert_eq!(value(cmd.omega), (2.0 * error).max(-3.0).min(3.0));
    }
    // A way of a micrometre still has a direction.
    let short = move_to(&robot(0, 0), &vec![Vec2::zero(), point(Vector2::new(0.6e-6, -0.8e-6))]);
    assert!((value(short.vx) - 1.5).abs() < 1e-5 && (value(short.vy) + 2.0).abs() < 1e-5);
}

#[test]
fn a_straight_move_is_no_faster_than_two_metres_a_second() {
    let robot = robot(3, 1);
    for n in numbers(2 * 500, 41).chunks(2) {
        let target = Vector2::new(n[0], n[1]) * 4.0;
        let cmd = move_direct(&robot, target);
        let speed = value(cmd.vx).hypot(value(cmd.vy));
        let distance = target.length();
        let expected = if distance < 0.05 { 0.0 } else { (2.0 * distance).min(2.0).max(0.1) };
        assert!((speed - expected as f64).abs() <= expected as f64 / 262144.0);
        assert!(speed <= 2.0 * (1.0 + 1.0 / 262144.0));
    }
    // Too far for single precision.
    let lost = Motion::move_direct(&robot, point(Vector2::new(3e38, 0.0)), Single::zero());
    assert_eq!((value(lost.vx), value(lost.vy)), (0.0, 0.0));
}

#[test]
fn the_error_in_position_is_the_rounded_difference() {
    let robot = RobotState { position: point(Vector2::new(0.1, -1.7)), ..robot(0, 0) };
    let (x, y) = Motion::position_error(&robot, point(Vector2::new(0.4, 2.5)));
    assert_eq!((value(x), value(y)), ((0.4f32 - 0.1f32) as f64, (2.5f32 + 1.7f32) as f64));
    let (x, y) = Motion::position_error(&robot, robot.position);
    assert_eq!((value(x), value(y)), (0.0, 0.0));
}
