//! What a strategy script can ask of the engine.

use rustengine::game_controller::GameState;
use rustengine::lua_bindings::{
    command_to_string, package_path, path_for_modules, strategy_package_path, BallSnapshot,
    LuaCommand, LuaContext, LuaField, LuaValue, RobotSnapshot, WorldSnapshot,
};
use rustengine::motion::commands::{KickerCommand, MotionCommand};
use rustengine::referee::Command;
use rustengine::scalar::Scalar;
use rustengine::single::{Single, Vec2};
use rustengine::world::{BallState, RobotState};

fn number(x: f64) -> Scalar {
    Scalar::from_bits(x.to_bits())
}

fn single(x: f32) -> Single {
    Single::from_bits(x.to_bits())
}

fn point(x: f32, y: f32) -> Vec2 {
    Vec2 { x: single(x), y: single(y) }
}

fn robot(id: i32, team: i32, x: f32) -> RobotState {
    RobotState {
        id,
        team,
        position: point(x, -1.5),
        velocity: point(0.1, 0.2),
        orientation: number(1.25),
        active: true,
    }
}

fn ball() -> BallState {
    BallState { position: point(0.3, 0.4), velocity: point(-0.5, 2.0) }
}

fn context() -> LuaContext {
    let mut context = LuaContext::new();
    let mut game = GameState::default();
    game.command = Command::PREPARE_KICKOFF_BLUE;
    context.update_snapshot(
        &ball(),
        &vec![robot(3, 0, 1.0), robot(5, 0, 2.0), robot(3, 0, 9.0)],
        &vec![robot(3, 1, 4.0)],
        &game,
    );
    context
}

fn field(fields: &Vec<LuaField>, key: &str) -> LuaValue {
    fields.iter().find(|f| f.key == key).unwrap().value
}

#[test]
fn a_new_context_has_seen_nothing() {
    let context = LuaContext::new();
    assert_eq!(context.get_ref_message(), "UNKNOWN");
    assert!(context.get_robot_state(0, 0).is_none());
    assert!(context.get_blue_team_state().is_empty());
    assert!(context.get_yellow_team_state().is_empty());
    for f in context.get_ball_state() {
        assert_eq!(f.value, LuaValue::Number(number(0.0)));
    }
}

#[test]
fn snapshots_are_in_double_precision() {
    let seen = RobotSnapshot::from(&robot(4, 1, 0.7));
    assert_eq!(seen.x, number(0.7f32 as f64));
    assert_eq!(seen.y, number(-1.5));
    assert_eq!(seen.vel_x, number(0.1f32 as f64));
    assert_eq!(seen.vel_y, number(0.2f32 as f64));
    assert_eq!(seen.orientation, number(1.25));
    assert_eq!((seen.id, seen.team, seen.active), (4, 1, true));
    let ball = BallSnapshot::from(&ball());
    assert_eq!(ball.x, number(0.3f32 as f64));
    assert_eq!(ball.vel_y, number(2.0));
}

#[test]
fn the_first_robot_with_a_number_is_found() {
    let world = WorldSnapshot::from_world(
        &ball(),
        &vec![robot(3, 0, 1.0), robot(3, 0, 9.0)],
        &vec![robot(3, 1, 4.0)],
    );
    assert_eq!(world.get_robot_state(3, 0).unwrap().x, number(1.0));
    assert_eq!(world.get_robot_state(3, 1).unwrap().x, number(4.0));
    assert!(world.get_robot_state(4, 0).is_none());
    assert!(world.get_robot_state(3, 2).is_none());
    assert!(world.get_robot_state(3, -1).is_none());
}

#[test]
fn a_script_gets_a_robot_as_a_table() {
    let fields = context().get_robot_state(5, 0).unwrap();
    let keys: Vec<&str> = fields.iter().map(|f| f.key).collect();
    assert_eq!(
        keys,
        vec!["id", "team", "x", "y", "vel_x", "vel_y", "orientation", "active"]
    );
    assert_eq!(field(&fields, "id"), LuaValue::Integer(5));
    assert_eq!(field(&fields, "team"), LuaValue::Integer(0));
    assert_eq!(field(&fields, "x"), LuaValue::Number(number(2.0)));
    assert_eq!(field(&fields, "y"), LuaValue::Number(number(-1.5)));
    assert_eq!(field(&fields, "vel_x"), LuaValue::Number(number(0.1f32 as f64)));
    assert_eq!(field(&fields, "orientation"), LuaValue::Number(number(1.25)));
    assert_eq!(field(&fields, "active"), LuaValue::Boolean(true));
}

#[test]
fn a_script_gets_no_robot_that_is_not_there() {
    let context = context();
    assert!(context.get_robot_state(4, 0).is_none());
    assert!(context.get_robot_state(-1, 0).is_none());
    assert!(context.get_robot_state(11, 0).is_none());
    assert!(context.get_robot_state(3, 2).is_none());
}

#[test]
fn a_script_gets_the_ball_as_a_table() {
    let fields = context().get_ball_state();
    let keys: Vec<&str> = fields.iter().map(|f| f.key).collect();
    assert_eq!(keys, vec!["x", "y", "vel_x", "vel_y"]);
    assert_eq!(field(&fields, "x"), LuaValue::Number(number(0.3f32 as f64)));
    assert_eq!(field(&fields, "y"), LuaValue::Number(number(0.4f32 as f64)));
    assert_eq!(field(&fields, "vel_x"), LuaValue::Number(number(-0.5)));
    assert_eq!(field(&fields, "vel_y"), LuaValue::Number(number(2.0)));
}

#[test]
fn arrays_of_robots_count_from_one() {
    let context = context();
    let blue = context.get_blue_team_state();
    let indices: Vec<usize> = blue.iter().map(|e| e.index).collect();
    assert_eq!(indices, vec![1, 2, 3]);
    assert_eq!(field(&blue[2].fields, "x"), LuaValue::Number(number(9.0)));
    let yellow = context.get_yellow_team_state();
    assert_eq!(yellow.len(), 1);
    assert_eq!(field(&yellow[0].fields, "team"), LuaValue::Integer(1));
}

#[test]
fn requests_hold_their_target() {
    let context = context();
    assert_eq!(
        context.move_to(10, 1, Some(number(0.1)), Some(number(-2.0))),
        Some(LuaCommand::MoveToRequest { id: 10, team: 1, target: point(0.1, -2.0) })
    );
    assert_eq!(
        context.move_direct(0, 0, None, Some(number(1e-60))),
        Some(LuaCommand::MoveDirectRequest { id: 0, team: 0, target: point(0.0, 0.0) })
    );
    assert_eq!(
        context.move_to(1, 0, Some(number(1e300)), None),
        Some(LuaCommand::MoveToRequest { id: 1, team: 0, target: point(f32::INFINITY, 0.0) })
    );
    assert_eq!(context.move_to(11, 0, None, None), None);
    assert_eq!(context.move_direct(0, 3, None, None), None);
}

#[test]
fn turns_have_default_gains() {
    let context = context();
    assert_eq!(
        context.face_to(2, 0, Some(number(1.0)), Some(number(2.0)), None, None, None),
        Some(LuaCommand::FaceToRequest {
            id: 2,
            team: 0,
            target: point(1.0, 2.0),
            kp: number(3.5),
            ki: number(0.7),
            kd: number(0.1),
        })
    );
    assert_eq!(
        context.face_to(2, 1, None, None, Some(number(1.0)), Some(number(2.0)), Some(number(3.0))),
        Some(LuaCommand::FaceToRequest {
            id: 2,
            team: 1,
            target: point(0.0, 0.0),
            kp: number(1.0),
            ki: number(2.0),
            kd: number(3.0),
        })
    );
    assert_eq!(context.face_to(-1, 1, None, None, None, None, None), None);
}

#[test]
fn velocities_are_limited() {
    let context = context();
    assert_eq!(
        context.send_velocity(3, 1, number(5.0), number(-3.5), number(12.0)),
        Some(LuaCommand::Motion(MotionCommand {
            id: 3,
            team: 1,
            vx: number(3.0),
            vy: number(-3.0),
            omega: number(10.0),
            orientation: number(1.25),
        }))
    );
    // A robot that was not seen faces zero.
    assert_eq!(
        context.send_velocity(9, 1, number(1.0), number(-1.0), number(-12.0)),
        Some(LuaCommand::Motion(MotionCommand {
            id: 9,
            team: 1,
            vx: number(1.0),
            vy: number(-1.0),
            omega: number(-10.0),
            orientation: number(0.0),
        }))
    );
    assert_eq!(context.send_velocity(3, 7, number(0.0), number(0.0), number(0.0)), None);
}

#[test]
fn kicks_and_dribbling() {
    let context = context();
    let command = |kick_x: bool, kick_z: bool, dribbler: f64| {
        Some(LuaCommand::Kicker(KickerCommand {
            id: 6,
            team: 1,
            kick_x,
            kick_z,
            dribbler: number(dribbler),
        }))
    };
    assert_eq!(context.kickx(6, 1), command(true, false, 0.0));
    assert_eq!(context.kickz(6, 1), command(false, true, 0.0));
    assert_eq!(context.dribbler(6, 1, number(2.5)), command(false, false, 2.5));
    assert_eq!(context.dribbler(6, 1, number(-1.0)), command(false, false, 0.0));
    assert_eq!(context.dribbler(6, 1, number(9.0)), command(false, false, 4.0));
    assert_eq!(context.kickx(6, 2), None);
    assert_eq!(context.kickz(12, 1), None);
    assert_eq!(context.dribbler(-6, 1, number(1.0)), None);
}

#[test]
fn a_script_knows_the_command_by_name() {
    let mut context = context();
    assert_eq!(context.get_ref_message(), "PREPARE_KICKOFF_BLUE");
    let mut game = GameState::default();
    game.command = Command::GOAL_YELLOW;
    context.update_game_state_snapshot(&game);
    assert_eq!(context.get_ref_message(), "GOAL_YELLOW");
    assert_eq!(context.get_blue_team_state().len(), 3);
}

#[test]
fn every_command_has_its_own_name() {
    let mut names: Vec<String> = Vec::new();
    for n in 0..18 {
        let command = Command::from_number(n).unwrap();
        let name = command_to_string(command);
        assert_eq!(name, format!("{:?}", command));
        assert!(!names.contains(&name));
        assert_ne!(name, "UNKNOWN");
        names.push(name);
    }
}

#[test]
fn modules_lie_beside_the_script() {
    assert_eq!(
        strategy_package_path("strategy/main.lua", Some("./?.lua".to_string())),
        "strategy\\?.lua;strategy\\?\\init.lua;strategy/?.lua;strategy/?/init.lua;./?.lua"
    );
    assert_eq!(
        strategy_package_path("/opt/team/strategy/main.lua", None),
        package_path("/opt/team/strategy", None)
    );
    assert_eq!(
        strategy_package_path("main.lua", None),
        ".\\?.lua;.\\?\\init.lua;./?.lua;./?/init.lua;;"
    );
    assert_eq!(
        strategy_package_path("main.lua", Some("X".to_string())),
        ".\\?.lua;.\\?\\init.lua;./?.lua;./?/init.lua;X"
    );
    assert_eq!(
        strategy_package_path("", None),
        ".\\?.lua;.\\?\\init.lua;./?.lua;./?/init.lua;;"
    );
    assert_eq!(
        strategy_package_path("team-1/sub_dir/a.b.lua", None),
        package_path("team-1/sub_dir", None)
    );
}

#[test]
fn module_directory_keeps_dots_spaces_and_accents() {
    assert_eq!(
        strategy_package_path("./strategy/main.lua", Some("X".to_string())),
        "./strategy\\?.lua;./strategy\\?\\init.lua;./strategy/?.lua;./strategy/?/init.lua;X"
    );
    for (path, directory) in [
        ("./main.lua", "."),
        ("../x/main.lua", "../x"),
        ("../main.lua", ".."),
        ("mi equipo/jugada ñ.lua", "mi equipo"),
        ("estrategia_básica/.oculto/main.lua", "estrategia_básica/.oculto"),
        ("a/../b/main.lua", "a/../b"),
        (".", "."),
    ] {
        assert_eq!(strategy_package_path(path, None), package_path(directory, None));
    }
}

#[test]
fn what_names_nothing_is_left_out_of_a_module_directory() {
    for (path, directory) in [
        ("/main.lua", "/"),
        ("/opt/main.lua", "/opt"),
        ("/", "."),
        ("/.", "."),
        ("/./main.lua", "/"),
        ("strategy//main.lua", "strategy"),
        ("a//b//main.lua", "a//b"),
        ("strategy/main.lua/", "strategy"),
        ("strategy/main.lua//", "strategy"),
        ("strategy/main.lua/.", "strategy"),
        ("strategy/./main.lua", "strategy"),
        ("a/./b/./main.lua/./", "a/./b"),
        ("main.lua/", "."),
        ("./", "."),
        ("./.", "."),
        (".//main.lua", "."),
        ("..", "."),
        ("../..", ".."),
        ("strategy/..", "strategy"),
        ("strategy/...", "strategy"),
        ("strategy/.main", "strategy"),
    ] {
        assert_eq!(
            strategy_package_path(path, Some("X".to_string())),
            package_path(directory, Some("X".to_string())),
            "{path}"
        );
    }
}

#[test]
fn a_parent_without_a_name_is_the_current_directory() {
    let here = ".\\?.lua;.\\?\\init.lua;./?.lua;./?/init.lua;X";
    assert_eq!(path_for_modules(None, Some("X".to_string())), here);
    assert_eq!(path_for_modules(Some(String::new()), Some("X".to_string())), here);
    assert_eq!(
        path_for_modules(Some("C:\\team".to_string()), None),
        "C:\\team\\?.lua;C:\\team\\?\\init.lua;C:\\team/?.lua;C:\\team/?/init.lua;;"
    );
}
