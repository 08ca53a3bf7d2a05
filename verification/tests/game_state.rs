//! The state of the game and the task that follows the referee.

use protobuf::CodedOutputStream;
use rustengine::game_controller::{
    Action, Announced, Failure, GameController, GameControllerEvent, GameState, ReceiveError,
    Reception, TeamInfo,
};
use rustengine::referee::{Command, PointMessage, Referee, Stage};

fn team(name: &str, score: u32) -> Vec<u8> {
    let mut bytes: Vec<u8> = Vec::new();
    let mut out = CodedOutputStream::vec(&mut bytes);
    out.write_string(1, name).unwrap();
    out.write_uint32(2, score).unwrap();
    out.write_uint32(3, 1).unwrap();
    out.write_uint32(4, 120_000_000).unwrap();
    out.write_uint32(5, 2).unwrap();
    out.write_uint32(6, 4).unwrap();
    out.write_uint32(7, 300_000_000).unwrap();
    out.write_uint32(8, 5).unwrap();
    out.flush().unwrap();
    drop(out);
    bytes
}

fn message(stage: i32, command: i32, counter: u32) -> Vec<u8> {
    let mut bytes: Vec<u8> = Vec::new();
    let mut out = CodedOutputStream::vec(&mut bytes);
    out.write_uint64(1, 1_700_000_000_000_000).unwrap();
    out.write_enum(2, stage).unwrap();
    out.write_enum(4, command).unwrap();
    out.write_uint32(5, counter).unwrap();
    out.write_uint64(6, 42).unwrap();
    out.write_bytes(7, &team("Amarillo", 3)).unwrap();
    out.write_bytes(8, &team("Azul", 0)).unwrap();
    out.flush().unwrap();
    drop(out);
    bytes
}

fn receiver() -> GameController {
    let mut gc = GameController::new("224.5.23.1".to_string(), 10003);
    gc.initialize();
    gc
}

fn describe(event: &GameControllerEvent) -> String {
    match event {
        GameControllerEvent::RefereeMessage(state) => format!("message {}", state.command_counter),
        GameControllerEvent::CommandChanged(command) => format!("command {:?}", command),
        GameControllerEvent::StageChanged(stage) => format!("stage {:?}", stage),
    }
}

fn events(action: &Action) -> Vec<String> {
    match action {
        Action::Publish { events, .. } => events.iter().map(describe).collect(),
        _ => panic!("nothing was published"),
    }
}

#[test]
fn test_game_state_default() {
    let state = GameState::default();
    assert_eq!(state.command, Command::HALT);
    assert_eq!(state.stage, Stage::NORMAL_FIRST_HALF_PRE);
    assert_eq!(state.command_counter, 0);
}

#[test]
fn test_game_state_helpers() {
    let mut state = GameState::default();

    state.command = Command::HALT;
    assert!(state.is_halted());
    assert!(state.is_stopped());
    assert!(!state.is_running());

    state.command = Command::STOP;
    assert!(!state.is_halted());
    assert!(state.is_stopped());
    assert!(!state.is_running());

    state.command = Command::NORMAL_START;
    assert!(!state.is_halted());
    assert!(!state.is_stopped());
    assert!(state.is_running());

    state.command = Command::BALL_PLACEMENT_BLUE;
    assert!(state.is_ball_placement());
    assert_eq!(state.ball_placement_team(), Some(0));

    state.command = Command::BALL_PLACEMENT_YELLOW;
    assert!(state.is_ball_placement());
    assert_eq!(state.ball_placement_team(), Some(1));
}

#[test]
fn other_commands_place_no_ball() {
    let mut state = GameState::default();
    state.command = Command::FORCE_START;
    assert!(state.is_running());
    assert!(!state.is_ball_placement());
    assert_eq!(state.ball_placement_team(), None);
    state.command = Command::TIMEOUT_BLUE;
    assert!(!state.is_running() && !state.is_stopped() && !state.is_ball_placement());
}

#[test]
fn an_unknown_team_is_empty() {
    let team = TeamInfo::default();
    assert_eq!(team.name, "");
    assert_eq!(team.yellow_card_times, Vec::<u32>::new());
    assert_eq!((team.score, team.red_cards, team.yellow_cards), (0, 0, 0));
    assert_eq!((team.timeouts, team.timeout_time, team.goalkeeper), (0, 0, 0));
}

#[test]
fn a_receiver_binds_to_its_port_on_all_interfaces() {
    let mut gc = GameController::new("224.5.23.1".to_string(), 10003);
    assert_eq!(gc.bind_address(), "0.0.0.0:10003");
    assert_eq!(gc.multicast_ip(), "224.5.23.1");
    assert!(!gc.is_initialized());
    gc.initialize();
    assert!(gc.is_initialized());
    assert_eq!(gc.multicast_ip(), "224.5.23.1");
    assert_eq!(GameController::new(String::new(), 0).bind_address(), "0.0.0.0:0");
    assert_eq!(GameController::new(String::new(), 65535).bind_address(), "0.0.0.0:65535");
}

#[test]
fn without_a_socket_nothing_is_received() {
    let gc = GameController::new("224.5.23.1".to_string(), 10003);
    let error = gc.receive_message(Reception::Datagram(message(0, 0, 1))).unwrap_err();
    assert!(matches!(error, ReceiveError::NotInitialized));
    assert_eq!(error.message(), "Socket no inicializado");
}

#[test]
fn waits_and_broken_datagrams_are_no_errors() {
    let gc = receiver();
    assert!(gc.receive_message(Reception::Failed(Failure::TimedOut)).unwrap().is_none());
    assert!(gc.receive_message(Reception::Failed(Failure::WouldBlock)).unwrap().is_none());
    assert!(gc.receive_message(Reception::Datagram(vec![0xff])).unwrap().is_none());
    assert!(gc.receive_message(Reception::Datagram(vec![])).unwrap().is_none());
}

#[test]
fn a_failed_socket_is_an_error() {
    let gc = receiver();
    let failure = Failure::Other("red caída".to_string());
    let error = gc.receive_message(Reception::Failed(failure)).unwrap_err();
    assert_eq!(error.message(), "Error recibiendo mensaje: red caída");
}

#[test]
fn a_message_becomes_a_state() {
    let mut bytes = message(1, 3, 7);
    let mut out = CodedOutputStream::vec(&mut bytes);
    out.write_sint64(3, -250).unwrap();
    let mut point: Vec<u8> = Vec::new();
    let mut inner = CodedOutputStream::vec(&mut point);
    inner.write_float(1, -1234.5).unwrap();
    inner.write_float(2, 600.0).unwrap();
    inner.flush().unwrap();
    drop(inner);
    out.write_bytes(9, &point).unwrap();
    out.write_bool(10, true).unwrap();
    out.write_enum(12, 16).unwrap();
    out.write_sint64(15, 5_000_000).unwrap();
    out.write_string(20, "¡Hola!").unwrap();
    out.flush().unwrap();
    drop(out);

    let received = receiver().receive_message(Reception::Datagram(bytes)).unwrap().unwrap();
    let state = GameController::parse_referee_message(&received);
    assert_eq!(state.stage, Stage::NORMAL_FIRST_HALF);
    assert_eq!(state.stage_time_left, Some(-250));
    assert_eq!(state.command, Command::FORCE_START);
    assert_eq!(state.command_counter, 7);
    assert_eq!(state.command_timestamp, 42);
    assert_eq!(state.yellow_team.name, "Amarillo");
    assert_eq!(state.yellow_team.score, 3);
    assert_eq!(state.yellow_team.red_cards, 1);
    assert_eq!(state.yellow_team.yellow_card_times, vec![120_000_000]);
    assert_eq!(state.yellow_team.yellow_cards, 2);
    assert_eq!(state.yellow_team.timeouts, 4);
    assert_eq!(state.yellow_team.timeout_time, 300_000_000);
    assert_eq!(state.yellow_team.goalkeeper, 5);
    assert_eq!(state.blue_team.name, "Azul");
    assert_eq!(state.blue_team.score, 0);
    let position = state.designated_position.unwrap();
    assert_eq!(f32::from_bits(position.x.to_bits()), -1234.5f32 / 1000.0);
    assert_eq!(f32::from_bits(position.y.to_bits()), 600.0f32 / 1000.0);
    assert!(state.blue_team_on_positive_half);
    assert_eq!(state.next_command, Some(Command::BALL_PLACEMENT_YELLOW));
    assert_eq!(state.current_action_time_remaining, Some(5_000_000));
    assert_eq!(state.status_message, Some("¡Hola!".to_string()));
}

#[test]
fn what_a_message_leaves_out_has_defaults() {
    let message = Referee {
        packet_timestamp: None,
        stage: None,
        stage_time_left: None,
        command: None,
        command_counter: None,
        command_timestamp: None,
        yellow: None,
        blue: None,
        designated_position: Some(PointMessage { x: None, y: Some(1500.0f32.to_bits()) }),
        blue_team_on_positive_half: None,
        next_command: None,
        current_action_time_remaining: None,
        status_message: None,
    };
    let state = GameController::parse_referee_message(&message);
    assert_eq!(state.stage, Stage::NORMAL_FIRST_HALF_PRE);
    assert!(state.is_halted());
    assert_eq!(state.command_counter, 0);
    assert_eq!(state.yellow_team.name, "");
    assert_eq!(state.next_command, None);
    assert!(!state.blue_team_on_positive_half);
    let position = state.designated_position.unwrap();
    assert_eq!(f32::from_bits(position.x.to_bits()), 0.0);
    assert_eq!(f32::from_bits(position.y.to_bits()), 1.5);
}

#[test]
fn an_unknown_command_halts_the_game() {
    let mut bytes = message(99, 77, 1);
    let mut out = CodedOutputStream::vec(&mut bytes);
    out.write_enum(12, -5).unwrap();
    out.flush().unwrap();
    drop(out);
    let received = Referee::parse_from_bytes(&bytes).unwrap();
    assert_eq!(received.command, Some(77));
    assert_eq!(received.next_command, Some(-5));
    let state = GameController::parse_referee_message(&received);
    assert!(state.is_halted());
    assert_eq!(state.stage, Stage::NORMAL_FIRST_HALF_PRE);
    assert_eq!(state.next_command, Some(Command::HALT));
}

#[test]
fn listeners_are_told_what_changed() {
    let gc = receiver();
    let mut announced = Announced::new();
    let first = gc.run(&mut announced, Reception::Datagram(message(0, 0, 1)), true);
    assert_eq!(events(&first), vec!["message 1"]);
    let second = gc.run(&mut announced, Reception::Datagram(message(1, 2, 2)), true);
    assert_eq!(
        events(&second),
        vec!["message 2", "command NORMAL_START", "stage NORMAL_FIRST_HALF"]
    );
    let third = gc.run(&mut announced, Reception::Datagram(message(1, 2, 3)), true);
    assert_eq!(events(&third), vec!["message 3"]);
    let fourth = gc.run(&mut announced, Reception::Datagram(message(2, 2, 4)), true);
    assert_eq!(events(&fourth), vec!["message 4", "stage NORMAL_HALF_TIME"]);
    let fifth = gc.run(&mut announced, Reception::Datagram(message(2, 1, 5)), true);
    assert_eq!(events(&fifth), vec!["message 5", "command STOP"]);
    assert_eq!(announced, Announced { command: Command::STOP, stage: Stage::NORMAL_HALF_TIME });
}

#[test]
fn without_a_listener_nothing_is_announced() {
    let gc = receiver();
    let mut announced = Announced::new();
    let action = gc.run(&mut announced, Reception::Datagram(message(1, 2, 200)), false);
    assert_eq!(events(&action), Vec::<String>::new());
    assert_eq!(announced, Announced::new());
    match action {
        Action::Publish { state, report, .. } => {
            assert!(report);
            assert!(state.is_running());
        }
        _ => panic!("nothing was published"),
    }
}

#[test]
fn the_state_is_reported_every_hundred_commands() {
    let gc = receiver();
    let reported = |counter: u32| {
        let reception = Reception::Datagram(message(0, 0, counter));
        match gc.run(&mut Announced::new(), reception, true) {
            Action::Publish { report, .. } => report,
            _ => panic!("nothing was published"),
        }
    };
    assert!(reported(0));
    assert!(!reported(1));
    assert!(!reported(99));
    assert!(reported(100));
    assert!(!reported(101));
}

#[test]
fn the_task_waits_and_pauses() {
    let gc = receiver();
    let mut announced = Announced::new();
    let late = Reception::Failed(Failure::TimedOut);
    assert!(matches!(gc.run(&mut announced, late, true), Action::Wait));
    assert!(matches!(gc.run(&mut announced, Reception::Datagram(vec![8]), true), Action::Wait));
    match gc.run(&mut announced, Reception::Failed(Failure::Other("x".to_string())), true) {
        Action::Pause { error, millis } => {
            assert_eq!(millis, 100);
            assert_eq!(error.message(), "Error recibiendo mensaje: x");
        }
        _ => panic!("no pause"),
    }
    assert_eq!(announced, Announced::new());
}

#[test]
fn copies_hold_the_same() {
    let received = Referee::parse_from_bytes(&message(1, 2, 9)).unwrap();
    let state = GameController::parse_referee_message(&received);
    let copy = state.clone();
    assert_eq!(copy.yellow_team.name, state.yellow_team.name);
    assert_eq!(copy.yellow_team.yellow_card_times, state.yellow_team.yellow_card_times);
    assert_eq!(copy.command, state.command);
    let event = GameControllerEvent::RefereeMessage(state);
    assert_eq!(describe(&event.clone()), "message 9");
    assert_eq!(
        describe(&GameControllerEvent::StageChanged(Stage::POST_GAME).clone()),
        "stage POST_GAME"
    );
}
