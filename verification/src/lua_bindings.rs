//! What a strategy script can ask of the engine.
//!
//! A script reads snapshots of the world and of the game, and issues commands.
//! Each function here is one that a script can call: it gives back what the
//! script gets, or the command that the call issues.

use crate::game_controller::GameState;
use crate::motion::commands::{KickerCommand, MotionCommand};
use crate::referee::{optional_text, Command};
use crate::scalar::Scalar;
use crate::single::{Single, Vec2};
use crate::world::{BallState, RobotState, BLUE_TEAM, YELLOW_TEAM};
use vstd::prelude::*;
use vstd::string::StringExecFns;

verus! {

/// A command that a script issues.
#[derive(Debug, Clone, Copy, PartialEq, Eq, Structural)]
pub enum LuaCommand {
    Motion(MotionCommand),
    Kicker(KickerCommand),
    /// Go to a point, round obstacles.
    MoveToRequest { id: i32, team: i32, target: Vec2 },
    /// Go to a point on a straight line.
    MoveDirectRequest { id: i32, team: i32, target: Vec2 },
    /// Turn towards a point, with these gains.
    FaceToRequest { id: i32, team: i32, target: Vec2, kp: Scalar, ki: Scalar, kd: Scalar },
}

impl LuaCommand {
    /// The robot that the command is for.
    pub open spec fn robot(self) -> (i32, i32) {
        match self {
            LuaCommand::Motion(c) => (c.id, c.team),
            LuaCommand::Kicker(c) => (c.id, c.team),
            LuaCommand::MoveToRequest { id, team, .. } => (id, team),
            LuaCommand::MoveDirectRequest { id, team, .. } => (id, team),
            LuaCommand::FaceToRequest { id, team, .. } => (id, team),
        }
    }
}

/// A robot as a script sees it.
#[derive(Debug, Clone, Copy, PartialEq, Eq, Structural)]
pub struct RobotSnapshot {
    pub id: i32,
    pub team: i32,
    pub x: Scalar,
    pub y: Scalar,
    pub vel_x: Scalar,
    pub vel_y: Scalar,
    pub orientation: Scalar,
    pub active: bool,
}

/// The ball as a script sees it.
#[derive(Debug, Clone, Copy, PartialEq, Eq, Structural)]
pub struct BallSnapshot {
    pub x: Scalar,
    pub y: Scalar,
    pub vel_x: Scalar,
    pub vel_y: Scalar,
}

/// The world at one moment, as a script sees it.
#[derive(Debug)]
pub struct WorldSnapshot {
    pub ball: BallSnapshot,
    pub blue_robots: Vec<RobotSnapshot>,
    pub yellow_robots: Vec<RobotSnapshot>,
}

/// The game at one moment, as a script sees it.
#[derive(Debug)]
pub struct GameStateSnapshot {
    /// The referee's command, by its name.
    pub command: String,
}

impl Clone for WorldSnapshot {
    fn clone(&self) -> (result: Self)
        ensures
            result.ball == self.ball,
            result.blue_robots@ == self.blue_robots@,
            result.yellow_robots@ == self.yellow_robots@,
    {
        let result = WorldSnapshot {
            ball: self.ball,
            blue_robots: self.blue_robots.clone(),
            yellow_robots: self.yellow_robots.clone(),
        };
        assert(result.blue_robots@ =~= self.blue_robots@);
        assert(result.yellow_robots@ =~= self.yellow_robots@);
        result
    }
}

impl Clone for GameStateSnapshot {
    fn clone(&self) -> (result: Self)
        ensures
            result.command@ == self.command@,
    {
        GameStateSnapshot { command: self.command.clone() }
    }
}

/// A robot as a script sees it: its numbers in double precision.
pub open spec fn robot_snapshot(robot: RobotState) -> RobotSnapshot {
    RobotSnapshot {
        id: robot.id,
        team: robot.team,
        x: robot.position.x.widened(),
        y: robot.position.y.widened(),
        vel_x: robot.velocity.x.widened(),
        vel_y: robot.velocity.y.widened(),
        orientation: robot.orientation,
        active: robot.active,
    }
}

/// The ball as a script sees it: its numbers in double precision.
pub open spec fn ball_snapshot(ball: BallState) -> BallSnapshot {
    BallSnapshot {
        x: ball.position.x.widened(),
        y: ball.position.y.widened(),
        vel_x: ball.velocity.x.widened(),
        vel_y: ball.velocity.y.widened(),
    }
}

impl From<&RobotState> for RobotSnapshot {
    fn from(robot: &RobotState) -> (result: Self) {
        RobotSnapshot {
            id: robot.id,
            team: robot.team,
            x: robot.position.x.widen(),
            y: robot.position.y.widen(),
            vel_x: robot.velocity.x.widen(),
            vel_y: robot.velocity.y.widen(),
            orientation: robot.orientation,
            active: robot.active,
        }
    }
}

impl vstd::std_specs::convert::FromSpecImpl<&RobotState> for RobotSnapshot {
    open spec fn obeys_from_spec() -> bool {
        true
    }

    open spec fn from_spec(robot: &RobotState) -> Self {
        robot_snapshot(*robot)
    }
}

impl From<&BallState> for BallSnapshot {
    fn from(ball: &BallState) -> (result: Self) {
        BallSnapshot {
            x: ball.position.x.widen(),
            y: ball.position.y.widen(),
            vel_x: ball.velocity.x.widen(),
            vel_y: ball.velocity.y.widen(),
        }
    }
}

impl vstd::std_specs::convert::FromSpecImpl<&BallState> for BallSnapshot {
    open spec fn obeys_from_spec() -> bool {
        true
    }

    open spec fn from_spec(ball: &BallState) -> Self {
        ball_snapshot(*ball)
    }
}

impl BallSnapshot {
    /// A ball that rests at the origin.
    #[verifier::allow_in_spec]
    pub fn at_rest() -> (result: BallSnapshot)
        returns
            (BallSnapshot {
                x: Scalar::zero(),
                y: Scalar::zero(),
                vel_x: Scalar::zero(),
                vel_y: Scalar::zero(),
            }),
    {
        BallSnapshot {
            x: Scalar::zero(),
            y: Scalar::zero(),
            vel_x: Scalar::zero(),
            vel_y: Scalar::zero(),
        }
    }
}

/// The robots as a script sees them, in the same order.
pub open spec fn robot_snapshots(robots: Seq<RobotState>) -> Seq<RobotSnapshot> {
    robots.map_values(|r: RobotState| robot_snapshot(r))
}

/// The first robot with this number.
pub open spec fn first_with_id(robots: Seq<RobotSnapshot>, id: i32) -> Option<RobotSnapshot>
    decreases robots.len(),
{
    if robots.len() == 0 {
        None
    } else if robots[0].id == id {
        Some(robots[0])
    } else {
        first_with_id(robots.skip(1), id)
    }
}

fn snapshot_robots(robots: &Vec<RobotState>) -> (result: Vec<RobotSnapshot>)
    ensures
        result@ == robot_snapshots(robots@),
{
    let mut result: Vec<RobotSnapshot> = Vec::new();
    let mut i: usize = 0;
    while i < robots.len()
        invariant
            i <= robots@.len(),
            result@ =~= robot_snapshots(robots@.take(i as int)),
        decreases robots@.len() - i,
    {
        result.push(RobotSnapshot::from(&robots[i]));
        i = i + 1;
    }
    assert(robots@.take(i as int) =~= robots@);
    result
}

fn find_robot(robots: &Vec<RobotSnapshot>, id: i32) -> (result: Option<&RobotSnapshot>)
    ensures
        match result {
            Some(robot) => first_with_id(robots@, id) == Some(*robot),
            None => first_with_id(robots@, id) is None,
        },
{
    let mut i: usize = 0;
    assert(robots@.skip(0) =~= robots@);
    while i < robots.len()
        invariant
            i <= robots@.len(),
            first_with_id(robots@, id) == first_with_id(robots@.skip(i as int), id),
        decreases robots@.len() - i,
    {
        if robots[i].id == id {
            return Some(&robots[i]);
        }
        assert(robots@.skip(i as int).skip(1) =~= robots@.skip(i + 1));
        i = i + 1;
    }
    None
}

impl WorldSnapshot {
    /// The robot of this team with this number, if there is one.
    pub open spec fn robot(self, id: i32, team: i32) -> Option<RobotSnapshot> {
        if team == BLUE_TEAM {
            first_with_id(self.blue_robots@, id)
        } else if team == YELLOW_TEAM {
            first_with_id(self.yellow_robots@, id)
        } else {
            None
        }
    }

    /// The world before anything was seen.
    pub fn empty() -> (result: Self)
        ensures
            result.ball == BallSnapshot::at_rest(),
            result.blue_robots@ == Seq::<RobotSnapshot>::empty(),
            result.yellow_robots@ == Seq::<RobotSnapshot>::empty(),
    {
        WorldSnapshot {
            ball: BallSnapshot::at_rest(),
            blue_robots: Vec::new(),
            yellow_robots: Vec::new(),
        }
    }

    /// The world with this ball and these active robots of either team.
    pub fn from_world(
        ball: &BallState,
        blue_team_active: &Vec<RobotState>,
        yellow_team_active: &Vec<RobotState>,
    ) -> (result: Self)
        ensures
            result.ball == ball_snapshot(*ball),
            result.blue_robots@ == robot_snapshots(blue_team_active@),
            result.yellow_robots@ == robot_snapshots(yellow_team_active@),
    {
        WorldSnapshot {
            ball: BallSnapshot::from(ball),
            blue_robots: snapshot_robots(blue_team_active),
            yellow_robots: snapshot_robots(yellow_team_active),
        }
    }

    /// The robot of this team with this number, if there is one.
    pub fn get_robot_state(&self, id: i32, team: i32) -> (result: Option<&RobotSnapshot>)
        ensures
            match result {
                Some(robot) => self.robot(id, team) == Some(*robot),
                None => self.robot(id, team) is None,
            },
    {
        match team {
            0 => find_robot(&self.blue_robots, id),
            1 => find_robot(&self.yellow_robots, id),
            _ => None,
        }
    }
}

/// The name by which a script knows a command.
pub open spec fn command_name(command: Command) -> Seq<char> {
    match command {
        Command::HALT => "HALT"@,
        Command::STOP => "STOP"@,
        Command::NORMAL_START => "NORMAL_START"@,
        Command::FORCE_START => "FORCE_START"@,
        Command::PREPARE_KICKOFF_YELLOW => "PREPARE_KICKOFF_YELLOW"@,
        Command::PREPARE_KICKOFF_BLUE => "PREPARE_KICKOFF_BLUE"@,
        Command::PREPARE_PENALTY_YELLOW => "PREPARE_PENALTY_YELLOW"@,
        Command::PREPARE_PENALTY_BLUE => "PREPARE_PENALTY_BLUE"@,
        Command::DIRECT_FREE_YELLOW => "DIRECT_FREE_YELLOW"@,
        Command::DIRECT_FREE_BLUE => "DIRECT_FREE_BLUE"@,
        Command::INDIRECT_FREE_YELLOW => "INDIRECT_FREE_YELLOW"@,
        Command::INDIRECT_FREE_BLUE => "INDIRECT_FREE_BLUE"@,
        Command::TIMEOUT_YELLOW => "TIMEOUT_YELLOW"@,
        Command::TIMEOUT_BLUE => "TIMEOUT_BLUE"@,
        Command::GOAL_YELLOW => "GOAL_YELLOW"@,
        Command::GOAL_BLUE => "GOAL_BLUE"@,
        Command::BALL_PLACEMENT_YELLOW => "BALL_PLACEMENT_YELLOW"@,
        Command::BALL_PLACEMENT_BLUE => "BALL_PLACEMENT_BLUE"@,
    }
}

/// The name by which a script knows a command.
pub fn command_to_string(cmd: Command) -> (result: String)
    ensures
        result@ == command_name(cmd),
{
    let name: &str = match cmd {
        Command::HALT => "HALT",
        Command::STOP => "STOP",
        Command::NORMAL_START => "NORMAL_START",
        Command::FORCE_START => "FORCE_START",
        Command::PREPARE_KICKOFF_YELLOW => "PREPARE_KICKOFF_YELLOW",
        Command::PREPARE_KICKOFF_BLUE => "PREPARE_KICKOFF_BLUE",
        Command::PREPARE_PENALTY_YELLOW => "PREPARE_PENALTY_YELLOW",
        Command::PREPARE_PENALTY_BLUE => "PREPARE_PENALTY_BLUE",
        Command::DIRECT_FREE_YELLOW => "DIRECT_FREE_YELLOW",
        Command::DIRECT_FREE_BLUE => "DIRECT_FREE_BLUE",
        Command::INDIRECT_FREE_YELLOW => "INDIRECT_FREE_YELLOW",
        Command::INDIRECT_FREE_BLUE => "INDIRECT_FREE_BLUE",
        Command::TIMEOUT_YELLOW => "TIMEOUT_YELLOW",
        Command::TIMEOUT_BLUE => "TIMEOUT_BLUE",
        Command::GOAL_YELLOW => "GOAL_YELLOW",
        Command::GOAL_BLUE => "GOAL_BLUE",
        Command::BALL_PLACEMENT_YELLOW => "BALL_PLACEMENT_YELLOW",
        Command::BALL_PLACEMENT_BLUE => "BALL_PLACEMENT_BLUE",
    };
    String::from_str(name)
}

/// The name that stands for no command: it is there before the first message.
pub open spec fn no_command_name() -> Seq<char> {
    "UNKNOWN"@
}

/// A script can tell the commands apart by name, and none of them from a game
/// without a command.
pub proof fn law_command_names_differ(a: Command, b: Command)
    ensures
        command_name(a) == command_name(b) <==> a == b,
        command_name(a) != no_command_name(),
{
    reveal_strlit("HALT");
    reveal_strlit("STOP");
    reveal_strlit("NORMAL_START");
    reveal_strlit("FORCE_START");
    reveal_strlit("PREPARE_KICKOFF_YELLOW");
    reveal_strlit("PREPARE_KICKOFF_BLUE");
    reveal_strlit("PREPARE_PENALTY_YELLOW");
    reveal_strlit("PREPARE_PENALTY_BLUE");
    reveal_strlit("DIRECT_FREE_YELLOW");
    reveal_strlit("DIRECT_FREE_BLUE");
    reveal_strlit("INDIRECT_FREE_YELLOW");
    reveal_strlit("INDIRECT_FREE_BLUE");
    reveal_strlit("TIMEOUT_YELLOW");
    reveal_strlit("TIMEOUT_BLUE");
    reveal_strlit("GOAL_YELLOW");
    reveal_strlit("GOAL_BLUE");
    reveal_strlit("BALL_PLACEMENT_YELLOW");
    reveal_strlit("BALL_PLACEMENT_BLUE");
    reveal_strlit("UNKNOWN");
    let (m, n) = (command_name(a), command_name(b));
    if a != b {
        assert(m.len() != n.len() || m[0] != n[0] || (m.len() > 8 && m[8] != n[8]));
    }
    assert(m.len() != no_command_name().len());
}

/// A value in a script's table.
#[derive(Debug, Clone, Copy, PartialEq, Eq, Structural)]
pub enum LuaValue {
    Integer(i32),
    Number(Scalar),
    Boolean(bool),
}

/// A field of a script's table.
#[derive(Debug, Clone, Copy)]
pub struct LuaField {
    pub key: &'static str,
    pub value: LuaValue,
}

/// The fields of a table, by contents.
pub open spec fn table_view(fields: Seq<LuaField>) -> Seq<(Seq<char>, LuaValue)> {
    fields.map_values(|f: LuaField| (f.key@, f.value))
}

/// The table that a script gets for a robot.
pub open spec fn robot_table(robot: RobotSnapshot) -> Seq<(Seq<char>, LuaValue)> {
    seq![
        ("id"@, LuaValue::Integer(robot.id)),
        ("team"@, LuaValue::Integer(robot.team)),
        ("x"@, LuaValue::Number(robot.x)),
        ("y"@, LuaValue::Number(robot.y)),
        ("vel_x"@, LuaValue::Number(robot.vel_x)),
        ("vel_y"@, LuaValue::Number(robot.vel_y)),
        ("orientation"@, LuaValue::Number(robot.orientation)),
        ("active"@, LuaValue::Boolean(robot.active)),
    ]
}

/// The table that a script gets for the ball.
pub open spec fn ball_table(ball: BallSnapshot) -> Seq<(Seq<char>, LuaValue)> {
    seq![
        ("x"@, LuaValue::Number(ball.x)),
        ("y"@, LuaValue::Number(ball.y)),
        ("vel_x"@, LuaValue::Number(ball.vel_x)),
        ("vel_y"@, LuaValue::Number(ball.vel_y)),
    ]
}

fn make_robot_table(robot: &RobotSnapshot) -> (result: Vec<LuaField>)
    ensures
        table_view(result@) == robot_table(*robot),
{
    let fields: Vec<LuaField> = vec![
        LuaField { key: "id", value: LuaValue::Integer(robot.id) },
        LuaField { key: "team", value: LuaValue::Integer(robot.team) },
        LuaField { key: "x", value: LuaValue::Number(robot.x) },
        LuaField { key: "y", value: LuaValue::Number(robot.y) },
        LuaField { key: "vel_x", value: LuaValue::Number(robot.vel_x) },
        LuaField { key: "vel_y", value: LuaValue::Number(robot.vel_y) },
        LuaField { key: "orientation", value: LuaValue::Number(robot.orientation) },
        LuaField { key: "active", value: LuaValue::Boolean(robot.active) },
    ];
    assert(table_view(fields@) =~= robot_table(*robot));
    fields
}

fn make_ball_table(ball: &BallSnapshot) -> (result: Vec<LuaField>)
    ensures
        table_view(result@) == ball_table(*ball),
{
    let fields: Vec<LuaField> = vec![
        LuaField { key: "x", value: LuaValue::Number(ball.x) },
        LuaField { key: "y", value: LuaValue::Number(ball.y) },
        LuaField { key: "vel_x", value: LuaValue::Number(ball.vel_x) },
        LuaField { key: "vel_y", value: LuaValue::Number(ball.vel_y) },
    ];
    assert(table_view(fields@) =~= ball_table(*ball));
    fields
}

/// A table in a script's array, and where it stands in it.
#[derive(Debug)]
pub struct LuaEntry {
    pub index: usize,
    pub fields: Vec<LuaField>,
}

/// Whether `entries` is the script's array of these robots: it counts from 1.
pub open spec fn is_robot_array(entries: Seq<LuaEntry>, robots: Seq<RobotSnapshot>) -> bool {
    &&& entries.len() == robots.len()
    &&& forall|i: int|
        0 <= i < robots.len() ==> (#[trigger] entries[i]).index == i + 1 && table_view(
            entries[i].fields@,
        ) == robot_table(robots[i])
}

fn make_robot_array(robots: &Vec<RobotSnapshot>) -> (result: Vec<LuaEntry>)
    ensures
        is_robot_array(result@, robots@),
{
    let mut entries: Vec<LuaEntry> = Vec::new();
    let mut i: usize = 0;
    while i < robots.len()
        invariant
            i <= robots@.len(),
            is_robot_array(entries@, robots@.take(i as int)),
        decreases robots@.len() - i,
    {
        entries.push(LuaEntry { index: i + 1, fields: make_robot_table(&robots[i]) });
        i = i + 1;
    }
    assert(robots@.take(i as int) =~= robots@);
    entries
}

/// The largest number that a robot can have.
pub const MAX_ROBOT_ID: i32 = 10;

/// Whether a script can name this robot.
pub open spec fn valid_robot(id: i32, team: i32) -> bool {
    0 <= id <= MAX_ROBOT_ID && (team == BLUE_TEAM || team == YELLOW_TEAM)
}

fn is_valid_robot(id: i32, team: i32) -> (result: bool)
    ensures
        result == valid_robot(id, team),
{
    0 <= id && id <= MAX_ROBOT_ID && (team == BLUE_TEAM || team == YELLOW_TEAM)
}

/// The largest speed that a script can ask for, along either axis: 3.
pub const SPEED_LIMIT: u64 = 0x4008_0000_0000_0000;

/// The largest speed against an axis: -3.
pub const BACKWARD_SPEED_LIMIT: u64 = 0xc008_0000_0000_0000;

/// The largest turning speed that a script can ask for: 10.
pub const TURN_LIMIT: u64 = 0x4024_0000_0000_0000;

/// The largest turning speed the other way: -10.
pub const BACKWARD_TURN_LIMIT: u64 = 0xc024_0000_0000_0000;

/// The largest speed of the dribbler: 4.
pub const DRIBBLER_LIMIT: u64 = 0x4010_0000_0000_0000;

/// The proportional gain of a turn for which none is given: 3.5.
pub const DEFAULT_KP: u64 = 0x400c_0000_0000_0000;

/// The integral gain of a turn for which none is given: 0.7.
pub const DEFAULT_KI: u64 = 0x3fe6_6666_6666_6666;

/// The derivative gain of a turn for which none is given: 0.1.
pub const DEFAULT_KD: u64 = 0x3fb9_9999_9999_999a;

/// A speed, held within its limits.
pub open spec fn limited_speed(v: Scalar) -> Scalar {
    v.held_between(Scalar { bits: BACKWARD_SPEED_LIMIT }, Scalar { bits: SPEED_LIMIT })
}

/// A turning speed, held within its limits.
pub open spec fn limited_turn(v: Scalar) -> Scalar {
    v.held_between(Scalar { bits: BACKWARD_TURN_LIMIT }, Scalar { bits: TURN_LIMIT })
}

/// A dribbler's speed, held within its limits.
pub open spec fn limited_dribbler(v: Scalar) -> Scalar {
    v.held_between(Scalar::zero(), Scalar { bits: DRIBBLER_LIMIT })
}

/// The point that a script's table holds, in single precision: a coordinate
/// that it lacks is zero.
pub open spec fn point_of(x: Option<Scalar>, y: Option<Scalar>) -> Vec2 {
    Vec2 {
        x: Single::narrowed(x.unwrap_or(Scalar::zero())),
        y: Single::narrowed(y.unwrap_or(Scalar::zero())),
    }
}

fn make_point(x: Option<Scalar>, y: Option<Scalar>) -> (result: Vec2)
    ensures
        result == point_of(x, y),
{
    let x = x.unwrap_or(Scalar::zero());
    let y = y.unwrap_or(Scalar::zero());
    Vec2 { x: Single::narrow(&x), y: Single::narrow(&y) }
}

/// The request that sends a robot to a point, if a script can name the robot.
pub open spec fn move_request(id: i32, team: i32, x: Option<Scalar>, y: Option<Scalar>) -> Option<
    LuaCommand,
> {
    if valid_robot(id, team) {
        Some(LuaCommand::MoveToRequest { id, team, target: point_of(x, y) })
    } else {
        None
    }
}

/// The request that sends a robot to a point on a straight line.
pub open spec fn direct_request(
    id: i32,
    team: i32,
    x: Option<Scalar>,
    y: Option<Scalar>,
) -> Option<LuaCommand> {
    if valid_robot(id, team) {
        Some(LuaCommand::MoveDirectRequest { id, team, target: point_of(x, y) })
    } else {
        None
    }
}

/// The request that turns a robot towards a point. A gain that is not given
/// has a default.
pub open spec fn turn_request(
    id: i32,
    team: i32,
    x: Option<Scalar>,
    y: Option<Scalar>,
    kp: Option<Scalar>,
    ki: Option<Scalar>,
    kd: Option<Scalar>,
) -> Option<LuaCommand> {
    if valid_robot(id, team) {
        Some(
            LuaCommand::FaceToRequest {
                id,
                team,
                target: point_of(x, y),
                kp: kp.unwrap_or(Scalar { bits: DEFAULT_KP }),
                ki: ki.unwrap_or(Scalar { bits: DEFAULT_KI }),
                kd: kd.unwrap_or(Scalar { bits: DEFAULT_KD }),
            },
        )
    } else {
        None
    }
}

/// The command that gives a robot a velocity within the limits.
pub open spec fn velocity_command(
    id: i32,
    team: i32,
    vx: Scalar,
    vy: Scalar,
    vtetha: Scalar,
    orientation: Scalar,
) -> Option<LuaCommand> {
    if valid_robot(id, team) {
        Some(
            LuaCommand::Motion(
                MotionCommand {
                    id,
                    team,
                    vx: limited_speed(vx),
                    vy: limited_speed(vy),
                    omega: limited_turn(vtetha),
                    orientation,
                },
            ),
        )
    } else {
        None
    }
}

/// The command that has a robot kick, chip or dribble.
pub open spec fn kicker_command(
    id: i32,
    team: i32,
    kick_x: bool,
    kick_z: bool,
    dribbler: Scalar,
) -> Option<LuaCommand> {
    if valid_robot(id, team) {
        Some(LuaCommand::Kicker(KickerCommand { id, team, kick_x, kick_z, dribbler }))
    } else {
        None
    }
}

/// What the functions of a script work on.
#[derive(Debug)]
pub struct LuaContext {
    pub world_snapshot: WorldSnapshot,
    pub game_state_snapshot: GameStateSnapshot,
}

impl LuaContext {
    /// A context in which nothing was seen and no command was given.
    pub fn new() -> (result: Self)
        ensures
            result.world_snapshot.ball == BallSnapshot::at_rest(),
            result.world_snapshot.blue_robots@ == Seq::<RobotSnapshot>::empty(),
            result.world_snapshot.yellow_robots@ == Seq::<RobotSnapshot>::empty(),
            result.game_state_snapshot.command@ == no_command_name(),
    {
        LuaContext {
            world_snapshot: WorldSnapshot::empty(),
            game_state_snapshot: GameStateSnapshot { command: String::from_str("UNKNOWN") },
        }
    }

    /// Takes a new snapshot of the world and of the game.
    pub fn update_snapshot(
        &mut self,
        ball: &BallState,
        blue_team_active: &Vec<RobotState>,
        yellow_team_active: &Vec<RobotState>,
        game_state: &GameState,
    )
        ensures
            final(self).world_snapshot.ball == ball_snapshot(*ball),
            final(self).world_snapshot.blue_robots@ == robot_snapshots(blue_team_active@),
            final(self).world_snapshot.yellow_robots@ == robot_snapshots(yellow_team_active@),
            final(self).game_state_snapshot.command@ == command_name(game_state.command),
    {
        self.world_snapshot = WorldSnapshot::from_world(ball, blue_team_active, yellow_team_active);
        self.update_game_state_snapshot(game_state);
    }

    /// Takes a new snapshot of the game.
    pub fn update_game_state_snapshot(&mut self, game_state: &GameState)
        ensures
            final(self).world_snapshot == old(self).world_snapshot,
            final(self).game_state_snapshot.command@ == command_name(game_state.command),
    {
        self.game_state_snapshot.command = command_to_string(game_state.command);
    }

    /// The table of a robot, if a script can name it and it is there.
    pub fn get_robot_state(&self, id: i32, team: i32) -> (result: Option<Vec<LuaField>>)
        ensures
            match result {
                Some(fields) => valid_robot(id, team) && (self.world_snapshot.robot(id, team)
                    matches Some(robot) && table_view(fields@) == robot_table(robot)),
                None => !valid_robot(id, team) || self.world_snapshot.robot(id, team) is None,
            },
    {
        if !is_valid_robot(id, team) {
            return None;
        }
        match self.world_snapshot.get_robot_state(id, team) {
            Some(robot) => Some(make_robot_table(robot)),
            None => None,
        }
    }

    /// The table of the ball.
    pub fn get_ball_state(&self) -> (result: Vec<LuaField>)
        ensures
            table_view(result@) == ball_table(self.world_snapshot.ball),
    {
        make_ball_table(&self.world_snapshot.ball)
    }

    /// The array of the blue team's robots.
    pub fn get_blue_team_state(&self) -> (result: Vec<LuaEntry>)
        ensures
            is_robot_array(result@, self.world_snapshot.blue_robots@),
    {
        make_robot_array(&self.world_snapshot.blue_robots)
    }

    /// The array of the yellow team's robots.
    pub fn get_yellow_team_state(&self) -> (result: Vec<LuaEntry>)
        ensures
            is_robot_array(result@, self.world_snapshot.yellow_robots@),
    {
        make_robot_array(&self.world_snapshot.yellow_robots)
    }

    /// Sends a robot to a point, round obstacles.
    pub fn move_to(&self, id: i32, team: i32, x: Option<Scalar>, y: Option<Scalar>) -> (result:
        Option<LuaCommand>)
        ensures
            result == move_request(id, team, x, y),
    {
        if !is_valid_robot(id, team) {
            return None;
        }
        Some(LuaCommand::MoveToRequest { id, team, target: make_point(x, y) })
    }

    /// Sends a robot to a point on a straight line.
    pub fn move_direct(&self, id: i32, team: i32, x: Option<Scalar>, y: Option<Scalar>) -> (result:
        Option<LuaCommand>)
        ensures
            result == direct_request(id, team, x, y),
    {
        if !is_valid_robot(id, team) {
            return None;
        }
        Some(LuaCommand::MoveDirectRequest { id, team, target: make_point(x, y) })
    }

    /// Turns a robot towards a point. A gain that is not given has a default.
    pub fn face_to(
        &self,
        id: i32,
        team: i32,
        x: Option<Scalar>,
        y: Option<Scalar>,
        kp: Option<Scalar>,
        ki: Option<Scalar>,
        kd: Option<Scalar>,
    ) -> (result: Option<LuaCommand>)
        ensures
            result == turn_request(id, team, x, y, kp, ki, kd),
    {
        if !is_valid_robot(id, team) {
            return None;
        }
        Some(
            LuaCommand::FaceToRequest {
                id,
                team,
                target: make_point(x, y),
                kp: kp.unwrap_or(Scalar { bits: DEFAULT_KP }),
                ki: ki.unwrap_or(Scalar { bits: DEFAULT_KI }),
                kd: kd.unwrap_or(Scalar { bits: DEFAULT_KD }),
            },
        )
    }

    /// Where the robot faces according to the snapshot: zero if it is not there.
    pub open spec fn orientation(self, id: i32, team: i32) -> Scalar {
        match self.world_snapshot.robot(id, team) {
            Some(robot) => robot.orientation,
            None => Scalar::zero(),
        }
    }

    /// Gives a robot a velocity, within the limits.
    pub fn send_velocity(
        &self,
        id: i32,
        team: i32,
        vx: Scalar,
        vy: Scalar,
        vtetha: Scalar,
    ) -> (result: Option<LuaCommand>)
        ensures
            result == velocity_command(id, team, vx, vy, vtetha, self.orientation(id, team)),
    {
        if !is_valid_robot(id, team) {
            return None;
        }
        let low = Scalar { bits: BACKWARD_SPEED_LIMIT };
        let high = Scalar { bits: SPEED_LIMIT };
        let turn_low = Scalar { bits: BACKWARD_TURN_LIMIT };
        let turn_high = Scalar { bits: TURN_LIMIT };
        let orientation = match self.world_snapshot.get_robot_state(id, team) {
            Some(robot) => robot.orientation,
            None => Scalar::zero(),
        };
        Some(
            LuaCommand::Motion(
                MotionCommand {
                    id,
                    team,
                    vx: vx.clamp(&low, &high),
                    vy: vy.clamp(&low, &high),
                    omega: vtetha.clamp(&turn_low, &turn_high),
                    orientation,
                },
            ),
        )
    }

    /// Has a robot kick the ball along the ground.
    pub fn kickx(&self, id: i32, team: i32) -> (result: Option<LuaCommand>)
        ensures
            result == kicker_command(id, team, true, false, Scalar::zero()),
    {
        if !is_valid_robot(id, team) {
            return None;
        }
        Some(
            LuaCommand::Kicker(
                KickerCommand { id, team, kick_x: true, kick_z: false, dribbler: Scalar::zero() },
            ),
        )
    }

    /// Has a robot chip the ball.
    pub fn kickz(&self, id: i32, team: i32) -> (result: Option<LuaCommand>)
        ensures
            result == kicker_command(id, team, false, true, Scalar::zero()),
    {
        if !is_valid_robot(id, team) {
            return None;
        }
        Some(
            LuaCommand::Kicker(
                KickerCommand { id, team, kick_x: false, kick_z: true, dribbler: Scalar::zero() },
            ),
        )
    }

    /// Has a robot dribble, within the limit.
    pub fn dribbler(&self, id: i32, team: i32, speed: Scalar) -> (result: Option<LuaCommand>)
        ensures
            result == kicker_command(id, team, false, false, limited_dribbler(speed)),
    {
        if !is_valid_robot(id, team) {
            return None;
        }
        let low = Scalar::zero();
        let high = Scalar { bits: DRIBBLER_LIMIT };
        Some(
            LuaCommand::Kicker(
                KickerCommand {
                    id,
                    team,
                    kick_x: false,
                    kick_z: false,
                    dribbler: speed.clamp(&low, &high),
                },
            ),
        )
    }

    /// The referee's command, by its name.
    pub fn get_ref_message(&self) -> (result: String)
        ensures
            result@ == self.game_state_snapshot.command@,
    {
        self.game_state_snapshot.command.clone()
    }
}

/// A script issues a command exactly where it names a robot of one of the two
/// teams with a number from 0 to 10, and the command is for that robot.
pub proof fn law_commands_are_for_named_robots(
    id: i32,
    team: i32,
    x: Option<Scalar>,
    y: Option<Scalar>,
    gains: (Option<Scalar>, Option<Scalar>, Option<Scalar>),
    velocity: (Scalar, Scalar, Scalar),
    orientation: Scalar,
    kicks: (bool, bool),
    dribbler: Scalar,
)
    ensures
        forall|command: Option<LuaCommand>|
            command == move_request(id, team, x, y) || command == direct_request(id, team, x, y)
                || command == turn_request(id, team, x, y, gains.0, gains.1, gains.2) || command
                == velocity_command(id, team, velocity.0, velocity.1, velocity.2, orientation)
                || command == kicker_command(id, team, kicks.0, kicks.1, dribbler) ==> (
            #[trigger] is_for(command, id, team)),
{
}

/// Whether a command is issued where the robot can be named, and then for it.
pub open spec fn is_for(command: Option<LuaCommand>, id: i32, team: i32) -> bool {
    match command {
        Some(c) => valid_robot(id, team) && c.robot() == (id, team),
        None => !valid_robot(id, team),
    }
}

/// The robot that is found has the number asked for, and is found exactly
/// where there is one: it is the first.
pub proof fn law_lookup_finds_the_first(robots: Seq<RobotSnapshot>, id: i32)
    ensures
        match first_with_id(robots, id) {
            Some(robot) => exists|i: int|
                0 <= i < robots.len() && #[trigger] robots[i] == robot && robot.id == id && (
                forall|j: int| 0 <= j < i ==> (#[trigger] robots[j]).id != id),
            None => forall|i: int| 0 <= i < robots.len() ==> (#[trigger] robots[i]).id != id,
        },
    decreases robots.len(),
{
    if robots.len() > 0 && robots[0].id != id {
        let rest = robots.skip(1);
        law_lookup_finds_the_first(rest, id);
        match first_with_id(rest, id) {
            Some(robot) => {
                let k = choose|k: int|
                    0 <= k < rest.len() && #[trigger] rest[k] == robot && robot.id == id && (
                    forall|j: int| 0 <= j < k ==> (#[trigger] rest[j]).id != id);
                assert(robots[k + 1] == robot);
                assert forall|j: int| 0 <= j < k + 1 implies (#[trigger] robots[j]).id != id by {
                    if j > 0 {
                        assert(rest[j - 1] == robots[j]);
                    }
                }
            },
            None => {
                assert forall|i: int| 0 <= i < robots.len() implies (
                #[trigger] robots[i]).id != id by {
                    if i > 0 {
                        assert(rest[i - 1] == robots[i]);
                    }
                }
            },
        }
    }
}

/// A robot that was seen can be found: looking up its number in the snapshot of
/// its team gives the first robot seen with that number.
pub proof fn law_seen_robot_is_found(robots: Seq<RobotState>, i: int)
    requires
        0 <= i < robots.len(),
        forall|j: int| 0 <= j < i ==> (#[trigger] robots[j]).id != robots[i].id,
    ensures
        first_with_id(robot_snapshots(robots), robots[i].id) == Some(robot_snapshot(robots[i])),
{
    let seen = robot_snapshots(robots);
    let id = robots[i].id;
    law_lookup_finds_the_first(seen, id);
    assert(seen[i].id == id);
    let robot = first_with_id(seen, id).unwrap();
    let k = choose|k: int|
        0 <= k < seen.len() && #[trigger] seen[k] == robot && robot.id == id && (forall|j: int|
            0 <= j < k ==> (#[trigger] seen[j]).id != id);
    assert(robots[k].id == id);
    if k < i {
        assert(robots[k].id != robots[i].id);
    } else if i < k {
        assert(seen[i].id != id);
    }
}

/// A robot that was not seen is not found.
pub proof fn law_unseen_robot_is_not_found(robots: Seq<RobotState>, id: i32)
    requires
        forall|j: int| 0 <= j < robots.len() ==> (#[trigger] robots[j]).id != id,
    ensures
        first_with_id(robot_snapshots(robots), id) is None,
{
    let seen = robot_snapshots(robots);
    law_lookup_finds_the_first(seen, id);
    assert forall|j: int| 0 <= j < seen.len() implies (#[trigger] seen[j]).id != id by {
        assert(robots[j].id != id);
    }
}

/// Whatever numbers a script gives, the speeds that reach a robot are within
/// the limits: 3 along either axis, 10 for turns, and 0 to 4 for the dribbler.
pub proof fn law_issued_speeds_are_limited(v: Scalar)
    requires
        !v.nan(),
    ensures
        (Scalar { bits: BACKWARD_SPEED_LIMIT }).at_most(limited_speed(v)),
        limited_speed(v).at_most(Scalar { bits: SPEED_LIMIT }),
        (Scalar { bits: BACKWARD_TURN_LIMIT }).at_most(limited_turn(v)),
        limited_turn(v).at_most(Scalar { bits: TURN_LIMIT }),
        Scalar::zero().at_most(limited_dribbler(v)),
        limited_dribbler(v).at_most(Scalar { bits: DRIBBLER_LIMIT }),
{
}

/// The directories in which a script's modules are looked up come before those
/// that were there, in the spelling of Windows and then of Unix.
pub open spec fn search_path(script_dir: Seq<char>, current_path: Seq<char>) -> Seq<char> {
    script_dir + "\\?.lua;"@ + script_dir + "\\?\\init.lua;"@ + script_dir + "/?.lua;"@
        + script_dir + "/?/init.lua;"@ + current_path
}

/// The path that was there, or an empty entry where there was none.
pub open spec fn path_before(current_path: Option<String>) -> Seq<char> {
    match current_path {
        Some(path) => path@,
        None => ";"@,
    }
}

/// The module path for a script in this directory. Where there was no path,
/// it is taken for an empty entry.
pub fn package_path(script_dir: &str, current_path: Option<String>) -> (result: String)
    ensures
        result@ == search_path(script_dir@, path_before(current_path)),
{
    let mut path = String::from_str(script_dir);
    path.append("\\?.lua;");
    path.append(script_dir);
    path.append("\\?\\init.lua;");
    path.append(script_dir);
    path.append("/?.lua;");
    path.append(script_dir);
    path.append("/?/init.lua;");
    match current_path {
        Some(current) => path.append(current.as_str()),
        None => path.append(";"),
    }
    path
}

/// What stands before the last slash of a path: nothing where there is none.
pub open spec fn directory_of(path: Seq<char>) -> Seq<char>
    decreases path.len(),
{
    if path.len() == 0 {
        path
    } else if path.last() == '/' {
        path.drop_last()
    } else {
        directory_of(path.drop_last())
    }
}

/// A path up to its last slash and with it: nothing where there is none.
pub open spec fn through_last_slash(path: Seq<char>) -> Seq<char>
    decreases path.len(),
{
    if path.len() == 0 || path.last() == '/' {
        path
    } else {
        through_last_slash(path.drop_last())
    }
}

/// A path without what names nothing at its end: slashes, and dots that stand
/// alone after a slash. A slash that is the whole path stays.
pub open spec fn trimmed(path: Seq<char>) -> Seq<char>
    decreases path.len(),
{
    if path.len() > 1 && (path.last() == '/' || (path.last() == '.' && path[path.len() - 2]
        == '/')) {
        trimmed(path.drop_last())
    } else {
        path
    }
}

/// The path without its last component, if it has one. The root has none, and
/// neither has an empty path.
pub open spec fn parent_of(path: Seq<char>) -> Option<Seq<char>> {
    let whole = trimmed(path);
    if whole.len() == 0 || (whole.len() == 1 && whole[0] == '/') {
        None
    } else {
        Some(trimmed(through_last_slash(whole)))
    }
}

/// Whether a path has the same components on every platform: it holds no
/// backslash and no colon and does not begin with two slashes, which part
/// directories, drives and servers on some platforms only.
pub open spec fn is_slash_path(path: Seq<char>) -> bool {
    &&& forall|i: int| 0 <= i < path.len() ==> #[trigger] path[i] != '\\' && path[i] != ':'
    &&& !(path.len() >= 2 && path[0] == '/' && path[1] == '/')
}

/// Whether a path is spelled without anything that names nothing: no slash
/// beside another or at the end, and no dot that stands alone after a slash. The
/// first component may be a dot or two, and there may be a slash in front of the
/// first directory.
pub open spec fn is_plainly_spelled(path: Seq<char>) -> bool {
    &&& path.len() > 0
    &&& path.last() != '/'
    &&& path[0] == '/' ==> directory_of(path).len() > 0
    &&& forall|i: int|
        0 <= i < path.len() && #[trigger] path[i] == '/' ==> path[i + 1] != '/' && !(path[i + 1]
            == '.' && (i + 2 == path.len() || path[i + 2] == '/'))
}

/// Whether a parent, if there is one, is what a path begins with, and shorter.
pub open spec fn begins(parent: Option<Seq<char>>, path: Seq<char>) -> bool {
    match parent {
        Some(directory) => directory.len() < path.len() && directory.is_prefix_of(path),
        None => true,
    }
}

/// What is left of a path when its end is trimmed.
proof fn lemma_trimmed(path: Seq<char>)
    ensures
        trimmed(path).is_prefix_of(path),
        trimmed(path).len() > 1 ==> trimmed(path).last() != '/',
        trimmed(path).len() == 0 <==> path.len() == 0,
    decreases path.len(),
{
    if path.len() > 1 && (path.last() == '/' || (path.last() == '.' && path[path.len() - 2]
        == '/')) {
        lemma_trimmed(path.drop_last());
    }
}

/// What is left of a path when it is cut after its last slash.
proof fn lemma_through_last_slash(path: Seq<char>)
    ensures
        through_last_slash(path).is_prefix_of(path),
        path.len() > 0 && path.last() != '/' ==> through_last_slash(path).len() < path.len(),
    decreases path.len(),
{
    if path.len() > 0 && path.last() != '/' {
        lemma_through_last_slash(path.drop_last());
    }
}

/// The parent of a path is what the path begins with, and shorter.
pub proof fn law_parent_begins_the_path(path: Seq<char>)
    ensures
        begins(parent_of(path), path),
{
    let whole = trimmed(path);
    lemma_trimmed(path);
    lemma_through_last_slash(whole);
    lemma_trimmed(through_last_slash(whole));
}

/// Cutting after the last slash leaves what stands before it, and the slash.
proof fn lemma_directory(path: Seq<char>)
    ensures
        directory_of(path).is_prefix_of(path),
        through_last_slash(path).len() == 0 ==> directory_of(path).len() == 0,
        through_last_slash(path).len() > 0 ==> through_last_slash(path) == directory_of(path).push(
            '/',
        ) && path[directory_of(path).len() as int] == '/' && directory_of(path).len() < path.len(),
        through_last_slash(path).is_prefix_of(path),
    decreases path.len(),
{
    if path.len() > 0 {
        if path.last() == '/' {
            assert(path.drop_last().push('/') =~= path);
        } else {
            lemma_directory(path.drop_last());
        }
    }
}

/// The parent of a path that is plainly spelled is what stands before its last
/// slash, nothing where it has none.
pub proof fn law_parent_stands_before_the_last_slash(path: Seq<char>)
    requires
        is_plainly_spelled(path),
    ensures
        parent_of(path) == Some(directory_of(path)),
{
    let directory = directory_of(path);
    let cut = through_last_slash(path);
    let n = path.len();
    lemma_directory(path);
    if n > 1 {
        assert(path[n - 2] == '/' ==> path[n - 1] != '.');
    }
    assert(trimmed(path) == path);
    if cut.len() > 0 {
        let k = directory.len() as int;
        assert(path[k] == '/');
        assert(k > 0);
        assert(cut.drop_last() =~= directory);
        assert(trimmed(cut) == trimmed(directory));
        assert(path[k - 1] != '/');
        if k > 1 {
            assert(path[k - 2] == '/' ==> path[k - 1] != '.');
        }
        assert(trimmed(directory) == directory);
    } else {
        assert(directory =~= cut);
    }
}

/// `std::path::Path::parent`: the path without its last component, as text.
/// Slashes beside one another and at the end and dots that stand alone after a
/// slash are no components. Where the components depend on the platform, with a
/// backslash, a colon or two slashes in front, it is only said that the parent is
/// what the path begins with, and shorter.
#[verifier::external_body]
fn parent_directory(path: &str) -> (result: Option<String>)
    ensures
        is_slash_path(path@) ==> optional_text(result) == parent_of(path@),
        begins(optional_text(result), path@),
{
    match std::path::Path::new(path).parent() {
        Some(directory) => Some(directory.to_string_lossy().to_string()),
        None => None,
    }
}

/// Where the modules of a script lie: in the parent directory of its path, and
/// in the current one where there is none or it has no name.
pub open spec fn module_directory(parent: Option<Seq<char>>) -> Seq<char> {
    match parent {
        Some(directory) => if directory.len() == 0 {
            "."@
        } else {
            directory
        },
        None => "."@,
    }
}

/// The module path for a script whose path has this parent directory.
pub fn path_for_modules(parent: Option<String>, current_path: Option<String>) -> (result: String)
    ensures
        result@ == search_path(
            module_directory(optional_text(parent)),
            path_before(current_path),
        ),
{
    match parent {
        Some(script_dir) => {
            if script_dir.as_str().unicode_len() == 0 {
                package_path(".", current_path)
            } else {
                package_path(script_dir.as_str(), current_path)
            }
        },
        None => package_path(".", current_path),
    }
}

/// The module path for a strategy script: its modules lie beside it. A script
/// whose path is a bare file name, or empty, has them in the current directory.
pub fn strategy_package_path(script_path: &str, current_path: Option<String>) -> (result: String)
    ensures
        is_slash_path(script_path@) ==> result@ == search_path(
            module_directory(parent_of(script_path@)),
            path_before(current_path),
        ),
        exists|parent: Option<Seq<char>>| #[trigger]
            begins(parent, script_path@) && result@ == search_path(
                module_directory(parent),
                path_before(current_path),
            ),
{
    let parent = parent_directory(script_path);
    assert(begins(optional_text(parent), script_path@));
    path_for_modules(parent, current_path)
}

} // verus!
