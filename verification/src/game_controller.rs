//! The state of the game, as the referee announces it, and the decisions of
//! the task that follows the referee.

use crate::referee::{
    optional_text, referee, Command, Referee, RefereeView, Stage, TeamMessage, TeamMessageView,
};
use crate::single::{Single, Vec2};
use crate::text::{append_decimal, decimal};
use vstd::prelude::*;
use vstd::string::StringExecFns;

verus! {

/// What is known of a team.
#[derive(Debug)]
pub struct TeamInfo {
    pub name: String,
    /// Goals scored.
    pub score: u32,
    pub red_cards: u32,
    /// Time left on each yellow card, in microseconds.
    pub yellow_card_times: Vec<u32>,
    /// Yellow cards in all.
    pub yellow_cards: u32,
    /// Timeouts left.
    pub timeouts: u32,
    /// Timeout time left, in microseconds.
    pub timeout_time: u32,
    /// The goalkeeper's number.
    pub goalkeeper: u32,
}

/// What is known of a team, by contents.
pub struct TeamInfoView {
    pub name: Seq<char>,
    pub score: u32,
    pub red_cards: u32,
    pub yellow_card_times: Seq<u32>,
    pub yellow_cards: u32,
    pub timeouts: u32,
    pub timeout_time: u32,
    pub goalkeeper: u32,
}

impl View for TeamInfo {
    type V = TeamInfoView;

    open spec fn view(&self) -> TeamInfoView {
        TeamInfoView {
            name: self.name@,
            score: self.score,
            red_cards: self.red_cards,
            yellow_card_times: self.yellow_card_times@,
            yellow_cards: self.yellow_cards,
            timeouts: self.timeouts,
            timeout_time: self.timeout_time,
            goalkeeper: self.goalkeeper,
        }
    }
}

/// The state of the game according to the referee.
#[derive(Debug)]
pub struct GameState {
    pub stage: Stage,
    /// Time left in the stage, in microseconds.
    pub stage_time_left: Option<i64>,
    pub command: Command,
    /// How many commands were issued, modulo 2^32.
    pub command_counter: u32,
    /// When the command was issued, in microseconds.
    pub command_timestamp: u64,
    pub yellow_team: TeamInfo,
    pub blue_team: TeamInfo,
    /// Where the ball is to be placed, if it is, in metres.
    pub designated_position: Option<Vec2>,
    /// Whether the blue team plays on the positive half of the x axis.
    pub blue_team_on_positive_half: bool,
    /// The command that follows once the ball is placed.
    pub next_command: Option<Command>,
    /// Time left for the current action, in microseconds.
    pub current_action_time_remaining: Option<i64>,
    /// A message for spectators.
    pub status_message: Option<String>,
}

/// The state of the game, by contents.
pub struct GameStateView {
    pub stage: Stage,
    pub stage_time_left: Option<i64>,
    pub command: Command,
    pub command_counter: u32,
    pub command_timestamp: u64,
    pub yellow_team: TeamInfoView,
    pub blue_team: TeamInfoView,
    pub designated_position: Option<Vec2>,
    pub blue_team_on_positive_half: bool,
    pub next_command: Option<Command>,
    pub current_action_time_remaining: Option<i64>,
    pub status_message: Option<Seq<char>>,
}

impl View for GameState {
    type V = GameStateView;

    open spec fn view(&self) -> GameStateView {
        GameStateView {
            stage: self.stage,
            stage_time_left: self.stage_time_left,
            command: self.command,
            command_counter: self.command_counter,
            command_timestamp: self.command_timestamp,
            yellow_team: self.yellow_team@,
            blue_team: self.blue_team@,
            designated_position: self.designated_position,
            blue_team_on_positive_half: self.blue_team_on_positive_half,
            next_command: self.next_command,
            current_action_time_remaining: self.current_action_time_remaining,
            status_message: optional_text(self.status_message),
        }
    }
}

impl TeamInfoView {
    /// A team of which nothing is known.
    pub open spec fn unknown() -> TeamInfoView {
        TeamInfoView {
            name: Seq::empty(),
            score: 0,
            red_cards: 0,
            yellow_card_times: Seq::empty(),
            yellow_cards: 0,
            timeouts: 0,
            timeout_time: 0,
            goalkeeper: 0,
        }
    }
}

impl GameStateView {
    /// The state before the first message.
    pub open spec fn initial() -> GameStateView {
        GameStateView {
            stage: Stage::NORMAL_FIRST_HALF_PRE,
            stage_time_left: None,
            command: Command::HALT,
            command_counter: 0,
            command_timestamp: 0,
            yellow_team: TeamInfoView::unknown(),
            blue_team: TeamInfoView::unknown(),
            designated_position: None,
            blue_team_on_positive_half: false,
            next_command: None,
            current_action_time_remaining: None,
            status_message: None,
        }
    }

    /// Whether the game is halted.
    pub open spec fn halted(self) -> bool {
        self.command == Command::HALT
    }

    /// Whether the game is stopped: halted or stopped by command.
    pub open spec fn stopped(self) -> bool {
        self.command == Command::HALT || self.command == Command::STOP
    }

    /// Whether the game runs.
    pub open spec fn running(self) -> bool {
        self.command == Command::NORMAL_START || self.command == Command::FORCE_START
    }

    /// The team that places the ball: 1 is yellow, 0 is blue.
    pub open spec fn placing_team(self) -> Option<i32> {
        if self.command == Command::BALL_PLACEMENT_YELLOW {
            Some(1i32)
        } else if self.command == Command::BALL_PLACEMENT_BLUE {
            Some(0i32)
        } else {
            None
        }
    }
}

impl Default for TeamInfo {
    fn default() -> (result: Self)
        ensures
            result@ == TeamInfoView::unknown(),
    {
        TeamInfo {
            name: String::new(),
            score: 0,
            red_cards: 0,
            yellow_card_times: Vec::new(),
            yellow_cards: 0,
            timeouts: 0,
            timeout_time: 0,
            goalkeeper: 0,
        }
    }
}

impl Default for GameState {
    fn default() -> (result: Self)
        ensures
            result@ == GameStateView::initial(),
    {
        GameState {
            stage: Stage::NORMAL_FIRST_HALF_PRE,
            stage_time_left: None,
            command: Command::HALT,
            command_counter: 0,
            command_timestamp: 0,
            yellow_team: TeamInfo::default(),
            blue_team: TeamInfo::default(),
            designated_position: None,
            blue_team_on_positive_half: false,
            next_command: None,
            current_action_time_remaining: None,
            status_message: None,
        }
    }
}

impl Clone for TeamInfo {
    fn clone(&self) -> (result: Self)
        ensures
            result@ == self@,
    {
        let result = TeamInfo {
            name: self.name.clone(),
            score: self.score,
            red_cards: self.red_cards,
            yellow_card_times: self.yellow_card_times.clone(),
            yellow_cards: self.yellow_cards,
            timeouts: self.timeouts,
            timeout_time: self.timeout_time,
            goalkeeper: self.goalkeeper,
        };
        assert(result.yellow_card_times@ =~= self.yellow_card_times@);
        result
    }
}

impl Clone for GameState {
    fn clone(&self) -> (result: Self)
        ensures
            result@ == self@,
    {
        GameState {
            stage: self.stage,
            stage_time_left: self.stage_time_left,
            command: self.command,
            command_counter: self.command_counter,
            command_timestamp: self.command_timestamp,
            yellow_team: self.yellow_team.clone(),
            blue_team: self.blue_team.clone(),
            designated_position: self.designated_position,
            blue_team_on_positive_half: self.blue_team_on_positive_half,
            next_command: self.next_command,
            current_action_time_remaining: self.current_action_time_remaining,
            status_message: copy_text(&self.status_message),
        }
    }
}

fn copy_text(text: &Option<String>) -> (result: Option<String>)
    ensures
        optional_text(result) == optional_text(*text),
{
    match text {
        Some(s) => Some(s.clone()),
        None => None,
    }
}

impl GameState {
    /// Whether the game is halted.
    pub fn is_halted(&self) -> (result: bool)
        ensures
            result == self@.halted(),
    {
        self.command == Command::HALT
    }

    /// Whether the game is stopped: the command is HALT or STOP.
    pub fn is_stopped(&self) -> (result: bool)
        ensures
            result == self@.stopped(),
    {
        matches!(self.command, Command::HALT | Command::STOP)
    }

    /// Whether the game runs: the command is NORMAL_START or FORCE_START.
    pub fn is_running(&self) -> (result: bool)
        ensures
            result == self@.running(),
    {
        matches!(self.command, Command::NORMAL_START | Command::FORCE_START)
    }

    /// Whether a team is to place the ball.
    pub fn is_ball_placement(&self) -> (result: bool)
        ensures
            result == (self@.placing_team() is Some),
    {
        matches!(self.command, Command::BALL_PLACEMENT_YELLOW | Command::BALL_PLACEMENT_BLUE)
    }

    /// The team that is to place the ball: 1 is yellow, 0 is blue.
    pub fn ball_placement_team(&self) -> (result: Option<i32>)
        ensures
            result == self@.placing_team(),
    {
        match self.command {
            Command::BALL_PLACEMENT_YELLOW => Some(1),
            Command::BALL_PLACEMENT_BLUE => Some(0),
            _ => None,
        }
    }
}

/// What happened to the game, for those who listen.
#[derive(Debug)]
pub enum GameControllerEvent {
    /// A message came.
    RefereeMessage(GameState),
    /// The command is another one.
    CommandChanged(Command),
    /// The stage is another one.
    StageChanged(Stage),
}

/// What happened to the game, by contents.
pub enum EventView {
    RefereeMessage(GameStateView),
    CommandChanged(Command),
    StageChanged(Stage),
}

impl View for GameControllerEvent {
    type V = EventView;

    open spec fn view(&self) -> EventView {
        match *self {
            GameControllerEvent::RefereeMessage(state) => EventView::RefereeMessage(state@),
            GameControllerEvent::CommandChanged(command) => EventView::CommandChanged(command),
            GameControllerEvent::StageChanged(stage) => EventView::StageChanged(stage),
        }
    }
}

impl Clone for GameControllerEvent {
    fn clone(&self) -> (result: Self)
        ensures
            result@ == self@,
    {
        match self {
            GameControllerEvent::RefereeMessage(state) => GameControllerEvent::RefereeMessage(
                state.clone(),
            ),
            GameControllerEvent::CommandChanged(command) => GameControllerEvent::CommandChanged(
                *command,
            ),
            GameControllerEvent::StageChanged(stage) => GameControllerEvent::StageChanged(*stage),
        }
    }
}

/// The events, by contents.
pub open spec fn event_views(events: Seq<GameControllerEvent>) -> Seq<EventView> {
    events.map_values(|e: GameControllerEvent| e@)
}

/// Why nothing was received.
#[derive(Debug)]
pub enum Failure {
    TimedOut,
    WouldBlock,
    /// Another reason, in words.
    Other(String),
}

/// What the socket gave.
#[derive(Debug)]
pub enum Reception {
    Datagram(Vec<u8>),
    Failed(Failure),
}

/// Why no message could be received.
#[derive(Debug)]
pub enum ReceiveError {
    /// The socket was not opened.
    NotInitialized,
    /// The socket failed, for the reason given in words.
    Socket(String),
}

/// Why no message could be received, by contents.
pub enum ReceiveErrorView {
    NotInitialized,
    Socket(Seq<char>),
}

impl View for ReceiveError {
    type V = ReceiveErrorView;

    open spec fn view(&self) -> ReceiveErrorView {
        match *self {
            ReceiveError::NotInitialized => ReceiveErrorView::NotInitialized,
            ReceiveError::Socket(reason) => ReceiveErrorView::Socket(reason@),
        }
    }
}

/// What was received, by contents.
pub open spec fn received_view(received: Result<Option<Referee>, ReceiveError>) -> Result<
    Option<RefereeView>,
    ReceiveErrorView,
> {
    match received {
        Ok(Some(message)) => Ok(Some(message@)),
        Ok(None) => Ok(None),
        Err(e) => Err(e@),
    }
}

impl ReceiveErrorView {
    /// The error in words.
    pub open spec fn words(self) -> Seq<char> {
        match self {
            ReceiveErrorView::NotInitialized => "Socket no inicializado"@,
            ReceiveErrorView::Socket(reason) => "Error recibiendo mensaje: "@ + reason,
        }
    }
}

impl ReceiveError {
    /// The error in words.
    pub fn message(&self) -> (result: String)
        ensures
            result@ == self@.words(),
    {
        match self {
            ReceiveError::NotInitialized => String::from_str("Socket no inicializado"),
            ReceiveError::Socket(reason) => {
                let mut text = String::from_str("Error recibiendo mensaje: ");
                text.append(reason.as_str());
                text
            },
        }
    }
}

/// The team that a message tells of. What it leaves out is empty or zero.
pub open spec fn team_info(message: Option<TeamMessageView>) -> TeamInfoView {
    match message {
        Some(team) => TeamInfoView {
            name: team.name.unwrap_or(Seq::empty()),
            score: team.score.unwrap_or(0),
            red_cards: team.red_cards.unwrap_or(0),
            yellow_card_times: team.yellow_card_times,
            yellow_cards: team.yellow_cards.unwrap_or(0),
            timeouts: team.timeouts.unwrap_or(0),
            timeout_time: team.timeout_time.unwrap_or(0),
            goalkeeper: team.goalkeeper.unwrap_or(0),
        },
        None => TeamInfoView::unknown(),
    }
}

/// The stage that a message tells of. Without a known one it is the first.
pub open spec fn stage_of(number: Option<i32>) -> Stage {
    match number {
        Some(n) => Stage::numbered(n).unwrap_or(Stage::NORMAL_FIRST_HALF_PRE),
        None => Stage::NORMAL_FIRST_HALF_PRE,
    }
}

/// The command that a message tells of. Without a known one it is HALT.
pub open spec fn command_of(number: Option<i32>) -> Command {
    match number {
        Some(n) => Command::numbered(n).unwrap_or(Command::HALT),
        None => Command::HALT,
    }
}

/// How many millimetres a metre has, in single precision.
pub const MILLIMETRES: u32 = 0x447a_0000;

/// The state that a message tells of. The designated position comes in
/// millimetres and is kept in metres.
pub open spec fn game_state(message: RefereeView) -> GameStateView {
    GameStateView {
        stage: stage_of(message.stage),
        stage_time_left: message.stage_time_left,
        command: command_of(message.command),
        command_counter: message.command_counter.unwrap_or(0),
        command_timestamp: message.command_timestamp.unwrap_or(0),
        yellow_team: team_info(message.yellow),
        blue_team: team_info(message.blue),
        designated_position: match message.designated_position {
            Some(p) => Some(
                (Vec2 {
                    x: Single { bits: p.x.unwrap_or(0) },
                    y: Single { bits: p.y.unwrap_or(0) },
                }).divided(Single { bits: MILLIMETRES }),
            ),
            None => None,
        },
        blue_team_on_positive_half: message.blue_team_on_positive_half.unwrap_or(false),
        next_command: match message.next_command {
            Some(n) => Some(command_of(Some(n))),
            None => None,
        },
        current_action_time_remaining: message.current_action_time_remaining,
        status_message: message.status_message,
    }
}

fn read_team_info(message: &Option<TeamMessage>) -> (result: TeamInfo)
    ensures
        result@ == team_info(crate::referee::optional_team(*message)),
{
    match message {
        Some(team) => {
            let result = TeamInfo {
                name: match &team.name {
                    Some(name) => name.clone(),
                    None => String::new(),
                },
                score: team.score.unwrap_or(0),
                red_cards: team.red_cards.unwrap_or(0),
                yellow_card_times: team.yellow_card_times.clone(),
                yellow_cards: team.yellow_cards.unwrap_or(0),
                timeouts: team.timeouts.unwrap_or(0),
                timeout_time: team.timeout_time.unwrap_or(0),
                goalkeeper: team.goalkeeper.unwrap_or(0),
            };
            assert(result.yellow_card_times@ =~= team.yellow_card_times@);
            result
        },
        None => TeamInfo::default(),
    }
}

fn read_stage(number: Option<i32>) -> (result: Stage)
    ensures
        result == stage_of(number),
{
    match number {
        Some(n) => Stage::from_number(n).unwrap_or(Stage::NORMAL_FIRST_HALF_PRE),
        None => Stage::NORMAL_FIRST_HALF_PRE,
    }
}

fn read_command(number: Option<i32>) -> (result: Command)
    ensures
        result == command_of(number),
{
    match number {
        Some(n) => Command::from_number(n).unwrap_or(Command::HALT),
        None => Command::HALT,
    }
}

/// The receiver of the referee's messages.
#[derive(Debug)]
pub struct GameController {
    multicast_ip: String,
    port: u16,
    initialized: bool,
}

impl GameController {
    /// The multicast group that the referee sends to.
    pub closed spec fn group(self) -> Seq<char> {
        self.multicast_ip@
    }

    /// The port that the referee sends to.
    pub closed spec fn port_number(self) -> u16 {
        self.port
    }

    /// Whether the socket was opened.
    pub closed spec fn ready(self) -> bool {
        self.initialized
    }

    /// A receiver for a multicast group and port. Its socket is not open yet.
    pub fn new(multicast_ip: String, port: u16) -> (result: Self)
        ensures
            result.group() == multicast_ip@,
            result.port_number() == port,
            !result.ready(),
    {
        GameController { multicast_ip, port, initialized: false }
    }

    /// The local address to bind to: the port on all interfaces.
    pub fn bind_address(&self) -> (result: String)
        ensures
            result@ == "0.0.0.0:"@ + decimal(self.port_number() as nat),
    {
        let mut address = String::from_str("0.0.0.0:");
        append_decimal(&mut address, self.port);
        address
    }

    /// The multicast group to join.
    pub fn multicast_ip(&self) -> (result: &str)
        ensures
            result@ == self.group(),
    {
        self.multicast_ip.as_str()
    }

    /// Notes that the socket is bound and has joined the group.
    pub fn initialize(&mut self)
        ensures
            final(self).ready(),
            final(self).group() == old(self).group(),
            final(self).port_number() == old(self).port_number(),
    {
        self.initialized = true;
    }

    /// Whether the socket was opened.
    pub fn is_initialized(&self) -> (result: bool)
        ensures
            result == self.ready(),
    {
        self.initialized
    }

    /// The message in what the socket gave. A datagram that is no message, and
    /// a wait without one, are no message and no error.
    pub fn receive_message(&self, reception: Reception) -> (result: Result<
        Option<Referee>,
        ReceiveError,
    >)
        ensures
            received_view(result) == self.received(reception),
    {
        if !self.initialized {
            return Err(ReceiveError::NotInitialized);
        }
        match reception {
            Reception::Datagram(data) => match Referee::parse_from_bytes(data.as_slice()) {
                Ok(message) => Ok(Some(message)),
                Err(_) => Ok(None),
            },
            Reception::Failed(Failure::TimedOut) => Ok(None),
            Reception::Failed(Failure::WouldBlock) => Ok(None),
            Reception::Failed(Failure::Other(reason)) => Err(ReceiveError::Socket(reason)),
        }
    }

    /// What is received from what the socket gave.
    pub open spec fn received(self, reception: Reception) -> Result<
        Option<RefereeView>,
        ReceiveErrorView,
    > {
        if !self.ready() {
            Err(ReceiveErrorView::NotInitialized)
        } else {
            match reception {
                Reception::Datagram(data) => match referee(data@) {
                    Some(message) => if message.complete() {
                        Ok(Some(message))
                    } else {
                        Ok(None)
                    },
                    None => Ok(None),
                },
                Reception::Failed(Failure::Other(reason)) => Err(
                    ReceiveErrorView::Socket(reason@),
                ),
                Reception::Failed(_) => Ok(None),
            }
        }
    }

    /// The state that a message tells of.
    pub fn parse_referee_message(referee_msg: &Referee) -> (result: GameState)
        ensures
            result@ == game_state(referee_msg@),
    {
        GameState {
            stage: read_stage(referee_msg.stage),
            stage_time_left: referee_msg.stage_time_left,
            command: read_command(referee_msg.command),
            command_counter: referee_msg.command_counter.unwrap_or(0),
            command_timestamp: referee_msg.command_timestamp.unwrap_or(0),
            yellow_team: read_team_info(&referee_msg.yellow),
            blue_team: read_team_info(&referee_msg.blue),
            designated_position: match &referee_msg.designated_position {
                Some(p) => {
                    let position = Vec2 {
                        x: Single { bits: p.x.unwrap_or(0) },
                        y: Single { bits: p.y.unwrap_or(0) },
                    };
                    let divisor = Single { bits: MILLIMETRES };
                    Some(position.over(&divisor))
                },
                None => None,
            },
            blue_team_on_positive_half: referee_msg.blue_team_on_positive_half.unwrap_or(false),
            next_command: match referee_msg.next_command {
                Some(n) => Some(read_command(Some(n))),
                None => None,
            },
            current_action_time_remaining: referee_msg.current_action_time_remaining,
            status_message: copy_text(&referee_msg.status_message),
        }
    }
}

/// The last command and stage that listeners were told.
#[derive(Debug, Clone, Copy, PartialEq, Eq, Structural)]
pub struct Announced {
    pub command: Command,
    pub stage: Stage,
}

impl Announced {
    /// What listeners take for granted before the first message.
    pub open spec fn initial() -> Announced {
        Announced { command: Command::HALT, stage: Stage::NORMAL_FIRST_HALF_PRE }
    }

    /// What listeners take for granted before the first message.
    pub fn new() -> (result: Announced)
        ensures
            result == Announced::initial(),
    {
        Announced { command: Command::HALT, stage: Stage::NORMAL_FIRST_HALF_PRE }
    }
}

/// What the task that follows the referee does next.
#[derive(Debug)]
pub enum Action {
    /// Share the state, hand the events to the listener in order, and report
    /// the state where `report` is set.
    Publish { state: GameState, events: Vec<GameControllerEvent>, report: bool },
    /// Wait for the next message.
    Wait,
    /// Report the error and pause, for so many milliseconds.
    Pause { error: ReceiveError, millis: u64 },
}

/// What the task does next, by contents.
pub enum ActionView {
    Publish { state: GameStateView, events: Seq<EventView>, report: bool },
    Wait,
    Pause { error: ReceiveErrorView, millis: u64 },
}

impl View for Action {
    type V = ActionView;

    open spec fn view(&self) -> ActionView {
        match *self {
            Action::Publish { state, events, report } => ActionView::Publish {
                state: state@,
                events: event_views(events@),
                report,
            },
            Action::Wait => ActionView::Wait,
            Action::Pause { error, millis } => ActionView::Pause { error: error@, millis },
        }
    }
}

/// How long the task pauses after an error, in milliseconds.
pub const PAUSE_MILLIS: u64 = 100;

/// Every so many commands the state is reported.
pub const REPORT_PERIOD: u32 = 100;

/// The events for a listener that was last told `announced`: the message, then
/// the command where it is another one, then the stage where it is.
pub open spec fn events_for(announced: Announced, state: GameStateView) -> Seq<EventView> {
    let command = if state.command != announced.command {
        seq![EventView::CommandChanged(state.command)]
    } else {
        seq![]
    };
    let stage = if state.stage != announced.stage {
        seq![EventView::StageChanged(state.stage)]
    } else {
        seq![]
    };
    seq![EventView::RefereeMessage(state)] + command + stage
}

/// What the task does with what was received, and what is announced
/// afterwards. Only with a listener are there events, and only then is
/// something announced.
pub open spec fn reaction(
    announced: Announced,
    received: Result<Option<RefereeView>, ReceiveErrorView>,
    has_listener: bool,
) -> (ActionView, Announced) {
    match received {
        Ok(Some(message)) => {
            let state = game_state(message);
            let report = state.command_counter % REPORT_PERIOD == 0;
            if has_listener {
                (
                    ActionView::Publish { state, events: events_for(announced, state), report },
                    Announced { command: state.command, stage: state.stage },
                )
            } else {
                (ActionView::Publish { state, events: seq![], report }, announced)
            }
        },
        Ok(None) => (ActionView::Wait, announced),
        Err(error) => (ActionView::Pause { error, millis: PAUSE_MILLIS }, announced),
    }
}

impl Announced {
    /// What the task does with what was received.
    pub fn react(
        &mut self,
        received: Result<Option<Referee>, ReceiveError>,
        has_listener: bool,
    ) -> (result: Action)
        ensures
            (result@, *final(self)) == reaction(
                *old(self),
                received_view(received),
                has_listener,
            ),
    {
        match received {
            Ok(Some(message)) => {
                let state = GameController::parse_referee_message(&message);
                let mut events: Vec<GameControllerEvent> = Vec::new();
                if has_listener {
                    events.push(GameControllerEvent::RefereeMessage(state.clone()));
                    if state.command != self.command {
                        events.push(GameControllerEvent::CommandChanged(state.command));
                        self.command = state.command;
                    }
                    if state.stage != self.stage {
                        events.push(GameControllerEvent::StageChanged(state.stage));
                        self.stage = state.stage;
                    }
                    assert(event_views(events@) =~= events_for(*old(self), state@));
                } else {
                    assert(event_views(events@) =~= seq![]);
                }
                let report = state.command_counter % REPORT_PERIOD == 0;
                Action::Publish { state, events, report }
            },
            Ok(None) => Action::Wait,
            Err(error) => Action::Pause { error, millis: PAUSE_MILLIS },
        }
    }
}

impl GameController {
    /// One round of the task that follows the referee: what it does with what
    /// the socket gave.
    pub fn run(
        &self,
        announced: &mut Announced,
        reception: Reception,
        has_listener: bool,
    ) -> (result: Action)
        ensures
            (result@, *final(announced)) == reaction(
                *old(announced),
                self.received(reception),
                has_listener,
            ),
    {
        let received = self.receive_message(reception);
        announced.react(received, has_listener)
    }
}

/// A halted game is stopped. A stopped game does not run, and while the ball
/// is placed the game is neither stopped nor running.
pub proof fn law_game_conditions(state: GameStateView)
    ensures
        state.halted() ==> state.stopped(),
        !(state.stopped() && state.running()),
        state.placing_team() is Some ==> !state.stopped() && !state.running(),
        state.placing_team() matches Some(team) ==> team == 0 || team == 1,
{
}

/// Before the first message the game is halted, in the first stage.
pub proof fn law_initial_state()
    ensures
        GameStateView::initial().halted(),
        Announced::initial().command == GameStateView::initial().command,
        Announced::initial().stage == GameStateView::initial().stage,
{
}

/// A message without a known command halts the game.
pub proof fn law_unknown_command_halts(message: RefereeView)
    requires
        message.command matches Some(n) ==> Command::numbered(n) is None,
    ensures
        game_state(message).halted(),
{
}

/// A known command is the command of the state, and so is a known stage.
pub proof fn law_known_command_is_kept(message: RefereeView, command: Command, stage: Stage)
    requires
        message.command == Some(command.number()),
        message.stage == Some(stage.number()),
    ensures
        game_state(message).command == command,
        game_state(message).stage == stage,
{
}

/// What a listener knows that starts from `known` and applies the changes in
/// `events`.
pub open spec fn follow(known: Announced, events: Seq<EventView>) -> Announced
    decreases events.len(),
{
    if events.len() == 0 {
        known
    } else {
        let before = follow(known, events.drop_last());
        match events.last() {
            EventView::RefereeMessage(_) => before,
            EventView::CommandChanged(command) => Announced { command, ..before },
            EventView::StageChanged(stage) => Announced { stage, ..before },
        }
    }
}

/// The events that a listener gets over a run of states.
pub open spec fn told(announced: Announced, states: Seq<GameStateView>) -> Seq<EventView>
    decreases states.len(),
{
    if states.len() == 0 {
        seq![]
    } else {
        let state = states.last();
        told(announced, states.drop_last()) + events_for(
            announced_after(announced, states.drop_last()),
            state,
        )
    }
}

/// What is announced after a run of states.
pub open spec fn announced_after(announced: Announced, states: Seq<GameStateView>) -> Announced {
    if states.len() == 0 {
        announced
    } else {
        Announced { command: states.last().command, stage: states.last().stage }
    }
}

/// A round with a message and a listener adds its events to what was told, and
/// leaves announced what the run of states with that message announces.
pub proof fn law_round_extends_run(
    announced: Announced,
    states: Seq<GameStateView>,
    message: RefereeView,
)
    ensures
        ({
            let (action, after) = reaction(
                announced_after(announced, states),
                Ok(Some(message)),
                true,
            );
            let longer = states.push(game_state(message));
            &&& action matches ActionView::Publish { state, events, report }
            &&& state == game_state(message)
            &&& told(announced, longer) == told(announced, states) + events
            &&& after == announced_after(announced, longer)
        }),
{
    assert(states.push(game_state(message)).drop_last() =~= states);
}

proof fn lemma_follow_in_parts(known: Announced, first: Seq<EventView>, second: Seq<EventView>)
    ensures
        follow(known, first + second) == follow(follow(known, first), second),
    decreases second.len(),
{
    if second.len() == 0 {
        assert(first + second =~= first);
    } else {
        assert((first + second).drop_last() =~= first + second.drop_last());
        lemma_follow_in_parts(known, first, second.drop_last());
    }
}

/// A listener that applies the changes it is told knows the command and the
/// stage of the last message.
pub proof fn law_listener_keeps_up(announced: Announced, states: Seq<GameStateView>)
    ensures
        follow(announced, told(announced, states)) == announced_after(announced, states),
    decreases states.len(),
{
    if states.len() > 0 {
        let before = states.drop_last();
        let known = announced_after(announced, before);
        law_listener_keeps_up(announced, before);
        let events = events_for(known, states.last());
        lemma_follow_in_parts(announced, told(announced, before), events);
        reveal_with_fuel(follow, 4);
        assert(follow(known, events) == announced_after(announced, states)) by {
            let message = EventView::RefereeMessage(states.last());
            let command = EventView::CommandChanged(states.last().command);
            let stage = EventView::StageChanged(states.last().stage);
            if states.last().command != known.command && states.last().stage != known.stage {
                assert(events =~= seq![message, command, stage]);
                assert(events.drop_last() =~= seq![message, command]);
                assert(events.drop_last().drop_last() =~= seq![message]);
            } else if states.last().command != known.command {
                assert(events =~= seq![message, command]);
                assert(events.drop_last() =~= seq![message]);
            } else if states.last().stage != known.stage {
                assert(events =~= seq![message, stage]);
                assert(events.drop_last() =~= seq![message]);
            } else {
                assert(events =~= seq![message]);
            }
        }
    }
}

/// Every change that a listener is told is a change: the command, or the
/// stage, differs from the one it knew before.
pub proof fn law_changes_are_changes(announced: Announced, states: Seq<GameStateView>, i: int)
    requires
        0 <= i < told(announced, states).len(),
    ensures
        ({
            let events = told(announced, states);
            let known = follow(announced, events.take(i));
            match events[i] {
                EventView::RefereeMessage(_) => true,
                EventView::CommandChanged(command) => command != known.command,
                EventView::StageChanged(stage) => stage != known.stage,
            }
        }),
    decreases states.len(),
{
    let before = states.drop_last();
    let earlier = told(announced, before);
    let known = announced_after(announced, before);
    let events = events_for(known, states.last());
    let all = told(announced, states);
    assert(all == earlier + events);
    if i < earlier.len() {
        law_changes_are_changes(announced, before, i);
        assert(all.take(i) =~= earlier.take(i));
    } else {
        let k = i - earlier.len();
        assert(all.take(i) =~= earlier + events.take(k));
        lemma_follow_in_parts(announced, earlier, events.take(k));
        law_listener_keeps_up(announced, before);
        reveal_with_fuel(follow, 3);
        assert(events[0] == EventView::RefereeMessage(states.last()));
        if k >= 1 {
            assert(events.take(1) =~= seq![events[0]]);
            assert(events.take(1).drop_last() =~= seq![]);
        }
        if k == 2 {
            assert(events.take(2).drop_last() =~= events.take(1));
        }
    }
}

/// A listener gets every message, in the order in which they came, and each
/// before the changes that it brought.
pub proof fn law_every_message_is_told(announced: Announced, states: Seq<GameStateView>)
    ensures
        messages_in(told(announced, states)) == states,
    decreases states.len(),
{
    if states.len() > 0 {
        let before = states.drop_last();
        let known = announced_after(announced, before);
        let events = events_for(known, states.last());
        law_every_message_is_told(announced, before);
        lemma_messages_in_parts(told(announced, before), events);
        assert(messages_in(events) =~= seq![states.last()]) by {
            reveal_with_fuel(messages_in, 4);
            if events.len() == 3 {
                assert(events.drop_last().drop_last().drop_last() =~= seq![]);
            } else if events.len() == 2 {
                assert(events.drop_last().drop_last() =~= seq![]);
            }
        }
        assert(before + seq![states.last()] =~= states);
    }
}

/// The messages among the events, in order.
pub open spec fn messages_in(events: Seq<EventView>) -> Seq<GameStateView>
    decreases events.len(),
{
    if events.len() == 0 {
        seq![]
    } else {
        let before = messages_in(events.drop_last());
        match events.last() {
            EventView::RefereeMessage(state) => before.push(state),
            _ => before,
        }
    }
}

proof fn lemma_messages_in_parts(first: Seq<EventView>, second: Seq<EventView>)
    ensures
        messages_in(first + second) == messages_in(first) + messages_in(second),
    decreases second.len(),
{
    if second.len() == 0 {
        assert(first + second =~= first);
        assert(messages_in(first) + messages_in(second) =~= messages_in(first));
    } else {
        assert((first + second).drop_last() =~= first + second.drop_last());
        lemma_messages_in_parts(first, second.drop_last());
        assert(messages_in(first + second) =~= messages_in(first) + messages_in(second));
    }
}

/// A datagram that holds no complete message is passed over: nothing is
/// published, and what was announced stays.
pub proof fn law_broken_datagram_is_ignored(
    gc: GameController,
    data: Vec<u8>,
    announced: Announced,
    has_listener: bool,
)
    requires
        gc.ready(),
        referee(data@) matches Some(message) ==> !message.complete(),
    ensures
        reaction(announced, gc.received(Reception::Datagram(data)), has_listener) == (
            ActionView::Wait,
            announced,
        ),
{
}

/// A complete message is published as the state that it tells of.
pub proof fn law_complete_message_is_published(
    gc: GameController,
    data: Vec<u8>,
    announced: Announced,
    has_listener: bool,
)
    requires
        gc.ready(),
        referee(data@) matches Some(message) && message.complete(),
    ensures
        reaction(announced, gc.received(Reception::Datagram(data)), has_listener).0 matches
            ActionView::Publish { state, events, report } && state == game_state(
            referee(data@).unwrap(),
        ),
{
}

/// A failure publishes nothing and leaves what was announced: the task goes on.
pub proof fn law_failure_changes_nothing(
    gc: GameController,
    failure: Failure,
    announced: Announced,
    has_listener: bool,
)
    ensures
        ({
            let (action, after) = reaction(
                announced,
                gc.received(Reception::Failed(failure)),
                has_listener,
            );
            !(action is Publish) && after == announced
        }),
{
}

/// Without a listener nothing is announced, whatever is received.
pub proof fn law_no_listener_no_announcement(
    announced: Announced,
    received: Result<Option<RefereeView>, ReceiveErrorView>,
)
    ensures
        reaction(announced, received, false).1 == announced,
        reaction(announced, received, false).0 matches ActionView::Publish { state, events, report }
            ==> events.len() == 0,
{
}

} // verus!
