//! The referee's message: its stages and commands, its fields, and how it is
//! read from bytes.

use crate::layout::{
    Layout, BLUE, BLUE_TEAM_ON_POSITIVE_HALF, COMMAND, COMMAND_COUNTER, COMMAND_TIMESTAMP,
    CURRENT_ACTION_TIME_REMAINING, DESIGNATED_POSITION, GOALKEEPER, NAME, NEXT_COMMAND,
    PACKET_TIMESTAMP, POINT_X, POINT_Y, RED_CARDS, SCORE, STAGE, STAGE_TIME_LEFT, STATUS_MESSAGE,
    TIMEOUTS, TIMEOUT_TIME, YELLOW, YELLOW_CARDS, YELLOW_CARD_TIME, YELLOW_CARD_TIMES,
};
use crate::wire::{
    last, last_value, lemma_value_length, lemma_varint_length, models, read_records, records, value,
    varint32, DecodeError, Field, Record, ValueModel,
};
use vstd::prelude::*;

verus! {

/// The stages of a game.
#[allow(non_camel_case_types)]
#[derive(Debug, Clone, Copy, PartialEq, Eq, Structural)]
pub enum Stage {
    NORMAL_FIRST_HALF_PRE,
    NORMAL_FIRST_HALF,
    NORMAL_HALF_TIME,
    NORMAL_SECOND_HALF_PRE,
    NORMAL_SECOND_HALF,
    EXTRA_TIME_BREAK,
    EXTRA_FIRST_HALF_PRE,
    EXTRA_FIRST_HALF,
    EXTRA_HALF_TIME,
    EXTRA_SECOND_HALF_PRE,
    EXTRA_SECOND_HALF,
    PENALTY_SHOOTOUT_BREAK,
    PENALTY_SHOOTOUT,
    POST_GAME,
}

impl Stage {
    /// The number that stands for the stage in messages.
    pub open spec fn number(self) -> i32 {
        match self {
            Stage::NORMAL_FIRST_HALF_PRE => 0,
            Stage::NORMAL_FIRST_HALF => 1,
            Stage::NORMAL_HALF_TIME => 2,
            Stage::NORMAL_SECOND_HALF_PRE => 3,
            Stage::NORMAL_SECOND_HALF => 4,
            Stage::EXTRA_TIME_BREAK => 5,
            Stage::EXTRA_FIRST_HALF_PRE => 6,
            Stage::EXTRA_FIRST_HALF => 7,
            Stage::EXTRA_HALF_TIME => 8,
            Stage::EXTRA_SECOND_HALF_PRE => 9,
            Stage::EXTRA_SECOND_HALF => 10,
            Stage::PENALTY_SHOOTOUT_BREAK => 11,
            Stage::PENALTY_SHOOTOUT => 12,
            Stage::POST_GAME => 13,
        }
    }

    /// The stage that a number stands for.
    pub open spec fn numbered(number: i32) -> Option<Stage> {
        if number == 0 {
            Some(Stage::NORMAL_FIRST_HALF_PRE)
        } else if number == 1 {
            Some(Stage::NORMAL_FIRST_HALF)
        } else if number == 2 {
            Some(Stage::NORMAL_HALF_TIME)
        } else if number == 3 {
            Some(Stage::NORMAL_SECOND_HALF_PRE)
        } else if number == 4 {
            Some(Stage::NORMAL_SECOND_HALF)
        } else if number == 5 {
            Some(Stage::EXTRA_TIME_BREAK)
        } else if number == 6 {
            Some(Stage::EXTRA_FIRST_HALF_PRE)
        } else if number == 7 {
            Some(Stage::EXTRA_FIRST_HALF)
        } else if number == 8 {
            Some(Stage::EXTRA_HALF_TIME)
        } else if number == 9 {
            Some(Stage::EXTRA_SECOND_HALF_PRE)
        } else if number == 10 {
            Some(Stage::EXTRA_SECOND_HALF)
        } else if number == 11 {
            Some(Stage::PENALTY_SHOOTOUT_BREAK)
        } else if number == 12 {
            Some(Stage::PENALTY_SHOOTOUT)
        } else if number == 13 {
            Some(Stage::POST_GAME)
        } else {
            None
        }
    }

    /// The stage that a number stands for.
    pub fn from_number(number: i32) -> (result: Option<Stage>)
        ensures
            result == Self::numbered(number),
    {
        match number {
            0 => Some(Stage::NORMAL_FIRST_HALF_PRE),
            1 => Some(Stage::NORMAL_FIRST_HALF),
            2 => Some(Stage::NORMAL_HALF_TIME),
            3 => Some(Stage::NORMAL_SECOND_HALF_PRE),
            4 => Some(Stage::NORMAL_SECOND_HALF),
            5 => Some(Stage::EXTRA_TIME_BREAK),
            6 => Some(Stage::EXTRA_FIRST_HALF_PRE),
            7 => Some(Stage::EXTRA_FIRST_HALF),
            8 => Some(Stage::EXTRA_HALF_TIME),
            9 => Some(Stage::EXTRA_SECOND_HALF_PRE),
            10 => Some(Stage::EXTRA_SECOND_HALF),
            11 => Some(Stage::PENALTY_SHOOTOUT_BREAK),
            12 => Some(Stage::PENALTY_SHOOTOUT),
            13 => Some(Stage::POST_GAME),
            _ => None,
        }
    }
}

/// A stage is the one that its number stands for, and no other number does.
pub proof fn law_stage_numbers(stage: Stage, number: i32)
    ensures
        Stage::numbered(number) == Some(stage) <==> number == stage.number(),
{
}

/// The commands of the referee.
#[allow(non_camel_case_types)]
#[derive(Debug, Clone, Copy, PartialEq, Eq, Structural)]
pub enum Command {
    HALT,
    STOP,
    NORMAL_START,
    FORCE_START,
    PREPARE_KICKOFF_YELLOW,
    PREPARE_KICKOFF_BLUE,
    PREPARE_PENALTY_YELLOW,
    PREPARE_PENALTY_BLUE,
    DIRECT_FREE_YELLOW,
    DIRECT_FREE_BLUE,
    INDIRECT_FREE_YELLOW,
    INDIRECT_FREE_BLUE,
    TIMEOUT_YELLOW,
    TIMEOUT_BLUE,
    GOAL_YELLOW,
    GOAL_BLUE,
    BALL_PLACEMENT_YELLOW,
    BALL_PLACEMENT_BLUE,
}

impl Command {
    /// The number that stands for the command in messages.
    pub open spec fn number(self) -> i32 {
        match self {
            Command::HALT => 0,
            Command::STOP => 1,
            Command::NORMAL_START => 2,
            Command::FORCE_START => 3,
            Command::PREPARE_KICKOFF_YELLOW => 4,
            Command::PREPARE_KICKOFF_BLUE => 5,
            Command::PREPARE_PENALTY_YELLOW => 6,
            Command::PREPARE_PENALTY_BLUE => 7,
            Command::DIRECT_FREE_YELLOW => 8,
            Command::DIRECT_FREE_BLUE => 9,
            Command::INDIRECT_FREE_YELLOW => 10,
            Command::INDIRECT_FREE_BLUE => 11,
            Command::TIMEOUT_YELLOW => 12,
            Command::TIMEOUT_BLUE => 13,
            Command::GOAL_YELLOW => 14,
            Command::GOAL_BLUE => 15,
            Command::BALL_PLACEMENT_YELLOW => 16,
            Command::BALL_PLACEMENT_BLUE => 17,
        }
    }

    /// The command that a number stands for.
    pub open spec fn numbered(number: i32) -> Option<Command> {
        if number == 0 {
            Some(Command::HALT)
        } else if number == 1 {
            Some(Command::STOP)
        } else if number == 2 {
            Some(Command::NORMAL_START)
        } else if number == 3 {
            Some(Command::FORCE_START)
        } else if number == 4 {
            Some(Command::PREPARE_KICKOFF_YELLOW)
        } else if number == 5 {
            Some(Command::PREPARE_KICKOFF_BLUE)
        } else if number == 6 {
            Some(Command::PREPARE_PENALTY_YELLOW)
        } else if number == 7 {
            Some(Command::PREPARE_PENALTY_BLUE)
        } else if number == 8 {
            Some(Command::DIRECT_FREE_YELLOW)
        } else if number == 9 {
            Some(Command::DIRECT_FREE_BLUE)
        } else if number == 10 {
            Some(Command::INDIRECT_FREE_YELLOW)
        } else if number == 11 {
            Some(Command::INDIRECT_FREE_BLUE)
        } else if number == 12 {
            Some(Command::TIMEOUT_YELLOW)
        } else if number == 13 {
            Some(Command::TIMEOUT_BLUE)
        } else if number == 14 {
            Some(Command::GOAL_YELLOW)
        } else if number == 15 {
            Some(Command::GOAL_BLUE)
        } else if number == 16 {
            Some(Command::BALL_PLACEMENT_YELLOW)
        } else if number == 17 {
            Some(Command::BALL_PLACEMENT_BLUE)
        } else {
            None
        }
    }

    /// The command that a number stands for.
    pub fn from_number(number: i32) -> (result: Option<Command>)
        ensures
            result == Self::numbered(number),
    {
        match number {
            0 => Some(Command::HALT),
            1 => Some(Command::STOP),
            2 => Some(Command::NORMAL_START),
            3 => Some(Command::FORCE_START),
            4 => Some(Command::PREPARE_KICKOFF_YELLOW),
            5 => Some(Command::PREPARE_KICKOFF_BLUE),
            6 => Some(Command::PREPARE_PENALTY_YELLOW),
            7 => Some(Command::PREPARE_PENALTY_BLUE),
            8 => Some(Command::DIRECT_FREE_YELLOW),
            9 => Some(Command::DIRECT_FREE_BLUE),
            10 => Some(Command::INDIRECT_FREE_YELLOW),
            11 => Some(Command::INDIRECT_FREE_BLUE),
            12 => Some(Command::TIMEOUT_YELLOW),
            13 => Some(Command::TIMEOUT_BLUE),
            14 => Some(Command::GOAL_YELLOW),
            15 => Some(Command::GOAL_BLUE),
            16 => Some(Command::BALL_PLACEMENT_YELLOW),
            17 => Some(Command::BALL_PLACEMENT_BLUE),
            _ => None,
        }
    }
}

/// A command is the one that its number stands for, and no other number does.
pub proof fn law_command_numbers(command: Command, number: i32)
    ensures
        Command::numbered(number) == Some(command) <==> number == command.number(),
{
}

/// What a message says of a team.
#[derive(Debug)]
pub struct TeamMessage {
    pub name: Option<String>,
    pub score: Option<u32>,
    pub red_cards: Option<u32>,
    pub yellow_card_times: Vec<u32>,
    pub yellow_cards: Option<u32>,
    pub timeouts: Option<u32>,
    pub timeout_time: Option<u32>,
    pub goalkeeper: Option<u32>,
}

/// What a message says of a team, by contents.
pub struct TeamMessageView {
    pub name: Option<Seq<char>>,
    pub score: Option<u32>,
    pub red_cards: Option<u32>,
    pub yellow_card_times: Seq<u32>,
    pub yellow_cards: Option<u32>,
    pub timeouts: Option<u32>,
    pub timeout_time: Option<u32>,
    pub goalkeeper: Option<u32>,
}

/// The characters of an optional text.
pub open spec fn optional_text(text: Option<String>) -> Option<Seq<char>> {
    match text {
        Some(s) => Some(s@),
        None => None,
    }
}

impl View for TeamMessage {
    type V = TeamMessageView;

    open spec fn view(&self) -> TeamMessageView {
        TeamMessageView {
            name: optional_text(self.name),
            score: self.score,
            red_cards: self.red_cards,
            yellow_card_times: self.yellow_card_times@,
            yellow_cards: self.yellow_cards,
            timeouts: self.timeouts,
            timeout_time: self.timeout_time,
            goalkeeper: self.goalkeeper,
        }
    }
}

/// A point on the field, in millimetres. Each coordinate is a
/// single-precision number, by its bit pattern.
#[derive(Debug, Clone, Copy, PartialEq, Eq, Structural)]
pub struct PointMessage {
    pub x: Option<u32>,
    pub y: Option<u32>,
}

/// A message of the referee. Stages and commands stand by their numbers, which
/// can be unknown ones.
#[derive(Debug)]
pub struct Referee {
    pub packet_timestamp: Option<u64>,
    pub stage: Option<i32>,
    pub stage_time_left: Option<i64>,
    pub command: Option<i32>,
    pub command_counter: Option<u32>,
    pub command_timestamp: Option<u64>,
    pub yellow: Option<TeamMessage>,
    pub blue: Option<TeamMessage>,
    pub designated_position: Option<PointMessage>,
    pub blue_team_on_positive_half: Option<bool>,
    pub next_command: Option<i32>,
    pub current_action_time_remaining: Option<i64>,
    pub status_message: Option<String>,
}

/// A message of the referee, by contents.
pub struct RefereeView {
    pub packet_timestamp: Option<u64>,
    pub stage: Option<i32>,
    pub stage_time_left: Option<i64>,
    pub command: Option<i32>,
    pub command_counter: Option<u32>,
    pub command_timestamp: Option<u64>,
    pub yellow: Option<TeamMessageView>,
    pub blue: Option<TeamMessageView>,
    pub designated_position: Option<PointMessage>,
    pub blue_team_on_positive_half: Option<bool>,
    pub next_command: Option<i32>,
    pub current_action_time_remaining: Option<i64>,
    pub status_message: Option<Seq<char>>,
}

/// The contents of an optional team.
pub open spec fn optional_team(team: Option<TeamMessage>) -> Option<TeamMessageView> {
    match team {
        Some(t) => Some(t@),
        None => None,
    }
}

impl View for Referee {
    type V = RefereeView;

    open spec fn view(&self) -> RefereeView {
        RefereeView {
            packet_timestamp: self.packet_timestamp,
            stage: self.stage,
            stage_time_left: self.stage_time_left,
            command: self.command,
            command_counter: self.command_counter,
            command_timestamp: self.command_timestamp,
            yellow: optional_team(self.yellow),
            blue: optional_team(self.blue),
            designated_position: self.designated_position,
            blue_team_on_positive_half: self.blue_team_on_positive_half,
            next_command: self.next_command,
            current_action_time_remaining: self.current_action_time_remaining,
            status_message: optional_text(self.status_message),
        }
    }
}

/// The 32-bit number of a field.
pub open spec fn as_uint32(field: Option<ValueModel>) -> Option<u32> {
    match field {
        Some(Field::Uint32(v)) => Some(v),
        _ => None,
    }
}

/// The 64-bit number of a field.
pub open spec fn as_uint64(field: Option<ValueModel>) -> Option<u64> {
    match field {
        Some(Field::Uint64(v)) => Some(v),
        _ => None,
    }
}

/// The signed number of a field.
pub open spec fn as_sint64(field: Option<ValueModel>) -> Option<i64> {
    match field {
        Some(Field::Sint64(v)) => Some(v),
        _ => None,
    }
}

/// The enumeration's number of a field.
pub open spec fn as_enumeration(field: Option<ValueModel>) -> Option<i32> {
    match field {
        Some(Field::Enumeration(v)) => Some(v),
        _ => None,
    }
}

/// The truth value of a field.
pub open spec fn as_bool(field: Option<ValueModel>) -> Option<bool> {
    match field {
        Some(Field::Bool(v)) => Some(v),
        _ => None,
    }
}

/// The bit pattern of a field's single-precision number.
pub open spec fn as_single(field: Option<ValueModel>) -> Option<u32> {
    match field {
        Some(Field::Single(v)) => Some(v),
        _ => None,
    }
}

/// The text of a field.
pub open spec fn as_text(field: Option<ValueModel>) -> Option<Seq<char>> {
    match field {
        Some(Field::Text(v)) => Some(v),
        _ => None,
    }
}

/// The times of all yellow cards, in the order in which they were sent, one
/// by one or as lists.
pub open spec fn card_times(fields: Seq<(u32, ValueModel)>) -> Seq<u32>
    decreases fields.len(),
{
    if fields.len() == 0 {
        Seq::empty()
    } else {
        let before = card_times(fields.drop_last());
        match fields.last() {
            (YELLOW_CARD_TIME, Field::Uint32(v)) => before.push(v),
            (YELLOW_CARD_TIMES, Field::Counts(list)) => before + list,
            _ => before,
        }
    }
}

/// The team that `bytes` describe, in a message announced with this length.
pub open spec fn team(bytes: Seq<u8>, announced: u64) -> Option<TeamMessageView> {
    match records(Layout::TeamInfo, bytes, announced as int) {
        Some(fields) => Some(
            TeamMessageView {
                name: as_text(last(fields, NAME)),
                score: as_uint32(last(fields, SCORE)),
                red_cards: as_uint32(last(fields, RED_CARDS)),
                yellow_card_times: card_times(fields),
                yellow_cards: as_uint32(last(fields, YELLOW_CARDS)),
                timeouts: as_uint32(last(fields, TIMEOUTS)),
                timeout_time: as_uint32(last(fields, TIMEOUT_TIME)),
                goalkeeper: as_uint32(last(fields, GOALKEEPER)),
            },
        ),
        None => None,
    }
}

/// The point that `bytes` describe, in a message announced with this length.
pub open spec fn point(bytes: Seq<u8>, announced: u64) -> Option<PointMessage> {
    match records(Layout::Point, bytes, announced as int) {
        Some(fields) => Some(
            PointMessage {
                x: as_single(last(fields, POINT_X)),
                y: as_single(last(fields, POINT_Y)),
            },
        ),
        None => None,
    }
}

/// The team of a field.
pub open spec fn as_team(field: Option<ValueModel>) -> Option<TeamMessageView> {
    match field {
        Some(Field::Message { body, announced }) => team(body, announced),
        _ => None,
    }
}

/// The point of a field.
pub open spec fn as_point(field: Option<ValueModel>) -> Option<PointMessage> {
    match field {
        Some(Field::Message { body, announced }) => point(body, announced),
        _ => None,
    }
}

/// Whether what a field nests, if it nests something, can be read.
pub open spec fn readable(field: (u32, ValueModel)) -> bool {
    match field {
        (YELLOW, Field::Message { body, announced }) => team(body, announced) is Some,
        (BLUE, Field::Message { body, announced }) => team(body, announced) is Some,
        (DESIGNATED_POSITION, Field::Message { body, announced }) => point(body, announced) is Some,
        _ => true,
    }
}

/// The message of the referee that `bytes` hold, where they hold one: the last
/// field with a tag counts, and every nested message can be read.
pub open spec fn referee(bytes: Seq<u8>) -> Option<RefereeView> {
    match records(Layout::Referee, bytes, u64::MAX as int) {
        Some(fields) => if forall|i: int| 0 <= i < fields.len() ==> readable(#[trigger] fields[i]) {
            Some(
                RefereeView {
                    packet_timestamp: as_uint64(last(fields, PACKET_TIMESTAMP)),
                    stage: as_enumeration(last(fields, STAGE)),
                    stage_time_left: as_sint64(last(fields, STAGE_TIME_LEFT)),
                    command: as_enumeration(last(fields, COMMAND)),
                    command_counter: as_uint32(last(fields, COMMAND_COUNTER)),
                    command_timestamp: as_uint64(last(fields, COMMAND_TIMESTAMP)),
                    yellow: as_team(last(fields, YELLOW)),
                    blue: as_team(last(fields, BLUE)),
                    designated_position: as_point(last(fields, DESIGNATED_POSITION)),
                    blue_team_on_positive_half: as_bool(last(fields, BLUE_TEAM_ON_POSITIVE_HALF)),
                    next_command: as_enumeration(last(fields, NEXT_COMMAND)),
                    current_action_time_remaining: as_sint64(
                        last(fields, CURRENT_ACTION_TIME_REMAINING),
                    ),
                    status_message: as_text(last(fields, STATUS_MESSAGE)),
                },
            )
        } else {
            None
        },
        None => None,
    }
}

impl TeamMessageView {
    /// Whether all fields that a team must have are there.
    pub open spec fn complete(self) -> bool {
        &&& self.name is Some
        &&& self.score is Some
        &&& self.red_cards is Some
        &&& self.yellow_cards is Some
        &&& self.timeouts is Some
        &&& self.timeout_time is Some
        &&& self.goalkeeper is Some
    }
}

impl RefereeView {
    /// Whether all fields that a message must have are there, in nested
    /// messages too.
    pub open spec fn complete(self) -> bool {
        &&& self.packet_timestamp is Some
        &&& self.stage is Some
        &&& self.command is Some
        &&& self.command_counter is Some
        &&& self.command_timestamp is Some
        &&& self.yellow matches Some(yellow) && yellow.complete()
        &&& self.blue matches Some(blue) && blue.complete()
        &&& self.designated_position matches Some(p) ==> p.x is Some && p.y is Some
    }
}

/// Whether what a field nests has at most as many bytes as were announced.
spec fn body_fits(field: (u32, ValueModel)) -> bool {
    field.1 matches Field::Message { body, announced } ==> body.len() <= announced
}

/// Whether `body_fits` holds of every field.
spec fn bodies_fit(fields: Seq<(u32, ValueModel)>) -> bool {
    forall|i: int| 0 <= i < fields.len() ==> body_fits(#[trigger] fields[i])
}

/// The last field with a tag is a field.
proof fn lemma_last_is_a_field(fields: Seq<(u32, ValueModel)>, tag: u32)
    ensures
        last(fields, tag) matches Some(v) ==> exists|i: int|
            0 <= i < fields.len() && #[trigger] fields[i] == (tag, v),
    decreases fields.len(),
{
    if fields.len() > 0 {
        if fields.last().0 == tag {
            assert(fields[fields.len() - 1] == (tag, fields.last().1));
        } else {
            lemma_last_is_a_field(fields.drop_last(), tag);
            if let Some(v) = last(fields.drop_last(), tag) {
                let i = choose|i: int|
                    0 <= i < fields.len() - 1 && #[trigger] fields.drop_last()[i] == (tag, v);
                assert(fields[i] == (tag, v));
            }
        }
    }
}

/// A nested message has at most as many bytes as were announced for it.
proof fn lemma_bodies_fit(layout: Layout, bytes: Seq<u8>, room: int)
    requires
        bytes.len() <= room <= u64::MAX,
    ensures
        records(layout, bytes, room) matches Some(fields) ==> bodies_fit(fields),
    decreases bytes.len(),
{
    if bytes.len() > 0 {
        lemma_varint_length(bytes, 5, 15);
        if let Some((tag, used)) = varint32(bytes) {
            let rest = bytes.skip(used as int);
            lemma_value_length(layout, tag as u32, rest, room - used);
            if let Some((v, length)) = value(layout, tag as u32, rest, room - used) {
                lemma_varint_length(rest, 10, 1);
                lemma_bodies_fit(layout, rest.skip(length as int), room - used - length);
                if let Some(after) = records(
                    layout,
                    rest.skip(length as int),
                    room - used - length,
                ) {
                    let fields = seq![(tag as u32, v)] + after;
                    assert forall|i: int| 0 <= i < fields.len() implies body_fits(
                        #[trigger] fields[i],
                    ) by {
                        if i > 0 {
                            assert(fields[i] == after[i - 1]);
                        }
                    }
                }
            }
        }
    }
}

fn uint32_of(list: &Vec<Record>, tag: u32) -> (result: Option<u32>)
    ensures
        result == as_uint32(last(models(list@), tag)),
{
    match last_value(list, tag) {
        Some(Field::Uint32(v)) => Some(*v),
        _ => None,
    }
}

fn uint64_of(list: &Vec<Record>, tag: u32) -> (result: Option<u64>)
    ensures
        result == as_uint64(last(models(list@), tag)),
{
    match last_value(list, tag) {
        Some(Field::Uint64(v)) => Some(*v),
        _ => None,
    }
}

fn sint64_of(list: &Vec<Record>, tag: u32) -> (result: Option<i64>)
    ensures
        result == as_sint64(last(models(list@), tag)),
{
    match last_value(list, tag) {
        Some(Field::Sint64(v)) => Some(*v),
        _ => None,
    }
}

fn enumeration_of(list: &Vec<Record>, tag: u32) -> (result: Option<i32>)
    ensures
        result == as_enumeration(last(models(list@), tag)),
{
    match last_value(list, tag) {
        Some(Field::Enumeration(v)) => Some(*v),
        _ => None,
    }
}

fn bool_of(list: &Vec<Record>, tag: u32) -> (result: Option<bool>)
    ensures
        result == as_bool(last(models(list@), tag)),
{
    match last_value(list, tag) {
        Some(Field::Bool(v)) => Some(*v),
        _ => None,
    }
}

fn single_of(list: &Vec<Record>, tag: u32) -> (result: Option<u32>)
    ensures
        result == as_single(last(models(list@), tag)),
{
    match last_value(list, tag) {
        Some(Field::Single(v)) => Some(*v),
        _ => None,
    }
}

fn text_of(list: &Vec<Record>, tag: u32) -> (result: Option<String>)
    ensures
        optional_text(result) == as_text(last(models(list@), tag)),
{
    match last_value(list, tag) {
        Some(Field::Text(v)) => Some(v.clone()),
        _ => None,
    }
}

fn card_times_of(list: &Vec<Record>) -> (result: Vec<u32>)
    ensures
        result@ == card_times(models(list@)),
{
    let mut times: Vec<u32> = Vec::new();
    let mut i: usize = 0;
    while i < list.len()
        invariant
            i <= list@.len(),
            times@ == card_times(models(list@).take(i as int)),
        decreases list@.len() - i,
    {
        let ghost longer = models(list@).take(i + 1);
        assert(longer.drop_last() =~= models(list@).take(i as int));
        assert(longer.last() == list@[i as int].model());
        match &list[i].value {
            Field::Uint32(v) => if list[i].tag == YELLOW_CARD_TIME {
                times.push(*v);
            },
            Field::Counts(more) => if list[i].tag == YELLOW_CARD_TIMES {
                let ghost before = times@;
                times.extend_from_slice(more.as_slice());
                assert(times@ =~= before + more@);
            },
            _ => {},
        }
        i = i + 1;
    }
    assert(models(list@).take(i as int) =~= models(list@));
    times
}

fn read_team(data: &[u8], announced: u64) -> (result: Result<TeamMessage, DecodeError>)
    requires
        data@.len() <= announced,
    ensures
        match result {
            Ok(message) => team(data@, announced) == Some(message@),
            Err(e) => e == DecodeError::Malformed && team(data@, announced) is None,
        },
{
    match read_records(Layout::TeamInfo, data, announced) {
        Ok(fields) => Ok(
            TeamMessage {
                name: text_of(&fields, NAME),
                score: uint32_of(&fields, SCORE),
                red_cards: uint32_of(&fields, RED_CARDS),
                yellow_card_times: card_times_of(&fields),
                yellow_cards: uint32_of(&fields, YELLOW_CARDS),
                timeouts: uint32_of(&fields, TIMEOUTS),
                timeout_time: uint32_of(&fields, TIMEOUT_TIME),
                goalkeeper: uint32_of(&fields, GOALKEEPER),
            },
        ),
        Err(e) => Err(e),
    }
}

fn read_point(data: &[u8], announced: u64) -> (result: Result<PointMessage, DecodeError>)
    requires
        data@.len() <= announced,
    ensures
        match result {
            Ok(message) => point(data@, announced) == Some(message),
            Err(e) => e == DecodeError::Malformed && point(data@, announced) is None,
        },
{
    match read_records(Layout::Point, data, announced) {
        Ok(fields) => Ok(
            PointMessage { x: single_of(&fields, POINT_X), y: single_of(&fields, POINT_Y) },
        ),
        Err(e) => Err(e),
    }
}

fn team_of(list: &Vec<Record>, tag: u32) -> (result: Option<TeamMessage>)
    requires
        bodies_fit(models(list@)),
    ensures
        optional_team(result) == as_team(last(models(list@), tag)),
{
    proof {
        lemma_last_is_a_field(models(list@), tag);
    }
    match last_value(list, tag) {
        Some(Field::Message { body, announced }) => match read_team(body, *announced) {
            Ok(message) => Some(message),
            Err(_) => None,
        },
        _ => None,
    }
}

fn point_of(list: &Vec<Record>, tag: u32) -> (result: Option<PointMessage>)
    requires
        bodies_fit(models(list@)),
    ensures
        result == as_point(last(models(list@), tag)),
{
    proof {
        lemma_last_is_a_field(models(list@), tag);
    }
    match last_value(list, tag) {
        Some(Field::Message { body, announced }) => match read_point(body, *announced) {
            Ok(message) => Some(message),
            Err(_) => None,
        },
        _ => None,
    }
}

fn all_readable(list: &Vec<Record>) -> (result: bool)
    requires
        bodies_fit(models(list@)),
    ensures
        result == (forall|i: int|
            0 <= i < models(list@).len() ==> readable(#[trigger] models(list@)[i])),
{
    let mut k: usize = 0;
    while k < list.len()
        invariant
            k <= list@.len(),
            bodies_fit(models(list@)),
            forall|i: int| 0 <= i < k ==> readable(#[trigger] models(list@)[i]),
        decreases list@.len() - k,
    {
        let ghost field = models(list@)[k as int];
        assert(field == list@[k as int].model() && body_fits(field));
        if let Field::Message { body, announced } = &list[k].value {
            let tag: u32 = list[k].tag;
            let can_be_read = if tag == YELLOW || tag == BLUE {
                read_team(body, *announced).is_ok()
            } else if tag == DESIGNATED_POSITION {
                read_point(body, *announced).is_ok()
            } else {
                true
            };
            assert(can_be_read == readable(field));
            if !can_be_read {
                return false;
            }
        }
        assert(readable(field));
        k = k + 1;
    }
    true
}

impl TeamMessage {
    /// Whether all fields that a team must have are there.
    fn is_complete(&self) -> (result: bool)
        ensures
            result == self@.complete(),
    {
        self.name.is_some() && self.score.is_some() && self.red_cards.is_some()
            && self.yellow_cards.is_some() && self.timeouts.is_some()
            && self.timeout_time.is_some() && self.goalkeeper.is_some()
    }
}

impl Referee {
    /// Whether all fields that a message must have are there.
    pub fn is_complete(&self) -> (result: bool)
        ensures
            result == self@.complete(),
    {
        let teams = match (&self.yellow, &self.blue) {
            (Some(yellow), Some(blue)) => yellow.is_complete() && blue.is_complete(),
            _ => false,
        };
        let position = match &self.designated_position {
            Some(p) => p.x.is_some() && p.y.is_some(),
            None => true,
        };
        self.packet_timestamp.is_some() && self.stage.is_some() && self.command.is_some()
            && self.command_counter.is_some() && self.command_timestamp.is_some() && teams
            && position
    }

    /// Reads a message from bytes. The bytes have to hold a message, and the
    /// message has to be complete.
    pub fn parse_from_bytes(data: &[u8]) -> (result: Result<Referee, DecodeError>)
        ensures
            match result {
                Ok(message) => referee(data@) == Some(message@) && message@.complete(),
                Err(DecodeError::Malformed) => referee(data@) is None,
                Err(DecodeError::Incomplete) => referee(data@) matches Some(message)
                    && !message.complete(),
            },
    {
        let length: usize = data.len();
        assert(data@.len() == length);
        match read_records(Layout::Referee, data, u64::MAX) {
            Ok(fields) => {
                proof {
                    lemma_bodies_fit(Layout::Referee, data@, u64::MAX as int);
                }
                if !all_readable(&fields) {
                    return Err(DecodeError::Malformed);
                }
                let message = Referee {
                    packet_timestamp: uint64_of(&fields, PACKET_TIMESTAMP),
                    stage: enumeration_of(&fields, STAGE),
                    stage_time_left: sint64_of(&fields, STAGE_TIME_LEFT),
                    command: enumeration_of(&fields, COMMAND),
                    command_counter: uint32_of(&fields, COMMAND_COUNTER),
                    command_timestamp: uint64_of(&fields, COMMAND_TIMESTAMP),
                    yellow: team_of(&fields, YELLOW),
                    blue: team_of(&fields, BLUE),
                    designated_position: point_of(&fields, DESIGNATED_POSITION),
                    blue_team_on_positive_half: bool_of(&fields, BLUE_TEAM_ON_POSITIVE_HALF),
                    next_command: enumeration_of(&fields, NEXT_COMMAND),
                    current_action_time_remaining: sint64_of(
                        &fields,
                        CURRENT_ACTION_TIME_REMAINING,
                    ),
                    status_message: text_of(&fields, STATUS_MESSAGE),
                };
                if message.is_complete() {
                    Ok(message)
                } else {
                    Err(DecodeError::Incomplete)
                }
            },
            Err(e) => Err(e),
        }
    }
}

} // verus!
