//! What the engine knows of the game, by what the referee's messages say, and
//! what messages say, by their fields.

use crate::arithmetic::Number;
use crate::game_controller::{
    game_state, reaction, ActionView, Announced, EventView, Failure, GameController, GameState,
    GameStateView, ReceiveErrorView, Reception, TeamInfo, TeamInfoView,
};
use crate::layout::Layout;
use crate::motion::directions::lemma_single_distance;
use crate::motion::geometry::size;
use crate::referee::{
    card_times, point, readable, referee, team, Command, PointMessage, Referee, RefereeView, Stage,
    TeamMessage, TeamMessageView,
};
use crate::rounding::{
    law_every_number_is_rounded, law_rounding_keeps_order, law_value_is_kept, lemma_steps_by_parts,
    lemma_steps_of_zero, Format,
};
use crate::single::Single;
use crate::wire::{last, records, Field, ValueModel};
use vstd::arithmetic::power2::{lemma2_to64, lemma_pow2_adds, lemma_pow2_pos, pow2};
use vstd::prelude::*;

verus! {

/// Whether something is what a field says, or empty where the field is absent.
pub open spec fn is_said<A>(field: Option<A>, nothing: A, known: A) -> bool {
    match field {
        Some(said) => known == said,
        None => known == nothing,
    }
}

/// Whether what is known of a team is what a message says of it.
pub open spec fn team_is_said(message: TeamMessageView, known: TeamInfoView) -> bool {
    &&& is_said(message.name, Seq::empty(), known.name)
    &&& is_said(message.score, 0, known.score)
    &&& is_said(message.red_cards, 0, known.red_cards)
    &&& known.yellow_card_times == message.yellow_card_times
    &&& is_said(message.yellow_cards, 0, known.yellow_cards)
    &&& is_said(message.timeouts, 0, known.timeouts)
    &&& is_said(message.timeout_time, 0, known.timeout_time)
    &&& is_said(message.goalkeeper, 0, known.goalkeeper)
}

/// Whether nothing is known of a team.
pub open spec fn team_is_blank(known: TeamInfoView) -> bool {
    &&& known.name.len() == 0
    &&& known.yellow_card_times.len() == 0
    &&& known.score == 0 && known.red_cards == 0 && known.yellow_cards == 0
    &&& known.timeouts == 0 && known.timeout_time == 0 && known.goalkeeper == 0
}

/// The state of the game is what the message says: every part of it is the
/// field of that name, each team's part is what is said of that team, and what
/// the message leaves out is empty, zero or false.
pub proof fn law_state_is_what_the_message_says(message: RefereeView)
    ensures
        ({
            let state = game_state(message);
            &&& state.stage_time_left == message.stage_time_left
            &&& is_said(message.command_counter, 0, state.command_counter)
            &&& is_said(message.command_timestamp, 0, state.command_timestamp)
            &&& is_said(message.blue_team_on_positive_half, false, state.blue_team_on_positive_half)
            &&& state.current_action_time_remaining == message.current_action_time_remaining
            &&& state.status_message == message.status_message
            &&& message.yellow matches Some(yellow) ==> team_is_said(yellow, state.yellow_team)
            &&& message.yellow is None ==> team_is_blank(state.yellow_team)
            &&& message.blue matches Some(blue) ==> team_is_said(blue, state.blue_team)
            &&& message.blue is None ==> team_is_blank(state.blue_team)
            &&& state.designated_position is Some <==> message.designated_position is Some
            &&& state.next_command is Some <==> message.next_command is Some
        }),
{
}

/// The numbers of the commands: those for both teams are 0 to 3, and from 4 on
/// each command for the yellow team has the next even number and the same one
/// for the blue team the odd number after it.
pub proof fn law_command_numbering(number: i32, command: Command)
    ensures
        Command::numbered(number) == Some(command) <==> {
            ||| number == 0 && command == Command::HALT
            ||| number == 1 && command == Command::STOP
            ||| number == 2 && command == Command::NORMAL_START
            ||| number == 3 && command == Command::FORCE_START
            ||| number == 4 && command == Command::PREPARE_KICKOFF_YELLOW
            ||| number == 5 && command == Command::PREPARE_KICKOFF_BLUE
            ||| number == 6 && command == Command::PREPARE_PENALTY_YELLOW
            ||| number == 7 && command == Command::PREPARE_PENALTY_BLUE
            ||| number == 8 && command == Command::DIRECT_FREE_YELLOW
            ||| number == 9 && command == Command::DIRECT_FREE_BLUE
            ||| number == 10 && command == Command::INDIRECT_FREE_YELLOW
            ||| number == 11 && command == Command::INDIRECT_FREE_BLUE
            ||| number == 12 && command == Command::TIMEOUT_YELLOW
            ||| number == 13 && command == Command::TIMEOUT_BLUE
            ||| number == 14 && command == Command::GOAL_YELLOW
            ||| number == 15 && command == Command::GOAL_BLUE
            ||| number == 16 && command == Command::BALL_PLACEMENT_YELLOW
            ||| number == 17 && command == Command::BALL_PLACEMENT_BLUE
        },
        Command::numbered(number) is None <==> number < 0 || number > 17,
        command.number() == number <==> Command::numbered(number) == Some(command),
{
}

/// The numbers of the stages: in the order of a game, from 0 on.
pub proof fn law_stage_numbering(number: i32, stage: Stage)
    ensures
        Stage::numbered(number) == Some(stage) <==> {
            ||| number == 0 && stage == Stage::NORMAL_FIRST_HALF_PRE
            ||| number == 1 && stage == Stage::NORMAL_FIRST_HALF
            ||| number == 2 && stage == Stage::NORMAL_HALF_TIME
            ||| number == 3 && stage == Stage::NORMAL_SECOND_HALF_PRE
            ||| number == 4 && stage == Stage::NORMAL_SECOND_HALF
            ||| number == 5 && stage == Stage::EXTRA_TIME_BREAK
            ||| number == 6 && stage == Stage::EXTRA_FIRST_HALF_PRE
            ||| number == 7 && stage == Stage::EXTRA_FIRST_HALF
            ||| number == 8 && stage == Stage::EXTRA_HALF_TIME
            ||| number == 9 && stage == Stage::EXTRA_SECOND_HALF_PRE
            ||| number == 10 && stage == Stage::EXTRA_SECOND_HALF
            ||| number == 11 && stage == Stage::PENALTY_SHOOTOUT_BREAK
            ||| number == 12 && stage == Stage::PENALTY_SHOOTOUT
            ||| number == 13 && stage == Stage::POST_GAME
        },
        Stage::numbered(number) is None <==> number < 0 || number > 13,
        stage.number() == number <==> Stage::numbered(number) == Some(stage),
{
}

/// The stage, the command and the next command are those whose numbers the
/// message gives. With a number that none has, or without one, the stage is the
/// first and the command halts the game; a next command is there only where the
/// message gives a number.
pub proof fn law_stage_and_commands_are_those_numbered(
    message: RefereeView,
    number: i32,
    command: Command,
    stage: Stage,
)
    ensures
        command.number() == number && message.command == Some(number) ==> game_state(
            message,
        ).command == command,
        stage.number() == number && message.stage == Some(number) ==> game_state(message).stage
            == stage,
        command.number() == number && message.next_command == Some(number) ==> game_state(
            message,
        ).next_command == Some(command),
        (number < 0 || number > 17) && message.command == Some(number) ==> game_state(
            message,
        ).command.number() == 0,
        (number < 0 || number > 17) && message.next_command == Some(number) ==> (game_state(
            message,
        ).next_command matches Some(next) && next.number() == 0),
        (number < 0 || number > 13) && message.stage == Some(number) ==> game_state(
            message,
        ).stage.number() == 0,
        message.command is None ==> game_state(message).command.number() == 0,
        message.stage is None ==> game_state(message).stage.number() == 0,
{
}

/// What a command means for the game, by its number: 0 halts it, 0 and 1 stop
/// it, 2 and 3 let it run, and with 16 the yellow team, number 1, places the
/// ball and with 17 the blue one, number 0.
pub proof fn law_conditions_by_number(state: GameStateView)
    ensures
        state.halted() <==> state.command.number() == 0,
        state.stopped() <==> state.command.number() <= 1,
        state.running() <==> 2 <= state.command.number() <= 3,
        state.placing_team() is Some <==> state.command.number() >= 16,
        state.placing_team() matches Some(team) ==> team == 17 - state.command.number(),
{
}

/// Whether a coordinate in metres is one in millimetres, a thousandth of it, but
/// for rounding, and with its sign. An infinite one stays infinite, and what is
/// no number stays none. One that is absent is zero.
pub open spec fn is_in_metres(millimetres: Option<u32>, metres: Single) -> bool {
    match millimetres {
        Some(bits) => {
            &&& (Single { bits }).finite() <==> metres.finite()
            &&& (Single { bits }).nan() <==> metres.nan()
            &&& !metres.nan() ==> (Single { bits }).number().negative == metres.number().negative
            &&& metres.finite() ==> 0x80_0000 * size(
                1000 * metres.value() - (Single { bits }).value(),
            ) <= size((Single { bits }).value()) + 0x100_0000 * 1000
        },
        None => metres.finite() && metres.value() == 0,
    }
}

/// A coordinate that is divided by a thousand.
proof fn lemma_in_metres(mm: Single)
    requires
        mm.finite(),
    ensures
        ({
            let m = mm.quotient(Single { bits: 0x447a_0000 });
            &&& m.finite()
            &&& m.number().negative == mm.number().negative
            &&& 0x80_0000 * size(1000 * m.value() - mm.value()) <= size(mm.value()) + 0x100_0000
                * 1000
            &&& mm.magnitude() == 0 ==> m.value() == 0
        }),
{
    let f = Format::Single;
    let o = f.one();
    let divisor = Single { bits: 0x447a_0000 };
    lemma2_to64();
    lemma_pow2_pos(149);
    lemma_steps_of_zero(f);
    lemma_steps_by_parts(f, 0x447a_0000);
    assert(0x447a_0000nat / 0x80_0000nat == 136 && 0x447a_0000nat % 0x80_0000nat == 0x7a_0000);
    let p = pow2(135);
    assert(f.steps(0x447a_0000) == 0xfa_0000 * p);
    lemma_pow2_adds(135, 14);
    let den = 1000 * o;
    assert(f.steps(divisor.magnitude()) == den);
    let a = f.steps(mm.magnitude());
    let num = a * o;
    law_every_number_is_rounded(f, num, den as nat);
    law_value_is_kept(f, mm.magnitude(), den as nat);
    assert(num <= a * den) by (nonlinear_arith)
        requires
            num == a * o,
            den == 1000 * o,
    ;
    law_rounding_keeps_order(f, num, a * den, den as nat);
    let m = f.nearest(num, den as nat);
    let r = mm.quotient(divisor);
    assert(r.number() == Number { negative: mm.number().negative, magnitude: m as u64 });
    lemma_single_distance(m, num, den as nat);
    let s = f.steps(m);
    assert(0x80_0000 * (1000 * s - a) <= a + 0x100_0000 * 1000) by (nonlinear_arith)
        requires
            0x80_0000 * (den * s - num) <= num + 0x100_0000 * den,
            den == 1000 * o,
            num == a * o,
            o > 0,
    ;
    assert(0x80_0000 * (a - 1000 * s) <= a + 0x100_0000 * 1000) by (nonlinear_arith)
        requires
            0x80_0000 * (num - den * s) <= num + 0x100_0000 * den,
            den == 1000 * o,
            num == a * o,
            o > 0,
    ;
    if mm.magnitude() == 0 {
        assert(m == 0);
    }
}

/// The position where the ball is to be placed is the one in the message, in
/// metres instead of millimetres, x in x and y in y, but for rounding.
pub proof fn law_designated_position_is_in_metres(message: RefereeView, position: PointMessage)
    requires
        message.designated_position == Some(position),
    ensures
        game_state(message).designated_position matches Some(place) && is_in_metres(
            position.x,
            place.x,
        ) && is_in_metres(position.y, place.y),
{
    let (x, y) = (Single { bits: position.x.unwrap_or(0) }, Single {
        bits: position.y.unwrap_or(0),
    });
    if x.finite() {
        lemma_in_metres(x);
    }
    if y.finite() {
        lemma_in_metres(y);
    }
}

/// The state is reported with every hundredth command, and published with every
/// message, whether somebody listens or not.
pub proof fn law_every_hundredth_command_is_reported(
    announced: Announced,
    message: RefereeView,
    has_listener: bool,
)
    ensures
        reaction(announced, Ok(Some(message)), has_listener).0 matches ActionView::Publish {
            state,
            events,
            report,
        } && state == game_state(message) && (message.command_counter matches Some(counter)
            ==> (report <==> counter % 100 == 0)) && (message.command_counter is None ==> report)
            && (has_listener <==> events.len() > 0) && (has_listener ==> events[0]
            == EventView::RefereeMessage(state)),
{
}

/// A listener is told of the command exactly where it differs from the one that
/// it was told last, and likewise of the stage, and the next time both are the
/// ones to compare with.
pub proof fn law_listener_is_told_of_changes(announced: Announced, message: RefereeView)
    ensures
        ({
            let (action, after) = reaction(announced, Ok(Some(message)), true);
            let state = game_state(message);
            &&& after.command == state.command
            &&& after.stage == state.stage
            &&& action matches ActionView::Publish { events, .. } && (events.contains(
                EventView::CommandChanged(state.command),
            ) <==> announced.command != state.command) && (events.contains(
                EventView::StageChanged(state.stage),
            ) <==> announced.stage != state.stage) && events.len() <= 3
        }),
{
    let (action, after) = reaction(announced, Ok(Some(message)), true);
    let state = game_state(message);
    if let ActionView::Publish { events, .. } = action {
        if announced.command != state.command {
            assert(events[1] == EventView::CommandChanged(state.command));
        }
        if announced.stage != state.stage {
            assert(events[events.len() - 1] == EventView::StageChanged(state.stage));
        }
    }
}

/// What the task does with a failure: it waits on after a wait without a
/// message, and pauses a tenth of a second after anything else. Without an open
/// socket it pauses whatever came.
pub proof fn law_failures_by_kind(
    gc: GameController,
    reception: Reception,
    announced: Announced,
    has_listener: bool,
)
    ensures
        ({
            let action = reaction(announced, gc.received(reception), has_listener).0;
            &&& !gc.ready() ==> action == (ActionView::Pause {
                error: ReceiveErrorView::NotInitialized,
                millis: 100,
            })
            &&& gc.ready() ==> match reception {
                Reception::Failed(Failure::TimedOut) => action is Wait,
                Reception::Failed(Failure::WouldBlock) => action is Wait,
                Reception::Failed(Failure::Other(reason)) => action == (ActionView::Pause {
                    error: ReceiveErrorView::Socket(reason@),
                    millis: 100,
                }),
                Reception::Datagram(_) => !(action is Pause),
            }
        }),
{
}

/// A message has to have its times, its stage, its command with the counter and
/// both teams with everything but the times of their cards, and a position that
/// it gives has both coordinates. Nothing else has to be there.
pub proof fn law_complete_message(message: RefereeView)
    ensures
        message.complete() ==> {
            &&& message.packet_timestamp is Some && message.command_timestamp is Some
            &&& message.stage is Some && message.command is Some
            &&& message.command_counter is Some
            &&& message.yellow is Some && message.blue is Some
            &&& message.designated_position matches Some(p) ==> p.x is Some && p.y is Some
        },
        message.complete() && message.yellow is Some ==> says_everything(message.yellow->0),
        message.complete() && message.blue is Some ==> says_everything(message.blue->0),
        message.packet_timestamp is Some && message.command_timestamp is Some && message.stage
            is Some && message.command is Some && message.command_counter is Some && (
        message.yellow matches Some(yellow) && says_everything(yellow)) && (
        message.blue matches Some(blue) && says_everything(blue)) && (
        message.designated_position matches Some(p) ==> p.x is Some && p.y is Some)
            ==> message.complete(),
{
}

/// Whether a message says everything of a team but the times of its cards.
pub open spec fn says_everything(team: TeamMessageView) -> bool {
    team.name is Some && team.score is Some && team.red_cards is Some && team.yellow_cards is Some
        && team.timeouts is Some && team.timeout_time is Some && team.goalkeeper is Some
}

/// A message says what its fields hold, each in the field of its number: the
/// last one with the number and the right form counts, and without one the
/// message does not say it. A tag is eight times the number plus the form.
pub proof fn law_message_says_what_its_fields_hold(
    bytes: Seq<u8>,
    fields: Seq<(u32, ValueModel)>,
    message: RefereeView,
)
    requires
        records(Layout::Referee, bytes, u64::MAX as int) == Some(fields),
        referee(bytes) == Some(message),
    ensures
        last(fields, 8) matches Some(Field::Uint64(v)) ==> message.packet_timestamp == Some(v),
        last(fields, 16) matches Some(Field::Enumeration(v)) ==> message.stage == Some(v),
        last(fields, 24) matches Some(Field::Sint64(v)) ==> message.stage_time_left == Some(v),
        last(fields, 32) matches Some(Field::Enumeration(v)) ==> message.command == Some(v),
        last(fields, 40) matches Some(Field::Uint32(v)) ==> message.command_counter == Some(v),
        last(fields, 48) matches Some(Field::Uint64(v)) ==> message.command_timestamp == Some(v),
        last(fields, 58) matches Some(Field::Message { body, announced }) ==> message.yellow
            == team(body, announced),
        last(fields, 66) matches Some(Field::Message { body, announced }) ==> message.blue
            == team(body, announced),
        last(fields, 74) matches Some(Field::Message { body, announced })
            ==> message.designated_position == point(body, announced),
        last(fields, 80) matches Some(Field::Bool(v)) ==> message.blue_team_on_positive_half
            == Some(v),
        last(fields, 96) matches Some(Field::Enumeration(v)) ==> message.next_command == Some(
            v,
        ),
        last(fields, 120) matches Some(Field::Sint64(v))
            ==> message.current_action_time_remaining == Some(v),
        last(fields, 162) matches Some(Field::Text(v)) ==> message.status_message == Some(v),
        last(fields, 8) is None ==> message.packet_timestamp is None,
        last(fields, 16) is None ==> message.stage is None,
        last(fields, 32) is None ==> message.command is None,
        last(fields, 40) is None ==> message.command_counter is None,
        last(fields, 48) is None ==> message.command_timestamp is None,
        last(fields, 58) is None ==> message.yellow is None,
        last(fields, 66) is None ==> message.blue is None,
        last(fields, 24) is None ==> message.stage_time_left is None,
        last(fields, 74) is None ==> message.designated_position is None,
        last(fields, 80) is None ==> message.blue_team_on_positive_half is None,
        last(fields, 96) is None ==> message.next_command is None,
        last(fields, 120) is None ==> message.current_action_time_remaining is None,
        last(fields, 162) is None ==> message.status_message is None,
{
}

/// What is said of a team is what the fields of its part hold.
pub proof fn law_team_says_what_its_fields_hold(
    bytes: Seq<u8>,
    announced: u64,
    fields: Seq<(u32, ValueModel)>,
    said: TeamMessageView,
)
    requires
        records(Layout::TeamInfo, bytes, announced as int) == Some(fields),
        team(bytes, announced) == Some(said),
    ensures
        last(fields, 10) matches Some(Field::Text(v)) ==> said.name == Some(v),
        last(fields, 16) matches Some(Field::Uint32(v)) ==> said.score == Some(v),
        last(fields, 24) matches Some(Field::Uint32(v)) ==> said.red_cards == Some(v),
        last(fields, 40) matches Some(Field::Uint32(v)) ==> said.yellow_cards == Some(v),
        last(fields, 48) matches Some(Field::Uint32(v)) ==> said.timeouts == Some(v),
        last(fields, 56) matches Some(Field::Uint32(v)) ==> said.timeout_time == Some(v),
        last(fields, 64) matches Some(Field::Uint32(v)) ==> said.goalkeeper == Some(v),
        last(fields, 10) is None ==> said.name is None,
        last(fields, 16) is None ==> said.score is None,
        last(fields, 24) is None ==> said.red_cards is None,
        last(fields, 40) is None ==> said.yellow_cards is None,
        last(fields, 48) is None ==> said.timeouts is None,
        last(fields, 56) is None ==> said.timeout_time is None,
        last(fields, 64) is None ==> said.goalkeeper is None,
        said.yellow_card_times == card_times(fields),
{
}

/// The times of yellow cards come in the order in which they were sent: a
/// single time and a list of times are added at the end, and other fields add
/// none.
pub proof fn law_card_times_keep_their_order(
    fields: Seq<(u32, ValueModel)>,
    time: u32,
    list: Seq<u32>,
    other: (u32, ValueModel),
)
    requires
        other.0 != 32 && other.0 != 34,
    ensures
        card_times(Seq::empty()) == Seq::<u32>::empty(),
        card_times(fields.push((32, Field::Uint32(time)))) == card_times(fields).push(time),
        card_times(fields.push((34, Field::Counts(list)))) == card_times(fields) + list,
        card_times(fields.push(other)) == card_times(fields),
{
    assert(fields.push((32, Field::Uint32(time))).drop_last() =~= fields);
    assert(fields.push((34, Field::Counts(list))).drop_last() =~= fields);
    assert(fields.push(other).drop_last() =~= fields);
}

/// The x of a point is its first field and the y its second.
pub proof fn law_point_says_what_its_fields_hold(
    bytes: Seq<u8>,
    announced: u64,
    fields: Seq<(u32, ValueModel)>,
    said: PointMessage,
)
    requires
        records(Layout::Point, bytes, announced as int) == Some(fields),
        point(bytes, announced) == Some(said),
    ensures
        last(fields, 13) matches Some(Field::Single(v)) ==> said.x == Some(v),
        last(fields, 21) matches Some(Field::Single(v)) ==> said.y == Some(v),
        last(fields, 13) is None ==> said.x is None,
        last(fields, 21) is None ==> said.y is None,
{
}

/// A message is read exactly where its fields are and every team and position
/// among them is, whether a later one replaces it or not.
pub proof fn law_broken_parts_break_the_message(
    bytes: Seq<u8>,
    fields: Seq<(u32, ValueModel)>,
    i: int,
    body: Seq<u8>,
    announced: u64,
)
    requires
        records(Layout::Referee, bytes, u64::MAX as int) == Some(fields),
        0 <= i < fields.len(),
        fields[i].1 == (Field::<Seq<char>, Seq<u8>, Seq<u32>>::Message { body, announced }),
        (fields[i].0 == 58 || fields[i].0 == 66) && team(body, announced) is None
            || fields[i].0 == 74 && point(body, announced) is None,
    ensures
        referee(bytes) is None,
{
    assert(!readable(fields[i]));
}

/// A message is read where its fields are and every team and position among
/// them is, and only there.
pub proof fn law_readable_message_is_read(bytes: Seq<u8>)
    ensures
        records(Layout::Referee, bytes, u64::MAX as int) is None ==> referee(bytes) is None,
        records(Layout::Referee, bytes, u64::MAX as int) matches Some(fields) && (forall|
            i: int,
            body: Seq<u8>,
            announced: u64,
        |
            0 <= i < fields.len() && (#[trigger] fields[i]).1 == (ValueModel::Message {
                body,
                announced,
            }) ==> {
                &&& fields[i].0 == 58 || fields[i].0 == 66 ==> (#[trigger] team(body, announced))
                    is Some
                &&& fields[i].0 == 74 ==> (#[trigger] point(body, announced)) is Some
            }) ==> referee(bytes) is Some,
{
}

/// What a state is by contents is what its parts hold, and so is what is known
/// of a team.
pub proof fn law_contents_are_the_parts(state: GameState, known: TeamInfo)
    ensures
        state@.stage == state.stage,
        state@.stage_time_left == state.stage_time_left,
        state@.command == state.command,
        state@.command_counter == state.command_counter,
        state@.command_timestamp == state.command_timestamp,
        state@.yellow_team == state.yellow_team@,
        state@.blue_team == state.blue_team@,
        state@.designated_position == state.designated_position,
        state@.blue_team_on_positive_half == state.blue_team_on_positive_half,
        state@.next_command == state.next_command,
        state@.current_action_time_remaining == state.current_action_time_remaining,
        state@.status_message is Some <==> state.status_message is Some,
        state.status_message matches Some(text) ==> state@.status_message == Some(text@),
        known@.name == known.name@,
        known@.score == known.score,
        known@.red_cards == known.red_cards,
        known@.yellow_card_times == known.yellow_card_times@,
        known@.yellow_cards == known.yellow_cards,
        known@.timeouts == known.timeouts,
        known@.timeout_time == known.timeout_time,
        known@.goalkeeper == known.goalkeeper,
{
}

/// What a message is by contents is what its parts hold, and so is what it says
/// of a team.
pub proof fn law_message_contents_are_the_parts(message: Referee, said: TeamMessage)
    ensures
        message@.packet_timestamp == message.packet_timestamp,
        message@.stage == message.stage,
        message@.stage_time_left == message.stage_time_left,
        message@.command == message.command,
        message@.command_counter == message.command_counter,
        message@.command_timestamp == message.command_timestamp,
        message@.yellow is Some <==> message.yellow is Some,
        message.yellow matches Some(yellow) ==> message@.yellow == Some(yellow@),
        message@.blue is Some <==> message.blue is Some,
        message.blue matches Some(blue) ==> message@.blue == Some(blue@),
        message@.designated_position == message.designated_position,
        message@.blue_team_on_positive_half == message.blue_team_on_positive_half,
        message@.next_command == message.next_command,
        message@.current_action_time_remaining == message.current_action_time_remaining,
        message@.status_message is Some <==> message.status_message is Some,
        message.status_message matches Some(text) ==> message@.status_message == Some(text@),
        said@.name is Some <==> said.name is Some,
        said.name matches Some(text) ==> said@.name == Some(text@),
        said@.score == said.score,
        said@.red_cards == said.red_cards,
        said@.yellow_card_times == said.yellow_card_times@,
        said@.yellow_cards == said.yellow_cards,
        said@.timeouts == said.timeouts,
        said@.timeout_time == said.timeout_time,
        said@.goalkeeper == said.goalkeeper,
{
}

/// Before the first message nothing is known but that the game is halted in its
/// first stage, and that is what a message without any field would tell.
pub proof fn law_nothing_is_known_at_first(message: RefereeView)
    ensures
        team_is_blank(GameStateView::initial().yellow_team),
        team_is_blank(GameStateView::initial().blue_team),
        GameStateView::initial().command.number() == 0,
        GameStateView::initial().stage.number() == 0,
        message.stage is None && message.stage_time_left is None && message.command is None
            && message.command_counter is None && message.command_timestamp is None
            && message.yellow is None && message.blue is None && message.designated_position is None
            && message.blue_team_on_positive_half is None && message.next_command is None
            && message.current_action_time_remaining is None && message.status_message is None
            ==> game_state(message) == GameStateView::initial(),
        Announced::initial().command.number() == 0,
        Announced::initial().stage.number() == 0,
{
}

/// An error in words tells the reason that the socket gave, after the rest.
pub proof fn law_words_tell_the_reason(reason: Seq<char>)
    ensures
        ({
            let words = ReceiveErrorView::Socket(reason).words();
            &&& words.len() == 26 + reason.len()
            &&& words.skip(26) == reason
        }),
{
    reveal_strlit("Error recibiendo mensaje: ");
    let words = ReceiveErrorView::Socket(reason).words();
    assert(words.skip(26) =~= reason);
}

} // verus!
