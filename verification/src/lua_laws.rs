//! What scripts read, by what was seen, and what they ask for, by what they
//! give.

use crate::arithmetic::finer;
use crate::lua_bindings::{
    ball_snapshot, ball_table, command_name, direct_request, directory_of, is_plainly_spelled,
    is_robot_array, kicker_command, law_parent_stands_before_the_last_slash,
    law_seen_robot_is_found, law_unseen_robot_is_not_found, limited_dribbler, module_directory,
    move_request, parent_of, robot_snapshot, robot_snapshots, robot_table, search_path, table_view,
    turn_request, velocity_command, LuaCommand, LuaContext, LuaEntry, LuaField, LuaValue,
};
use crate::motion::acceleration::lemma_narrow_error;
use crate::motion::bounds::lemma_narrowing_is_within;
use crate::motion::geometry::size;
use crate::motion::limits::square_of;
use crate::referee::Command;
use crate::rounding::{
    law_every_number_is_rounded, lemma_small_is_zero, lemma_steps_by_parts, lemma_steps_of_zero,
    Format, DOUBLE_RANGE,
};
use crate::scalar::{law_order_is_numeric, Scalar};
use crate::single::{
    law_narrowing_undoes_widening, law_widening_keeps_the_value, Single, Vec2,
};
use crate::world::{BallState, RobotState};
use vstd::arithmetic::power2::{
    lemma2_to64, lemma2_to64_rest, lemma_pow2_adds, lemma_pow2_pos, pow2,
};
use vstd::prelude::*;

verus! {

/// Whether a double is the same number as a single: finite ones have the same
/// value, infinite ones the same sign.
pub open spec fn same_number(wide: Scalar, narrow: Single) -> bool {
    &&& wide.nan() <==> narrow.nan()
    &&& wide.finite() <==> narrow.finite()
    &&& !narrow.nan() ==> wide.number().negative == narrow.number().negative
    &&& narrow.finite() ==> wide.value() == narrow.value() * finer()
}

/// Whether a table has a key, and this value wherever it has it.
pub open spec fn holds(fields: Seq<LuaField>, key: Seq<char>, value: LuaValue) -> bool {
    &&& exists|i: int| 0 <= i < fields.len() && (#[trigger] fields[i]).key@ == key
    &&& forall|i: int|
        0 <= i < fields.len() && (#[trigger] fields[i]).key@ == key ==> fields[i].value == value
}

/// Whether a table has a key, and the same number as this one wherever it has
/// it.
pub open spec fn holds_number(fields: Seq<LuaField>, key: Seq<char>, number: Single) -> bool {
    exists|wide: Scalar| #[trigger]
        holds(fields, key, LuaValue::Number(wide)) && same_number(wide, number)
}

/// Whether a table shows a robot: each key holds the part of its state that the
/// key names.
pub open spec fn shows_robot(fields: Seq<LuaField>, robot: RobotState) -> bool {
    &&& fields.len() == 8
    &&& holds(fields, "id"@, LuaValue::Integer(robot.id))
    &&& holds(fields, "team"@, LuaValue::Integer(robot.team))
    &&& holds_number(fields, "x"@, robot.position.x)
    &&& holds_number(fields, "y"@, robot.position.y)
    &&& holds_number(fields, "vel_x"@, robot.velocity.x)
    &&& holds_number(fields, "vel_y"@, robot.velocity.y)
    &&& holds(fields, "orientation"@, LuaValue::Number(robot.orientation))
    &&& holds(fields, "active"@, LuaValue::Boolean(robot.active))
}

/// Whether a table shows the ball: each key holds the part of its state that
/// the key names.
pub open spec fn shows_ball(fields: Seq<LuaField>, ball: BallState) -> bool {
    &&& fields.len() == 4
    &&& holds_number(fields, "x"@, ball.position.x)
    &&& holds_number(fields, "y"@, ball.position.y)
    &&& holds_number(fields, "vel_x"@, ball.velocity.x)
    &&& holds_number(fields, "vel_y"@, ball.velocity.y)
}

/// A single in double precision is the same number.
proof fn lemma_widened_is_the_same(narrow: Single)
    ensures
        same_number(narrow.widened(), narrow),
{
    if narrow.finite() {
        law_widening_keeps_the_value(narrow);
    }
}

/// The field at a place has the key and the value that the table has there.
proof fn lemma_field(fields: Seq<LuaField>, table: Seq<(Seq<char>, LuaValue)>, i: int)
    requires
        table_view(fields) == table,
        0 <= i < table.len(),
    ensures
        fields.len() == table.len(),
        fields[i].key@ == table[i].0,
        fields[i].value == table[i].1,
{
    assert(table_view(fields)[i] == (fields[i].key@, fields[i].value));
}

/// The keys of tables differ.
proof fn lemma_keys_differ()
    ensures
        "id"@.len() == 2,
        "team"@.len() == 4,
        "x"@.len() == 1 && "x"@[0] == 'x',
        "y"@.len() == 1 && "y"@[0] == 'y',
        "vel_x"@.len() == 5 && "vel_x"@[4] == 'x',
        "vel_y"@.len() == 5 && "vel_y"@[4] == 'y',
        "orientation"@.len() == 11,
        "active"@.len() == 6,
{
    reveal_strlit("id");
    reveal_strlit("team");
    reveal_strlit("x");
    reveal_strlit("y");
    reveal_strlit("vel_x");
    reveal_strlit("vel_y");
    reveal_strlit("orientation");
    reveal_strlit("active");
}

/// A script that gets the table of a robot reads the robot's state: every key
/// holds the part that it names, in double precision.
pub proof fn law_table_shows_the_robot(fields: Seq<LuaField>, robot: RobotState)
    requires
        table_view(fields) == robot_table(robot_snapshot(robot)),
    ensures
        shows_robot(fields, robot),
{
    let table = robot_table(robot_snapshot(robot));
    lemma_keys_differ();
    lemma_field(fields, table, 0);
    lemma_field(fields, table, 1);
    lemma_field(fields, table, 2);
    lemma_field(fields, table, 3);
    lemma_field(fields, table, 4);
    lemma_field(fields, table, 5);
    lemma_field(fields, table, 6);
    lemma_field(fields, table, 7);
    lemma_widened_is_the_same(robot.position.x);
    lemma_widened_is_the_same(robot.position.y);
    lemma_widened_is_the_same(robot.velocity.x);
    lemma_widened_is_the_same(robot.velocity.y);
    assert(holds(fields, "id"@, LuaValue::Integer(robot.id)));
    assert(holds(fields, "team"@, LuaValue::Integer(robot.team)));
    assert(holds(fields, "x"@, LuaValue::Number(robot.position.x.widened())));
    assert(holds(fields, "y"@, LuaValue::Number(robot.position.y.widened())));
    assert(holds(fields, "vel_x"@, LuaValue::Number(robot.velocity.x.widened())));
    assert(holds(fields, "vel_y"@, LuaValue::Number(robot.velocity.y.widened())));
    assert(holds(fields, "orientation"@, LuaValue::Number(robot.orientation)));
    assert(holds(fields, "active"@, LuaValue::Boolean(robot.active)));
}

/// A script that gets the table of the ball reads the ball's state: every key
/// holds the part that it names, in double precision.
pub proof fn law_table_shows_the_ball(fields: Seq<LuaField>, ball: BallState)
    requires
        table_view(fields) == ball_table(ball_snapshot(ball)),
    ensures
        shows_ball(fields, ball),
{
    let table = ball_table(ball_snapshot(ball));
    lemma_keys_differ();
    lemma_field(fields, table, 0);
    lemma_field(fields, table, 1);
    lemma_field(fields, table, 2);
    lemma_field(fields, table, 3);
    lemma_widened_is_the_same(ball.position.x);
    lemma_widened_is_the_same(ball.position.y);
    lemma_widened_is_the_same(ball.velocity.x);
    lemma_widened_is_the_same(ball.velocity.y);
    assert(holds(fields, "x"@, LuaValue::Number(ball.position.x.widened())));
    assert(holds(fields, "y"@, LuaValue::Number(ball.position.y.widened())));
    assert(holds(fields, "vel_x"@, LuaValue::Number(ball.velocity.x.widened())));
    assert(holds(fields, "vel_y"@, LuaValue::Number(ball.velocity.y.widened())));
}

/// The array of a team shows every robot that was seen, in the same order, and
/// counts them from one.
pub proof fn law_array_shows_the_team(entries: Seq<LuaEntry>, robots: Seq<RobotState>)
    requires
        is_robot_array(entries, robot_snapshots(robots)),
    ensures
        entries.len() == robots.len(),
        forall|i: int|
            0 <= i < robots.len() ==> (#[trigger] entries[i]).index == i + 1 && shows_robot(
                entries[i].fields@,
                robots[i],
            ),
{
    let seen = robot_snapshots(robots);
    assert forall|i: int| 0 <= i < robots.len() implies (#[trigger] entries[i]).index == i + 1
        && shows_robot(entries[i].fields@, robots[i]) by {
        assert(seen[i] == robot_snapshot(robots[i]));
        law_table_shows_the_robot(entries[i].fields@, robots[i]);
    }
}

/// The robots of team 0, the blue one, or else those of the yellow one.
pub open spec fn either_team(
    blue: Seq<RobotState>,
    yellow: Seq<RobotState>,
    team: i32,
) -> Seq<RobotState> {
    if team == 0 {
        blue
    } else {
        yellow
    }
}

/// Whether the robot at a place is the first with its number.
pub open spec fn is_first(robots: Seq<RobotState>, i: int) -> bool {
    &&& 0 <= i < robots.len()
    &&& forall|j: int| 0 <= j < i ==> (#[trigger] robots[j]).id != robots[i].id
}

/// After the world was seen with these robots, a script that asks for a robot
/// of a team by its number reads the state of the first one of that team with
/// the number, and a velocity that it gives it goes out with where it faces.
pub proof fn law_seen_robot_is_read(
    context: LuaContext,
    blue: Seq<RobotState>,
    yellow: Seq<RobotState>,
    team: i32,
    i: int,
    fields: Seq<LuaField>,
)
    requires
        context.world_snapshot.blue_robots@ == robot_snapshots(blue),
        context.world_snapshot.yellow_robots@ == robot_snapshots(yellow),
        team == 0 || team == 1,
        is_first(either_team(blue, yellow, team), i),
    ensures
        ({
            let robot = either_team(blue, yellow, team)[i];
            &&& context.world_snapshot.robot(robot.id, team) matches Some(seen) && (table_view(
                fields,
            ) == robot_table(seen) ==> shows_robot(fields, robot))
            &&& context.orientation(robot.id, team) == robot.orientation
        }),
{
    let robots = either_team(blue, yellow, team);
    law_seen_robot_is_found(robots, i);
    if table_view(fields) == robot_table(robot_snapshot(robots[i])) {
        law_table_shows_the_robot(fields, robots[i]);
    }
}

/// A robot that was not seen in its team cannot be read, and there are no other
/// teams than 0, the blue one, and 1, the yellow one.
pub proof fn law_unseen_robot_is_not_read(
    context: LuaContext,
    blue: Seq<RobotState>,
    yellow: Seq<RobotState>,
    id: i32,
    team: i32,
)
    requires
        context.world_snapshot.blue_robots@ == robot_snapshots(blue),
        context.world_snapshot.yellow_robots@ == robot_snapshots(yellow),
        team == 0 ==> forall|j: int| 0 <= j < blue.len() ==> (#[trigger] blue[j]).id != id,
        team == 1 ==> forall|j: int| 0 <= j < yellow.len() ==> (#[trigger] yellow[j]).id != id,
    ensures
        context.world_snapshot.robot(id, team) is None,
        context.orientation(id, team).value() == 0,
{
    lemma_steps_of_zero(Format::Double);
    if team == 0 {
        law_unseen_robot_is_not_found(blue, id);
    } else if team == 1 {
        law_unseen_robot_is_not_found(yellow, id);
    }
}

/// Whether a script can name a robot: the numbers are 0 to 10, of team 0 or 1.
pub open spec fn nameable(id: i32, team: i32) -> bool {
    0 <= id && id <= 10 && (team == 0 || team == 1)
}

/// Whether a coordinate of a request is the one that a script gave, rounded to
/// single precision: one part in 2^23 and the smallest positive single. It has
/// the same sign, and is finite where the number is no larger than the largest
/// single. One that was not given is zero.
pub open spec fn is_coordinate(given: Option<Scalar>, coordinate: Single) -> bool {
    match given {
        Some(number) => if number.nan() {
            coordinate.nan()
        } else {
            &&& !coordinate.nan()
            &&& coordinate.number().negative == number.number().negative
            &&& !number.finite() ==> !coordinate.finite()
            &&& number.finite() && size(number.value()) <= 0xff_ffff * pow2(1178)
                ==> coordinate.finite()
            &&& number.finite() && coordinate.finite() ==> 0x80_0000 * size(
                coordinate.value() * finer() - number.value(),
            ) <= size(number.value()) + 0x80_0001 * finer()
        },
        None => coordinate.magnitude() == 0,
    }
}

/// Whether a request sends a robot to the point that a script gave, or turns it
/// there.
pub open spec fn is_request_to(
    command: Option<LuaCommand>,
    id: i32,
    team: i32,
    x: Option<Scalar>,
    y: Option<Scalar>,
) -> bool {
    let (named, target) = match command {
        Some(LuaCommand::MoveToRequest { id: i, team: t, target }) => ((i, t), target),
        Some(LuaCommand::MoveDirectRequest { id: i, team: t, target }) => ((i, t), target),
        Some(LuaCommand::FaceToRequest { id: i, team: t, target, .. }) => ((i, t), target),
        _ => ((-1i32, -1i32), Vec2::zero()),
    };
    &&& named == (id, team)
    &&& is_coordinate(x, target.x)
    &&& is_coordinate(y, target.y)
}

/// The coordinate of a request is the one that a script gave, rounded.
proof fn lemma_coordinate(given: Option<Scalar>)
    ensures
        is_coordinate(given, Single::narrowed(given.unwrap_or(Scalar::zero()))),
{
    match given {
        Some(number) => {
            lemma_pow2_pos(925);
            if number.finite() {
                let steps = Format::Double.steps(number.magnitude());
                law_every_number_is_rounded(Format::Single, steps, finer());
                if steps <= 0xff_ffff * pow2(1178) {
                    lemma_steps_of_zero(Format::Double);
                    assert(square_of(Scalar::zero()) == 0) by (nonlinear_arith)
                        requires
                            square_of(Scalar::zero()) == 0 * 0,
                    ;
                    lemma_narrowing_is_within(number, Scalar::zero(), number);
                }
                if Single::narrowed(number).finite() {
                    lemma_narrow_error(number);
                }
            }
        },
        None => {
            lemma_pow2_pos(925);
            lemma_steps_of_zero(Format::Double);
            lemma_small_is_zero(Format::Single, 0, finer());
        },
    }
}

/// A request holds the robot that a script named and the point that it gave,
/// rounded to single precision, x in x and y in y. Each of the three ways to
/// ask gives the request of its own kind, and none where the robot cannot be
/// named. Gains that are given are kept.
pub proof fn law_requests_hold_the_point(
    id: i32,
    team: i32,
    x: Option<Scalar>,
    y: Option<Scalar>,
    kp: Option<Scalar>,
    ki: Option<Scalar>,
    kd: Option<Scalar>,
)
    ensures
        nameable(id, team) ==> {
            &&& move_request(id, team, x, y) matches Some(LuaCommand::MoveToRequest { .. })
            &&& is_request_to(move_request(id, team, x, y), id, team, x, y)
            &&& direct_request(id, team, x, y) matches Some(LuaCommand::MoveDirectRequest { .. })
            &&& is_request_to(direct_request(id, team, x, y), id, team, x, y)
            &&& turn_request(id, team, x, y, kp, ki, kd) matches Some(
                LuaCommand::FaceToRequest { kp: p, ki: i, kd: d, .. },
            ) && (kp matches Some(given) ==> p == given) && (ki matches Some(given) ==> i == given)
                && (kd matches Some(given) ==> d == given)
            &&& is_request_to(turn_request(id, team, x, y, kp, ki, kd), id, team, x, y)
        },
        !nameable(id, team) ==> {
            &&& move_request(id, team, x, y) is None
            &&& direct_request(id, team, x, y) is None
            &&& turn_request(id, team, x, y, kp, ki, kd) is None
        },
{
    lemma_coordinate(x);
    lemma_coordinate(y);
}

/// Where a script gives coordinates that single precision has, the request is to
/// exactly that point.
pub proof fn law_exact_point_is_kept(
    id: i32,
    team: i32,
    point: Vec2,
    kp: Scalar,
    ki: Scalar,
    kd: Scalar,
)
    requires
        nameable(id, team),
        !point.x.nan(),
        !point.y.nan(),
    ensures
        ({
            let x = Some(point.x.widened());
            let y = Some(point.y.widened());
            &&& move_request(id, team, x, y) == Some(
                LuaCommand::MoveToRequest { id, team, target: point },
            )
            &&& direct_request(id, team, x, y) == Some(
                LuaCommand::MoveDirectRequest { id, team, target: point },
            )
            &&& turn_request(id, team, x, y, Some(kp), Some(ki), Some(kd)) == Some(
                LuaCommand::FaceToRequest { id, team, target: point, kp, ki, kd },
            )
        }),
{
    law_narrowing_undoes_widening(point.x);
    law_narrowing_undoes_widening(point.y);
}

/// A gain that is not given for a turn is 3.5, 0.7 and 0.1 in turn, but for
/// rounding, whichever of the others are given.
pub proof fn law_default_gains(
    id: i32,
    team: i32,
    x: Option<Scalar>,
    y: Option<Scalar>,
    kp: Option<Scalar>,
    ki: Option<Scalar>,
    kd: Option<Scalar>,
)
    requires
        nameable(id, team),
    ensures
        turn_request(id, team, x, y, kp, ki, kd) matches Some(
            LuaCommand::FaceToRequest { kp: p, ki: i, kd: d, .. },
        ) && ({
            let one = Format::Double.one() as int;
            &&& kp is None ==> 2 * p.value() == 7 * one
            &&& ki is None ==> 0x8_0000_0000_0000 * size(10 * i.value() - 7 * one) <= 7 * one
            &&& kd is None ==> 0x8_0000_0000_0000 * size(10 * d.value() - one) <= one
        }),
{
    let f = Format::Double;
    let range = DOUBLE_RANGE as nat;
    lemma2_to64();
    lemma2_to64_rest();
    lemma_steps_by_parts(f, 0x400c_0000_0000_0000);
    assert(0x400c_0000_0000_0000nat / range == 1024 && 0x400c_0000_0000_0000nat % range
        == 0xc_0000_0000_0000);
    lemma_steps_by_parts(f, 0x3fe6_6666_6666_6666);
    assert(0x3fe6_6666_6666_6666nat / range == 1022 && 0x3fe6_6666_6666_6666nat % range
        == 0x6_6666_6666_6666);
    lemma_steps_by_parts(f, 0x3fb9_9999_9999_999a);
    assert(0x3fb9_9999_9999_999anat / range == 1019 && 0x3fb9_9999_9999_999anat % range
        == 0x9_9999_9999_999a);
    let p = pow2(1018);
    lemma_pow2_adds(1018, 5);
    lemma_pow2_adds(1018, 3);
    lemma_pow2_adds(1018, 56);
    assert(f.steps(0x400c_0000_0000_0000) == 0x1c_0000_0000_0000 * pow2(1023));
    assert(f.steps(0x3fe6_6666_6666_6666) == 0x16_6666_6666_6666 * pow2(1021));
    assert(f.steps(0x3fb9_9999_9999_999a) == 0x19_9999_9999_999a * p);
    assert(pow2(1023) == 32 * p && pow2(1021) == 8 * p && f.one() == 0x100_0000_0000_0000 * p);
}

/// Whether a number is another one, held between two whole numbers. What is no
/// number stays as it is.
pub open spec fn is_held(given: Scalar, result: Scalar, low: int, high: int) -> bool {
    let one = Format::Double.one() as int;
    if given.nan() {
        result == given
    } else if given.finite() && low * one <= given.value() <= high * one {
        result == given
    } else if given.number().negative {
        result.value() == low * one
    } else {
        result.value() == high * one
    }
}

/// The values of the limits.
proof fn lemma_limits()
    ensures
        ({
            let one = Format::Double.one();
            &&& Format::Double.steps(0x4008_0000_0000_0000) == 3 * one
            &&& Format::Double.steps(0x4024_0000_0000_0000) == 10 * one
            &&& Format::Double.steps(0x4010_0000_0000_0000) == 4 * one
        }),
{
    let f = Format::Double;
    let range = DOUBLE_RANGE as nat;
    lemma2_to64();
    lemma2_to64_rest();
    lemma_steps_by_parts(f, 0x4008_0000_0000_0000);
    assert(0x4008_0000_0000_0000nat / range == 1024 && 0x4008_0000_0000_0000nat % range
        == 0x8_0000_0000_0000);
    lemma_steps_by_parts(f, 0x4024_0000_0000_0000);
    assert(0x4024_0000_0000_0000nat / range == 1026 && 0x4024_0000_0000_0000nat % range
        == 0x4_0000_0000_0000);
    lemma_steps_by_parts(f, 0x4010_0000_0000_0000);
    assert(0x4010_0000_0000_0000nat / range == 1025 && 0x4010_0000_0000_0000nat % range == 0);
    let p = pow2(1023);
    lemma_pow2_adds(1023, 2);
    lemma_pow2_adds(1023, 1);
    lemma_pow2_adds(1023, 51);
    assert(f.steps(0x4008_0000_0000_0000) == 0x18_0000_0000_0000 * p);
    assert(f.steps(0x4024_0000_0000_0000) == 0x14_0000_0000_0000 * pow2(1025));
    assert(f.steps(0x4010_0000_0000_0000) == 0x10_0000_0000_0000 * pow2(1024));
}

/// Holding a number between two others, by values.
proof fn lemma_held(given: Scalar, low: Scalar, high: Scalar, a: int, b: int)
    requires
        low.finite(),
        high.finite(),
        low.value() == a * Format::Double.one(),
        high.value() == b * Format::Double.one(),
        a <= 0 < b,
    ensures
        is_held(given, given.held_between(low, high), a, b),
{
    let f = Format::Double;
    let one = f.one() as int;
    lemma_pow2_pos(1074);
    lemma_steps_of_zero(f);
    assert(a * one <= 0 < b * one) by (nonlinear_arith)
        requires
            a <= 0 < b,
            one > 0,
    ;
    if given.finite() {
        law_order_is_numeric(given, low);
        law_order_is_numeric(high, given);
    } else if !given.nan() {
        assert(given.less(low) || !given.number().negative);
        assert(high.less(given) || given.number().negative);
    }
}

/// A velocity command gives the robot that a script named the speeds that it
/// gave, each along its own axis, cut to 3 along either axis and 10 for turns,
/// and keeps where the robot faces.
pub proof fn law_velocity_is_the_one_given(
    id: i32,
    team: i32,
    vx: Scalar,
    vy: Scalar,
    vtetha: Scalar,
    orientation: Scalar,
)
    ensures
        nameable(id, team) ==> (velocity_command(id, team, vx, vy, vtetha, orientation) matches Some(
            LuaCommand::Motion(command),
        ) && command.id == id && command.team == team && command.orientation == orientation
            && is_held(vx, command.vx, -3, 3) && is_held(vy, command.vy, -3, 3) && is_held(
            vtetha,
            command.omega,
            -10,
            10,
        )),
        !nameable(id, team) ==> velocity_command(id, team, vx, vy, vtetha, orientation) is None,
{
    lemma_limits();
    let low = Scalar { bits: 0xc008_0000_0000_0000 };
    let high = Scalar { bits: 0x4008_0000_0000_0000 };
    let turn_low = Scalar { bits: 0xc024_0000_0000_0000 };
    let turn_high = Scalar { bits: 0x4024_0000_0000_0000 };
    lemma_held(vx, low, high, -3, 3);
    lemma_held(vy, low, high, -3, 3);
    lemma_held(vtetha, turn_low, turn_high, -10, 10);
}

/// A kicker command is for the robot that a script named and holds which kick it
/// is, and the speed of a dribbler is the one that a script gave, cut to 0 to 4.
pub proof fn law_kick_is_the_one_asked_for(
    id: i32,
    team: i32,
    kick_x: bool,
    kick_z: bool,
    speed: Scalar,
)
    ensures
        nameable(id, team) ==> (kicker_command(id, team, kick_x, kick_z, speed) matches Some(
            LuaCommand::Kicker(command),
        ) && command.id == id && command.team == team && command.kick_x == kick_x && command.kick_z
            == kick_z && command.dribbler == speed),
        !nameable(id, team) ==> kicker_command(id, team, kick_x, kick_z, speed) is None,
        is_held(speed, limited_dribbler(speed), 0, 4),
{
    lemma_limits();
    lemma_steps_of_zero(Format::Double);
    lemma_held(speed, Scalar::zero(), Scalar { bits: 0x4010_0000_0000_0000 }, 0, 4);
}

/// Whether a text stands in another one from a place on.
pub open spec fn stands_at(text: Seq<char>, place: int, part: Seq<char>) -> bool {
    0 <= place && place + part.len() <= text.len() && text.subrange(
        place,
        place + part.len(),
    ) == part
}

/// Modules are looked up in the script's directory first, as files and then as
/// directories with an `init.lua`, and then where they were looked up before:
/// four entries for the directory stand before the old path.
pub proof fn law_script_directory_comes_first(dir: Seq<char>, before: Seq<char>)
    ensures
        ({
            let path = search_path(dir, before);
            let n = dir.len() as int;
            &&& path.len() == 4 * n + 38 + before.len()
            &&& stands_at(path, 0, dir + "\\?.lua;"@)
            &&& stands_at(path, n + 7, dir + "\\?\\init.lua;"@)
            &&& stands_at(path, 2 * n + 19, dir + "/?.lua;"@)
            &&& stands_at(path, 3 * n + 26, dir + "/?/init.lua;"@)
            &&& stands_at(path, 4 * n + 38, before)
        }),
{
    reveal_strlit("\\?.lua;");
    reveal_strlit("\\?\\init.lua;");
    reveal_strlit("/?.lua;");
    reveal_strlit("/?/init.lua;");
    let path = search_path(dir, before);
    let n = dir.len() as int;
    assert(path.subrange(0, n + 7) =~= dir + "\\?.lua;"@);
    assert(path.subrange(n + 7, 2 * n + 19) =~= dir + "\\?\\init.lua;"@);
    assert(path.subrange(2 * n + 19, 3 * n + 26) =~= dir + "/?.lua;"@);
    assert(path.subrange(3 * n + 26, 4 * n + 38) =~= dir + "/?/init.lua;"@);
    assert(path.subrange(4 * n + 38, path.len() as int) =~= before);
}

/// The part of a name that two commands share which differ only in the team that
/// they are for, by their numbers: two to a part from 4 on.
pub open spec fn stem(pair: int) -> Seq<char> {
    if pair == 2 {
        "PREPARE_KICKOFF"@
    } else if pair == 3 {
        "PREPARE_PENALTY"@
    } else if pair == 4 {
        "DIRECT_FREE"@
    } else if pair == 5 {
        "INDIRECT_FREE"@
    } else if pair == 6 {
        "TIMEOUT"@
    } else if pair == 7 {
        "GOAL"@
    } else {
        "BALL_PLACEMENT"@
    }
}

/// A script knows a command by the name that goes with its number: those for
/// both teams come first, and from 4 on the even numbers are for the yellow team
/// and the odd ones for the blue one.
pub proof fn law_names_go_with_the_numbers(command: Command)
    ensures
        ({
            let name = command_name(command);
            let number = command.number() as int;
            &&& number == 0 ==> name == "HALT"@
            &&& number == 1 ==> name == "STOP"@
            &&& number == 2 ==> name == "NORMAL_START"@
            &&& number == 3 ==> name == "FORCE_START"@
            &&& number >= 4 && number % 2 == 0 ==> name == stem(number / 2) + "_YELLOW"@
            &&& number >= 4 && number % 2 == 1 ==> name == stem(number / 2) + "_BLUE"@
        }),
{
    reveal_strlit("HALT");
    reveal_strlit("STOP");
    reveal_strlit("NORMAL_START");
    reveal_strlit("FORCE_START");
    reveal_strlit("PREPARE_KICKOFF_YELLOW");
    reveal_strlit("PREPARE_KICKOFF_BLUE");
    reveal_strlit("PREPARE_PENALTY_YELLOW");
    reveal_strlit("PREPARE_PENALTY_BLUE");
    reveal_strlit("DIRECT_FREE_YELLOW");
    reveal_strlit("DIRECT_FREE_BLUE");
    reveal_strlit("INDIRECT_FREE_YELLOW");
    reveal_strlit("INDIRECT_FREE_BLUE");
    reveal_strlit("TIMEOUT_YELLOW");
    reveal_strlit("TIMEOUT_BLUE");
    reveal_strlit("GOAL_YELLOW");
    reveal_strlit("GOAL_BLUE");
    reveal_strlit("BALL_PLACEMENT_YELLOW");
    reveal_strlit("BALL_PLACEMENT_BLUE");
    reveal_strlit("PREPARE_KICKOFF");
    reveal_strlit("PREPARE_PENALTY");
    reveal_strlit("DIRECT_FREE");
    reveal_strlit("INDIRECT_FREE");
    reveal_strlit("TIMEOUT");
    reveal_strlit("GOAL");
    reveal_strlit("BALL_PLACEMENT");
    reveal_strlit("_YELLOW");
    reveal_strlit("_BLUE");
    let name = command_name(command);
    let number = command.number() as int;
    if number >= 4 && number % 2 == 0 {
        assert(name =~= stem(number / 2) + "_YELLOW"@);
    } else if number >= 4 {
        assert(name =~= stem(number / 2) + "_BLUE"@);
    }
}

/// What stands before the last slash of a path, the slash, and what stands after
/// it make the path.
proof fn lemma_parts_of_path(path: Seq<char>)
    ensures
        path.contains('/') ==> directory_of(path).len() < path.len() && path[directory_of(
            path,
        ).len() as int] == '/' && path.take(directory_of(path).len() as int) == directory_of(path)
            && !path.skip(directory_of(path).len() as int + 1).contains('/'),
        !path.contains('/') ==> directory_of(path).len() == 0,
    decreases path.len(),
{
    if path.len() > 0 {
        if path.last() == '/' {
            assert(path.contains('/'));
            assert(path.take(path.len() - 1) =~= path.drop_last());
        } else {
            let shorter = path.drop_last();
            lemma_parts_of_path(shorter);
            if path.contains('/') {
                let i = choose|i: int| 0 <= i < path.len() && path[i] == '/';
                assert(shorter[i] == '/');
                let k = directory_of(path).len() as int;
                assert(path.take(k) =~= shorter.take(k));
                let after = path.skip(k + 1);
                assert forall|j: int| 0 <= j < after.len() implies after[j] != '/' by {
                    if j < after.len() - 1 {
                        assert(after[j] == shorter.skip(k + 1)[j]);
                        assert(shorter.skip(k + 1).contains(shorter.skip(k + 1)[j]));
                    }
                }
            } else {
                assert forall|i: int| 0 <= i < shorter.len() implies shorter[i] != '/' by {
                    assert(path[i] == shorter[i]);
                    assert(path.contains(path[i]));
                }
            }
        }
    }
}

/// The modules of a script lie beside it: with the directory in which they are
/// looked up, a slash and a name without slashes make its path. Those of a script
/// whose path is a bare name are looked up in the current directory. The path is
/// plainly spelled.
pub proof fn law_modules_lie_beside_the_script(path: Seq<char>)
    requires
        is_plainly_spelled(path),
    ensures
        ({
            let directory = module_directory(parent_of(path));
            let n = directory.len() as int;
            &&& path.contains('/') ==> 0 < n < path.len() && path.take(n) == directory && path[n]
                == '/' && !path.skip(n + 1).contains('/')
            &&& !path.contains('/') ==> directory == "."@
        }),
{
    law_parent_stands_before_the_last_slash(path);
    lemma_parts_of_path(path);
    if path.contains('/') && directory_of(path).len() == 0 {
        assert(path[0] == '/');
    }
}

} // verus!
