//! Reading the referee's messages from bytes.

use protobuf::CodedOutputStream;
use rustengine::layout::Layout;
use rustengine::referee::{Command, Referee, Stage};
use rustengine::wire::{last_value, read_records, DecodeError, Field};

fn written(write: impl Fn(&mut CodedOutputStream) -> protobuf::Result<()>) -> Vec<u8> {
    let mut bytes: Vec<u8> = Vec::new();
    let mut out = CodedOutputStream::vec(&mut bytes);
    write(&mut out).unwrap();
    out.flush().unwrap();
    drop(out);
    bytes
}

fn team(name: &str) -> Vec<u8> {
    written(|out| {
        out.write_string(1, name)?;
        for field in [2, 3, 5, 6, 7, 8] {
            out.write_uint32(field, 10 * field)?;
        }
        Ok(())
    })
}

fn required() -> Vec<u8> {
    written(|out| {
        out.write_uint64(1, u64::MAX)?;
        out.write_enum(2, 13)?;
        out.write_enum(4, 17)?;
        out.write_uint32(5, u32::MAX)?;
        out.write_uint64(6, 1)?;
        out.write_bytes(7, &team("Y"))?;
        out.write_bytes(8, &team("B"))
    })
}

fn with(more: Vec<u8>) -> Vec<u8> {
    let mut bytes = required();
    bytes.extend(more);
    bytes
}

fn error(bytes: &[u8]) -> DecodeError {
    match Referee::parse_from_bytes(bytes) {
        Ok(_) => panic!("a message was read"),
        Err(e) => e,
    }
}

#[test]
fn a_complete_message_is_read() {
    let message = Referee::parse_from_bytes(&required()).unwrap();
    assert_eq!(message.packet_timestamp, Some(u64::MAX));
    assert_eq!(message.stage, Some(13));
    assert_eq!(message.command, Some(17));
    assert_eq!(message.command_counter, Some(u32::MAX));
    assert_eq!(message.command_timestamp, Some(1));
    assert_eq!(message.stage_time_left, None);
    assert!(message.designated_position.is_none());
    let yellow = message.yellow.unwrap();
    assert_eq!(yellow.name, Some("Y".to_string()));
    assert_eq!((yellow.score, yellow.red_cards), (Some(20), Some(30)));
    assert_eq!((yellow.yellow_cards, yellow.timeouts), (Some(50), Some(60)));
    assert_eq!((yellow.timeout_time, yellow.goalkeeper), (Some(70), Some(80)));
    assert_eq!(yellow.yellow_card_times, Vec::<u32>::new());
    assert_eq!(message.blue.unwrap().name, Some("B".to_string()));
}

#[test]
fn an_absent_field_is_incomplete() {
    assert_eq!(error(&[]), DecodeError::Incomplete);
    let no_teams = written(|out| {
        out.write_uint64(1, 1)?;
        out.write_enum(2, 0)?;
        out.write_enum(4, 0)?;
        out.write_uint32(5, 0)?;
        out.write_uint64(6, 0)
    });
    assert_eq!(error(&no_teams), DecodeError::Incomplete);
    assert_eq!(error(&with(written(|out| out.write_bytes(8, &[])))), DecodeError::Incomplete);
    let half_point = written(|out| out.write_float(1, 1.0));
    assert_eq!(
        error(&with(written(|out| out.write_bytes(9, &half_point)))),
        DecodeError::Incomplete
    );
}

#[test]
fn broken_bytes_are_malformed() {
    // A tag without a value, a tag without an end, a tag without a number.
    assert_eq!(error(&with(vec![8])), DecodeError::Malformed);
    assert_eq!(error(&with(vec![0x80])), DecodeError::Malformed);
    assert_eq!(error(&with(vec![0, 0])), DecodeError::Malformed);
    // Numbers that are too long.
    assert_eq!(
        error(&with(vec![8, 255, 255, 255, 255, 255, 255, 255, 255, 255, 2])),
        DecodeError::Malformed
    );
    assert_eq!(error(&with(vec![40, 255, 255, 255, 255, 16])), DecodeError::Malformed);
    // A text that is no text, and one that is too short.
    assert_eq!(error(&with(vec![162, 1, 1, 0xff])), DecodeError::Malformed);
    assert_eq!(error(&with(vec![162, 1, 5, b'a'])), DecodeError::Malformed);
    // A number of an enumeration that takes more than 32 bits.
    let wide = written(|out| out.write_uint64(4, 0x1_0000_0000));
    assert_eq!(error(&with(wide)), DecodeError::Malformed);
    // A nested message that is broken, though a later one replaces it.
    let replaced = written(|out| {
        out.write_bytes(7, &[16])?;
        out.write_bytes(7, &team("Y"))
    });
    assert_eq!(error(&with(replaced)), DecodeError::Malformed);
    // A list that is broken.
    let mut cards = team("Y");
    cards.extend([34, 1, 0x80]);
    assert_eq!(error(&with(written(|out| out.write_bytes(7, &cards)))), DecodeError::Malformed);
    // Four bytes that are three.
    let short_point = vec![13, 0, 0, 0];
    assert_eq!(
        error(&with(written(|out| out.write_bytes(9, &short_point)))),
        DecodeError::Malformed
    );
}

#[test]
fn the_last_of_several_fields_counts() {
    let more = written(|out| {
        out.write_enum(4, 2)?;
        out.write_enum(4, 3)?;
        out.write_uint32(5, 7)?;
        out.write_bytes(7, &team("other"))
    });
    let message = Referee::parse_from_bytes(&with(more)).unwrap();
    assert_eq!(message.command, Some(3));
    assert_eq!(message.command_counter, Some(7));
    assert_eq!(message.yellow.unwrap().name, Some("other".to_string()));
}

#[test]
fn unknown_fields_are_passed_over() {
    let more = written(|out| {
        out.write_uint64(99, 5)?;
        out.write_fixed32(100, 5)?;
        out.write_fixed64(101, 5)?;
        out.write_string(102, "texto")?;
        out.write_raw_varint32(103 * 8 + 3)?;
        out.write_uint32(1, 1)?;
        out.write_raw_varint32(103 * 8 + 4)?;
        // The command's number, written as text.
        out.write_string(4, "STOP")?;
        out.write_uint32(5, 12)
    });
    let message = Referee::parse_from_bytes(&with(more)).unwrap();
    assert_eq!(message.command, Some(17));
    assert_eq!(message.command_counter, Some(12));
}

#[test]
fn unfinished_unknown_fields_are_malformed() {
    assert_eq!(error(&with(vec![0x9b, 6, 8])), DecodeError::Malformed);
    for wire_type in [2, 6, 7] {
        let tag = written(|out| out.write_raw_varint32(99 * 8 + wire_type));
        assert_eq!(error(&with(tag)), DecodeError::Malformed);
    }
}

#[test]
fn signed_numbers_are_read() {
    for time in [0, -1, 1, i64::MAX, i64::MIN] {
        let more = written(|out| {
            out.write_sint64(3, time)?;
            out.write_sint64(15, time)
        });
        let message = Referee::parse_from_bytes(&with(more)).unwrap();
        assert_eq!(message.stage_time_left, Some(time));
        assert_eq!(message.current_action_time_remaining, Some(time));
    }
}

#[test]
fn negative_numbers_of_enumerations_are_read() {
    for number in [-1, i32::MIN, i32::MAX] {
        let more = written(|out| out.write_enum(12, number));
        let message = Referee::parse_from_bytes(&with(more)).unwrap();
        assert_eq!(message.next_command, Some(number));
    }
}

#[test]
fn points_are_read() {
    let point = written(|out| {
        out.write_float(1, -0.25)?;
        out.write_float(2, 1e30)
    });
    let message =
        Referee::parse_from_bytes(&with(written(|out| out.write_bytes(9, &point)))).unwrap();
    let position = message.designated_position.unwrap();
    assert_eq!(position.x.map(f32::from_bits), Some(-0.25));
    assert_eq!(position.y.map(f32::from_bits), Some(1e30));
}

#[test]
fn texts_are_read() {
    for text in ["", "a", "¡gol de la selección!", "日本"] {
        let more = written(|out| out.write_string(20, text));
        let message = Referee::parse_from_bytes(&with(more)).unwrap();
        assert_eq!(message.status_message, Some(text.to_string()));
    }
}

#[test]
fn card_times_come_one_by_one_and_as_lists() {
    let mut cards = team("Y");
    cards.extend(written(|out| {
        out.write_uint32(4, 300)?;
        out.write_repeated_packed_uint32(4, &[1, 200_000, 3])?;
        out.write_uint32(4, 4)
    }));
    let message =
        Referee::parse_from_bytes(&with(written(|out| out.write_bytes(7, &cards)))).unwrap();
    assert_eq!(message.yellow.unwrap().yellow_card_times, vec![300, 1, 200_000, 3, 4]);
}

#[test]
fn truth_values_are_read() {
    for (byte, truth) in [(0, false), (1, true), (2, true)] {
        let message = Referee::parse_from_bytes(&with(vec![80, byte])).unwrap();
        assert_eq!(message.blue_team_on_positive_half, Some(truth));
    }
}

#[test]
fn fields_are_read_in_order() {
    let bytes = written(|out| {
        out.write_float(1, 2.0)?;
        out.write_uint32(7, 9)?;
        out.write_float(1, 3.0)
    });
    let fields = read_records(Layout::Point, &bytes, bytes.len() as u64).unwrap();
    let tags: Vec<u32> = fields.iter().map(|f| f.tag).collect();
    assert_eq!(tags, vec![13, 56, 13]);
    match last_value(&fields, 13) {
        Some(Field::Single(bits)) => assert_eq!(f32::from_bits(*bits), 3.0),
        _ => panic!("no number"),
    }
    assert!(matches!(last_value(&fields, 56), Some(Field::Unknown)));
    assert!(last_value(&fields, 21).is_none());
}

#[test]
fn stages_and_commands_have_numbers() {
    assert_eq!(Stage::from_number(0), Some(Stage::NORMAL_FIRST_HALF_PRE));
    assert_eq!(Stage::from_number(13), Some(Stage::POST_GAME));
    assert_eq!(Stage::from_number(14), None);
    assert_eq!(Stage::from_number(-1), None);
    assert_eq!(Command::from_number(0), Some(Command::HALT));
    assert_eq!(Command::from_number(1), Some(Command::STOP));
    assert_eq!(Command::from_number(16), Some(Command::BALL_PLACEMENT_YELLOW));
    assert_eq!(Command::from_number(17), Some(Command::BALL_PLACEMENT_BLUE));
    assert_eq!(Command::from_number(18), None);
}

/// A field of groups, each in the one before.
fn groups(levels: usize) -> Vec<u8> {
    let mut bytes = vec![0xa3, 0x06];
    bytes.extend(vec![0x0b; levels]);
    bytes.extend(vec![0x0c; levels]);
    bytes.extend([0xa4, 0x06]);
    bytes
}

#[test]
fn groups_are_passed_over_to_the_depth_that_is_left() {
    assert_eq!(Layout::Referee.levels(), 100);
    assert_eq!(Layout::TeamInfo.levels(), 99);
    assert!(Referee::parse_from_bytes(&with(groups(100))).is_ok());
    assert_eq!(error(&with(groups(101))), DecodeError::Malformed);
    let nested = |levels: usize| {
        let mut body = team("Y");
        body.extend(groups(levels));
        with(written(|out| out.write_bytes(7, &body)))
    };
    assert!(Referee::parse_from_bytes(&nested(99)).is_ok());
    assert_eq!(error(&nested(100)), DecodeError::Malformed);
}
