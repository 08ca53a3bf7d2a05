//! Which fields the referee's messages have, by tag.
//!
//! A tag is eight times the field's number plus its wire type. Fields that the
//! engine does not read have no entry: they are passed over like any unknown
//! field.

use vstd::prelude::*;

verus! {

/// The messages that the engine reads.
#[derive(Debug, Clone, Copy, PartialEq, Eq, Structural)]
pub enum Layout {
    Referee,
    TeamInfo,
    Point,
}

/// How the value of a field is written.
#[derive(Debug, Clone, Copy, PartialEq, Eq, Structural)]
pub enum Kind {
    Uint32,
    Uint64,
    Sint64,
    Enumeration,
    Bool,
    Single,
    Text,
    Counts,
    Message,
    Unknown,
}

pub const PACKET_TIMESTAMP: u32 = 8;
pub const STAGE: u32 = 16;
pub const STAGE_TIME_LEFT: u32 = 24;
pub const COMMAND: u32 = 32;
pub const COMMAND_COUNTER: u32 = 40;
pub const COMMAND_TIMESTAMP: u32 = 48;
pub const YELLOW: u32 = 58;
pub const BLUE: u32 = 66;
pub const DESIGNATED_POSITION: u32 = 74;
pub const BLUE_TEAM_ON_POSITIVE_HALF: u32 = 80;
pub const NEXT_COMMAND: u32 = 96;
pub const CURRENT_ACTION_TIME_REMAINING: u32 = 120;
pub const STATUS_MESSAGE: u32 = 162;

pub const NAME: u32 = 10;
pub const SCORE: u32 = 16;
pub const RED_CARDS: u32 = 24;
pub const YELLOW_CARD_TIME: u32 = 32;
pub const YELLOW_CARD_TIMES: u32 = 34;
pub const YELLOW_CARDS: u32 = 40;
pub const TIMEOUTS: u32 = 48;
pub const TIMEOUT_TIME: u32 = 56;
pub const GOALKEEPER: u32 = 64;

pub const POINT_X: u32 = 13;
pub const POINT_Y: u32 = 21;

/// How the value after `tag` is written in a message of this layout.
pub open spec fn kind(layout: Layout, tag: u32) -> Kind {
    match layout {
        Layout::Referee => if tag == PACKET_TIMESTAMP || tag == COMMAND_TIMESTAMP {
            Kind::Uint64
        } else if tag == STAGE || tag == COMMAND || tag == NEXT_COMMAND {
            Kind::Enumeration
        } else if tag == STAGE_TIME_LEFT || tag == CURRENT_ACTION_TIME_REMAINING {
            Kind::Sint64
        } else if tag == COMMAND_COUNTER {
            Kind::Uint32
        } else if tag == YELLOW || tag == BLUE || tag == DESIGNATED_POSITION {
            Kind::Message
        } else if tag == BLUE_TEAM_ON_POSITIVE_HALF {
            Kind::Bool
        } else if tag == STATUS_MESSAGE {
            Kind::Text
        } else {
            Kind::Unknown
        },
        Layout::TeamInfo => if tag == NAME {
            Kind::Text
        } else if tag == SCORE || tag == RED_CARDS || tag == YELLOW_CARD_TIME || tag == YELLOW_CARDS
            || tag == TIMEOUTS || tag == TIMEOUT_TIME || tag == GOALKEEPER {
            Kind::Uint32
        } else if tag == YELLOW_CARD_TIMES {
            Kind::Counts
        } else {
            Kind::Unknown
        },
        Layout::Point => if tag == POINT_X || tag == POINT_Y {
            Kind::Single
        } else {
            Kind::Unknown
        },
    }
}

impl Layout {
    /// How deep the groups of an unknown field may lie inside it: a hundred
    /// levels in all, and a nested message takes one of them.
    #[verifier::allow_in_spec]
    pub fn levels(&self) -> (result: u32)
        returns
            (match *self {
                Layout::Referee => 100u32,
                _ => 99u32,
            }),
    {
        match self {
            Layout::Referee => 100,
            _ => 99,
        }
    }

    /// How the value after `tag` is written.
    pub fn kind_of(&self, tag: u32) -> (result: Kind)
        ensures
            result == kind(*self, tag),
    {
        match self {
            Layout::Referee => match tag {
                PACKET_TIMESTAMP | COMMAND_TIMESTAMP => Kind::Uint64,
                STAGE | COMMAND | NEXT_COMMAND => Kind::Enumeration,
                STAGE_TIME_LEFT | CURRENT_ACTION_TIME_REMAINING => Kind::Sint64,
                COMMAND_COUNTER => Kind::Uint32,
                YELLOW | BLUE | DESIGNATED_POSITION => Kind::Message,
                BLUE_TEAM_ON_POSITIVE_HALF => Kind::Bool,
                STATUS_MESSAGE => Kind::Text,
                _ => Kind::Unknown,
            },
            Layout::TeamInfo => match tag {
                NAME => Kind::Text,
                SCORE | RED_CARDS | YELLOW_CARD_TIME | YELLOW_CARDS | TIMEOUTS | TIMEOUT_TIME
                | GOALKEEPER => Kind::Uint32,
                YELLOW_CARD_TIMES => Kind::Counts,
                _ => Kind::Unknown,
            },
            Layout::Point => match tag {
                POINT_X | POINT_Y => Kind::Single,
                _ => Kind::Unknown,
            },
        }
    }
}

} // verus!
