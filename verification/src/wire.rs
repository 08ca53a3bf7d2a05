//! The protobuf wire format: a message is a run of tagged fields.
//!
//! Single values are read by the `protobuf` crate's input stream. What a run
//! of fields means is decided here: `records` is the meaning of a message's
//! bytes, and `read_records` computes it.

use crate::layout::{kind, Kind, Layout};
use vstd::prelude::*;
use vstd::slice::slice_subrange;
use vstd::utf8::{decode_utf8, valid_utf8};

verus! {

/// The error of the `protobuf` crate.
#[verifier::external_type_specification]
#[verifier::external_body]
pub struct ExProtobufError(protobuf::Error);

/// Why bytes are no message.
#[derive(Debug, Clone, Copy, PartialEq, Eq, Structural)]
pub enum DecodeError {
    /// The bytes break the wire format.
    Malformed,
    /// A field that the message must have is absent.
    Incomplete,
}

/// The number in base 128, least significant digit first, that `bytes` begin
/// with, and how many bytes it takes. Every byte but the last has its top bit
/// set. There are at most `widest` bytes, and a byte in the last place is at
/// most `top`.
pub open spec fn varint(bytes: Seq<u8>, widest: nat, top: nat) -> Option<(nat, nat)>
    decreases widest,
{
    if widest == 0 || bytes.len() == 0 {
        None
    } else if widest == 1 {
        if bytes[0] <= top {
            Some((bytes[0] as nat, 1))
        } else {
            None
        }
    } else if bytes[0] < 128 {
        Some((bytes[0] as nat, 1))
    } else {
        match varint(bytes.skip(1), (widest - 1) as nat, top) {
            Some((high, used)) => Some(((bytes[0] - 128) as nat + 128 * high, used + 1)),
            None => None,
        }
    }
}

/// The 64-bit number that `bytes` begin with.
pub open spec fn varint64(bytes: Seq<u8>) -> Option<(nat, nat)> {
    varint(bytes, 10, 1)
}

/// The 32-bit number that `bytes` begin with.
pub open spec fn varint32(bytes: Seq<u8>) -> Option<(nat, nat)> {
    varint(bytes, 5, 15)
}

/// The four bytes that `bytes` begin with, least significant first.
pub open spec fn little_endian32(bytes: Seq<u8>) -> Option<nat> {
    if bytes.len() >= 4 {
        Some((bytes[0] + 0x100 * bytes[1] + 0x1_0000 * bytes[2] + 0x100_0000 * bytes[3]) as nat)
    } else {
        None
    }
}

/// The bytes that a length announces at the start of `bytes`, and how many
/// bytes they take with their length.
pub open spec fn delimited(bytes: Seq<u8>) -> Option<(Seq<u8>, nat)> {
    match varint32(bytes) {
        Some((length, used)) => if used + length <= bytes.len() {
            Some((bytes.subrange(used as int, (used + length) as int), used + length))
        } else {
            None
        },
        None => None,
    }
}

/// The text that `bytes` begin with, and how many bytes it takes.
pub open spec fn text(bytes: Seq<u8>) -> Option<(Seq<char>, nat)> {
    match delimited(bytes) {
        Some((body, used)) => if valid_utf8(body) {
            Some((decode_utf8(body), used))
        } else {
            None
        },
        None => None,
    }
}

/// The length of the group whose fields `bytes` begin with, up to and with
/// its end mark, as the `protobuf` crate passes over it where groups may lie so
/// many levels deep inside it.
pub uninterp spec fn group_length(bytes: Seq<u8>, levels: nat) -> Option<nat>;

/// How many bytes the value of an unknown field takes: its wire type is the
/// low three bits of the tag. A group may hold groups so many levels deep.
pub open spec fn unknown_length(tag: nat, bytes: Seq<u8>, levels: nat) -> Option<nat> {
    let wire_type = tag % 8;
    if tag < 8 {
        None
    } else if wire_type == 0 {
        match varint64(bytes) {
            Some((_, used)) => Some(used),
            None => None,
        }
    } else if wire_type == 1 {
        if bytes.len() >= 8 {
            Some(8)
        } else {
            None
        }
    } else if wire_type == 2 {
        match delimited(bytes) {
            Some((_, used)) => Some(used),
            None => None,
        }
    } else if wire_type == 3 {
        group_length(bytes, levels)
    } else if wire_type == 5 {
        if bytes.len() >= 4 {
            Some(4)
        } else {
            None
        }
    } else {
        None
    }
}

/// `CodedInputStream::read_raw_varint64` on a stream over `data`: the 64-bit
/// number that `data` begin with and the bytes it takes, or an error where
/// there is none.
#[verifier::external_body]
fn read_varint64(data: &[u8]) -> (result: Result<(u64, usize), protobuf::Error>)
    ensures
        match result {
            Ok((value, used)) => varint64(data@) == Some((value as nat, used as nat)),
            Err(_) => varint64(data@) is None,
        },
{
    let mut input = protobuf::CodedInputStream::from_bytes(data);
    let value = input.read_raw_varint64()?;
    Ok((value, input.pos() as usize))
}

/// `CodedInputStream::read_raw_varint32` on a stream over `data`: the 32-bit
/// number that `data` begin with and the bytes it takes, or an error where
/// there is none.
#[verifier::external_body]
fn read_varint32(data: &[u8]) -> (result: Result<(u32, usize), protobuf::Error>)
    ensures
        match result {
            Ok((value, used)) => varint32(data@) == Some((value as nat, used as nat)),
            Err(_) => varint32(data@) is None,
        },
{
    let mut input = protobuf::CodedInputStream::from_bytes(data);
    let value = input.read_raw_varint32()?;
    Ok((value, input.pos() as usize))
}

/// `CodedInputStream::read_raw_little_endian32` on a stream over `data`: the
/// first four bytes as a number, or an error where there are fewer.
#[verifier::external_body]
fn read_little_endian32(data: &[u8]) -> (result: Result<u32, protobuf::Error>)
    ensures
        match result {
            Ok(value) => little_endian32(data@) == Some(value as nat),
            Err(_) => little_endian32(data@) is None,
        },
{
    let mut input = protobuf::CodedInputStream::from_bytes(data);
    input.read_raw_little_endian32()
}

/// `CodedInputStream::read_string` on a stream over `data`: the text that
/// `data` begin with, after its length, and the bytes both take, or an error
/// where bytes are short or are no UTF-8.
#[verifier::external_body]
fn read_text(data: &[u8]) -> (result: Result<(String, usize), protobuf::Error>)
    ensures
        match result {
            Ok((value, used)) => text(data@) == Some((value@, used as nat)),
            Err(_) => text(data@) is None,
        },
{
    let mut input = protobuf::CodedInputStream::from_bytes(data);
    let value = input.read_string()?;
    Ok((value, input.pos() as usize))
}

/// `protobuf::rt::read_unknown_or_skip_group` on a stream over `data` whose
/// recursion limit is `levels`: how many bytes the value of a field with an
/// unknown tag takes, or an error where the tag has no field number or no wire
/// type, or bytes are short. How long a group is has a name only. The call
/// recurses once for each level, up to the hundred that is usual.
#[verifier::external_body]
fn skip_unknown(tag: u32, data: &[u8], levels: u32) -> (result: Result<usize, protobuf::Error>)
    requires
        levels <= 100,
    ensures
        match result {
            Ok(used) => unknown_length(tag as nat, data@, levels as nat) == Some(used as nat),
            Err(_) => unknown_length(tag as nat, data@, levels as nat) is None,
        },
        tag >= 8 && tag % 8 == 3 ==> (match result {
            Ok(used) => group_length(data@, levels as nat) == Some(used as nat),
            Err(_) => group_length(data@, levels as nat) is None,
        }),
        result matches Ok(used) ==> used <= data@.len(),
{
    let mut input = protobuf::CodedInputStream::from_bytes(data);
    input.set_recursion_limit(levels);
    let mut unknown = protobuf::UnknownFields::new();
    protobuf::rt::read_unknown_or_skip_group(tag, &mut input, &mut unknown)?;
    Ok(input.pos() as usize)
}

/// A field's value. Text, a nested message's bytes and a list of counts are
/// held by the types given.
pub enum Field<T, B, C> {
    Uint32(u32),
    Uint64(u64),
    Sint64(i64),
    Enumeration(i32),
    Bool(bool),
    /// A single-precision number, by its bit pattern.
    Single(u32),
    Text(T),
    Counts(C),
    /// The bytes of a nested message and the length that was announced: there
    /// can be fewer bytes where the data end early.
    Message { body: B, announced: u64 },
    /// An unknown field that was passed over.
    Unknown,
}

/// A field's value as computed.
pub type Value<'a> = Field<String, &'a [u8], Vec<u32>>;

/// A field's value as it is in contracts.
pub type ValueModel = Field<Seq<char>, Seq<u8>, Seq<u32>>;

impl<'a> Field<String, &'a [u8], Vec<u32>> {
    /// The value, by what its parts hold.
    pub open spec fn model(&self) -> ValueModel {
        match *self {
            Field::Uint32(v) => Field::Uint32(v),
            Field::Uint64(v) => Field::Uint64(v),
            Field::Sint64(v) => Field::Sint64(v),
            Field::Enumeration(v) => Field::Enumeration(v),
            Field::Bool(v) => Field::Bool(v),
            Field::Single(v) => Field::Single(v),
            Field::Text(v) => Field::Text(v@),
            Field::Counts(v) => Field::Counts(v@),
            Field::Message { body, announced } => Field::Message { body: body@, announced },
            Field::Unknown => Field::Unknown,
        }
    }
}

/// A field of a message: its tag and its value.
pub struct Record<'a> {
    pub tag: u32,
    pub value: Value<'a>,
}

impl<'a> Record<'a> {
    /// The field, by what it holds.
    pub open spec fn model(&self) -> (u32, ValueModel) {
        (self.tag, self.value.model())
    }
}

/// The fields, by what they hold.
pub open spec fn models(records: Seq<Record>) -> Seq<(u32, ValueModel)> {
    records.map_values(|r: Record| r.model())
}

/// The signed number that an unsigned one stands for: even numbers count up
/// from zero, odd ones down from minus one.
pub open spec fn zigzag(v: nat) -> int {
    if v % 2 == 0 {
        (v / 2) as int
    } else {
        -((v / 2) as int) - 1
    }
}

/// The number of an enumeration, from the 64 bits that hold it in two's
/// complement. It has to fit in 32.
pub open spec fn enumeration(v: nat) -> Option<int> {
    if v < 0x8000_0000 {
        Some(v as int)
    } else if v >= 0xffff_ffff_8000_0000 && v < 0x1_0000_0000_0000_0000 {
        Some(v - 0x1_0000_0000_0000_0000)
    } else {
        None
    }
}

/// The 32-bit numbers that fill `bytes`.
pub open spec fn counts(bytes: Seq<u8>) -> Option<Seq<u32>>
    decreases bytes.len(),
{
    if bytes.len() == 0 {
        Some(Seq::empty())
    } else {
        proof {
            lemma_varint_length(bytes, 5, 15);
        }
        match varint32(bytes) {
            Some((v, used)) => match counts(bytes.skip(used as int)) {
                Some(rest) => Some(seq![v as u32] + rest),
                None => None,
            },
            None => None,
        }
    }
}

/// The bytes that a 64-bit length announces at the start of `bytes`, the
/// length, and how many bytes both take. `room` is how many bytes the enclosing
/// message announced for what is left of it: a length beyond that is refused,
/// while one beyond the end of `bytes` takes what there is.
pub open spec fn enclosed(bytes: Seq<u8>, room: int) -> Option<(Seq<u8>, nat, nat)> {
    match varint64(bytes) {
        Some((length, used)) => if length <= room - used {
            let end = if used + length <= bytes.len() {
                used + length
            } else {
                bytes.len()
            };
            Some((bytes.subrange(used as int, end as int), length, end))
        } else {
            None
        },
        None => None,
    }
}

/// The value of a field with this tag at the start of `bytes`, and how many
/// bytes it takes.
pub open spec fn value(layout: Layout, tag: u32, bytes: Seq<u8>, room: int) -> Option<
    (ValueModel, nat),
> {
    match kind(layout, tag) {
        Kind::Uint32 => match varint32(bytes) {
            Some((v, used)) => Some((Field::Uint32(v as u32), used)),
            None => None,
        },
        Kind::Uint64 => match varint64(bytes) {
            Some((v, used)) => Some((Field::Uint64(v as u64), used)),
            None => None,
        },
        Kind::Sint64 => match varint64(bytes) {
            Some((v, used)) => Some((Field::Sint64(zigzag(v) as i64), used)),
            None => None,
        },
        Kind::Enumeration => match varint64(bytes) {
            Some((v, used)) => match enumeration(v) {
                Some(number) => Some((Field::Enumeration(number as i32), used)),
                None => None,
            },
            None => None,
        },
        Kind::Bool => match varint64(bytes) {
            Some((v, used)) => Some((Field::Bool(v != 0), used)),
            None => None,
        },
        Kind::Single => match little_endian32(bytes) {
            Some(v) => Some((Field::Single(v as u32), 4)),
            None => None,
        },
        Kind::Text => match text(bytes) {
            Some((chars, used)) => Some((Field::Text(chars), used)),
            None => None,
        },
        Kind::Counts => match enclosed(bytes, room) {
            Some((body, _, used)) => match counts(body) {
                Some(list) => Some((Field::Counts(list), used)),
                None => None,
            },
            None => None,
        },
        Kind::Message => match enclosed(bytes, room) {
            Some((body, length, used)) => Some(
                (Field::Message { body, announced: length as u64 }, used),
            ),
            None => None,
        },
        Kind::Unknown => match unknown_length(tag as nat, bytes, layout.levels() as nat) {
            Some(used) => if used <= bytes.len() {
                Some((Field::Unknown, used))
            } else {
                None
            },
            None => None,
        },
    }
}

/// The fields that fill `bytes`, in order.
pub open spec fn records(layout: Layout, bytes: Seq<u8>, room: int) -> Option<
    Seq<(u32, ValueModel)>,
>
    decreases bytes.len(),
{
    if bytes.len() == 0 {
        Some(Seq::empty())
    } else {
        proof {
            lemma_varint_length(bytes, 5, 15);
        }
        match varint32(bytes) {
            Some((tag, used)) => {
                let rest = bytes.skip(used as int);
                proof {
                    lemma_value_length(layout, tag as u32, rest, room - used);
                }
                match value(layout, tag as u32, rest, room - used) {
                    Some((v, length)) => match records(
                        layout,
                        rest.skip(length as int),
                        room - used - length,
                    ) {
                        Some(after) => Some(seq![(tag as u32, v)] + after),
                        None => None,
                    },
                    None => None,
                }
            },
            None => None,
        }
    }
}

/// A number takes at least one byte and no more than there are; it is below
/// the power of two that its widest form allows.
pub proof fn lemma_varint_length(bytes: Seq<u8>, widest: nat, top: nat)
    ensures
        varint(bytes, widest, top) matches Some((v, used)) ==> 1 <= used <= bytes.len() && used
            <= widest,
    decreases widest,
{
    if widest > 1 && bytes.len() > 0 {
        lemma_varint_length(bytes.skip(1), (widest - 1) as nat, top);
    }
}

/// A 32-bit number fits in 32 bits, a 64-bit number in 64.
proof fn lemma_varint_range(bytes: Seq<u8>)
    ensures
        varint32(bytes) matches Some((v, used)) ==> v < 0x1_0000_0000,
        varint64(bytes) matches Some((v, used)) ==> v < 0x1_0000_0000_0000_0000,
{
    reveal_with_fuel(varint, 11);
}

/// A field's value takes no more bytes than there are.
pub proof fn lemma_value_length(layout: Layout, tag: u32, bytes: Seq<u8>, room: int)
    ensures
        value(layout, tag, bytes, room) matches Some((v, used)) ==> used <= bytes.len(),
{
    lemma_varint_length(bytes, 5, 15);
    lemma_varint_length(bytes, 10, 1);
}

/// The 32-bit numbers that fill `data`.
fn read_counts(data: &[u8]) -> (result: Result<Vec<u32>, DecodeError>)
    ensures
        match result {
            Ok(list) => counts(data@) == Some(list@),
            Err(e) => e == DecodeError::Malformed && counts(data@) is None,
        },
{
    let mut list: Vec<u32> = Vec::new();
    let mut rest: &[u8] = data;
    assert(seq![] + seq![] =~= Seq::<u32>::empty());
    while rest.len() > 0
        invariant
            counts(rest@) is None ==> counts(data@) is None,
            counts(rest@) matches Some(tail) ==> counts(data@) == Some(list@ + tail),
        decreases rest@.len(),
    {
        proof {
            lemma_varint_length(rest@, 5, 15);
        }
        match read_varint32(rest) {
            Ok((v, used)) => {
                let next = slice_subrange(rest, used, rest.len());
                proof {
                    assert(next@ =~= rest@.skip(used as int));
                    if let Some(tail) = counts(next@) {
                        assert(list@ + (seq![v] + tail) =~= list@.push(v) + tail);
                    }
                }
                list.push(v);
                rest = next;
            },
            Err(_) => {
                return Err(DecodeError::Malformed);
            },
        }
    }
    proof {
        assert(counts(rest@) == Some(Seq::<u32>::empty()));
        assert(list@ + Seq::<u32>::empty() =~= list@);
    }
    Ok(list)
}

/// The bytes that a 64-bit length announces at the start of `data`, the
/// length, and how many bytes both take.
fn read_enclosed<'a>(data: &'a [u8], room: u64) -> (result: Result<
    (&'a [u8], u64, usize),
    DecodeError,
>)
    requires
        data@.len() <= room,
    ensures
        match result {
            Ok((body, length, used)) => enclosed(data@, room as int) == Some(
                (body@, length as nat, used as nat),
            ),
            Err(e) => e == DecodeError::Malformed && enclosed(data@, room as int) is None,
        },
{
    proof {
        lemma_varint_length(data@, 10, 1);
    }
    match read_varint64(data) {
        Ok((length, used)) => {
            if length > room - used as u64 {
                return Err(DecodeError::Malformed);
            }
            let available: usize = data.len() - used;
            let end: usize = if length <= available as u64 {
                used + length as usize
            } else {
                data.len()
            };
            Ok((slice_subrange(data, used, end), length, end))
        },
        Err(_) => Err(DecodeError::Malformed),
    }
}

/// The value of a field with this tag at the start of `data`, and how many
/// bytes it takes.
fn read_value<'a>(layout: Layout, tag: u32, data: &'a [u8], room: u64) -> (result: Result<
    (Value<'a>, usize),
    DecodeError,
>)
    requires
        data@.len() <= room,
    ensures
        match result {
            Ok((v, used)) => value(layout, tag, data@, room as int) == Some(
                (v.model(), used as nat),
            ),
            Err(e) => e == DecodeError::Malformed && value(layout, tag, data@, room as int) is None,
        },
{
    proof {
        lemma_varint_range(data@);
    }
    match layout.kind_of(tag) {
        Kind::Uint32 => match read_varint32(data) {
            Ok((v, used)) => Ok((Field::Uint32(v), used)),
            Err(_) => Err(DecodeError::Malformed),
        },
        Kind::Uint64 => match read_varint64(data) {
            Ok((v, used)) => Ok((Field::Uint64(v), used)),
            Err(_) => Err(DecodeError::Malformed),
        },
        Kind::Sint64 => match read_varint64(data) {
            Ok((v, used)) => {
                let half: i64 = (v / 2) as i64;
                let number: i64 = if v % 2 == 0 {
                    half
                } else {
                    -half - 1
                };
                Ok((Field::Sint64(number), used))
            },
            Err(_) => Err(DecodeError::Malformed),
        },
        Kind::Enumeration => match read_varint64(data) {
            Ok((v, used)) => if v < 0x8000_0000 {
                Ok((Field::Enumeration(v as i32), used))
            } else if v >= 0xffff_ffff_8000_0000 {
                let below: i64 = (u64::MAX - v) as i64;
                Ok((Field::Enumeration((-1 - below) as i32), used))
            } else {
                Err(DecodeError::Malformed)
            },
            Err(_) => Err(DecodeError::Malformed),
        },
        Kind::Bool => match read_varint64(data) {
            Ok((v, used)) => Ok((Field::Bool(v != 0), used)),
            Err(_) => Err(DecodeError::Malformed),
        },
        Kind::Single => match read_little_endian32(data) {
            Ok(v) => Ok((Field::Single(v), 4)),
            Err(_) => Err(DecodeError::Malformed),
        },
        Kind::Text => match read_text(data) {
            Ok((chars, used)) => Ok((Field::Text(chars), used)),
            Err(_) => Err(DecodeError::Malformed),
        },
        Kind::Counts => match read_enclosed(data, room) {
            Ok((body, _, used)) => match read_counts(body) {
                Ok(list) => Ok((Field::Counts(list), used)),
                Err(_) => Err(DecodeError::Malformed),
            },
            Err(_) => Err(DecodeError::Malformed),
        },
        Kind::Message => match read_enclosed(data, room) {
            Ok((body, announced, used)) => Ok((Field::Message { body, announced }, used)),
            Err(_) => Err(DecodeError::Malformed),
        },
        Kind::Unknown => match skip_unknown(tag, data, layout.levels()) {
            Ok(used) => Ok((Field::Unknown, used)),
            Err(_) => Err(DecodeError::Malformed),
        },
    }
}

/// The fields that fill `data`, in order. `room` is how many bytes were
/// announced for the message.
pub fn read_records<'a>(layout: Layout, data: &'a [u8], room: u64) -> (result: Result<
    Vec<Record<'a>>,
    DecodeError,
>)
    requires
        data@.len() <= room,
    ensures
        match result {
            Ok(list) => records(layout, data@, room as int) == Some(models(list@)),
            Err(e) => e == DecodeError::Malformed && records(layout, data@, room as int) is None,
        },
{
    let mut list: Vec<Record<'a>> = Vec::new();
    let mut rest: &'a [u8] = data;
    let mut left: u64 = room;
    assert(models(list@) =~= Seq::empty());
    while rest.len() > 0
        invariant
            rest@.len() <= left,
            records(layout, rest@, left as int) is None ==> records(layout, data@, room as int)
                is None,
            records(layout, rest@, left as int) matches Some(tail) ==> records(
                layout,
                data@,
                room as int,
            ) == Some(models(list@) + tail),
        decreases rest@.len(),
    {
        proof {
            lemma_varint_length(rest@, 5, 15);
        }
        let (tag, used): (u32, usize) = match read_varint32(rest) {
            Ok(read) => read,
            Err(_) => {
                return Err(DecodeError::Malformed);
            },
        };
        let after = slice_subrange(rest, used, rest.len());
        assert(after@ =~= rest@.skip(used as int));
        let room_after: u64 = left - used as u64;
        proof {
            lemma_value_length(layout, tag, after@, room_after as int);
        }
        let (v, length): (Value<'a>, usize) = match read_value(layout, tag, after, room_after) {
            Ok(read) => read,
            Err(e) => {
                return Err(e);
            },
        };
        let next = slice_subrange(after, length, after.len());
        let record = Record { tag, value: v };
        proof {
            assert(next@ =~= after@.skip(length as int));
            assert(models(list@.push(record)) =~= models(list@).push(record.model()));
            let next_room = room_after - length;
            if let Some(tail) = records(layout, next@, next_room) {
                assert(models(list@) + (seq![record.model()] + tail) =~= models(
                    list@.push(record),
                ) + tail);
            }
        }
        list.push(record);
        rest = next;
        left = room_after - length as u64;
    }
    proof {
        assert(records(layout, rest@, left as int) == Some(Seq::<(u32, ValueModel)>::empty()));
        assert(models(list@) + Seq::<(u32, ValueModel)>::empty() =~= models(list@));
    }
    Ok(list)
}

/// The value of the last field with this tag: of several, the last counts.
pub open spec fn last(records: Seq<(u32, ValueModel)>, tag: u32) -> Option<ValueModel>
    decreases records.len(),
{
    if records.len() == 0 {
        None
    } else if records.last().0 == tag {
        Some(records.last().1)
    } else {
        last(records.drop_last(), tag)
    }
}

/// A later field replaces an earlier one with the same tag, and no other.
pub proof fn law_later_field_counts(
    fields: Seq<(u32, ValueModel)>,
    tag: u32,
    v: ValueModel,
    other: u32,
)
    requires
        other != tag,
    ensures
        last(fields.push((tag, v)), tag) == Some(v),
        last(fields.push((tag, v)), other) == last(fields, other),
{
    assert(fields.push((tag, v)).drop_last() =~= fields);
}

/// The value of the last field with this tag.
pub fn last_value<'b, 'a>(list: &'b Vec<Record<'a>>, tag: u32) -> (result: Option<&'b Value<'a>>)
    ensures
        match result {
            Some(v) => last(models(list@), tag) == Some(v.model()),
            None => last(models(list@), tag) is None,
        },
{
    let mut i: usize = list.len();
    assert(models(list@).take(i as int) =~= models(list@));
    while i > 0
        invariant
            i <= list@.len(),
            last(models(list@), tag) == last(models(list@).take(i as int), tag),
        decreases i,
    {
        let ghost shorter = models(list@).take(i as int);
        assert(shorter.drop_last() =~= models(list@).take(i - 1));
        assert(shorter.last() == list@[i - 1].model());
        i = i - 1;
        if list[i].tag == tag {
            return Some(&list[i].value);
        }
    }
    None
}

} // verus!
