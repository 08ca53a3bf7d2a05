//! What is written is read: the numbers, the fields and the messages of the wire
//! format, and numbers in decimal.

use crate::layout::{kind, Kind, Layout};
use crate::text::{decimal, digit};
use crate::wire::{
    counts, enclosed, enumeration, records, value, varint, varint32, varint64, zigzag, ValueModel,
};
use vstd::prelude::*;
use vstd::utf8::{decode_utf8, valid_utf8};

verus! {

/// How a number is written: in base 128, least significant digit first, with
/// the top bit set in every byte but the last.
pub open spec fn written(n: nat) -> Seq<u8>
    decreases n,
{
    if n < 128 {
        seq![n as u8]
    } else {
        seq![(n % 128 + 128) as u8] + written(n / 128)
    }
}

/// The number above all those that can be read in so many bytes.
spec fn beyond(widest: nat, top: nat) -> nat
    decreases widest,
{
    if widest <= 1 {
        top + 1
    } else {
        128 * beyond((widest - 1) as nat, top)
    }
}

/// A number that was written is read.
proof fn lemma_written_is_read(n: nat, rest: Seq<u8>, widest: nat, top: nat)
    requires
        widest >= 1,
        top < 128,
        n < beyond(widest, top),
    ensures
        varint(written(n) + rest, widest, top) == Some((n, written(n).len())),
        written(n).len() >= 1,
    decreases n,
{
    let bytes = written(n) + rest;
    if n < 128 {
        assert(bytes[0] == n as u8);
    } else {
        assert(widest > 1);
        assert(bytes[0] == (n % 128 + 128) as u8);
        lemma_written_is_read(n / 128, rest, (widest - 1) as nat, top);
        assert(bytes.skip(1) =~= written(n / 128) + rest);
    }
}

/// A number that was written is read, whatever comes after it, and it takes the
/// bytes in which it was written: one of 64 bits as such, and one of 32 bits
/// either way.
pub proof fn law_written_number_is_read(n: nat, rest: Seq<u8>)
    ensures
        n < 0x1_0000_0000_0000_0000 ==> varint64(written(n) + rest) == Some(
            (n, written(n).len()),
        ),
        n < 0x1_0000_0000 ==> varint32(written(n) + rest) == Some((n, written(n).len())),
{
    reveal_with_fuel(beyond, 11);
    if n < 0x1_0000_0000_0000_0000 {
        lemma_written_is_read(n, rest, 10, 1);
    }
    if n < 0x1_0000_0000 {
        lemma_written_is_read(n, rest, 5, 15);
    }
}

/// The number by which a signed one is written: twice its size, less one where
/// it is negative.
pub open spec fn signed_code(v: i64) -> nat {
    if v >= 0 {
        (2 * v) as nat
    } else {
        (-2 * v - 1) as nat
    }
}

/// The number by which one of an enumeration is written: itself in 64 bits, in
/// two's complement.
pub open spec fn enumeration_code(v: i32) -> nat {
    if v >= 0 {
        v as nat
    } else {
        (v + 0x1_0000_0000_0000_0000) as nat
    }
}

/// Signed numbers and the numbers of enumerations are found again in the
/// numbers by which they are written.
pub proof fn law_codes_are_undone(v: i64, e: i32)
    ensures
        signed_code(v) < 0x1_0000_0000_0000_0000,
        zigzag(signed_code(v)) == v,
        enumeration_code(e) < 0x1_0000_0000_0000_0000,
        enumeration(enumeration_code(e)) == Some(e as int),
{
}

/// The value of a field that was written in the way of its kind is read, and
/// takes the bytes in which it was written: numbers, signed numbers, numbers of
/// enumerations, and truth values, which are false exactly where the number is
/// zero.
pub proof fn law_written_value_is_read(
    layout: Layout,
    tag: u32,
    rest: Seq<u8>,
    room: int,
    small: u32,
    large: u64,
    signed: i64,
    numbered: i32,
)
    ensures
        kind(layout, tag) == Kind::Uint32 ==> value(
            layout,
            tag,
            written(small as nat) + rest,
            room,
        ) == Some((ValueModel::Uint32(small), written(small as nat).len())),
        kind(layout, tag) == Kind::Uint64 ==> value(
            layout,
            tag,
            written(large as nat) + rest,
            room,
        ) == Some((ValueModel::Uint64(large), written(large as nat).len())),
        kind(layout, tag) == Kind::Sint64 ==> value(
            layout,
            tag,
            written(signed_code(signed)) + rest,
            room,
        ) == Some((ValueModel::Sint64(signed), written(signed_code(signed)).len())),
        kind(layout, tag) == Kind::Enumeration ==> value(
            layout,
            tag,
            written(enumeration_code(numbered)) + rest,
            room,
        ) == Some((ValueModel::Enumeration(numbered), written(enumeration_code(numbered)).len())),
        kind(layout, tag) == Kind::Bool ==> value(
            layout,
            tag,
            written(large as nat) + rest,
            room,
        ) == Some((ValueModel::Bool(large > 0), written(large as nat).len())),
{
    law_written_number_is_read(small as nat, rest);
    law_written_number_is_read(large as nat, rest);
    law_codes_are_undone(signed, numbered);
    law_written_number_is_read(signed_code(signed), rest);
    law_written_number_is_read(enumeration_code(numbered), rest);
}

/// A nested message is read as its bytes, which come after their number, if the
/// message around it announced as many.
pub proof fn law_nested_message_is_read(
    layout: Layout,
    tag: u32,
    body: Seq<u8>,
    rest: Seq<u8>,
    room: int,
)
    requires
        kind(layout, tag) == Kind::Message,
        body.len() <= u64::MAX,
        written(body.len()).len() + body.len() <= room,
    ensures
        value(layout, tag, written(body.len()) + (body + rest), room) == Some(
            (
                ValueModel::Message {
                    body,
                    announced: body.len() as u64,
                },
                (written(body.len()).len() + body.len()) as nat,
            ),
        ),
{
    let bytes = written(body.len()) + (body + rest);
    let used = written(body.len()).len() as int;
    law_written_number_is_read(body.len(), body + rest);
    assert(bytes.subrange(used, used + body.len()) =~= body);
    assert(enclosed(bytes, room) == Some((body, body.len(), (used + body.len()) as nat)));
}

/// A field is read before those that come after it: its tag, then its value,
/// then the rest.
pub proof fn law_fields_are_read_one_by_one(
    layout: Layout,
    tag: u32,
    payload: Seq<u8>,
    rest: Seq<u8>,
    v: ValueModel,
    room: int,
    after: Seq<(u32, ValueModel)>,
)
    requires
        value(layout, tag, payload + rest, room - written(tag as nat).len()) == Some(
            (v, payload.len()),
        ),
        records(layout, rest, room - written(tag as nat).len() - payload.len()) == Some(after),
    ensures
        records(layout, Seq::empty(), room) == Some(Seq::<(u32, ValueModel)>::empty()),
        records(layout, written(tag as nat) + (payload + rest), room) == Some(
            seq![(tag, v)] + after,
        ),
{
    let bytes = written(tag as nat) + (payload + rest);
    law_written_number_is_read(tag as nat, payload + rest);
    reveal_with_fuel(beyond, 6);
    lemma_written_is_read(tag as nat, payload + rest, 5, 15);
    let used = written(tag as nat).len() as int;
    assert(bytes.skip(used) =~= payload + rest);
    assert((payload + rest).skip(payload.len() as int) =~= rest);
}

/// The number that a character stands for in decimal.
pub open spec fn digit_value(c: char) -> int {
    c as int - '0' as int
}

/// The number that a text of digits stands for in decimal.
pub open spec fn number_of(text: Seq<char>) -> int
    decreases text.len(),
{
    if text.len() == 0 {
        0
    } else {
        10 * number_of(text.drop_last()) + digit_value(text.last())
    }
}

/// A number in decimal stands for the number, is made of digits, and does not
/// begin with zero unless it is zero.
pub proof fn law_decimal_stands_for_the_number(n: nat)
    ensures
        number_of(decimal(n)) == n,
        decimal(n).len() > 0,
        decimal(n)[0] == '0' ==> n == 0,
        forall|i: int| 0 <= i < decimal(n).len() ==> '0' <= #[trigger] decimal(n)[i] <= '9',
    decreases n,
{
    if n < 10 {
        assert(digit_value(digit(n)) == n);
        assert(decimal(n).drop_last() =~= Seq::empty());
        assert(number_of(decimal(n).drop_last()) == 0);
    } else {
        law_decimal_stands_for_the_number(n / 10);
        assert(digit_value(digit(n % 10)) == n % 10);
        assert(decimal(n).drop_last() =~= decimal(n / 10));
        assert(decimal(n)[0] == decimal(n / 10)[0]);
    }
}

/// How the fields of the messages are written, by their numbers: a tag is eight
/// times the number plus the wire type, which is 0 for a number, 2 for what comes
/// after its length and 5 for four bytes. A field with another number or wire
/// type is unknown.
pub proof fn law_forms_of_the_fields(tag: u32)
    ensures
        ({
            let (number, wire) = (tag / 8, tag % 8);
            let numbered = wire == 0;
            let measured = wire == 2;
            let message = kind(Layout::Referee, tag);
            let team = kind(Layout::TeamInfo, tag);
            let point = kind(Layout::Point, tag);
            &&& message is Uint64 <==> numbered && (number == 1 || number == 6)
            &&& message is Enumeration <==> numbered && (number == 2 || number == 4 || number
                == 12)
            &&& message is Sint64 <==> numbered && (number == 3 || number == 15)
            &&& message is Uint32 <==> numbered && number == 5
            &&& message is Bool <==> numbered && number == 10
            &&& message is Message <==> measured && 7 <= number <= 9
            &&& message is Text <==> measured && number == 20
            &&& !(message is Single) && !(message is Counts)
            &&& team is Text <==> measured && number == 1
            &&& team is Uint32 <==> numbered && 2 <= number <= 8
            &&& team is Counts <==> measured && number == 4
            &&& team is Unknown || team is Text || team is Uint32 || team is Counts
            &&& point is Single <==> wire == 5 && 1 <= number <= 2
            &&& point is Unknown || point is Single
        }),
{
    assert(tag == 8 * (tag / 8) + tag % 8);
}

/// A single-precision number is read from its four bytes, least significant
/// first, and a text from its bytes in UTF-8, which come after their number.
pub proof fn law_singles_and_texts_are_read(
    layout: Layout,
    tag: u32,
    room: int,
    bits: u32,
    bytes: Seq<u8>,
    body: Seq<u8>,
    rest: Seq<u8>,
)
    requires
        bytes.len() == 4,
        bits == bytes[0] + 256 * (bytes[1] + 256 * (bytes[2] + 256 * bytes[3])),
        valid_utf8(body),
        body.len() < 0x1_0000_0000,
    ensures
        kind(layout, tag) == Kind::Single ==> value(layout, tag, bytes + rest, room) == Some(
            (ValueModel::Single(bits), 4nat),
        ),
        kind(layout, tag) == Kind::Text ==> value(
            layout,
            tag,
            written(body.len()) + (body + rest),
            room,
        ) == Some(
            (ValueModel::Text(decode_utf8(body)), (written(body.len()).len() + body.len()) as nat),
        ),
{
    let all = bytes + rest;
    assert(all[0] == bytes[0] && all[1] == bytes[1] && all[2] == bytes[2] && all[3] == bytes[3]);
    let text = written(body.len()) + (body + rest);
    let used = written(body.len()).len() as int;
    law_written_number_is_read(body.len(), body + rest);
    assert(text.subrange(used, used + body.len()) =~= body);
}

/// How a list of numbers is written: one after the other.
pub open spec fn written_list(list: Seq<u32>) -> Seq<u8>
    decreases list.len(),
{
    if list.len() == 0 {
        Seq::empty()
    } else {
        written(list[0] as nat) + written_list(list.skip(1))
    }
}

/// The numbers of a list that was written are read, in order.
proof fn lemma_list_is_read(list: Seq<u32>)
    ensures
        counts(written_list(list)) == Some(list),
    decreases list.len(),
{
    let bytes = written_list(list);
    if list.len() == 0 {
        assert(list =~= Seq::empty());
    } else {
        let rest = written_list(list.skip(1));
        reveal_with_fuel(beyond, 6);
        lemma_written_is_read(list[0] as nat, rest, 5, 15);
        assert(bytes.skip(written(list[0] as nat).len() as int) =~= rest);
        lemma_list_is_read(list.skip(1));
        assert(seq![list[0]] + list.skip(1) =~= list);
    }
}

/// A list of numbers is read from the numbers one after the other, which come
/// after the number of their bytes.
pub proof fn law_written_list_is_read(
    layout: Layout,
    tag: u32,
    list: Seq<u32>,
    rest: Seq<u8>,
    room: int,
)
    requires
        kind(layout, tag) == Kind::Counts,
        written_list(list).len() <= u64::MAX,
        written(written_list(list).len()).len() + written_list(list).len() <= room,
    ensures
        ({
            let body = written_list(list);
            value(layout, tag, written(body.len()) + (body + rest), room) == Some(
                (ValueModel::Counts(list), (written(body.len()).len() + body.len()) as nat),
            )
        }),
{
    let body = written_list(list);
    let bytes = written(body.len()) + (body + rest);
    let used = written(body.len()).len() as int;
    law_written_number_is_read(body.len(), body + rest);
    assert(bytes.subrange(used, used + body.len()) =~= body);
    assert(enclosed(bytes, room) == Some((body, body.len(), (used + body.len()) as nat)));
    lemma_list_is_read(list);
}

/// An unknown field is passed over with all its bytes: a number, four or eight
/// bytes, or what comes after its length. One without a number, or whose wire
/// type ends a group or does not exist, breaks the message.
pub proof fn law_unknown_fields_are_passed_over(
    layout: Layout,
    tag: u32,
    n: u64,
    body: Seq<u8>,
    rest: Seq<u8>,
    room: int,
)
    requires
        kind(layout, tag) == Kind::Unknown,
        body.len() < 0x1_0000_0000,
    ensures
        tag < 8 || tag % 8 == 4 || tag % 8 >= 6 ==> value(layout, tag, rest, room) is None,
        tag >= 8 && tag % 8 == 0 ==> value(layout, tag, written(n as nat) + rest, room) == Some(
            (ValueModel::Unknown, written(n as nat).len()),
        ),
        tag >= 8 && tag % 8 == 1 && body.len() == 8 ==> value(layout, tag, body + rest, room)
            == Some((ValueModel::Unknown, 8nat)),
        tag >= 8 && tag % 8 == 5 && body.len() == 4 ==> value(layout, tag, body + rest, room)
            == Some((ValueModel::Unknown, 4nat)),
        tag >= 8 && tag % 8 == 2 ==> value(
            layout,
            tag,
            written(body.len()) + (body + rest),
            room,
        ) == Some((ValueModel::Unknown, (written(body.len()).len() + body.len()) as nat)),
{
    law_written_number_is_read(n as nat, rest);
    law_written_number_is_read(body.len(), body + rest);
}

/// A number that is too large to be read in so many bytes is not read.
proof fn lemma_large_number_is_refused(n: nat, rest: Seq<u8>, widest: nat, top: nat)
    requires
        widest >= 1,
        top < 128,
        n >= beyond(widest, top),
    ensures
        varint(written(n) + rest, widest, top) is None,
    decreases widest,
{
    let bytes = written(n) + rest;
    if n < 128 {
        assert(bytes[0] == n as u8);
        lemma_beyond_is_large(widest, top);
    } else {
        assert(bytes[0] == (n % 128 + 128) as u8);
        if widest > 1 {
            lemma_large_number_is_refused(n / 128, rest, (widest - 1) as nat, top);
            assert(bytes.skip(1) =~= written(n / 128) + rest);
        }
    }
}

/// With more than one byte all numbers below 128 can be read.
proof fn lemma_beyond_is_large(widest: nat, top: nat)
    ensures
        beyond(widest, top) >= 1,
        widest > 1 ==> beyond(widest, top) >= 128,
    decreases widest,
{
    if widest > 1 {
        lemma_beyond_is_large((widest - 1) as nat, top);
    }
}

/// A number that takes more than its 64 or 32 bits is refused, and so is the
/// number of an enumeration that does not fit in 32 bits with its sign.
pub proof fn law_large_numbers_are_refused(
    layout: Layout,
    tag: u32,
    n: nat,
    rest: Seq<u8>,
    room: int,
)
    ensures
        n >= 0x1_0000_0000_0000_0000 ==> varint64(written(n) + rest) is None,
        n >= 0x1_0000_0000 ==> varint32(written(n) + rest) is None,
        n >= 0x1_0000_0000 && kind(layout, tag) == Kind::Uint32 ==> value(
            layout,
            tag,
            written(n) + rest,
            room,
        ) is None,
        n >= 0x1_0000_0000_0000_0000 && (kind(layout, tag) == Kind::Uint64 || kind(layout, tag)
            == Kind::Sint64 || kind(layout, tag) == Kind::Bool) ==> value(
            layout,
            tag,
            written(n) + rest,
            room,
        ) is None,
        kind(layout, tag) == Kind::Enumeration && (0x8000_0000 <= n < 0xffff_ffff_8000_0000 || n
            >= 0x1_0000_0000_0000_0000) ==> value(layout, tag, written(n) + rest, room) is None,
{
    reveal_with_fuel(beyond, 11);
    if n >= 0x1_0000_0000_0000_0000 {
        lemma_large_number_is_refused(n, rest, 10, 1);
    }
    if n >= 0x1_0000_0000 {
        lemma_large_number_is_refused(n, rest, 5, 15);
    }
    law_written_number_is_read(n, rest);
}

/// A nested message may be announced with no more bytes than the message around
/// it has left, and takes what there is of them.
pub proof fn law_announced_lengths(
    layout: Layout,
    tag: u32,
    n: u64,
    bytes: Seq<u8>,
    room: int,
)
    requires
        kind(layout, tag) == Kind::Message,
    ensures
        ({
            let used = written(n as nat).len();
            let read = value(layout, tag, written(n as nat) + bytes, room);
            &&& used + n > room ==> read is None
            &&& used + n <= room && n >= bytes.len() ==> read == Some(
                (
                    ValueModel::Message { body: bytes, announced: n },
                    (used + bytes.len()) as nat,
                ),
            )
            &&& used + n <= room && n < bytes.len() ==> read == Some(
                (
                    ValueModel::Message { body: bytes.take(n as int), announced: n },
                    (used + n) as nat,
                ),
            )
        }),
{
    let used = written(n as nat).len() as int;
    let all = written(n as nat) + bytes;
    law_written_number_is_read(n as nat, bytes);
    if n < bytes.len() {
        assert(all.subrange(used, used + n) =~= bytes.take(n as int));
    } else {
        assert(all.subrange(used, all.len() as int) =~= bytes);
    }
}

/// A text that is shorter than announced, or is no UTF-8, is refused.
pub proof fn law_broken_texts_are_refused(
    layout: Layout,
    tag: u32,
    n: u32,
    bytes: Seq<u8>,
    room: int,
)
    requires
        kind(layout, tag) == Kind::Text,
        bytes.len() < n || !valid_utf8(bytes.take(n as int)),
    ensures
        value(layout, tag, written(n as nat) + bytes, room) is None,
{
    let used = written(n as nat).len() as int;
    let all = written(n as nat) + bytes;
    law_written_number_is_read(n as nat, bytes);
    if n <= bytes.len() {
        assert(all.subrange(used, used + n) =~= bytes.take(n as int));
    }
}

/// A message is broken where a value is, or what comes after it.
pub proof fn law_broken_field_breaks_the_message(
    layout: Layout,
    tag: u32,
    bytes: Seq<u8>,
    room: int,
)
    ensures
        ({
            let left = room - written(tag as nat).len();
            let message = records(layout, written(tag as nat) + bytes, room);
            &&& value(layout, tag, bytes, left) is None ==> message is None
            &&& value(layout, tag, bytes, left) matches Some((v, length)) ==> (records(
                layout,
                bytes.skip(length as int),
                left - length,
            ) is None ==> message is None)
        }),
{
    let all = written(tag as nat) + bytes;
    let used = written(tag as nat).len() as int;
    law_written_number_is_read(tag as nat, bytes);
    reveal_with_fuel(beyond, 6);
    lemma_written_is_read(tag as nat, bytes, 5, 15);
    assert(all.skip(used) =~= bytes);
}

} // verus!
