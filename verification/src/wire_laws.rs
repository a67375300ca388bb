//! How an encoded profile is read, and that it reads back as what was written.

use vstd::prelude::*;

use crate::profile::{
    Function, Label, Line, LocationView, Mapping, ProfileView, RecordView, ValueType,
};
use crate::wire;
use crate::wire::Item;

verus! {

/// The number that some bytes start with, and the bytes behind it.
pub open spec fn read_varint(bytes: Seq<u8>) -> Option<(nat, Seq<u8>)>
    decreases bytes.len(),
{
    if bytes.len() == 0 {
        None
    } else if bytes[0] < 128 {
        Some((bytes[0] as nat, bytes.skip(1)))
    } else {
        match read_varint(bytes.skip(1)) {
            Some((high, rest)) => Some((high * 128 + (bytes[0] - 128) as nat, rest)),
            None => None,
        }
    }
}

/// The numbers that some bytes are made of.
pub open spec fn read_varints(bytes: Seq<u8>) -> Option<Seq<nat>>
    decreases bytes.len(),
    via read_varints_decreases
{
    if bytes.len() == 0 {
        Some(seq![])
    } else {
        match read_varint(bytes) {
            Some((v, rest)) => match read_varints(rest) {
                Some(more) => Some(seq![v] + more),
                None => None,
            },
            None => None,
        }
    }
}

#[via_fn]
proof fn read_varints_decreases(bytes: Seq<u8>) {
    lemma_read_varint_shrinks(bytes);
}

/// The item that some bytes start with, under its tag, and the bytes behind it.
pub open spec fn read_item(bytes: Seq<u8>) -> Option<((nat, Item), Seq<u8>)> {
    match read_varint(bytes) {
        None => None,
        Some((key, rest)) => match read_varint(rest) {
            None => None,
            Some((v, more)) => if key % 8 == 0 {
                Some(((key / 8, Item::Number(v)), more))
            } else if key % 8 == 2 && v <= more.len() {
                Some(((key / 8, Item::Bytes(more.take(v as int))), more.skip(v as int)))
            } else {
                None
            },
        },
    }
}

/// The items of a message, each under its tag.
pub open spec fn read_items(bytes: Seq<u8>) -> Option<Seq<(nat, Item)>>
    decreases bytes.len(),
    via read_items_decreases
{
    if bytes.len() == 0 {
        Some(seq![])
    } else {
        match read_item(bytes) {
            Some((item, rest)) => match read_items(rest) {
                Some(more) => Some(seq![item] + more),
                None => None,
            },
            None => None,
        }
    }
}

#[via_fn]
proof fn read_items_decreases(bytes: Seq<u8>) {
    lemma_read_varint_shrinks(bytes);
    if let Some((_, rest)) = read_varint(bytes) {
        lemma_read_varint_shrinks(rest);
    }
}

/// The items under a tag, in order.
pub open spec fn under(items: Seq<(nat, Item)>, tag: nat) -> Seq<Item>
    decreases items.len(),
{
    if items.len() == 0 {
        seq![]
    } else {
        let before = under(items.drop_last(), tag);
        if items.last().0 == tag {
            before.push(items.last().1)
        } else {
            before
        }
    }
}

/// The first `n` fields of a message.
pub open spec fn read_message(bytes: Seq<u8>, n: nat) -> Option<Seq<Seq<Item>>> {
    match read_items(bytes) {
        Some(items) => Some(Seq::new(n, |k: int| under(items, (k + 1) as nat))),
        None => None,
    }
}

/// A number: the last of its field, zero where there is none.
pub open spec fn number_of(items: Seq<Item>) -> nat {
    if items.len() == 0 {
        0
    } else {
        match items.last() {
            Item::Number(v) => v,
            Item::Bytes(_) => 0,
        }
    }
}

/// An unsigned number.
pub open spec fn unsigned_of(items: Seq<Item>) -> u64 {
    number_of(items) as u64
}

/// A signed number, from its 64 bits.
pub open spec fn signed(v: nat) -> i64 {
    if v < 0x8000_0000_0000_0000 {
        v as i64
    } else {
        (v - 0x1_0000_0000_0000_0000) as i64
    }
}

/// A signed number.
pub open spec fn signed_of(items: Seq<Item>) -> i64 {
    signed(number_of(items))
}

/// A truth value.
pub open spec fn bool_of(items: Seq<Item>) -> bool {
    number_of(items) != 0
}

/// The numbers of a field, one by one or packed.
pub open spec fn numbers_of(items: Seq<Item>) -> Option<Seq<nat>>
    decreases items.len(),
{
    if items.len() == 0 {
        Some(seq![])
    } else {
        match numbers_of(items.drop_last()) {
            None => None,
            Some(before) => match items.last() {
                Item::Number(v) => Some(before.push(v)),
                Item::Bytes(body) => match read_varints(body) {
                    Some(more) => Some(before + more),
                    None => None,
                },
            },
        }
    }
}

/// What the bytes of each item say.
pub open spec fn read_each<T>(
    items: Seq<Item>,
    read: spec_fn(Seq<u8>) -> Option<T>,
) -> Option<Seq<T>>
    decreases items.len(),
{
    if items.len() == 0 {
        Some(seq![])
    } else {
        match (read_each(items.drop_last(), read), items.last()) {
            (Some(before), Item::Bytes(body)) => match read(body) {
                Some(v) => Some(before.push(v)),
                None => None,
            },
            _ => None,
        }
    }
}

/// A value type, from its encoding.
pub open spec fn read_value_type(bytes: Seq<u8>) -> Option<ValueType> {
    match read_message(bytes, 2) {
        Some(f) => Some(ValueType { kind: signed_of(f[0]), unit: signed_of(f[1]) }),
        None => None,
    }
}

/// A label, from its encoding.
pub open spec fn read_label(bytes: Seq<u8>) -> Option<Label> {
    match read_message(bytes, 4) {
        Some(f) => Some(
            Label {
                key: signed_of(f[0]),
                str: signed_of(f[1]),
                num: signed_of(f[2]),
                num_unit: signed_of(f[3]),
            },
        ),
        None => None,
    }
}

/// A mapping, from its encoding.
pub open spec fn read_mapping(bytes: Seq<u8>) -> Option<Mapping> {
    match read_message(bytes, 10) {
        Some(f) => Some(
            Mapping {
                id: unsigned_of(f[0]),
                memory_start: unsigned_of(f[1]),
                memory_limit: unsigned_of(f[2]),
                file_offset: unsigned_of(f[3]),
                filename: signed_of(f[4]),
                build_id: signed_of(f[5]),
                has_functions: bool_of(f[6]),
                has_filenames: bool_of(f[7]),
                has_line_numbers: bool_of(f[8]),
                has_inline_frames: bool_of(f[9]),
            },
        ),
        None => None,
    }
}

/// A line, from its encoding.
pub open spec fn read_line(bytes: Seq<u8>) -> Option<Line> {
    match read_message(bytes, 3) {
        Some(f) => Some(
            Line { function_id: unsigned_of(f[0]), line: signed_of(f[1]), column: signed_of(f[2]) },
        ),
        None => None,
    }
}

/// A location, from its encoding.
pub open spec fn read_location(bytes: Seq<u8>) -> Option<LocationView> {
    match read_message(bytes, 5) {
        Some(f) => match read_each(f[3], |b: Seq<u8>| read_line(b)) {
            Some(line) => Some(
                LocationView {
                    id: unsigned_of(f[0]),
                    mapping_id: unsigned_of(f[1]),
                    address: unsigned_of(f[2]),
                    line,
                    is_folded: bool_of(f[4]),
                },
            ),
            None => None,
        },
        None => None,
    }
}

/// A function, from its encoding.
pub open spec fn read_function(bytes: Seq<u8>) -> Option<Function> {
    match read_message(bytes, 5) {
        Some(f) => Some(
            Function {
                id: unsigned_of(f[0]),
                name: signed_of(f[1]),
                system_name: signed_of(f[2]),
                filename: signed_of(f[3]),
                start_line: signed_of(f[4]),
            },
        ),
        None => None,
    }
}

/// A sample, from its encoding.
pub open spec fn read_record(bytes: Seq<u8>) -> Option<RecordView> {
    match read_message(bytes, 3) {
        Some(f) => match (
            numbers_of(f[0]),
            numbers_of(f[1]),
            read_each(f[2], |b: Seq<u8>| read_label(b)),
        ) {
            (Some(ids), Some(values), Some(label)) => Some(
                RecordView {
                    location_id: Seq::new(ids.len(), |i: int| ids[i] as u64),
                    value: Seq::new(values.len(), |i: int| signed(values[i])),
                    label,
                },
            ),
            _ => None,
        },
        None => None,
    }
}

/// A string, from its bytes.
pub open spec fn read_string(bytes: Seq<u8>) -> Option<Seq<char>> {
    if vstd::utf8::valid_utf8(bytes) {
        Some(vstd::utf8::decode_utf8(bytes))
    } else {
        None
    }
}

/// The parts of a profile that are messages or strings of their own.
pub struct Parts {
    pub sample_type: Seq<ValueType>,
    pub sample: Seq<RecordView>,
    pub mapping: Seq<Mapping>,
    pub location: Seq<LocationView>,
    pub function: Seq<Function>,
    pub string_table: Seq<Seq<char>>,
    pub period_type: Seq<ValueType>,
    pub comment: Seq<nat>,
}

/// The parts of a profile, from its fields.
pub open spec fn read_parts(f: Seq<Seq<Item>>) -> Option<Parts> {
    match (
        read_each(f[0], |b: Seq<u8>| read_value_type(b)),
        read_each(f[1], |b: Seq<u8>| read_record(b)),
        read_each(f[2], |b: Seq<u8>| read_mapping(b)),
        read_each(f[3], |b: Seq<u8>| read_location(b)),
        read_each(f[4], |b: Seq<u8>| read_function(b)),
        read_each(f[5], |b: Seq<u8>| read_string(b)),
        read_each(f[10], |b: Seq<u8>| read_value_type(b)),
        numbers_of(f[12]),
    ) {
        (
            Some(sample_type),
            Some(sample),
            Some(mapping),
            Some(location),
            Some(function),
            Some(string_table),
            Some(period_type),
            Some(comment),
        ) => Some(
            Parts {
                sample_type,
                sample,
                mapping,
                location,
                function,
                string_table,
                period_type,
                comment,
            },
        ),
        _ => None,
    }
}

/// A profile, from its encoding.
pub open spec fn read_profile(bytes: Seq<u8>) -> Option<ProfileView> {
    match read_message(bytes, 14) {
        Some(f) => match read_parts(f) {
            Some(parts) => Some(
                ProfileView {
                    sample_type: parts.sample_type,
                    sample: parts.sample,
                    mapping: parts.mapping,
                    location: parts.location,
                    function: parts.function,
                    string_table: parts.string_table,
                    drop_frames: signed_of(f[6]),
                    keep_frames: signed_of(f[7]),
                    time_nanos: signed_of(f[8]),
                    duration_nanos: signed_of(f[9]),
                    period_type: if parts.period_type.len() == 0 {
                        None
                    } else {
                        Some(parts.period_type.last())
                    },
                    period: signed_of(f[11]),
                    comment: Seq::new(parts.comment.len(), |i: int| signed(parts.comment[i])),
                    default_sample_type: signed_of(f[13]),
                },
            ),
            None => None,
        },
        None => None,
    }
}

/// Reading a number takes bytes away.
proof fn lemma_read_varint_shrinks(bytes: Seq<u8>)
    ensures
        read_varint(bytes) matches Some((_, rest)) ==> rest.len() < bytes.len(),
    decreases bytes.len(),
{
    if bytes.len() > 0 && bytes[0] >= 128 {
        lemma_read_varint_shrinks(bytes.skip(1));
    }
}

/// A number reads back, whatever follows it.
proof fn lemma_varint(n: nat, x: Seq<u8>)
    ensures
        read_varint(wire::varint(n) + x) == Some((n, x)),
    decreases n,
{
    let s = wire::varint(n) + x;
    if n < 128 {
        assert(s[0] == n as u8);
        assert(s.skip(1) == x);
    } else {
        lemma_varint(n / 128, x);
        assert(s[0] == (n % 128 + 128) as u8);
        assert(s.skip(1) == wire::varint(n / 128) + x);
    }
}

/// Numbers one after the other start with the first.
proof fn lemma_varints_front(values: Seq<nat>)
    requires
        values.len() > 0,
    ensures
        wire::varints(values) == wire::varint(values[0]) + wire::varints(values.skip(1)),
    decreases values.len(),
{
    if values.len() == 1 {
        assert(values.drop_last() == Seq::<nat>::empty());
        assert(values.skip(1) == Seq::<nat>::empty());
        assert(wire::varints(Seq::<nat>::empty()) == Seq::<u8>::empty());
        assert(wire::varints(values) == wire::varint(values[0]));
    } else {
        lemma_varints_front(values.drop_last());
        assert(values.drop_last().skip(1) == values.skip(1).drop_last());
        assert(values.skip(1).last() == values.last());
    }
}

/// Numbers one after the other read back.
proof fn lemma_varints(values: Seq<nat>)
    ensures
        read_varints(wire::varints(values)) == Some(values),
    decreases values.len(),
{
    if values.len() == 0 {
        assert(values == Seq::<nat>::empty());
    } else {
        lemma_varints_front(values);
        lemma_varint(values[0], wire::varints(values.skip(1)));
        assert(wire::varint(values[0]).len() > 0);
        lemma_varints(values.skip(1));
        assert(seq![values[0]] + values.skip(1) == values);
    }
}

/// An item reads back, whatever follows it.
proof fn lemma_item(tag: nat, item: Item, x: Seq<u8>)
    ensures
        read_item(wire::item_bytes(tag, item) + x) == Some(((tag, item), x)),
{
    match item {
        Item::Number(v) => {
            assert(wire::item_bytes(tag, item) + x == wire::varint(tag * 8) + (wire::varint(v)
                + x));
            lemma_varint(tag * 8, wire::varint(v) + x);
            lemma_varint(v, x);
        },
        Item::Bytes(body) => {
            let rest = wire::varint(body.len()) + (body + x);
            assert(wire::item_bytes(tag, item) + x == wire::varint(tag * 8 + 2) + rest);
            lemma_varint(tag * 8 + 2, rest);
            lemma_varint(body.len(), body + x);
            assert((body + x).take(body.len() as int) == body);
            assert((body + x).skip(body.len() as int) == x);
        },
    }
}

/// A field starts with its first item.
proof fn lemma_field_front(tag: nat, items: Seq<Item>)
    requires
        items.len() > 0,
    ensures
        wire::field_bytes(tag, items) == wire::item_bytes(tag, items[0]) + wire::field_bytes(
            tag,
            items.skip(1),
        ),
    decreases items.len(),
{
    if items.len() == 1 {
        assert(items.drop_last() == Seq::<Item>::empty());
        assert(items.skip(1) == Seq::<Item>::empty());
        assert(wire::field_bytes(tag, Seq::<Item>::empty()) == Seq::<u8>::empty());
        assert(wire::field_bytes(tag, items) == wire::item_bytes(tag, items[0]));
    } else {
        lemma_field_front(tag, items.drop_last());
        assert(items.drop_last().skip(1) == items.skip(1).drop_last());
        assert(items.skip(1).last() == items.last());
    }
}

/// The items of a field under its tag.
spec fn tagged(tag: nat, items: Seq<Item>) -> Seq<(nat, Item)> {
    Seq::new(items.len(), |i: int| (tag, items[i]))
}

/// A field reads back, in front of what can be read.
proof fn lemma_field(tag: nat, items: Seq<Item>, x: Seq<u8>)
    requires
        read_items(x) is Some,
    ensures
        read_items(wire::field_bytes(tag, items) + x) == Some(tagged(tag, items) + read_items(x)->0),
    decreases items.len(),
{
    let s = wire::field_bytes(tag, items) + x;
    if items.len() == 0 {
        assert(s == x);
        assert(tagged(tag, items) + read_items(x)->0 == read_items(x)->0);
    } else {
        let rest = wire::field_bytes(tag, items.skip(1)) + x;
        lemma_field_front(tag, items);
        assert(s == wire::item_bytes(tag, items[0]) + rest);
        lemma_item(tag, items[0], rest);
        assert(wire::item_bytes(tag, items[0]).len() > 0);
        lemma_field(tag, items.skip(1), x);
        assert(seq![(tag, items[0])] + tagged(tag, items.skip(1)) == tagged(tag, items));
        assert(seq![(tag, items[0])] + (tagged(tag, items.skip(1)) + read_items(x)->0) == tagged(
            tag,
            items,
        ) + read_items(x)->0);
    }
}

/// The fields of a message from the `k`th on.
spec fn tail_bytes(fields: Seq<Seq<Item>>, k: nat) -> Seq<u8>
    decreases fields.len() - k,
{
    if k >= fields.len() {
        seq![]
    } else {
        wire::field_bytes(k + 1, fields[k as int]) + tail_bytes(fields, k + 1)
    }
}

/// A message is its first fields and the others.
proof fn lemma_split(fields: Seq<Seq<Item>>, k: nat)
    requires
        k <= fields.len(),
    ensures
        wire::message_bytes(fields) == wire::message_bytes(fields.take(k as int)) + tail_bytes(
            fields,
            k,
        ),
    decreases fields.len() - k,
{
    if k == fields.len() {
        assert(fields.take(k as int) == fields);
    } else {
        lemma_split(fields, k + 1);
        assert(fields.take(k as int + 1).drop_last() == fields.take(k as int));
    }
}

/// What stands under a tag in two lists stands there in the first, then in the
/// second.
proof fn lemma_under_concat(a: Seq<(nat, Item)>, b: Seq<(nat, Item)>, tag: nat)
    ensures
        under(a + b, tag) == under(a, tag) + under(b, tag),
    decreases b.len(),
{
    if b.len() == 0 {
        assert(a + b == a);
    } else {
        assert((a + b).drop_last() == a + b.drop_last());
        lemma_under_concat(a, b.drop_last(), tag);
    }
}

/// The items of a field stand under its tag alone.
proof fn lemma_under_tagged(tag: nat, items: Seq<Item>, t: nat)
    ensures
        t == tag ==> under(tagged(tag, items), t) == items,
        t != tag ==> under(tagged(tag, items), t) == Seq::<Item>::empty(),
    decreases items.len(),
{
    if items.len() > 0 {
        assert(tagged(tag, items).drop_last() == tagged(tag, items.drop_last()));
        lemma_under_tagged(tag, items.drop_last(), t);
        assert(items.drop_last().push(items.last()) == items);
    } else {
        assert(items == Seq::<Item>::empty());
    }
}

/// The fields from the `k`th on read back, each under its tag.
proof fn lemma_tail(fields: Seq<Seq<Item>>, k: nat)
    ensures
        read_items(tail_bytes(fields, k)) is Some,
        forall|j: int|
            k <= j < fields.len() ==> under(
                read_items(tail_bytes(fields, k))->0,
                (j + 1) as nat,
            ) == #[trigger] fields[j],
        forall|t: nat|
            t <= k ==> #[trigger] under(read_items(tail_bytes(fields, k))->0, t) == Seq::<
                Item,
            >::empty(),
    decreases fields.len() - k,
{
    if k < fields.len() {
        let rest = tail_bytes(fields, k + 1);
        let field = tagged(k + 1, fields[k as int]);
        let more = read_items(rest)->0;
        lemma_tail(fields, k + 1);
        lemma_field(k + 1, fields[k as int], rest);
        assert forall|j: int| k <= j < fields.len() implies under(field + more, (j + 1) as nat)
            == #[trigger] fields[j] by {
            lemma_under_concat(field, more, (j + 1) as nat);
            lemma_under_tagged(k + 1, fields[k as int], (j + 1) as nat);
        }
        assert forall|t: nat| t <= k implies #[trigger] under(field + more, t) == Seq::<
            Item,
        >::empty() by {
            lemma_under_concat(field, more, t);
            lemma_under_tagged(k + 1, fields[k as int], t);
        }
    }
}

/// The fields of a message read back.
proof fn lemma_message(fields: Seq<Seq<Item>>)
    ensures
        read_message(wire::message_bytes(fields), fields.len()) == Some(fields),
{
    lemma_split(fields, 0);
    assert(fields.take(0) == Seq::<Seq<Item>>::empty());
    assert(wire::message_bytes(fields) == tail_bytes(fields, 0));
    lemma_tail(fields, 0);
    assert(read_message(wire::message_bytes(fields), fields.len())->0 =~= fields);
}

/// A number reads back from its field.
proof fn lemma_scalar(v: nat)
    ensures
        number_of(wire::scalar(v)) == v,
{
    if v != 0 {
        assert(wire::scalar(v).last() == Item::Number(v));
    }
}

/// A signed number reads back from its bits.
proof fn lemma_signed(v: i64)
    ensures
        signed(wire::unsigned(v)) == v,
        signed_of(wire::scalar(wire::unsigned(v))) == v,
{
    lemma_scalar(wire::unsigned(v));
}

/// An unsigned number reads back from its field.
proof fn lemma_unsigned(v: u64)
    ensures
        unsigned_of(wire::scalar(v as nat)) == v,
{
    lemma_scalar(v as nat);
}

/// A truth value reads back from its field.
proof fn lemma_bool(v: bool)
    ensures
        bool_of(wire::scalar(wire::bit(v))) == v,
{
    lemma_scalar(wire::bit(v));
}

/// Packed numbers read back from their field.
proof fn lemma_packed(values: Seq<nat>)
    ensures
        numbers_of(wire::packed(values)) == Some(values),
{
    let items = wire::packed(values);
    if values.len() == 0 {
        assert(values == Seq::<nat>::empty());
    } else {
        lemma_varints(values);
        assert(items.last() == Item::Bytes(wire::varints(values)));
        assert(items.drop_last() == Seq::<Item>::empty());
        assert(numbers_of(items.drop_last()) == Some(Seq::<nat>::empty()));
        assert(Seq::<nat>::empty() + values == values);
    }
}

/// Items whose bytes read back, read back as a list.
proof fn lemma_each<T>(items: Seq<Item>, values: Seq<T>, read: spec_fn(Seq<u8>) -> Option<T>)
    requires
        items.len() == values.len(),
        forall|i: int|
            0 <= i < items.len() ==> (#[trigger] items[i]) is Bytes && read(items[i]->Bytes_0)
                == Some(values[i]),
    ensures
        read_each(items, read) == Some(values),
    decreases items.len(),
{
    if items.len() == 0 {
        assert(values == Seq::<T>::empty());
    } else {
        assert forall|i: int| 0 <= i < items.drop_last().len() implies (
        #[trigger] items.drop_last()[i]) is Bytes && read(items.drop_last()[i]->Bytes_0) == Some(
            values.drop_last()[i],
        ) by {
            assert(items.drop_last()[i] == items[i]);
        }
        lemma_each(items.drop_last(), values.drop_last(), read);
        assert(items[items.len() - 1] == items.last());
        assert(values.drop_last().push(values.last()) == values);
    }
}

/// A value type reads back.
proof fn lemma_value_type(v: ValueType)
    ensures
        read_value_type(wire::message_bytes(wire::value_type_fields(v))) == Some(v),
{
    lemma_message(wire::value_type_fields(v));
    lemma_signed(v.kind);
    lemma_signed(v.unit);
}

/// A label reads back.
proof fn lemma_label(v: Label)
    ensures
        read_label(wire::message_bytes(wire::label_fields(v))) == Some(v),
{
    lemma_message(wire::label_fields(v));
    lemma_signed(v.key);
    lemma_signed(v.str);
    lemma_signed(v.num);
    lemma_signed(v.num_unit);
}

/// A mapping reads back.
proof fn lemma_mapping(v: Mapping)
    ensures
        read_mapping(wire::message_bytes(wire::mapping_fields(v))) == Some(v),
{
    lemma_message(wire::mapping_fields(v));
    lemma_unsigned(v.id);
    lemma_unsigned(v.memory_start);
    lemma_unsigned(v.memory_limit);
    lemma_unsigned(v.file_offset);
    lemma_signed(v.filename);
    lemma_signed(v.build_id);
    lemma_bool(v.has_functions);
    lemma_bool(v.has_filenames);
    lemma_bool(v.has_line_numbers);
    lemma_bool(v.has_inline_frames);
}

/// A line reads back.
proof fn lemma_line(v: Line)
    ensures
        read_line(wire::message_bytes(wire::line_fields(v))) == Some(v),
{
    lemma_message(wire::line_fields(v));
    lemma_unsigned(v.function_id);
    lemma_signed(v.line);
    lemma_signed(v.column);
}

/// Lines read back from their field.
proof fn lemma_lines(v: Seq<Line>)
    ensures
        read_each(wire::line_items(v), |b: Seq<u8>| read_line(b)) == Some(v),
{
    let items = wire::line_items(v);
    let read = |b: Seq<u8>| read_line(b);
    assert forall|i: int| 0 <= i < items.len() implies (#[trigger] items[i]) is Bytes && read(
        items[i]->Bytes_0,
    ) == Some(v[i]) by {
        assert(items[i] == Item::Bytes(wire::message_bytes(wire::line_fields(v[i]))));
        lemma_line(v[i]);
    }
    lemma_each(items, v, read);
}

/// A location reads back.
proof fn lemma_location(v: LocationView)
    ensures
        read_location(wire::message_bytes(wire::location_fields(v))) == Some(v),
{
    lemma_message(wire::location_fields(v));
    lemma_unsigned(v.id);
    lemma_unsigned(v.mapping_id);
    lemma_unsigned(v.address);
    lemma_lines(v.line);
    lemma_bool(v.is_folded);
}

/// A function reads back.
proof fn lemma_function(v: Function)
    ensures
        read_function(wire::message_bytes(wire::function_fields(v))) == Some(v),
{
    lemma_message(wire::function_fields(v));
    lemma_unsigned(v.id);
    lemma_signed(v.name);
    lemma_signed(v.system_name);
    lemma_signed(v.filename);
    lemma_signed(v.start_line);
}

/// Labels read back from their field.
proof fn lemma_labels(v: Seq<Label>)
    ensures
        read_each(wire::label_items(v), |b: Seq<u8>| read_label(b)) == Some(v),
{
    let items = wire::label_items(v);
    let read = |b: Seq<u8>| read_label(b);
    assert forall|i: int| 0 <= i < items.len() implies (#[trigger] items[i]) is Bytes && read(
        items[i]->Bytes_0,
    ) == Some(v[i]) by {
        assert(items[i] == Item::Bytes(wire::message_bytes(wire::label_fields(v[i]))));
        lemma_label(v[i]);
    }
    lemma_each(items, v, read);
}

/// Signed numbers read back from their bits.
proof fn lemma_all_signed(v: Seq<i64>)
    ensures
        Seq::new(wire::all_unsigned(v).len(), |i: int| signed(wire::all_unsigned(v)[i])) == v,
{
    let back = Seq::new(wire::all_unsigned(v).len(), |i: int| signed(wire::all_unsigned(v)[i]));
    assert forall|i: int| 0 <= i < v.len() implies back[i] == v[i] by {
        lemma_signed(v[i]);
    }
    assert(back =~= v);
}

/// A sample reads back.
proof fn lemma_record(v: RecordView)
    ensures
        read_record(wire::message_bytes(wire::record_fields(v))) == Some(v),
{
    lemma_message(wire::record_fields(v));
    let ids = wire::all_values(v.location_id);
    lemma_packed(ids);
    lemma_packed(wire::all_unsigned(v.value));
    lemma_all_signed(v.value);
    lemma_labels(v.label);
    assert(Seq::new(ids.len(), |i: int| ids[i] as u64) =~= v.location_id);
}

/// Value types read back from their field.
proof fn lemma_value_types(v: Seq<ValueType>)
    ensures
        read_each(wire::value_type_items(v), |b: Seq<u8>| read_value_type(b)) == Some(v),
{
    let items = wire::value_type_items(v);
    let read = |b: Seq<u8>| read_value_type(b);
    assert forall|i: int| 0 <= i < items.len() implies (#[trigger] items[i]) is Bytes && read(
        items[i]->Bytes_0,
    ) == Some(v[i]) by {
        assert(items[i] == Item::Bytes(wire::message_bytes(wire::value_type_fields(v[i]))));
        lemma_value_type(v[i]);
    }
    lemma_each(items, v, read);
}

/// Samples read back from their field.
proof fn lemma_records(v: Seq<RecordView>)
    ensures
        read_each(wire::record_items(v), |b: Seq<u8>| read_record(b)) == Some(v),
{
    let items = wire::record_items(v);
    let read = |b: Seq<u8>| read_record(b);
    assert forall|i: int| 0 <= i < items.len() implies (#[trigger] items[i]) is Bytes && read(
        items[i]->Bytes_0,
    ) == Some(v[i]) by {
        assert(items[i] == Item::Bytes(wire::message_bytes(wire::record_fields(v[i]))));
        lemma_record(v[i]);
    }
    lemma_each(items, v, read);
}

/// Mappings read back from their field.
proof fn lemma_mappings(v: Seq<Mapping>)
    ensures
        read_each(wire::mapping_items(v), |b: Seq<u8>| read_mapping(b)) == Some(v),
{
    let items = wire::mapping_items(v);
    let read = |b: Seq<u8>| read_mapping(b);
    assert forall|i: int| 0 <= i < items.len() implies (#[trigger] items[i]) is Bytes && read(
        items[i]->Bytes_0,
    ) == Some(v[i]) by {
        assert(items[i] == Item::Bytes(wire::message_bytes(wire::mapping_fields(v[i]))));
        lemma_mapping(v[i]);
    }
    lemma_each(items, v, read);
}

/// Locations read back from their field.
proof fn lemma_locations(v: Seq<LocationView>)
    ensures
        read_each(wire::location_items(v), |b: Seq<u8>| read_location(b)) == Some(v),
{
    let items = wire::location_items(v);
    let read = |b: Seq<u8>| read_location(b);
    assert forall|i: int| 0 <= i < items.len() implies (#[trigger] items[i]) is Bytes && read(
        items[i]->Bytes_0,
    ) == Some(v[i]) by {
        assert(items[i] == Item::Bytes(wire::message_bytes(wire::location_fields(v[i]))));
        lemma_location(v[i]);
    }
    lemma_each(items, v, read);
}

/// Functions read back from their field.
proof fn lemma_functions(v: Seq<Function>)
    ensures
        read_each(wire::function_items(v), |b: Seq<u8>| read_function(b)) == Some(v),
{
    let items = wire::function_items(v);
    let read = |b: Seq<u8>| read_function(b);
    assert forall|i: int| 0 <= i < items.len() implies (#[trigger] items[i]) is Bytes && read(
        items[i]->Bytes_0,
    ) == Some(v[i]) by {
        assert(items[i] == Item::Bytes(wire::message_bytes(wire::function_fields(v[i]))));
        lemma_function(v[i]);
    }
    lemma_each(items, v, read);
}

/// A string reads back from its bytes.
proof fn lemma_string(v: Seq<char>)
    ensures
        read_string(vstd::utf8::encode_utf8(v)) == Some(v),
{
    vstd::utf8::encode_utf8_valid_utf8(v);
    vstd::utf8::encode_utf8_decode_utf8(v);
}

/// Strings read back from their field.
proof fn lemma_strings(v: Seq<Seq<char>>)
    ensures
        read_each(wire::string_items(v), |b: Seq<u8>| read_string(b)) == Some(v),
{
    let items = wire::string_items(v);
    let read = |b: Seq<u8>| read_string(b);
    assert forall|i: int| 0 <= i < items.len() implies (#[trigger] items[i]) is Bytes && read(
        items[i]->Bytes_0,
    ) == Some(v[i]) by {
        assert(items[i] == Item::Bytes(vstd::utf8::encode_utf8(v[i])));
        lemma_string(v[i]);
    }
    lemma_each(items, v, read);
}

/// A value type that may be missing reads back from its field.
proof fn lemma_optional(v: Option<ValueType>)
    ensures
        read_each(wire::optional_value_type(v), |b: Seq<u8>| read_value_type(b)) == Some(
            match v {
                Some(t) => seq![t],
                None => seq![],
            },
        ),
{
    let items = wire::optional_value_type(v);
    let read = |b: Seq<u8>| read_value_type(b);
    match v {
        Some(t) => {
            assert(items[0] == Item::Bytes(wire::message_bytes(wire::value_type_fields(t))));
            lemma_value_type(t);
            lemma_each(items, seq![t], read);
        },
        None => {
            lemma_each(items, seq![], read);
        },
    }
}

/// The parts of a profile read back.
proof fn lemma_parts(p: ProfileView)
    ensures
        read_parts(wire::profile_fields(p)) == Some(
            Parts {
                sample_type: p.sample_type,
                sample: p.sample,
                mapping: p.mapping,
                location: p.location,
                function: p.function,
                string_table: p.string_table,
                period_type: match p.period_type {
                    Some(t) => seq![t],
                    None => seq![],
                },
                comment: wire::all_unsigned(p.comment),
            },
        ),
{
    let f = wire::profile_fields(p);
    assert(f[0] == wire::value_type_items(p.sample_type));
    assert(f[1] == wire::record_items(p.sample));
    assert(f[2] == wire::mapping_items(p.mapping));
    assert(f[3] == wire::location_items(p.location));
    assert(f[4] == wire::function_items(p.function));
    assert(f[5] == wire::string_items(p.string_table));
    assert(f[10] == wire::optional_value_type(p.period_type));
    assert(f[12] == wire::packed(wire::all_unsigned(p.comment)));
    lemma_value_types(p.sample_type);
    lemma_records(p.sample);
    lemma_mappings(p.mapping);
    lemma_locations(p.location);
    lemma_functions(p.function);
    lemma_strings(p.string_table);
    lemma_optional(p.period_type);
    lemma_packed(wire::all_unsigned(p.comment));
}

/// The numbers of a profile read back.
proof fn lemma_profile_numbers(p: ProfileView)
    ensures
        ({
            let f = wire::profile_fields(p);
            &&& signed_of(f[6]) == p.drop_frames
            &&& signed_of(f[7]) == p.keep_frames
            &&& signed_of(f[8]) == p.time_nanos
            &&& signed_of(f[9]) == p.duration_nanos
            &&& signed_of(f[11]) == p.period
            &&& signed_of(f[13]) == p.default_sample_type
        }),
{
    lemma_signed(p.drop_frames);
    lemma_signed(p.keep_frames);
    lemma_signed(p.time_nanos);
    lemma_signed(p.duration_nanos);
    lemma_signed(p.period);
    lemma_signed(p.default_sample_type);
}

/// A profile reads back from its encoding as it was written.
pub proof fn encoding_reads_back(p: ProfileView)
    ensures
        read_profile(wire::profile_bytes(p)) == Some(p),
{
    lemma_message(wire::profile_fields(p));
    lemma_parts(p);
    lemma_profile_numbers(p);
    lemma_all_signed(p.comment);
}

/// Profiles with the same encoding are the same profile.
pub proof fn encoding_is_unambiguous(p: ProfileView, q: ProfileView)
    requires
        wire::profile_bytes(p) == wire::profile_bytes(q),
    ensures
        p == q,
{
    encoding_reads_back(p);
    encoding_reads_back(q);
}

} // verus!
