//! The layout of the encoding, for all values: how numbers and items are written,
//! and which field of a message stands under which tag.

use vstd::prelude::*;

use crate::profile::{
    Function, Label, Line, LocationView, Mapping, ProfileView, RecordView, ValueType,
};
use crate::wire;
use crate::wire::Item;

verus! {

/// A number is written seven bits at a time, lowest first: as long as more follows,
/// a byte is 128 above its seven bits.
pub proof fn numbers_are_written_in_groups(low: nat, high: nat)
    requires
        low < 128,
    ensures
        wire::varint(low) == seq![low as u8],
        high > 0 ==> wire::varint(high * 128 + low) == seq![(low + 128) as u8] + wire::varint(high),
{
    if high > 0 {
        let n = high * 128 + low;
        assert(n % 128 == low && n / 128 == high);
    }
}

/// Numbers are written one after the other, all of them.
pub proof fn numbers_are_written_in_order(a: Seq<nat>, b: Seq<nat>, v: nat)
    ensures
        wire::varints(seq![v]) == wire::varint(v),
        wire::varints(a + b) == wire::varints(a) + wire::varints(b),
    decreases b.len(),
{
    assert(seq![v].drop_last() == Seq::<nat>::empty());
    assert(wire::varints(Seq::<nat>::empty()) == Seq::<u8>::empty());
    assert(wire::varints(seq![v]) == wire::varint(v));
    if b.len() == 0 {
        assert(a + b == a);
    } else {
        numbers_are_written_in_order(a, b.drop_last(), v);
        assert((a + b).drop_last() == a + b.drop_last());
    }
}

/// An item is its tag, with its kind in the low three bits, and its number; or the
/// length of its bytes, and the bytes.
pub proof fn items_are_written_under_their_tag(tag: nat, v: nat, body: Seq<u8>)
    ensures
        wire::item_bytes(tag, Item::Number(v)) == wire::varint(8 * tag) + wire::varint(v),
        wire::item_bytes(tag, Item::Bytes(body)) == wire::varint(8 * tag + 2) + wire::varint(
            body.len(),
        ) + body,
{
}

/// The items of a field are written in their order, all of them.
pub proof fn fields_are_written_in_order(tag: nat, a: Seq<Item>, b: Seq<Item>, item: Item)
    ensures
        wire::field_bytes(tag, seq![item]) == wire::item_bytes(tag, item),
        wire::field_bytes(tag, a + b) == wire::field_bytes(tag, a) + wire::field_bytes(tag, b),
    decreases b.len(),
{
    assert(seq![item].drop_last() == Seq::<Item>::empty());
    assert(wire::field_bytes(tag, Seq::<Item>::empty()) == Seq::<u8>::empty());
    assert(wire::field_bytes(tag, seq![item]) == wire::item_bytes(tag, item));
    if b.len() == 0 {
        assert(a + b == a);
    } else {
        fields_are_written_in_order(tag, a, b.drop_last(), item);
        assert((a + b).drop_last() == a + b.drop_last());
    }
}

/// A message is its fields, and each stands under the tag that follows the one
/// before it.
pub proof fn messages_are_written_in_order(fields: Seq<Seq<Item>>, field: Seq<Item>)
    ensures
        wire::message_bytes(seq![]) == Seq::<u8>::empty(),
        wire::message_bytes(fields.push(field)) == wire::message_bytes(fields) + wire::field_bytes(
            fields.len() + 1,
            field,
        ),
{
    assert(fields.push(field).drop_last() == fields);
}

/// A number takes one item, and zero takes none; numbers in one field take one item
/// together, and no numbers none. A signed number is written as its 64 bits.
pub proof fn values_are_written_as_items(v: nat, values: Seq<nat>, n: i64, b: bool)
    ensures
        v > 0 ==> wire::scalar(v) == seq![Item::Number(v)],
        wire::scalar(0) == Seq::<Item>::empty(),
        values.len() > 0 ==> wire::packed(values) == seq![Item::Bytes(wire::varints(values))],
        wire::packed(seq![]) == Seq::<Item>::empty(),
        0 <= wire::unsigned(n) < 0x1_0000_0000_0000_0000,
        (wire::unsigned(n) - n) % 0x1_0000_0000_0000_0000 == 0,
        wire::bit(true) == 1,
        wire::bit(false) == 0,
{
}

/// A value type is its kind and its unit.
pub proof fn value_types_have_two_fields(v: ValueType)
    ensures
        wire::value_type_fields(v).len() == 2,
        wire::value_type_fields(v)[0] == wire::scalar(wire::unsigned(v.kind)),
        wire::value_type_fields(v)[1] == wire::scalar(wire::unsigned(v.unit)),
{
}

/// A label is its key, its text, its number and its unit.
pub proof fn labels_have_four_fields(v: Label)
    ensures
        wire::label_fields(v).len() == 4,
        wire::label_fields(v)[0] == wire::scalar(wire::unsigned(v.key)),
        wire::label_fields(v)[1] == wire::scalar(wire::unsigned(v.str)),
        wire::label_fields(v)[2] == wire::scalar(wire::unsigned(v.num)),
        wire::label_fields(v)[3] == wire::scalar(wire::unsigned(v.num_unit)),
{
}

/// A mapping is its number, its memory, its file, and what is known of it.
pub proof fn mappings_have_ten_fields(v: Mapping)
    ensures
        wire::mapping_fields(v).len() == 10,
        wire::mapping_fields(v)[0] == wire::scalar(v.id as nat),
        wire::mapping_fields(v)[1] == wire::scalar(v.memory_start as nat),
        wire::mapping_fields(v)[2] == wire::scalar(v.memory_limit as nat),
        wire::mapping_fields(v)[3] == wire::scalar(v.file_offset as nat),
        wire::mapping_fields(v)[4] == wire::scalar(wire::unsigned(v.filename)),
        wire::mapping_fields(v)[5] == wire::scalar(wire::unsigned(v.build_id)),
        wire::mapping_fields(v)[6] == wire::scalar(wire::bit(v.has_functions)),
        wire::mapping_fields(v)[7] == wire::scalar(wire::bit(v.has_filenames)),
        wire::mapping_fields(v)[8] == wire::scalar(wire::bit(v.has_line_numbers)),
        wire::mapping_fields(v)[9] == wire::scalar(wire::bit(v.has_inline_frames)),
{
}

/// A line is its function, its line and its column.
pub proof fn lines_have_three_fields(v: Line)
    ensures
        wire::line_fields(v).len() == 3,
        wire::line_fields(v)[0] == wire::scalar(v.function_id as nat),
        wire::line_fields(v)[1] == wire::scalar(wire::unsigned(v.line)),
        wire::line_fields(v)[2] == wire::scalar(wire::unsigned(v.column)),
{
}

/// A location is its number, its mapping, its address, all of its lines, and whether
/// it is folded.
pub proof fn locations_have_five_fields(v: LocationView)
    ensures
        wire::location_fields(v).len() == 5,
        wire::location_fields(v)[0] == wire::scalar(v.id as nat),
        wire::location_fields(v)[1] == wire::scalar(v.mapping_id as nat),
        wire::location_fields(v)[2] == wire::scalar(v.address as nat),
        wire::location_fields(v)[3] == v.line.map_values(
            |x: Line| Item::Bytes(wire::message_bytes(wire::line_fields(x))),
        ),
        wire::location_fields(v)[4] == wire::scalar(wire::bit(v.is_folded)),
{
    assert(wire::line_items(v.line) =~= v.line.map_values(
        |x: Line| Item::Bytes(wire::message_bytes(wire::line_fields(x))),
    ));
}

/// A function is its number, its two names, its file and its first line.
pub proof fn functions_have_five_fields(v: Function)
    ensures
        wire::function_fields(v).len() == 5,
        wire::function_fields(v)[0] == wire::scalar(v.id as nat),
        wire::function_fields(v)[1] == wire::scalar(wire::unsigned(v.name)),
        wire::function_fields(v)[2] == wire::scalar(wire::unsigned(v.system_name)),
        wire::function_fields(v)[3] == wire::scalar(wire::unsigned(v.filename)),
        wire::function_fields(v)[4] == wire::scalar(wire::unsigned(v.start_line)),
{
}

/// A sample is all of its locations, all of its values and all of its labels.
pub proof fn samples_have_three_fields(v: RecordView)
    ensures
        wire::record_fields(v).len() == 3,
        wire::record_fields(v)[0] == wire::packed(v.location_id.map_values(|x: u64| x as nat)),
        wire::record_fields(v)[1] == wire::packed(v.value.map_values(|x: i64| wire::unsigned(x))),
        wire::record_fields(v)[2] == v.label.map_values(
            |x: Label| Item::Bytes(wire::message_bytes(wire::label_fields(x))),
        ),
{
    assert(wire::all_values(v.location_id) =~= v.location_id.map_values(|x: u64| x as nat));
    assert(wire::all_unsigned(v.value) =~= v.value.map_values(|x: i64| wire::unsigned(x)));
    assert(wire::label_items(v.label) =~= v.label.map_values(
        |x: Label| Item::Bytes(wire::message_bytes(wire::label_fields(x))),
    ));
}

/// A profile is all of its messages and strings, in their order, and its numbers, each
/// under the tag that pprof gives it.
pub proof fn profiles_have_fourteen_fields(v: ProfileView)
    ensures
        wire::profile_fields(v).len() == 14,
        wire::profile_fields(v)[0] == v.sample_type.map_values(
            |x: ValueType| Item::Bytes(wire::message_bytes(wire::value_type_fields(x))),
        ),
        wire::profile_fields(v)[1] == v.sample.map_values(
            |x: RecordView| Item::Bytes(wire::message_bytes(wire::record_fields(x))),
        ),
        wire::profile_fields(v)[2] == v.mapping.map_values(
            |x: Mapping| Item::Bytes(wire::message_bytes(wire::mapping_fields(x))),
        ),
        wire::profile_fields(v)[3] == v.location.map_values(
            |x: LocationView| Item::Bytes(wire::message_bytes(wire::location_fields(x))),
        ),
        wire::profile_fields(v)[4] == v.function.map_values(
            |x: Function| Item::Bytes(wire::message_bytes(wire::function_fields(x))),
        ),
        wire::profile_fields(v)[5] == v.string_table.map_values(
            |x: Seq<char>| Item::Bytes(vstd::utf8::encode_utf8(x)),
        ),
        wire::profile_fields(v)[6] == wire::scalar(wire::unsigned(v.drop_frames)),
        wire::profile_fields(v)[7] == wire::scalar(wire::unsigned(v.keep_frames)),
        wire::profile_fields(v)[8] == wire::scalar(wire::unsigned(v.time_nanos)),
        wire::profile_fields(v)[9] == wire::scalar(wire::unsigned(v.duration_nanos)),
        wire::profile_fields(v)[10] == (match v.period_type {
            Some(t) => seq![Item::Bytes(wire::message_bytes(wire::value_type_fields(t)))],
            None => seq![],
        }),
        wire::profile_fields(v)[11] == wire::scalar(wire::unsigned(v.period)),
        wire::profile_fields(v)[12] == wire::packed(v.comment.map_values(|x: i64| wire::unsigned(x))),
        wire::profile_fields(v)[13] == wire::scalar(wire::unsigned(v.default_sample_type)),
{
    assert(wire::value_type_items(v.sample_type) =~= v.sample_type.map_values(
        |x: ValueType| Item::Bytes(wire::message_bytes(wire::value_type_fields(x))),
    ));
    assert(wire::record_items(v.sample) =~= v.sample.map_values(
        |x: RecordView| Item::Bytes(wire::message_bytes(wire::record_fields(x))),
    ));
    assert(wire::mapping_items(v.mapping) =~= v.mapping.map_values(
        |x: Mapping| Item::Bytes(wire::message_bytes(wire::mapping_fields(x))),
    ));
    assert(wire::location_items(v.location) =~= v.location.map_values(
        |x: LocationView| Item::Bytes(wire::message_bytes(wire::location_fields(x))),
    ));
    assert(wire::function_items(v.function) =~= v.function.map_values(
        |x: Function| Item::Bytes(wire::message_bytes(wire::function_fields(x))),
    ));
    assert(wire::string_items(v.string_table) =~= v.string_table.map_values(
        |x: Seq<char>| Item::Bytes(vstd::utf8::encode_utf8(x)),
    ));
    assert(wire::all_unsigned(v.comment) =~= v.comment.map_values(|x: i64| wire::unsigned(x)));
}

/// What is written is the message of these fields, and nothing else.
pub proof fn profiles_are_written_as_messages(v: ProfileView)
    ensures
        wire::profile_bytes(v) == wire::message_bytes(wire::profile_fields(v)),
{
}

} // verus!
