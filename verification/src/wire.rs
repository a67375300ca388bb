//! The protobuf encoding of a profile, and its compressed form.
//!
//! A message is a list of fields with the tags one, two and so on. A field
//! holds any number of items, and is left out where it holds none. The items
//! are written by prost.

use flate2::write::GzEncoder;
use flate2::Compression;
use vstd::prelude::*;

use crate::convert::ConvertError;
use crate::profile;
use crate::profile::{
    Function, Label, Line, Location, LocationView, Mapping, Profile, ProfileView, RecordView, Sample,
    ValueType,
};
use crate::tables;

verus! {

/// What stands under a tag: a number, or bytes.
pub enum Item {
    Number(nat),
    Bytes(Seq<u8>),
}

/// `n` in groups of seven bits, lowest first; every group but the last has
/// its high bit set.
pub open spec fn varint(n: nat) -> Seq<u8>
    decreases n,
{
    if n < 128 {
        seq![n as u8]
    } else {
        seq![(n % 128 + 128) as u8] + varint(n / 128)
    }
}

/// Numbers one after the other.
pub open spec fn varints(values: Seq<nat>) -> Seq<u8>
    decreases values.len(),
{
    if values.len() == 0 {
        seq![]
    } else {
        varints(values.drop_last()) + varint(values.last())
    }
}

/// An item under a tag: the tag with the kind of the item in its low bits,
/// then the number, or the bytes after their length.
pub open spec fn item_bytes(tag: nat, item: Item) -> Seq<u8> {
    match item {
        Item::Number(v) => varint(tag * 8) + varint(v),
        Item::Bytes(body) => varint(tag * 8 + 2) + (varint(body.len()) + body),
    }
}

/// The items of a field, each under its tag.
pub open spec fn field_bytes(tag: nat, items: Seq<Item>) -> Seq<u8>
    decreases items.len(),
{
    if items.len() == 0 {
        seq![]
    } else {
        field_bytes(tag, items.drop_last()) + item_bytes(tag, items.last())
    }
}

/// The fields of a message in the order of their tags.
pub open spec fn message_bytes(fields: Seq<Seq<Item>>) -> Seq<u8>
    decreases fields.len(),
{
    if fields.len() == 0 {
        seq![]
    } else {
        message_bytes(fields.drop_last()) + field_bytes(fields.len(), fields.last())
    }
}

/// A number, left out where it is zero.
pub open spec fn scalar(v: nat) -> Seq<Item> {
    if v == 0 {
        seq![]
    } else {
        seq![Item::Number(v)]
    }
}

/// Numbers as one item, left out where there are none.
pub open spec fn packed(values: Seq<nat>) -> Seq<Item> {
    if values.len() == 0 {
        seq![]
    } else {
        seq![Item::Bytes(varints(values))]
    }
}

/// A signed number as the unsigned number with the same 64 bits.
pub open spec fn unsigned(v: i64) -> nat {
    if v >= 0 {
        v as nat
    } else {
        (v + 0x1_0000_0000_0000_0000) as nat
    }
}

/// A truth value as a number.
pub open spec fn bit(v: bool) -> nat {
    if v {
        1
    } else {
        0
    }
}

/// The unsigned forms of signed numbers.
pub open spec fn all_unsigned(values: Seq<i64>) -> Seq<nat> {
    Seq::new(values.len(), |i: int| unsigned(values[i]))
}

/// The values of unsigned numbers.
pub open spec fn all_values(values: Seq<u64>) -> Seq<nat> {
    Seq::new(values.len(), |i: int| values[i] as nat)
}

/// The fields of a value type.
pub open spec fn value_type_fields(v: ValueType) -> Seq<Seq<Item>> {
    seq![scalar(unsigned(v.kind)), scalar(unsigned(v.unit))]
}

/// The fields of a label.
pub open spec fn label_fields(v: Label) -> Seq<Seq<Item>> {
    seq![
        scalar(unsigned(v.key)),
        scalar(unsigned(v.str)),
        scalar(unsigned(v.num)),
        scalar(unsigned(v.num_unit)),
    ]
}

/// The fields of a mapping.
pub open spec fn mapping_fields(v: Mapping) -> Seq<Seq<Item>> {
    seq![
        scalar(v.id as nat),
        scalar(v.memory_start as nat),
        scalar(v.memory_limit as nat),
        scalar(v.file_offset as nat),
        scalar(unsigned(v.filename)),
        scalar(unsigned(v.build_id)),
        scalar(bit(v.has_functions)),
        scalar(bit(v.has_filenames)),
        scalar(bit(v.has_line_numbers)),
        scalar(bit(v.has_inline_frames)),
    ]
}

/// The fields of a line.
pub open spec fn line_fields(v: Line) -> Seq<Seq<Item>> {
    seq![scalar(v.function_id as nat), scalar(unsigned(v.line)), scalar(unsigned(v.column))]
}

/// The lines of a location.
pub open spec fn line_items(lines: Seq<Line>) -> Seq<Item> {
    Seq::new(lines.len(), |i: int| Item::Bytes(message_bytes(line_fields(lines[i]))))
}

/// The fields of a location.
pub open spec fn location_fields(v: LocationView) -> Seq<Seq<Item>> {
    seq![
        scalar(v.id as nat),
        scalar(v.mapping_id as nat),
        scalar(v.address as nat),
        line_items(v.line),
        scalar(bit(v.is_folded)),
    ]
}

/// The fields of a function.
pub open spec fn function_fields(v: Function) -> Seq<Seq<Item>> {
    seq![
        scalar(v.id as nat),
        scalar(unsigned(v.name)),
        scalar(unsigned(v.system_name)),
        scalar(unsigned(v.filename)),
        scalar(unsigned(v.start_line)),
    ]
}

/// The labels of a sample.
pub open spec fn label_items(labels: Seq<Label>) -> Seq<Item> {
    Seq::new(labels.len(), |i: int| Item::Bytes(message_bytes(label_fields(labels[i]))))
}

/// The fields of a sample.
pub open spec fn record_fields(v: RecordView) -> Seq<Seq<Item>> {
    seq![packed(all_values(v.location_id)), packed(all_unsigned(v.value)), label_items(v.label)]
}

/// The value types of a profile.
pub open spec fn value_type_items(values: Seq<ValueType>) -> Seq<Item> {
    Seq::new(values.len(), |i: int| Item::Bytes(message_bytes(value_type_fields(values[i]))))
}

/// The samples of a profile.
pub open spec fn record_items(values: Seq<RecordView>) -> Seq<Item> {
    Seq::new(values.len(), |i: int| Item::Bytes(message_bytes(record_fields(values[i]))))
}

/// The mappings of a profile.
pub open spec fn mapping_items(values: Seq<Mapping>) -> Seq<Item> {
    Seq::new(values.len(), |i: int| Item::Bytes(message_bytes(mapping_fields(values[i]))))
}

/// The locations of a profile.
pub open spec fn location_items(values: Seq<LocationView>) -> Seq<Item> {
    Seq::new(values.len(), |i: int| Item::Bytes(message_bytes(location_fields(values[i]))))
}

/// The functions of a profile.
pub open spec fn function_items(values: Seq<Function>) -> Seq<Item> {
    Seq::new(values.len(), |i: int| Item::Bytes(message_bytes(function_fields(values[i]))))
}

/// The strings of a profile.
pub open spec fn string_items(values: Seq<Seq<char>>) -> Seq<Item> {
    Seq::new(values.len(), |i: int| Item::Bytes(vstd::utf8::encode_utf8(values[i])))
}

/// A value type that may be missing.
pub open spec fn optional_value_type(value: Option<ValueType>) -> Seq<Item> {
    match value {
        Some(v) => seq![Item::Bytes(message_bytes(value_type_fields(v)))],
        None => seq![],
    }
}

/// The fields of a profile.
pub open spec fn profile_fields(p: ProfileView) -> Seq<Seq<Item>> {
    seq![
        value_type_items(p.sample_type),
        record_items(p.sample),
        mapping_items(p.mapping),
        location_items(p.location),
        function_items(p.function),
        string_items(p.string_table),
        scalar(unsigned(p.drop_frames)),
        scalar(unsigned(p.keep_frames)),
        scalar(unsigned(p.time_nanos)),
        scalar(unsigned(p.duration_nanos)),
        optional_value_type(p.period_type),
        scalar(unsigned(p.period)),
        packed(all_unsigned(p.comment)),
        scalar(unsigned(p.default_sample_type)),
    ]
}

/// The encoding of a profile.
pub open spec fn profile_bytes(p: ProfileView) -> Seq<u8> {
    message_bytes(profile_fields(p))
}

/// `prost::encoding::uint64::encode` appends the key of a number field and the
/// number.
#[verifier::external_body]
fn put_uint64(tag: u32, value: u64, buf: &mut Vec<u8>)
    requires
        1 <= tag <= 0x1fff_ffff,
    ensures
        final(buf)@ == old(buf)@ + item_bytes(tag as nat, Item::Number(value as nat)),
{
    prost::encoding::uint64::encode(tag, &value, buf)
}

/// `prost::encoding::int64::encode` appends the key of a number field and the
/// 64 bits of the number, read as unsigned.
#[verifier::external_body]
fn put_int64(tag: u32, value: i64, buf: &mut Vec<u8>)
    requires
        1 <= tag <= 0x1fff_ffff,
    ensures
        final(buf)@ == old(buf)@ + item_bytes(tag as nat, Item::Number(unsigned(value))),
{
    prost::encoding::int64::encode(tag, &value, buf)
}

/// `prost::encoding::bool::encode` appends the key of a number field, and one
/// for true or zero for false.
#[verifier::external_body]
fn put_bool(tag: u32, value: bool, buf: &mut Vec<u8>)
    requires
        1 <= tag <= 0x1fff_ffff,
    ensures
        final(buf)@ == old(buf)@ + item_bytes(tag as nat, Item::Number(bit(value))),
{
    prost::encoding::bool::encode(tag, &value, buf)
}

/// `prost::encoding::string::encode` appends the key of a length-delimited
/// field, the number of bytes of the string, and its UTF-8 bytes.
#[verifier::external_body]
fn put_string(tag: u32, value: &String, buf: &mut Vec<u8>)
    requires
        1 <= tag <= 0x1fff_ffff,
    ensures
        final(buf)@ == old(buf)@ + item_bytes(
            tag as nat,
            Item::Bytes(vstd::utf8::encode_utf8(value@)),
        ),
{
    prost::encoding::string::encode(tag, value, buf)
}

/// `prost::encoding::bytes::encode` appends the key of a length-delimited
/// field, the number of bytes, and the bytes.
#[verifier::external_body]
fn put_bytes(tag: u32, value: &Vec<u8>, buf: &mut Vec<u8>)
    requires
        1 <= tag <= 0x1fff_ffff,
    ensures
        final(buf)@ == old(buf)@ + item_bytes(tag as nat, Item::Bytes(value@)),
{
    prost::encoding::bytes::encode(tag, value, buf)
}

/// `prost::encoding::uint64::encode_packed` appends nothing for no numbers,
/// and otherwise a length-delimited field of the numbers one after the other.
#[verifier::external_body]
fn put_packed_uint64(tag: u32, values: &Vec<u64>, buf: &mut Vec<u8>)
    requires
        1 <= tag <= 0x1fff_ffff,
    ensures
        final(buf)@ == old(buf)@ + field_bytes(tag as nat, packed(all_values(values@))),
{
    prost::encoding::uint64::encode_packed(tag, values, buf)
}

/// `prost::encoding::int64::encode_packed` appends nothing for no numbers, and
/// otherwise a length-delimited field of the numbers, read as unsigned, one
/// after the other.
#[verifier::external_body]
fn put_packed_int64(tag: u32, values: &Vec<i64>, buf: &mut Vec<u8>)
    requires
        1 <= tag <= 0x1fff_ffff,
    ensures
        final(buf)@ == old(buf)@ + field_bytes(tag as nat, packed(all_unsigned(values@))),
{
    prost::encoding::int64::encode_packed(tag, values, buf)
}

/// A field of one item.
proof fn lemma_one_item(tag: nat, item: Item)
    ensures
        field_bytes(tag, seq![item]) == item_bytes(tag, item),
{
    assert(seq![item].drop_last() == Seq::<Item>::empty());
    assert(field_bytes(tag, seq![item].drop_last()) == Seq::<u8>::empty());
}

/// One more item of a field.
proof fn lemma_more_items(tag: nat, items: Seq<Item>, n: int)
    requires
        0 <= n < items.len(),
    ensures
        field_bytes(tag, items.take(n + 1)) == field_bytes(tag, items.take(n)) + item_bytes(
            tag,
            items[n],
        ),
{
    assert(items.take(n + 1).drop_last() == items.take(n));
}

/// One more field of a message.
proof fn lemma_more_fields(fields: Seq<Seq<Item>>, n: int)
    requires
        0 <= n < fields.len(),
    ensures
        message_bytes(fields.take(n + 1)) == message_bytes(fields.take(n)) + field_bytes(
            (n + 1) as nat,
            fields[n],
        ),
{
    assert(fields.take(n + 1).drop_last() == fields.take(n));
}

/// Appends an unsigned number, unless it is zero.
fn put_scalar_uint64(tag: u32, value: u64, buf: &mut Vec<u8>)
    requires
        1 <= tag <= 0x1fff_ffff,
    ensures
        final(buf)@ == old(buf)@ + field_bytes(tag as nat, scalar(value as nat)),
{
    proof {
        lemma_one_item(tag as nat, Item::Number(value as nat));
    }
    if value != 0 {
        put_uint64(tag, value, buf);
    }
}

/// Appends a signed number, unless it is zero.
fn put_scalar_int64(tag: u32, value: i64, buf: &mut Vec<u8>)
    requires
        1 <= tag <= 0x1fff_ffff,
    ensures
        final(buf)@ == old(buf)@ + field_bytes(tag as nat, scalar(unsigned(value))),
{
    proof {
        lemma_one_item(tag as nat, Item::Number(unsigned(value)));
    }
    if value != 0 {
        put_int64(tag, value, buf);
    }
}

/// Appends a truth value, unless it is false.
fn put_scalar_bool(tag: u32, value: bool, buf: &mut Vec<u8>)
    requires
        1 <= tag <= 0x1fff_ffff,
    ensures
        final(buf)@ == old(buf)@ + field_bytes(tag as nat, scalar(bit(value))),
{
    proof {
        lemma_one_item(tag as nat, Item::Number(bit(value)));
    }
    if value {
        put_bool(tag, value, buf);
    }
}

/// Encodes a value type.
fn encode_value_type(v: &ValueType) -> (r: Vec<u8>)
    ensures
        r@ == message_bytes(value_type_fields(*v)),
{
    let ghost fields = value_type_fields(*v);
    let mut r: Vec<u8> = Vec::new();
    assert(r@ == message_bytes(fields.take(0)));
    put_scalar_int64(1, v.kind, &mut r);
    proof {
        lemma_more_fields(fields, 0);
    }
    put_scalar_int64(2, v.unit, &mut r);
    proof {
        lemma_more_fields(fields, 1);
    }
    assert(fields.take(2) == fields);
    r
}

/// Encodes a label.
fn encode_label(v: &Label) -> (r: Vec<u8>)
    ensures
        r@ == message_bytes(label_fields(*v)),
{
    let ghost fields = label_fields(*v);
    let mut r: Vec<u8> = Vec::new();
    assert(r@ == message_bytes(fields.take(0)));
    put_scalar_int64(1, v.key, &mut r);
    proof {
        lemma_more_fields(fields, 0);
    }
    put_scalar_int64(2, v.str, &mut r);
    proof {
        lemma_more_fields(fields, 1);
    }
    put_scalar_int64(3, v.num, &mut r);
    proof {
        lemma_more_fields(fields, 2);
    }
    put_scalar_int64(4, v.num_unit, &mut r);
    proof {
        lemma_more_fields(fields, 3);
    }
    assert(fields.take(4) == fields);
    r
}

/// Encodes a mapping.
fn encode_mapping(v: &Mapping) -> (r: Vec<u8>)
    ensures
        r@ == message_bytes(mapping_fields(*v)),
{
    let ghost fields = mapping_fields(*v);
    let mut r: Vec<u8> = Vec::new();
    assert(r@ == message_bytes(fields.take(0)));
    put_scalar_uint64(1, v.id, &mut r);
    proof {
        lemma_more_fields(fields, 0);
    }
    put_scalar_uint64(2, v.memory_start, &mut r);
    proof {
        lemma_more_fields(fields, 1);
    }
    put_scalar_uint64(3, v.memory_limit, &mut r);
    proof {
        lemma_more_fields(fields, 2);
    }
    put_scalar_uint64(4, v.file_offset, &mut r);
    proof {
        lemma_more_fields(fields, 3);
    }
    put_scalar_int64(5, v.filename, &mut r);
    proof {
        lemma_more_fields(fields, 4);
    }
    put_scalar_int64(6, v.build_id, &mut r);
    proof {
        lemma_more_fields(fields, 5);
    }
    put_scalar_bool(7, v.has_functions, &mut r);
    proof {
        lemma_more_fields(fields, 6);
    }
    put_scalar_bool(8, v.has_filenames, &mut r);
    proof {
        lemma_more_fields(fields, 7);
    }
    put_scalar_bool(9, v.has_line_numbers, &mut r);
    proof {
        lemma_more_fields(fields, 8);
    }
    put_scalar_bool(10, v.has_inline_frames, &mut r);
    proof {
        lemma_more_fields(fields, 9);
    }
    assert(fields.take(10) == fields);
    r
}

/// Encodes a line.
fn encode_line(v: &Line) -> (r: Vec<u8>)
    ensures
        r@ == message_bytes(line_fields(*v)),
{
    let ghost fields = line_fields(*v);
    let mut r: Vec<u8> = Vec::new();
    assert(r@ == message_bytes(fields.take(0)));
    put_scalar_uint64(1, v.function_id, &mut r);
    proof {
        lemma_more_fields(fields, 0);
    }
    put_scalar_int64(2, v.line, &mut r);
    proof {
        lemma_more_fields(fields, 1);
    }
    put_scalar_int64(3, v.column, &mut r);
    proof {
        lemma_more_fields(fields, 2);
    }
    assert(fields.take(3) == fields);
    r
}

/// Appends the lines of a location.
fn put_lines(values: &Vec<Line>, buf: &mut Vec<u8>)
    ensures
        final(buf)@ == old(buf)@ + field_bytes(4, line_items(values@)),
{
    let ghost before = buf@;
    let ghost items = line_items(values@);
    for i in 0..values.len()
        invariant
            items == line_items(values@),
            buf@ == before + field_bytes(4, items.take(i as int)),
    {
        put_bytes(4, &encode_line(&values[i]), buf);
        proof {
            lemma_more_items(4, items, i as int);
        }
    }
    assert(items.take(values@.len() as int) == items);
}

/// Encodes a location.
fn encode_location(v: &Location) -> (r: Vec<u8>)
    ensures
        r@ == message_bytes(location_fields(v@)),
{
    let ghost fields = location_fields(v@);
    let mut r: Vec<u8> = Vec::new();
    assert(r@ == message_bytes(fields.take(0)));
    put_scalar_uint64(1, v.id, &mut r);
    proof {
        lemma_more_fields(fields, 0);
    }
    put_scalar_uint64(2, v.mapping_id, &mut r);
    proof {
        lemma_more_fields(fields, 1);
    }
    put_scalar_uint64(3, v.address, &mut r);
    proof {
        lemma_more_fields(fields, 2);
    }
    put_lines(&v.line, &mut r);
    proof {
        lemma_more_fields(fields, 3);
    }
    put_scalar_bool(5, v.is_folded, &mut r);
    proof {
        lemma_more_fields(fields, 4);
    }
    assert(fields.take(5) == fields);
    r
}

/// Encodes a function.
fn encode_function(v: &Function) -> (r: Vec<u8>)
    ensures
        r@ == message_bytes(function_fields(*v)),
{
    let ghost fields = function_fields(*v);
    let mut r: Vec<u8> = Vec::new();
    assert(r@ == message_bytes(fields.take(0)));
    put_scalar_uint64(1, v.id, &mut r);
    proof {
        lemma_more_fields(fields, 0);
    }
    put_scalar_int64(2, v.name, &mut r);
    proof {
        lemma_more_fields(fields, 1);
    }
    put_scalar_int64(3, v.system_name, &mut r);
    proof {
        lemma_more_fields(fields, 2);
    }
    put_scalar_int64(4, v.filename, &mut r);
    proof {
        lemma_more_fields(fields, 3);
    }
    put_scalar_int64(5, v.start_line, &mut r);
    proof {
        lemma_more_fields(fields, 4);
    }
    assert(fields.take(5) == fields);
    r
}

/// Appends the labels of a sample.
fn put_labels(values: &Vec<Label>, buf: &mut Vec<u8>)
    ensures
        final(buf)@ == old(buf)@ + field_bytes(3, label_items(values@)),
{
    let ghost before = buf@;
    let ghost items = label_items(values@);
    for i in 0..values.len()
        invariant
            items == label_items(values@),
            buf@ == before + field_bytes(3, items.take(i as int)),
    {
        put_bytes(3, &encode_label(&values[i]), buf);
        proof {
            lemma_more_items(3, items, i as int);
        }
    }
    assert(items.take(values@.len() as int) == items);
}

/// Encodes a sample.
fn encode_sample(v: &Sample) -> (r: Vec<u8>)
    ensures
        r@ == message_bytes(record_fields(v@)),
{
    let ghost fields = record_fields(v@);
    let mut r: Vec<u8> = Vec::new();
    assert(r@ == message_bytes(fields.take(0)));
    put_packed_uint64(1, &v.location_id, &mut r);
    proof {
        lemma_more_fields(fields, 0);
    }
    put_packed_int64(2, &v.value, &mut r);
    proof {
        lemma_more_fields(fields, 1);
    }
    put_labels(&v.label, &mut r);
    proof {
        lemma_more_fields(fields, 2);
    }
    assert(fields.take(3) == fields);
    r
}

/// Appends the sample types of a profile.
fn put_value_types(values: &Vec<ValueType>, buf: &mut Vec<u8>)
    ensures
        final(buf)@ == old(buf)@ + field_bytes(1, value_type_items(values@)),
{
    let ghost before = buf@;
    let ghost items = value_type_items(values@);
    for i in 0..values.len()
        invariant
            items == value_type_items(values@),
            buf@ == before + field_bytes(1, items.take(i as int)),
    {
        put_bytes(1, &encode_value_type(&values[i]), buf);
        proof {
            lemma_more_items(1, items, i as int);
        }
    }
    assert(items.take(values@.len() as int) == items);
}

/// Appends the samples of a profile.
fn put_samples(values: &Vec<Sample>, buf: &mut Vec<u8>)
    ensures
        final(buf)@ == old(buf)@ + field_bytes(2, record_items(profile::records_view(values@))),
{
    let ghost before = buf@;
    let ghost items = record_items(profile::records_view(values@));
    for i in 0..values.len()
        invariant
            items == record_items(profile::records_view(values@)),
            buf@ == before + field_bytes(2, items.take(i as int)),
    {
        put_bytes(2, &encode_sample(&values[i]), buf);
        proof {
            lemma_more_items(2, items, i as int);
        }
    }
    assert(items.take(values@.len() as int) == items);
}

/// Appends the mappings of a profile.
fn put_mappings(values: &Vec<Mapping>, buf: &mut Vec<u8>)
    ensures
        final(buf)@ == old(buf)@ + field_bytes(3, mapping_items(values@)),
{
    let ghost before = buf@;
    let ghost items = mapping_items(values@);
    for i in 0..values.len()
        invariant
            items == mapping_items(values@),
            buf@ == before + field_bytes(3, items.take(i as int)),
    {
        put_bytes(3, &encode_mapping(&values[i]), buf);
        proof {
            lemma_more_items(3, items, i as int);
        }
    }
    assert(items.take(values@.len() as int) == items);
}

/// Appends the locations of a profile.
fn put_locations(values: &Vec<Location>, buf: &mut Vec<u8>)
    ensures
        final(buf)@ == old(buf)@ + field_bytes(4, location_items(profile::locations_view(values@))),
{
    let ghost before = buf@;
    let ghost items = location_items(profile::locations_view(values@));
    for i in 0..values.len()
        invariant
            items == location_items(profile::locations_view(values@)),
            buf@ == before + field_bytes(4, items.take(i as int)),
    {
        put_bytes(4, &encode_location(&values[i]), buf);
        proof {
            lemma_more_items(4, items, i as int);
        }
    }
    assert(items.take(values@.len() as int) == items);
}

/// Appends the functions of a profile.
fn put_functions(values: &Vec<Function>, buf: &mut Vec<u8>)
    ensures
        final(buf)@ == old(buf)@ + field_bytes(5, function_items(values@)),
{
    let ghost before = buf@;
    let ghost items = function_items(values@);
    for i in 0..values.len()
        invariant
            items == function_items(values@),
            buf@ == before + field_bytes(5, items.take(i as int)),
    {
        put_bytes(5, &encode_function(&values[i]), buf);
        proof {
            lemma_more_items(5, items, i as int);
        }
    }
    assert(items.take(values@.len() as int) == items);
}

/// Appends the string table of a profile.
fn put_strings(values: &Vec<String>, buf: &mut Vec<u8>)
    ensures
        final(buf)@ == old(buf)@ + field_bytes(6, string_items(tables::strings_view(values@))),
{
    let ghost before = buf@;
    let ghost items = string_items(tables::strings_view(values@));
    for i in 0..values.len()
        invariant
            items == string_items(tables::strings_view(values@)),
            buf@ == before + field_bytes(6, items.take(i as int)),
    {
        put_string(6, &values[i], buf);
        proof {
            lemma_more_items(6, items, i as int);
        }
    }
    assert(items.take(values@.len() as int) == items);
}

/// Appends the period type of a profile.
fn put_period_type(value: &Option<ValueType>, buf: &mut Vec<u8>)
    ensures
        final(buf)@ == old(buf)@ + field_bytes(11, optional_value_type(*value)),
{
    if let Some(v) = value {
        proof {
            lemma_one_item(11, Item::Bytes(message_bytes(value_type_fields(*v))));
        }
        put_bytes(11, &encode_value_type(v), buf);
    }
}

/// Encodes a profile.
pub fn encode_profile(v: &Profile) -> (r: Vec<u8>)
    ensures
        r@ == profile_bytes(v@),
{
    let ghost fields = profile_fields(v@);
    let mut r: Vec<u8> = Vec::new();
    assert(r@ == message_bytes(fields.take(0)));
    put_value_types(&v.sample_type, &mut r);
    proof {
        lemma_more_fields(fields, 0);
    }
    put_samples(&v.sample, &mut r);
    proof {
        lemma_more_fields(fields, 1);
    }
    put_mappings(&v.mapping, &mut r);
    proof {
        lemma_more_fields(fields, 2);
    }
    put_locations(&v.location, &mut r);
    proof {
        lemma_more_fields(fields, 3);
    }
    put_functions(&v.function, &mut r);
    proof {
        lemma_more_fields(fields, 4);
    }
    put_strings(&v.string_table, &mut r);
    proof {
        lemma_more_fields(fields, 5);
    }
    put_scalar_int64(7, v.drop_frames, &mut r);
    proof {
        lemma_more_fields(fields, 6);
    }
    put_scalar_int64(8, v.keep_frames, &mut r);
    proof {
        lemma_more_fields(fields, 7);
    }
    put_scalar_int64(9, v.time_nanos, &mut r);
    proof {
        lemma_more_fields(fields, 8);
    }
    put_scalar_int64(10, v.duration_nanos, &mut r);
    proof {
        lemma_more_fields(fields, 9);
    }
    put_period_type(&v.period_type, &mut r);
    proof {
        lemma_more_fields(fields, 10);
    }
    put_scalar_int64(12, v.period, &mut r);
    proof {
        lemma_more_fields(fields, 11);
    }
    put_packed_int64(13, &v.comment, &mut r);
    proof {
        lemma_more_fields(fields, 12);
    }
    put_scalar_int64(14, v.default_sample_type, &mut r);
    proof {
        lemma_more_fields(fields, 13);
    }
    assert(fields.take(14) == fields);
    r
}

/// The gzip stream that flate2 writes for some bytes at its default level;
/// `None` where it reports an error.
pub uninterp spec fn gzip_stream(data: Seq<u8>) -> Option<Seq<u8>>;

/// The error of a writer.
#[verifier::external_type_specification]
#[verifier::external_body]
pub struct ExIoError(std::io::Error);

/// `flate2::write::GzEncoder`, given all bytes at once and then finished,
/// gives the stream that is named for those bytes. The header holds no time
/// and no host, so that the same bytes always give the same stream. That the
/// stream can be expanded again is not stated.
#[verifier::external_body]
fn gzip(data: &Vec<u8>) -> (r: Result<Vec<u8>, std::io::Error>)
    ensures
        match r {
            Ok(stream) => gzip_stream(data@) == Some(stream@),
            Err(_) => gzip_stream(data@) is None,
        },
{
    let mut encoder = GzEncoder::new(Vec::new(), Compression::default());
    std::io::Write::write_all(&mut encoder, data)?;
    encoder.finish()
}

/// The file form of a profile: its encoding, compressed.
pub fn gzip_profile(profile: &Profile) -> (r: Result<Vec<u8>, ConvertError>)
    ensures
        match gzip_stream(profile_bytes(profile@)) {
            Some(stream) => r matches Ok(bytes) && bytes@ == stream,
            None => r == Err::<Vec<u8>, ConvertError>(ConvertError::Compression),
        },
{
    match gzip(&encode_profile(profile)) {
        Ok(stream) => Ok(stream),
        Err(_) => Err(ConvertError::Compression),
    }
}

} // verus!
