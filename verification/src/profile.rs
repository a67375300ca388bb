//! The messages of pprof's `profile.proto`.
//!
//! Text is held in the string table, and every name is a position in it.

use vstd::prelude::*;

use crate::tables;

verus! {

/// What a sample value measures, and its unit.
#[derive(Debug, Clone, Copy, PartialEq, Eq, Structural)]
pub struct ValueType {
    pub kind: i64,
    pub unit: i64,
}

/// A label on a sample: text or a number.
#[derive(Debug, Clone, Copy, PartialEq, Eq, Structural)]
pub struct Label {
    pub key: i64,
    pub str: i64,
    pub num: i64,
    pub num_unit: i64,
}

/// A loaded object file.
#[derive(Debug, Clone, Copy, PartialEq, Eq, Structural)]
pub struct Mapping {
    pub id: u64,
    pub memory_start: u64,
    pub memory_limit: u64,
    pub file_offset: u64,
    pub filename: i64,
    pub build_id: i64,
    pub has_functions: bool,
    pub has_filenames: bool,
    pub has_line_numbers: bool,
    pub has_inline_frames: bool,
}

/// The source position of a location.
#[derive(Debug, Clone, Copy, PartialEq, Eq, Structural)]
pub struct Line {
    pub function_id: u64,
    pub line: i64,
    pub column: i64,
}

/// An address in a program.
#[derive(Debug, Clone, PartialEq, Eq)]
pub struct Location {
    pub id: u64,
    pub mapping_id: u64,
    pub address: u64,
    pub line: Vec<Line>,
    pub is_folded: bool,
}

/// A function of a program.
#[derive(Debug, Clone, Copy, PartialEq, Eq, Structural)]
pub struct Function {
    pub id: u64,
    pub name: i64,
    pub system_name: i64,
    pub filename: i64,
    pub start_line: i64,
}

/// The values measured for one stack, leaf location first.
#[derive(Debug, Clone, PartialEq, Eq)]
pub struct Sample {
    pub location_id: Vec<u64>,
    pub value: Vec<i64>,
    pub label: Vec<Label>,
}

/// A whole profile.
#[derive(Debug, Clone, PartialEq, Eq)]
pub struct Profile {
    pub sample_type: Vec<ValueType>,
    pub sample: Vec<Sample>,
    pub mapping: Vec<Mapping>,
    pub location: Vec<Location>,
    pub function: Vec<Function>,
    pub string_table: Vec<String>,
    pub drop_frames: i64,
    pub keep_frames: i64,
    pub time_nanos: i64,
    pub duration_nanos: i64,
    pub period_type: Option<ValueType>,
    pub period: i64,
    pub comment: Vec<i64>,
    pub default_sample_type: i64,
}

/// What a location says.
#[verifier::ext_equal]
pub struct LocationView {
    pub id: u64,
    pub mapping_id: u64,
    pub address: u64,
    pub line: Seq<Line>,
    pub is_folded: bool,
}

/// What a sample says.
#[verifier::ext_equal]
pub struct RecordView {
    pub location_id: Seq<u64>,
    pub value: Seq<i64>,
    pub label: Seq<Label>,
}

/// What a profile says.
#[verifier::ext_equal]
pub struct ProfileView {
    pub sample_type: Seq<ValueType>,
    pub sample: Seq<RecordView>,
    pub mapping: Seq<Mapping>,
    pub location: Seq<LocationView>,
    pub function: Seq<Function>,
    pub string_table: Seq<Seq<char>>,
    pub drop_frames: i64,
    pub keep_frames: i64,
    pub time_nanos: i64,
    pub duration_nanos: i64,
    pub period_type: Option<ValueType>,
    pub period: i64,
    pub comment: Seq<i64>,
    pub default_sample_type: i64,
}

impl View for Location {
    type V = LocationView;

    open spec fn view(&self) -> LocationView {
        LocationView {
            id: self.id,
            mapping_id: self.mapping_id,
            address: self.address,
            line: self.line@,
            is_folded: self.is_folded,
        }
    }
}

impl View for Sample {
    type V = RecordView;

    open spec fn view(&self) -> RecordView {
        RecordView {
            location_id: self.location_id@,
            value: self.value@,
            label: self.label@,
        }
    }
}

/// What a list of locations says.
pub open spec fn locations_view(locations: Seq<Location>) -> Seq<LocationView> {
    Seq::new(locations.len(), |i: int| locations[i]@)
}

/// What a list of samples says.
pub open spec fn records_view(samples: Seq<Sample>) -> Seq<RecordView> {
    Seq::new(samples.len(), |i: int| samples[i]@)
}

impl View for Profile {
    type V = ProfileView;

    open spec fn view(&self) -> ProfileView {
        ProfileView {
            sample_type: self.sample_type@,
            sample: records_view(self.sample@),
            mapping: self.mapping@,
            location: locations_view(self.location@),
            function: self.function@,
            string_table: tables::strings_view(self.string_table@),
            drop_frames: self.drop_frames,
            keep_frames: self.keep_frames,
            time_nanos: self.time_nanos,
            duration_nanos: self.duration_nanos,
            period_type: self.period_type,
            period: self.period,
            comment: self.comment@,
            default_sample_type: self.default_sample_type,
        }
    }
}

} // verus!
