//! The views leave nothing out: what the contracts speak of is all that the values
//! hold.

use vstd::prelude::*;

use crate::aggregate::AggSample;
use crate::convert;
use crate::frame;
use crate::frame::Frame;
use crate::p2prof;
use crate::profile;
use crate::profile::{Location, Profile, Sample};
use crate::script;
use crate::script::RawSample;
use crate::source;
use crate::source::{ScriptSource, SourceView};
use crate::tables;
use crate::tables::StackKey;
use crate::text;

verus! {

/// A frame is seen with all that it holds.
pub proof fn frames_are_seen_whole(f: Frame, stack: Seq<Frame>, i: int)
    ensures
        f@.function == f.function@,
        f@.address == f.address,
        f@.mapping == f.mapping@,
        frame::stack_view(stack).len() == stack.len(),
        0 <= i < stack.len() ==> frame::stack_view(stack)[i] == stack[i]@,
        frame::frame_option_view(Some(f)) == Some(f@),
        frame::frame_option_view(None) is None,
{
}

/// A sample is seen with all that it holds, and so is a list of them.
pub proof fn samples_are_seen_whole(s: RawSample, samples: Seq<RawSample>, i: int)
    ensures
        s@.comm == s.comm@,
        s@.pid == s.pid,
        s@.tid == s.tid,
        s@.event == s.event@,
        s@.period == s.period,
        s@.stack.len() == s.stack@.len(),
        0 <= i < s.stack@.len() ==> s@.stack[i] == s.stack@[i]@,
        script::samples_view(samples).len() == samples.len(),
        0 <= i < samples.len() ==> script::samples_view(samples)[i] == samples[i]@,
        script::sample_option_view(Some(s)) == Some(s@),
        script::sample_option_view(None) is None,
{
}

/// What is counted for a stack is seen with all that it holds.
pub proof fn totals_are_seen_whole(a: AggSample, key: StackKey, i: int)
    ensures
        a@.samples == a.samples,
        a@.period == a.period,
        a@.comm == a.comm@,
        a@.pid == a.pid,
        a@.tid == a.tid,
        a@.event == a.event@,
        key@.len() == key.0@.len(),
        0 <= i < key.0@.len() ==> key@[i] == key.0@[i]@,
{
}

/// A location and a sample of a profile are seen with all that they hold.
pub proof fn records_are_seen_whole(l: Location, s: Sample)
    ensures
        l@.id == l.id,
        l@.mapping_id == l.mapping_id,
        l@.address == l.address,
        l@.line == l.line@,
        l@.is_folded == l.is_folded,
        s@.location_id == s.location_id@,
        s@.value == s.value@,
        s@.label == s.label@,
{
}

/// A profile is seen with all that it holds.
pub proof fn profiles_are_seen_whole(p: Profile, i: int)
    ensures
        p@.sample_type == p.sample_type@,
        p@.sample.len() == p.sample@.len(),
        0 <= i < p.sample@.len() ==> p@.sample[i] == p.sample@[i]@,
        p@.mapping == p.mapping@,
        p@.location.len() == p.location@.len(),
        0 <= i < p.location@.len() ==> p@.location[i] == p.location@[i]@,
        p@.function == p.function@,
        p@.string_table.len() == p.string_table@.len(),
        0 <= i < p.string_table@.len() ==> p@.string_table[i] == p.string_table@[i]@,
        p@.drop_frames == p.drop_frames,
        p@.keep_frames == p.keep_frames,
        p@.time_nanos == p.time_nanos,
        p@.duration_nanos == p.duration_nanos,
        p@.period_type == p.period_type,
        p@.period == p.period,
        p@.comment == p.comment@,
        p@.default_sample_type == p.default_sample_type,
{
}

/// Arguments, and lists of them, are seen byte for byte.
pub proof fn arguments_are_seen_whole(
    args: Seq<Vec<u8>>,
    runs: Seq<Vec<Vec<u8>>>,
    arg: Vec<u8>,
    i: int,
    strings: Seq<String>,
)
    ensures
        source::args_view(args).len() == args.len(),
        0 <= i < args.len() ==> source::args_view(args)[i] == args[i]@,
        p2prof::runs_view(runs).len() == runs.len(),
        0 <= i < runs.len() ==> p2prof::runs_view(runs)[i] == source::args_view(runs[i]@),
        source::option_view(Some(arg)) == Some(arg@),
        source::option_view(None) is None,
        tables::strings_view(strings).len() == strings.len(),
        0 <= i < strings.len() ==> tables::strings_view(strings)[i] == strings[i]@,
{
}

/// A selector and slices of text are seen character for character.
pub proof fn texts_are_seen_whole(selector: &str, parts: Seq<&[char]>, i: int)
    ensures
        convert::selector_view(Some(selector)) == Some(selector@),
        convert::selector_view(None) is None,
        text::texts(parts).len() == parts.len(),
        0 <= i < parts.len() ==> text::texts(parts)[i] == parts[i]@,
{
}

/// A source is seen with its path or its arguments.
pub proof fn sources_are_seen_whole(path: Vec<u8>, args: Vec<Vec<u8>>)
    ensures
        ScriptSource::Stdin@ == SourceView::Stdin,
        ScriptSource::File(path)@ == SourceView::File(path@),
        ScriptSource::Perf(args)@ == SourceView::Perf(source::args_view(args@)),
{
}

/// The bytes of a word are its UTF-8 encoding, and the parts of a profile are seen
/// one by one.
pub proof fn words_are_encoded_whole(s: &str, samples: Seq<Sample>, locations: Seq<Location>, i: int)
    ensures
        source::word(s) == vstd::utf8::encode_utf8(s@),
        profile::records_view(samples).len() == samples.len(),
        0 <= i < samples.len() ==> profile::records_view(samples)[i] == samples[i]@,
        profile::locations_view(locations).len() == locations.len(),
        0 <= i < locations.len() ==> profile::locations_view(locations)[i] == locations[i]@,
{
}

} // verus!
