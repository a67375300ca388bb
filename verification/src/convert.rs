//! The conversion as a whole: which samples are converted, and what is
//! refused.

use vstd::prelude::*;

use crate::aggregate;
use crate::builder;
use crate::event;
use crate::event::EventError;
use crate::laws;
use crate::profile::{Profile, ProfileView};
use crate::script;
use crate::script::{RawSample, SampleView, ScriptError};
use crate::tables;

verus! {

/// Why a script cannot be converted.
#[derive(Debug, Clone, Copy, PartialEq, Eq, Structural)]
pub enum ConvertError {
    /// The script is not valid UTF-8.
    InvalidUtf8,
    /// There is no sample to convert.
    NoSamples,
    /// The samples are of several events, whose periods must not be added up.
    MultipleEvents,
    /// A sum of periods leaves the range of an `i64`, or there is too much to
    /// be numbered.
    OutOfRange,
    /// The profile could not be compressed.
    Compression,
}

/// What a selector that may be missing says.
pub open spec fn selector_view(selector: Option<&str>) -> Option<Seq<char>> {
    match selector {
        Some(s) => Some(s@),
        None => None,
    }
}

/// The samples to convert: those of the selected event, or all of them where
/// they are of one event. There must be some.
pub open spec fn chosen(
    samples: Seq<SampleView>,
    selector: Option<Seq<char>>,
) -> Result<Seq<SampleView>, ConvertError> {
    if selector is None && !event::one_event(samples) {
        Err(ConvertError::MultipleEvents)
    } else {
        let kept = match selector {
            Some(s) => event::selected(samples, s),
            None => samples,
        };
        if kept.len() == 0 {
            Err(ConvertError::NoSamples)
        } else {
            Ok(kept)
        }
    }
}

/// The profile of the samples, where it can be built. The periods of different
/// events are not added up.
pub open spec fn built(
    samples: Seq<SampleView>,
    comments: Seq<Seq<char>>,
) -> Result<ProfileView, ConvertError> {
    if !event::one_event(samples) {
        Err(ConvertError::MultipleEvents)
    } else if builder::in_range(samples, comments) {
        Ok(builder::profile_of(samples, comments))
    } else {
        Err(ConvertError::OutOfRange)
    }
}

/// Reads the samples of a script and keeps those to convert.
pub fn choose_samples(input: &[u8], selector: Option<&str>) -> (r: Result<
    Vec<RawSample>,
    ConvertError,
>)
    ensures
        match script::script_samples(input@) {
            None => r == Err::<Vec<RawSample>, ConvertError>(ConvertError::InvalidUtf8),
            Some(samples) => match chosen(samples, selector_view(selector)) {
                Err(e) => r == Err::<Vec<RawSample>, ConvertError>(e),
                Ok(kept) => r matches Ok(v) && script::samples_view(v@) == kept,
            },
        },
{
    let samples = match script::parse_perf_script(input) {
        Ok(samples) => samples,
        Err(ScriptError::InvalidUtf8) => {
            return Err(ConvertError::InvalidUtf8);
        },
    };
    let kept = match event::select_event(samples, selector) {
        Ok(kept) => kept,
        Err(EventError::MultipleEvents) => {
            return Err(ConvertError::MultipleEvents);
        },
    };
    if kept.len() == 0 {
        assert(script::samples_view(kept@).len() == 0);
        return Err(ConvertError::NoSamples);
    }
    assert(script::samples_view(kept@).len() > 0);
    Ok(kept)
}

/// Builds the profile of samples that are in range; refuses exactly those of
/// several events.
pub fn build_profile(samples: Vec<RawSample>, comments: &[String]) -> (r: Result<
    Profile,
    ConvertError,
>)
    requires
        event::one_event(script::samples_view(samples@)) ==> builder::in_range(
            script::samples_view(samples@),
            tables::strings_view(comments@),
        ),
    ensures
        if event::one_event(script::samples_view(samples@)) {
            r matches Ok(p) && p@ == builder::profile_of(
                script::samples_view(samples@),
                tables::strings_view(comments@),
            )
        } else {
            r == Err::<Profile, ConvertError>(ConvertError::MultipleEvents)
        },
{
    try_build_profile(samples, comments)
}

/// Builds the profile of any samples; refuses exactly those of several events and
/// those that leave their range.
pub fn try_build_profile(samples: Vec<RawSample>, comments: &[String]) -> (r: Result<
    Profile,
    ConvertError,
>)
    ensures
        match built(script::samples_view(samples@), tables::strings_view(comments@)) {
            Ok(p) => r matches Ok(q) && q@ == p,
            Err(e) => r == Err::<Profile, ConvertError>(e),
        },
{
    if !event::is_one_event(&samples) {
        return Err(ConvertError::MultipleEvents);
    }
    match builder::checked_profile(samples, comments) {
        Some(p) => Ok(p),
        None => Err(ConvertError::OutOfRange),
    }
}

/// The samples that are chosen for conversion are of one event, modifiers aside,
/// whether or not one was selected: what is chosen is never refused for its
/// events when the profile is built.
pub proof fn chosen_samples_are_of_one_event(
    samples: Seq<SampleView>,
    selector: Option<Seq<char>>,
)
    ensures
        chosen(samples, selector) matches Ok(kept) ==> event::one_event(kept),
{
    if let Some(s) = selector {
        event::selection_is_stable(samples, s);
    }
}

/// The periods of different events are never added up: every sample that a profile
/// counts is of the event that the profile is named after, modifiers aside, and so
/// is every sample of the profile by its label.
pub proof fn built_profiles_are_of_one_event(
    samples: Seq<SampleView>,
    comments: Seq<Seq<char>>,
)
    requires
        built(samples, comments) is Ok,
    ensures
        ({
            let p = built(samples, comments)->Ok_0;
            let event = aggregate::event_of(samples);
            &&& p.sample_type[1].kind == p.default_sample_type
            &&& laws::text_at(p, p.default_sample_type) == event::normalized(event)
            &&& forall|i: int|
                0 <= i < samples.len() && (#[trigger] samples[i]).stack.len() > 0
                    ==> event::event_base(samples[i].event) == event::event_base(event)
            &&& forall|j: int|
                0 <= j < p.sample.len() ==> event::event_base(
                    laws::text_at(p, (#[trigger] p.sample[j]).label[3].str),
                ) == event::event_base(event)
        }),
{
    let p = built(samples, comments)->Ok_0;
    let event = aggregate::event_of(samples);
    laws::sample_types_are_named(samples, comments);
    assert forall|i: int|
        0 <= i < samples.len() && (#[trigger] samples[i]).stack.len()
            > 0 implies event::event_base(samples[i].event) == event::event_base(event) by {
        let k = aggregate::lemma_event_of(samples, i);
        assert(samples[k].stack.len() > 0);
    }
    let stacks = aggregate::stacks_of(samples);
    assert forall|j: int| 0 <= j < p.sample.len() implies event::event_base(
        laws::text_at(p, (#[trigger] p.sample[j]).label[3].str),
    ) == event::event_base(event) by {
        laws::labels_resolve(samples, comments, j);
        assert(stacks.contains(stacks[j]));
        aggregate::lemma_recorded(samples, stacks[j]);
        let k = aggregate::lemma_first_of(samples, stacks[j]);
        assert(samples[k].stack.len() > 0);
    }
}

} // verus!
