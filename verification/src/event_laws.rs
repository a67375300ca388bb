//! How events are named and told apart, for all names.

use vstd::prelude::*;

use crate::convert;
use crate::convert::ConvertError;
use crate::event;
use crate::script::SampleView;
use crate::text;
use crate::text_laws;

verus! {

/// A list of the letters that perf takes as modifiers.
pub open spec fn is_modifier_list(s: Seq<char>) -> bool {
    s.len() > 0 && forall|i: int| 0 <= i < s.len() ==> "ukhIGHpPSDWebRX"@.contains(#[trigger] s[i])
}

/// A name is kept character for character, but for its colons: those at its end
/// are dropped, and those inside become underscores.
pub proof fn names_are_kept_but_for_colons(core: Seq<char>, n: nat)
    requires
        core.len() > 0 ==> core.last() != ':',
    ensures
        ({
            let name = event::normalized(core + Seq::new(n, |i: int| ':'));
            &&& name.len() == core.len()
            &&& forall|i: int|
                0 <= i < core.len() ==> #[trigger] name[i] == if core[i] == ':' {
                    '_'
                } else {
                    core[i]
                }
        }),
{
    text_laws::every_copy_is_trimmed(core, ':', n);
}

/// The unit is `cycles` where the name holds that word, otherwise `instructions`
/// where it holds that one, and `count` for every other name.
pub proof fn units_follow_names(before: Seq<char>, after: Seq<char>, name: Seq<char>)
    ensures
        event::unit_of(before + "cycles"@ + after) == "cycles"@,
        !text::contains(before + "instructions"@ + after, "cycles"@) ==> event::unit_of(
            before + "instructions"@ + after,
        ) == "instructions"@,
        !text::contains(name, "cycles"@) && !text::contains(name, "instructions"@)
            ==> event::unit_of(name) == "count"@,
{
    text_laws::a_pattern_is_held_where_it_stands(name, before, "cycles"@, after);
    text_laws::a_pattern_is_held_where_it_stands(name, before, "instructions"@, after);
}

/// A name without its modifiers is what stands in front of its last colon, where
/// modifier letters and nothing else stand behind it; any other name is whole.
pub proof fn modifiers_stand_behind_the_last_colon(base: Seq<char>, tail: Seq<char>)
    requires
        !tail.contains(':'),
    ensures
        event::event_base(tail) == tail,
        event::event_base(base + (seq![':'] + tail)) == if is_modifier_list(tail) {
            base
        } else {
            base + (seq![':'] + tail)
        },
{
    let colon = seq![':'];
    let full = base + (colon + tail);
    let n = base.len() as int;
    assert(full.subrange(n, n + 1) == colon);
    assert forall|j: int| n < j implies !#[trigger] text::occurs_at(full, colon, j) by {
        if text::occurs_at(full, colon, j) {
            assert(full.subrange(j, j + 1)[0] == full[j]);
            assert(tail[j - n - 1] == ':');
        }
    }
    text::lemma_rfind_at(full, colon, n);
    assert(full.skip(n + 1) == tail);
    assert(full.take(n) == base);
    text::lemma_rfind(tail, colon);
    if let Some(i) = text::rfind(tail, colon) {
        assert(tail.subrange(i, i + 1)[0] == tail[i]);
        assert(tail[i] == ':');
    }
}

/// A selector names its own event and no other, but for modifiers: one that has
/// none also names the event with any.
pub proof fn selectors_name_one_event(selector: Seq<char>, event_name: Seq<char>)
    ensures
        event::selects(selector, selector),
        event::selects(selector, event_name) && selector != event_name ==> event::event_base(
            event_name,
        ) == selector && event::event_base(selector) == selector,
        event::event_base(event_name) == selector && event::event_base(selector) == selector
            ==> event::selects(selector, event_name),
{
}

/// A selector without modifiers names the event that was recorded with some.
pub proof fn recorded_modifiers_do_not_matter(selector: Seq<char>, modifiers: Seq<char>)
    requires
        event::event_base(selector) == selector,
        is_modifier_list(modifiers),
    ensures
        event::selects(selector, selector + (seq![':'] + modifiers)),
{
    if modifiers.contains(':') {
        let i = modifiers.index_of(':');
        reveal_strlit("ukhIGHpPSDWebRX");
        assert("ukhIGHpPSDWebRX"@.contains(modifiers[i]));
    }
    modifiers_stand_behind_the_last_colon(selector, modifiers);
}

/// Two samples with frames of different events are never taken as one event, in
/// whatever places they stand.
pub proof fn two_events_are_noticed(samples: Seq<SampleView>, i: int, j: int)
    requires
        0 <= i < samples.len(),
        0 <= j < samples.len(),
        samples[i].stack.len() > 0,
        samples[j].stack.len() > 0,
        event::event_base(samples[i].event) != event::event_base(samples[j].event),
    ensures
        !event::one_event(samples),
        convert::chosen(samples, None) == Err::<Seq<SampleView>, ConvertError>(
            ConvertError::MultipleEvents,
        ),
{
}

/// Samples whose events differ in modifiers alone are of one event.
pub proof fn one_event_is_accepted(samples: Seq<SampleView>, base: Seq<char>)
    requires
        forall|i: int|
            0 <= i < samples.len() && (#[trigger] samples[i]).stack.len() > 0
                ==> event::event_base(samples[i].event) == base,
    ensures
        event::one_event(samples),
        samples.len() > 0 ==> convert::chosen(samples, None) == Ok::<Seq<SampleView>, ConvertError>(
            samples,
        ),
        samples.len() == 0 ==> convert::chosen(samples, None) == Err::<
            Seq<SampleView>,
            ConvertError,
        >(ConvertError::NoSamples),
{
}

/// A selected event is converted with all of its samples, in their order, and
/// with no others.
pub proof fn every_selected_sample_is_converted(samples: Seq<SampleView>, selector: Seq<char>)
    ensures
        ({
            let kept = samples.filter(|s: SampleView| event::selects(selector, s.event));
            convert::chosen(samples, Some(selector)) == if kept.len() == 0 {
                Err(ConvertError::NoSamples)
            } else {
                Ok(kept)
            }
        }),
{
    event::selection_is_a_filter(samples, selector);
}

} // verus!
