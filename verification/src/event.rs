//! Event names: how an event is named in a profile, the unit of its period,
//! and the selection of one event from a recording of several.

use vstd::prelude::*;
use vstd::slice::slice_subrange;

use crate::script;
use crate::script::{RawSample, SampleView};
use crate::text;

verus! {

/// Why no single event can be converted.
#[derive(Debug, Clone, Copy, PartialEq, Eq, Structural)]
pub enum EventError {
    /// The samples are of several events and none was selected.
    MultipleEvents,
}

/// `s` with every `from` replaced by `to`.
pub open spec fn replaced(s: Seq<char>, from: char, to: char) -> Seq<char> {
    Seq::new(
        s.len(),
        |i: int|
            if s[i] == from {
                to
            } else {
                s[i]
            },
    )
}

/// The event's name in a profile: no colons at the end, and underscores for
/// those inside.
pub open spec fn normalized(event: Seq<char>) -> Seq<char> {
    replaced(text::trim_end_char(event, ':'), ':', '_')
}

/// The unit in which the event's period is counted.
pub open spec fn unit_of(event: Seq<char>) -> Seq<char> {
    if text::contains(event, "cycles"@) {
        "cycles"@
    } else if text::contains(event, "instructions"@) {
        "instructions"@
    } else {
        "count"@
    }
}

/// The letters that perf takes as event modifiers: which privilege levels, guests
/// and hosts are counted, how precise a sample is, and how the event is scheduled.
pub open spec fn modifier_letters() -> Seq<char> {
    "ukhIGHpPSDWebRX"@
}

/// A modifier list such as the `P` of `cycles:P`. The name of a tracepoint, such
/// as the `kfree` of `kmem:kfree`, is none.
pub open spec fn is_modifier(s: Seq<char>) -> bool {
    s.len() > 0 && forall|i: int|
        0 <= i < s.len() ==> modifier_letters().contains(#[trigger] s[i])
}

/// The event without the modifiers that it was recorded with.
pub open spec fn event_base(event: Seq<char>) -> Seq<char> {
    match text::rfind(event, seq![':']) {
        Some(i) => if is_modifier(event.skip(i + 1)) {
            event.take(i)
        } else {
            event
        },
        None => event,
    }
}

/// A selector without modifiers names the event with any modifiers; one that has
/// modifiers names that event alone.
pub open spec fn selects(selector: Seq<char>, event: Seq<char>) -> bool {
    selector == event || (event_base(selector) == selector && selector == event_base(event))
}

/// The samples of the selected event, in order.
pub open spec fn selected(samples: Seq<SampleView>, selector: Seq<char>) -> Seq<SampleView>
    decreases samples.len(),
{
    if samples.len() == 0 {
        seq![]
    } else {
        let before = selected(samples.drop_last(), selector);
        if selects(selector, samples.last().event) {
            before.push(samples.last())
        } else {
            before
        }
    }
}

/// All samples that have frames are of one event, modifiers aside. The others are
/// not counted.
pub open spec fn one_event(samples: Seq<SampleView>) -> bool {
    forall|i: int, j: int|
        0 <= i < samples.len() && 0 <= j < samples.len() && (#[trigger] samples[i]).stack.len() > 0
            && (#[trigger] samples[j]).stack.len() > 0 ==> event_base(samples[i].event)
            == event_base(samples[j].event)
}

/// The event's name in a profile.
pub fn normalize_event_name(event: &str) -> (r: String)
    ensures
        r@ == normalized(event@),
{
    let chars = text::to_chars(event);
    let kept = text::trim_end_char_chars(chars.as_slice(), ':');
    let mut r = String::new();
    for i in 0..kept.len()
        invariant
            r@ == replaced(kept@, ':', '_').take(i as int),
    {
        if kept[i] == ':' {
            r.push('_');
        } else {
            r.push(kept[i]);
        }
        assert(replaced(kept@, ':', '_').take(i + 1) == replaced(kept@, ':', '_').take(
            i as int,
        ).push(replaced(kept@, ':', '_')[i as int]));
    }
    assert(replaced(kept@, ':', '_').take(kept@.len() as int) == replaced(kept@, ':', '_'));
    r
}

/// The unit in which the event's period is counted.
pub fn event_unit_name(event: &str) -> (r: &'static str)
    ensures
        r@ == unit_of(event@),
{
    let chars = text::to_chars(event);
    let cycles = text::to_chars("cycles");
    let instructions = text::to_chars("instructions");
    if text::contains_chars(chars.as_slice(), cycles.as_slice()) {
        "cycles"
    } else if text::contains_chars(chars.as_slice(), instructions.as_slice()) {
        "instructions"
    } else {
        "count"
    }
}

/// The event without its modifiers.
fn base_of(event: &[char]) -> (r: &[char])
    ensures
        r@ == event_base(event@),
{
    let len: usize = event.len();
    let mut colon: Vec<char> = Vec::new();
    colon.push(':');
    assert(colon@ == seq![':']);
    match text::last_position_of(event, colon.as_slice()) {
        None => event,
        Some(i) => {
            let modifier = slice_subrange(event, i + 1, len);
            if modifier.len() == 0 {
                return event;
            }
            let letters = text::to_chars("ukhIGHpPSDWebRX");
            for j in 0..modifier.len()
                invariant
                    modifier@ == event@.skip(i + 1),
                    text::rfind(event@, seq![':']) == Some(i as int),
                    letters@ == modifier_letters(),
                    forall|k: int|
                        0 <= k < j ==> modifier_letters().contains(#[trigger] modifier@[k]),
            {
                proof {
                    text::lemma_find_char(letters@, modifier@[j as int]);
                }
                if text::position_of(letters.as_slice(), modifier[j]).is_none() {
                    return event;
                }
            }
            slice_subrange(event, 0, i)
        },
    }
}

/// Whether `selector` names `event`.
pub fn event_matches(selector: &str, event: &str) -> (r: bool)
    ensures
        r == selects(selector@, event@),
{
    let wanted = text::to_chars(selector);
    let chars = text::to_chars(event);
    let bare = base_of(wanted.as_slice());
    text::same_text(wanted.as_slice(), chars.as_slice()) || (text::same_text(
        wanted.as_slice(),
        bare,
    ) && text::same_text(wanted.as_slice(), base_of(chars.as_slice())))
}

/// Whether all samples that have frames are of one event, modifiers aside.
pub fn is_one_event(samples: &Vec<RawSample>) -> (r: bool)
    ensures
        r == one_event(script::samples_view(samples@)),
{
    let ghost views = script::samples_view(samples@);
    let mut first: usize = 0;
    while first < samples.len() && samples[first].stack.len() == 0
        invariant
            views == script::samples_view(samples@),
            first <= samples@.len(),
            forall|k: int| 0 <= k < first ==> (#[trigger] views[k]).stack.len() == 0,
        decreases samples@.len() - first,
    {
        assert(views[first as int].stack.len() == 0);
        first = first + 1;
    }
    if first == samples.len() {
        return true;
    }
    let chars = text::to_chars(samples[first].event.as_str());
    let wanted = base_of(chars.as_slice());
    assert(views[first as int] == samples@[first as int]@);
    for i in first..samples.len()
        invariant
            views == script::samples_view(samples@),
            first < samples@.len(),
            views[first as int].stack.len() > 0,
            wanted@ == event_base(views[first as int].event),
            forall|k: int|
                0 <= k < i && (#[trigger] views[k]).stack.len() > 0 ==> event_base(views[k].event)
                    == wanted@,
    {
        assert(views[i as int] == samples@[i as int]@);
        if samples[i].stack.len() > 0 {
            let event = text::to_chars(samples[i].event.as_str());
            if !text::same_text(base_of(event.as_slice()), wanted) {
                return false;
            }
        }
    }
    true
}

/// Keeps the samples of the selected event. Without a selector every sample is
/// kept, but samples of several events are refused: their periods must not be
/// added up.
pub fn select_event(samples: Vec<RawSample>, selector: Option<&str>) -> (r: Result<
    Vec<RawSample>,
    EventError,
>)
    ensures
        match selector {
            Some(wanted) => r matches Ok(kept) && script::samples_view(kept@) == selected(
                script::samples_view(samples@),
                wanted@,
            ),
            None => if one_event(script::samples_view(samples@)) {
                r == Ok::<Vec<RawSample>, EventError>(samples)
            } else {
                r == Err::<Vec<RawSample>, EventError>(EventError::MultipleEvents)
            },
        },
{
    let ghost views = script::samples_view(samples@);
    match selector {
        Some(wanted) => {
            let mut kept: Vec<RawSample> = Vec::new();
            assert(script::samples_view(kept@) == selected(views.take(0), wanted@));
            for sample in it: samples
                invariant
                    it.seq() == samples@,
                    views == script::samples_view(samples@),
                    script::samples_view(kept@) == selected(
                        views.take(it.index() as int),
                        wanted@,
                    ),
            {
                let ghost i = it.index() as int;
                let ghost before = script::samples_view(kept@);
                proof {
                    assert(views[i] == sample@);
                    assert(views.take(i + 1).drop_last() == views.take(i));
                }
                if event_matches(wanted, sample.event.as_str()) {
                    kept.push(sample);
                    assert(script::samples_view(kept@) == before.push(sample@));
                }
            }
            assert(views.take(views.len() as int) == views);
            Ok(kept)
        },
        None => {
            if !is_one_event(&samples) {
                return Err(EventError::MultipleEvents);
            }
            Ok(samples)
        },
    }
}

/// A normalized name holds no colon, and normalizing it again changes nothing.
pub proof fn normalized_is_stable(event: Seq<char>)
    ensures
        !normalized(event).contains(':'),
        normalized(normalized(event)) == normalized(event),
{
    let name = normalized(event);
    assert(!name.contains(':'));
    if name.len() > 0 {
        assert(name[name.len() - 1] != ':');
    }
    assert(replaced(name, ':', '_') == name);
}

/// Every sample that is kept is of the selected event, and selecting again
/// keeps all of them.
pub proof fn selection_is_stable(samples: Seq<SampleView>, selector: Seq<char>)
    ensures
        forall|i: int|
            0 <= i < selected(samples, selector).len() ==> selects(
                selector,
                (#[trigger] selected(samples, selector)[i]).event,
            ),
        selected(selected(samples, selector), selector) == selected(samples, selector),
    decreases samples.len(),
{
    if samples.len() > 0 {
        selection_is_stable(samples.drop_last(), selector);
        let before = selected(samples.drop_last(), selector);
        if selects(selector, samples.last().event) {
            assert(before.push(samples.last()).drop_last() == before);
        }
    }
}

/// Selection keeps exactly the samples that the selector names, in their order.
pub proof fn selection_is_a_filter(samples: Seq<SampleView>, selector: Seq<char>)
    ensures
        selected(samples, selector) == samples.filter(
            |sample: SampleView| selects(selector, sample.event),
        ),
    decreases samples.len(),
{
    reveal(Seq::filter);
    if samples.len() > 0 {
        selection_is_a_filter(samples.drop_last(), selector);
    }
}

} // verus!
