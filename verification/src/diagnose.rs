//! A health check of recorded stacks: how deep they are, and how many of their
//! frames have a name.

use vstd::prelude::*;

use crate::builder;
use crate::frame;
use crate::frame::{Frame, FrameView};
use crate::script;
use crate::script::{RawSample, SampleView};
use crate::tables;
use crate::text;

verus! {

/// What was counted over all samples.
#[derive(Debug, Clone, Copy, PartialEq, Eq, Structural)]
pub struct Diagnostics {
    pub sample_count: usize,
    pub frame_count: usize,
    /// Samples of at most two frames.
    pub shallow_count: usize,
    pub unknown_frame_count: usize,
    pub raw_address_frame_count: usize,
    /// Frames of the profiled program itself.
    pub app_frame_count: usize,
}

/// A sign that stacks or names are missing.
#[derive(Debug, Clone, Copy, PartialEq, Eq, Structural)]
pub enum BadSign {
    ShallowStacks,
    UnknownFrames,
    RawAddresses,
    NoMainFrames,
}

/// The number of frames of a stack for which `p` holds of the function name.
pub open spec fn stack_count(stack: Seq<FrameView>, p: spec_fn(Seq<char>) -> bool) -> nat
    decreases stack.len(),
{
    if stack.len() == 0 {
        0
    } else {
        stack_count(stack.drop_last(), p) + if p(stack.last().function) {
            1nat
        } else {
            0nat
        }
    }
}

/// The number of frames in all samples for which `p` holds of the name.
pub open spec fn frame_count(samples: Seq<SampleView>, p: spec_fn(Seq<char>) -> bool) -> nat
    decreases samples.len(),
{
    if samples.len() == 0 {
        0
    } else {
        frame_count(samples.drop_last(), p) + stack_count(samples.last().stack, p)
    }
}

/// The number of samples of at most two frames.
pub open spec fn shallow_count(samples: Seq<SampleView>) -> nat
    decreases samples.len(),
{
    if samples.len() == 0 {
        0
    } else {
        shallow_count(samples.drop_last()) + if samples.last().stack.len() <= 2 {
            1nat
        } else {
            0nat
        }
    }
}

/// A name that says that the symbol is unknown.
pub open spec fn unknown_name() -> spec_fn(Seq<char>) -> bool {
    |name: Seq<char>| text::contains(name, "[unknown]"@)
}

/// A name that is an address alone.
pub open spec fn raw_name() -> spec_fn(Seq<char>) -> bool {
    |name: Seq<char>| frame::raw_address_name(name)
}

/// The name of the program's entry.
pub open spec fn main_name() -> spec_fn(Seq<char>) -> bool {
    |name: Seq<char>| name == "main"@
}

/// `count` is more than `percent` percent of `total`.
pub open spec fn exceeds(count: int, total: int, percent: int) -> bool {
    total != 0 && count * 100 > percent * total
}

/// The bad signs of what was counted. Stacks are shallow where they have fewer
/// than four frames on average or more than two fifths of them have at most
/// two, and names are missing where they are for more than a fifth of the frames.
pub open spec fn signs_of(d: Diagnostics) -> Seq<BadSign> {
    let shallow = d.sample_count == 0 || d.frame_count < 4 * d.sample_count || exceeds(
        d.shallow_count as int,
        d.sample_count as int,
        40,
    );
    let unknown = exceeds(d.unknown_frame_count as int, d.frame_count as int, 20);
    let raw = exceeds(d.raw_address_frame_count as int, d.frame_count as int, 20);
    let no_main = d.app_frame_count == 0;
    (if shallow {
        seq![BadSign::ShallowStacks]
    } else {
        seq![]
    }) + (if unknown {
        seq![BadSign::UnknownFrames]
    } else {
        seq![]
    }) + (if raw {
        seq![BadSign::RawAddresses]
    } else {
        seq![]
    }) + (if no_main {
        seq![BadSign::NoMainFrames]
    } else {
        seq![]
    })
}

/// A stack worth showing: it has four frames or more.
pub open spec fn deep(sample: SampleView) -> bool {
    sample.stack.len() >= 4
}

/// A stack that reaches the program's entry.
pub open spec fn reaches_main(stack: Seq<FrameView>) -> bool {
    exists|i: int| 0 <= i < stack.len() && (#[trigger] stack[i]).function == "main"@
}

/// The first three deep samples; only those that reach the program's entry
/// where `main_only` is set.
pub open spec fn first_deep(samples: Seq<SampleView>, main_only: bool) -> Seq<SampleView>
    decreases samples.len(),
{
    if samples.len() == 0 {
        seq![]
    } else {
        let before = first_deep(samples.drop_last(), main_only);
        let last = samples.last();
        if before.len() < 3 && deep(last) && (main_only ==> reaches_main(last.stack)) {
            before.push(last)
        } else {
            before
        }
    }
}

/// A stack on one line, leaf first.
pub open spec fn rendered(stack: Seq<FrameView>) -> Seq<char> {
    text::join(builder::functions_in(stack), " <- "@)
}

/// The stacks that show best how far unwinding got: those that reach the
/// program's entry, or any deep ones where none does.
pub open spec fn useful_stacks(samples: Seq<SampleView>) -> Seq<Seq<char>> {
    let with_main = first_deep(samples, true);
    let shown = if with_main.len() == 0 {
        first_deep(samples, false)
    } else {
        with_main
    };
    Seq::new(shown.len(), |i: int| rendered(shown[i].stack))
}

/// No part of a stack is larger than the stack.
proof fn lemma_stack_count(stack: Seq<FrameView>, p: spec_fn(Seq<char>) -> bool)
    ensures
        stack_count(stack, p) <= stack.len(),
    decreases stack.len(),
{
    if stack.len() > 0 {
        lemma_stack_count(stack.drop_last(), p);
    }
}

/// No count of frames is above the number of frames, and no more samples are
/// shallow than there are.
pub proof fn counts_are_bounded(samples: Seq<SampleView>, p: spec_fn(Seq<char>) -> bool)
    ensures
        frame_count(samples, p) <= builder::total_frames(samples),
        shallow_count(samples) <= samples.len(),
    decreases samples.len(),
{
    if samples.len() > 0 {
        counts_are_bounded(samples.drop_last(), p);
        lemma_stack_count(samples.last().stack, p);
    }
}

/// Counts the frames of one stack: unknown, raw addresses, and the program's.
fn count_stack(stack: &Vec<Frame>) -> (r: (usize, usize, usize))
    ensures
        r.0 == stack_count(frame::stack_view(stack@), unknown_name()),
        r.1 == stack_count(frame::stack_view(stack@), raw_name()),
        r.2 == stack_count(frame::stack_view(stack@), main_name()),
{
    let ghost view = frame::stack_view(stack@);
    let mut unknown: usize = 0;
    let mut raw: usize = 0;
    let mut app: usize = 0;
    for i in 0..stack.len()
        invariant
            view == frame::stack_view(stack@),
            unknown <= i,
            raw <= i,
            app <= i,
            unknown == stack_count(view.take(i as int), unknown_name()),
            raw == stack_count(view.take(i as int), raw_name()),
            app == stack_count(view.take(i as int), main_name()),
    {
        proof {
            assert(view.take(i + 1).drop_last() == view.take(i as int));
            assert(view.take(i + 1).last() == stack@[i as int]@);
        }
        let name = stack[i].function.as_str();
        if frame::is_unknown_frame(name) {
            unknown = unknown + 1;
        }
        if frame::is_raw_address_frame(name) {
            raw = raw + 1;
        }
        if frame::looks_like_application_frame(name) {
            app = app + 1;
        }
    }
    assert(view.take(view.len() as int) == view);
    (unknown, raw, app)
}

/// Counts over all samples.
pub fn diagnose_samples(samples: &Vec<RawSample>) -> (d: Diagnostics)
    requires
        builder::total_frames(script::samples_view(samples@)) <= usize::MAX,
    ensures
        d.sample_count == samples@.len(),
        d.frame_count == builder::total_frames(script::samples_view(samples@)),
        d.shallow_count == shallow_count(script::samples_view(samples@)),
        d.unknown_frame_count == frame_count(script::samples_view(samples@), unknown_name()),
        d.raw_address_frame_count == frame_count(script::samples_view(samples@), raw_name()),
        d.app_frame_count == frame_count(script::samples_view(samples@), main_name()),
{
    let ghost views = script::samples_view(samples@);
    let mut d = Diagnostics {
        sample_count: samples.len(),
        frame_count: 0,
        shallow_count: 0,
        unknown_frame_count: 0,
        raw_address_frame_count: 0,
        app_frame_count: 0,
    };
    for i in 0..samples.len()
        invariant
            views == script::samples_view(samples@),
            builder::total_frames(views) <= usize::MAX,
            d.sample_count == samples@.len(),
            d.frame_count == builder::total_frames(views.take(i as int)),
            d.shallow_count == shallow_count(views.take(i as int)),
            d.unknown_frame_count == frame_count(views.take(i as int), unknown_name()),
            d.raw_address_frame_count == frame_count(views.take(i as int), raw_name()),
            d.app_frame_count == frame_count(views.take(i as int), main_name()),
    {
        let ghost now = views.take(i + 1);
        proof {
            assert(now.drop_last() == views.take(i as int));
            assert(now.last() == samples@[i as int]@);
            builder::lemma_total_frames_prefix(views, i + 1);
            counts_are_bounded(now, unknown_name());
            counts_are_bounded(now, raw_name());
            counts_are_bounded(now, main_name());
        }
        let (unknown, raw, app) = count_stack(&samples[i].stack);
        d.frame_count = d.frame_count + samples[i].stack.len();
        if samples[i].stack.len() <= 2 {
            d.shallow_count = d.shallow_count + 1;
        }
        d.unknown_frame_count = d.unknown_frame_count + unknown;
        d.raw_address_frame_count = d.raw_address_frame_count + raw;
        d.app_frame_count = d.app_frame_count + app;
    }
    assert(views.take(views.len() as int) == views);
    d
}

/// Whether `count` is more than `percent` percent of `total`.
fn is_more_than(count: usize, total: usize, percent: u8) -> (r: bool)
    ensures
        r == exceeds(count as int, total as int, percent as int),
{
    assert(percent * total <= 255 * usize::MAX) by (nonlinear_arith)
        requires
            0 <= percent <= 255,
            0 <= total <= usize::MAX,
    ;
    total != 0 && count as u128 * 100 > percent as u128 * total as u128
}

/// The bad signs of what was counted.
pub fn bad_signs(d: &Diagnostics) -> (r: Vec<BadSign>)
    ensures
        r@ == signs_of(*d),
{
    let mut r: Vec<BadSign> = Vec::new();
    if d.sample_count == 0 || (d.frame_count as u128) < 4 * d.sample_count as u128 || is_more_than(
        d.shallow_count,
        d.sample_count,
        40,
    ) {
        r.push(BadSign::ShallowStacks);
    }
    if is_more_than(d.unknown_frame_count, d.frame_count, 20) {
        r.push(BadSign::UnknownFrames);
    }
    if is_more_than(d.raw_address_frame_count, d.frame_count, 20) {
        r.push(BadSign::RawAddresses);
    }
    if d.app_frame_count == 0 {
        r.push(BadSign::NoMainFrames);
    }
    assert(r@ =~= signs_of(*d));
    r
}

/// What a bad sign may mean.
pub open spec fn sign_text(sign: BadSign) -> Seq<char> {
    match sign {
        BadSign::ShallowStacks => "many samples are shallow; DWARF unwind may have failed or frame data may be incomplete"@,
        BadSign::UnknownFrames => "many frames are [unknown]; debug symbols, build IDs, or mappings may be missing"@,
        BadSign::RawAddresses => "many frames are raw addresses; symbolization may be incomplete"@,
        BadSign::NoMainFrames => "no main frames found; check that perf can find the profiled binary and debug info"@,
    }
}

/// What a bad sign may mean.
pub fn describe_sign(sign: BadSign) -> (r: &'static str)
    ensures
        r@ == sign_text(sign),
{
    match sign {
        BadSign::ShallowStacks => "many samples are shallow; DWARF unwind may have failed or frame data may be incomplete",
        BadSign::UnknownFrames => "many frames are [unknown]; debug symbols, build IDs, or mappings may be missing",
        BadSign::RawAddresses => "many frames are raw addresses; symbolization may be incomplete",
        BadSign::NoMainFrames => "no main frames found; check that perf can find the profiled binary and debug info",
    }
}

/// A stack on one line, leaf first.
fn render_stack(stack: &Vec<Frame>) -> (r: String)
    ensures
        r@ == rendered(frame::stack_view(stack@)),
{
    let ghost names = builder::functions_in(frame::stack_view(stack@));
    let mut r = String::new();
    for i in 0..stack.len()
        invariant
            names == builder::functions_in(frame::stack_view(stack@)),
            r@ == text::join(names.take(i as int), " <- "@),
    {
        let ghost before = r@;
        let ghost now = names.take(i + 1);
        proof {
            assert(now.drop_last() == names.take(i as int));
            assert(now.last() == stack@[i as int].function@);
        }
        if i > 0 {
            r.append(" <- ");
        }
        r.append(stack[i].function.as_str());
        if i == 0 {
            assert(r@ == stack@[0].function@);
        }
    }
    assert(names.take(names.len() as int) == names);
    r
}

/// Whether a stack reaches the program's entry.
fn stack_reaches_main(stack: &Vec<Frame>) -> (r: bool)
    ensures
        r == reaches_main(frame::stack_view(stack@)),
{
    let ghost view = frame::stack_view(stack@);
    for i in 0..stack.len()
        invariant
            view == frame::stack_view(stack@),
            forall|j: int| 0 <= j < i ==> (#[trigger] view[j]).function != "main"@,
    {
        if frame::looks_like_application_frame(stack[i].function.as_str()) {
            assert(view[i as int].function == "main"@);
            return true;
        }
    }
    false
}

/// The positions of the first three deep samples.
fn first_deep_positions(samples: &Vec<RawSample>, main_only: bool) -> (r: Vec<usize>)
    ensures
        r@.len() <= 3,
        r@.len() == first_deep(script::samples_view(samples@), main_only).len(),
        forall|i: int|
            0 <= i < r@.len() ==> (#[trigger] r@[i]) < samples@.len() && samples@[r@[i] as int]@
                == first_deep(script::samples_view(samples@), main_only)[i],
{
    let ghost views = script::samples_view(samples@);
    let mut r: Vec<usize> = Vec::new();
    for i in 0..samples.len()
        invariant
            views == script::samples_view(samples@),
            r@.len() <= 3,
            r@.len() == first_deep(views.take(i as int), main_only).len(),
            forall|k: int|
                0 <= k < r@.len() ==> (#[trigger] r@[k]) < samples@.len() && samples@[r@[k] as int]@
                    == first_deep(views.take(i as int), main_only)[k],
    {
        proof {
            assert(views.take(i + 1).drop_last() == views.take(i as int));
            assert(views.take(i + 1).last() == samples@[i as int]@);
        }
        if r.len() < 3 && samples[i].stack.len() >= 4 && (!main_only || stack_reaches_main(
            &samples[i].stack,
        )) {
            r.push(i);
        }
    }
    assert(views.take(views.len() as int) == views);
    r
}

/// The stacks that show best how far unwinding got, each on one line.
pub fn sample_useful_stacks(samples: &Vec<RawSample>) -> (r: Vec<String>)
    ensures
        tables::strings_view(r@) == useful_stacks(script::samples_view(samples@)),
{
    let ghost views = script::samples_view(samples@);
    let with_main = first_deep_positions(samples, true);
    let any = first_deep_positions(samples, false);
    let shown = if with_main.len() == 0 {
        any
    } else {
        with_main
    };
    let mut r: Vec<String> = Vec::new();
    let ghost expected = useful_stacks(views);
    for i in 0..shown.len()
        invariant
            expected.len() == shown@.len(),
            forall|k: int|
                0 <= k < shown@.len() ==> (#[trigger] shown@[k]) < samples@.len() && rendered(
                    samples@[shown@[k] as int]@.stack,
                ) == expected[k],
            r@.len() == i,
            forall|k: int| 0 <= k < i ==> (#[trigger] r@[k])@ == expected[k],
    {
        let position: usize = shown[i];
        r.push(render_stack(&samples[position].stack));
    }
    assert(tables::strings_view(r@) =~= expected);
    r
}

} // verus!
