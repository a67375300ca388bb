//! What a profile holds of the samples that it is built from, for all samples.

use vstd::prelude::*;

use crate::aggregate;
use crate::aggregate::AggView;
use crate::builder;
use crate::convert;
use crate::convert::ConvertError;
use crate::diagnose_laws;
use crate::distinct;
use crate::event;
use crate::frame::FrameView;
use crate::laws;
use crate::profile::{Line, Mapping};
use crate::script::SampleView;

verus! {

/// The samples with this stack.
pub open spec fn with_stack(samples: Seq<SampleView>, stack: Seq<FrameView>) -> Seq<SampleView> {
    samples.filter(|s: SampleView| s.stack == stack)
}

/// The sum of the periods of some samples.
pub open spec fn sum_of_periods(samples: Seq<SampleView>) -> int {
    samples.fold_left(0int, |sum: int, s: SampleView| sum + s.period)
}

/// What is counted for a stack are the samples that have it: how many they are,
/// the sum of their periods, and the first of them.
pub proof fn samples_are_counted_by_stack(samples: Seq<SampleView>, stack: Seq<FrameView>)
    ensures
        aggregate::count_of(samples, stack) == with_stack(samples, stack).len(),
        aggregate::period_of(samples, stack) == sum_of_periods(with_stack(samples, stack)),
        with_stack(samples, stack).len() > 0 ==> aggregate::first_of(samples, stack) == with_stack(
            samples,
            stack,
        )[0],
        with_stack(samples, stack).len() > 0 ==> aggregate::agg_of(samples, stack) == (AggView {
            samples: with_stack(samples, stack).len() as int,
            period: sum_of_periods(with_stack(samples, stack)),
            comm: with_stack(samples, stack)[0].comm,
            pid: with_stack(samples, stack)[0].pid,
            tid: with_stack(samples, stack)[0].tid,
            event: with_stack(samples, stack)[0].event,
        }),
    decreases samples.len(),
{
    reveal(Seq::filter);
    if samples.len() > 0 {
        let t = samples.drop_last();
        samples_are_counted_by_stack(t, stack);
        let before = with_stack(t, stack);
        if samples.last().stack == stack {
            assert(before.push(samples.last()).drop_last() == before);
        }
        if samples.len() == 1 {
            assert(before.len() == 0);
        }
    }
}

/// The samples that count are those that have frames, and the event of a profile
/// is that of the last of them.
pub proof fn samples_with_frames_count(samples: Seq<SampleView>)
    ensures
        ({
            let kept = samples.filter(|s: SampleView| s.stack.len() > 0);
            &&& aggregate::framed(samples) == kept
            &&& aggregate::event_of(samples) == if kept.len() > 0 {
                kept.last().event
            } else {
                "event"@
            }
        }),
    decreases samples.len(),
{
    reveal(Seq::filter);
    if samples.len() > 0 {
        samples_with_frames_count(samples.drop_last());
    }
}

/// The stacks of a profile are those of its samples that have frames, each once,
/// and further samples do not displace them.
pub proof fn stacks_are_those_of_the_samples(
    samples: Seq<SampleView>,
    more: Seq<SampleView>,
    stack: Seq<FrameView>,
)
    ensures
        aggregate::stacks_of(samples).no_duplicates(),
        aggregate::stacks_of(samples).contains(stack) <==> stack.len() > 0 && exists|i: int|
            0 <= i < samples.len() && (#[trigger] samples[i]).stack == stack,
        aggregate::stacks_of(samples).is_prefix_of(aggregate::stacks_of(samples + more)),
{
    distinct::lemma_distinct(aggregate::recorded_stacks(samples));
    aggregate::lemma_recorded(samples, stack);
    if aggregate::count_of(samples, stack) > 0 {
        let k = aggregate::lemma_first_of(samples, stack);
        assert(samples[k].stack == stack);
    }
    if exists|i: int| 0 <= i < samples.len() && (#[trigger] samples[i]).stack == stack {
        let i = choose|i: int| 0 <= i < samples.len() && (#[trigger] samples[i]).stack == stack;
        laws::lemma_count_positive(samples, i);
    }
    lemma_stacks_grow(samples, more);
}

proof fn lemma_stacks_grow(samples: Seq<SampleView>, more: Seq<SampleView>)
    ensures
        aggregate::stacks_of(samples).is_prefix_of(aggregate::stacks_of(samples + more)),
    decreases more.len(),
{
    if more.len() == 0 {
        assert(samples + more == samples);
    } else {
        let t = more.drop_last();
        lemma_stacks_grow(samples, t);
        assert((samples + more).drop_last() == samples + t);
        let before = aggregate::recorded_stacks(samples + t);
        if more.last().stack.len() > 0 {
            distinct::lemma_distinct(before);
            distinct::lemma_distinct_push(before, more.last().stack);
            distinct::lemma_with(distinct::distinct(before), more.last().stack);
        }
    }
}

/// The values of a sample of the profile are the number of samples with its stack
/// and the sum of their periods, for every stack.
pub proof fn values_count_the_samples_of_a_stack(
    samples: Seq<SampleView>,
    comments: Seq<Seq<char>>,
    i: int,
)
    requires
        builder::buildable(samples, comments),
        0 <= i < aggregate::stacks_of(samples).len(),
    ensures
        ({
            let p = builder::profile_of(samples, comments);
            let same = with_stack(samples, aggregate::stacks_of(samples)[i]);
            &&& p.sample.len() == aggregate::stacks_of(samples).len()
            &&& p.sample[i].value.len() == 2
            &&& p.sample[i].value[0] == same.len()
            &&& p.sample[i].value[1] == sum_of_periods(same)
        }),
{
    let stack = aggregate::stacks_of(samples)[i];
    samples_are_counted_by_stack(samples, stack);
    assert(aggregate::stacks_of(samples).contains(stack));
    aggregate::lemma_recorded(samples, stack);
    assert(samples.take(samples.len() as int) == samples);
    assert(i64::MIN <= aggregate::period_of(samples.take(samples.len() as int), stack) <= i64::MAX);
}

/// Sums are in range exactly where no sum of the periods of a stack leaves the
/// range of an `i64`, over any number of samples from the start.
pub proof fn sums_are_refused_by_their_size(samples: Seq<SampleView>)
    ensures
        aggregate::periods_fit(samples) <==> forall|n: int, stack: Seq<FrameView>|
            0 <= n <= samples.len() && stack.len() > 0 ==> i64::MIN <= #[trigger] sum_of_periods(
                with_stack(samples.take(n), stack),
            ) <= i64::MAX,
{
    if aggregate::periods_fit(samples) {
        assert forall|n: int, stack: Seq<FrameView>|
            0 <= n <= samples.len() && stack.len() > 0 implies i64::MIN
            <= #[trigger] sum_of_periods(with_stack(samples.take(n), stack)) <= i64::MAX by {
            samples_are_counted_by_stack(samples.take(n), stack);
            assert(i64::MIN <= aggregate::period_of(samples.take(n), stack) <= i64::MAX);
        }
    } else {
        let (n, stack) = choose|n: int, stack: Seq<FrameView>|
            0 <= n <= samples.len() && stack.len() > 0 && !(i64::MIN
                <= #[trigger] aggregate::period_of(samples.take(n), stack) <= i64::MAX);
        samples_are_counted_by_stack(samples.take(n), stack);
        assert(!(i64::MIN <= sum_of_periods(with_stack(samples.take(n), stack)) <= i64::MAX));
    }
}

/// A profile is built of all samples of one event, however many they are, up to
/// what can be numbered; what is refused, and why, depends on nothing else.
pub proof fn profiles_are_built_up_to_their_limits(
    samples: Seq<SampleView>,
    comments: Seq<Seq<char>>,
)
    ensures
        ({
            let weight = samples.len() + diagnose_laws::all_frames(samples).len() + comments.len();
            let small = weight <= 0x3fff_ffff_ffff_ff00 && weight < usize::MAX;
            let r = convert::built(samples, comments);
            &&& builder::buildable(samples, comments) <==> r is Ok
            &&& !event::one_event(samples) <==> r == Err::<
                crate::profile::ProfileView,
                ConvertError,
            >(ConvertError::MultipleEvents)
            &&& event::one_event(samples) && small && aggregate::periods_fit(samples)
                ==> r == Ok::<crate::profile::ProfileView, ConvertError>(
                builder::profile_of(samples, comments),
            )
            &&& event::one_event(samples) && !(small && aggregate::periods_fit(samples))
                ==> r == Err::<crate::profile::ProfileView, ConvertError>(ConvertError::OutOfRange)
        }),
{
    diagnose_laws::frames_of_all_samples_are_counted(samples, |name: Seq<char>| true);
}

/// The frames of stacks are those of each, one after the other, and their names
/// are the names of all of them.
pub proof fn frames_are_laid_out_in_order(stacks: Seq<Seq<FrameView>>)
    ensures
        builder::flat(stacks) == stacks.flatten(),
        builder::functions_in(stacks.flatten()) == stacks.flatten().map_values(
            |f: FrameView| f.function,
        ),
    decreases stacks.len(),
{
    if stacks.len() > 0 {
        let t = stacks.drop_last();
        frames_are_laid_out_in_order(t);
        t.lemma_flatten_push(stacks.last());
        assert(t.push(stacks.last()) == stacks);
    }
    assert(builder::functions_in(stacks.flatten()) =~= stacks.flatten().map_values(
        |f: FrameView| f.function,
    ));
}

/// The file of a function is the mapping of the first frame that has its name.
pub proof fn the_first_mapping_names_the_file(frames: Seq<FrameView>, name: Seq<char>)
    ensures
        ({
            let same = frames.filter(|f: FrameView| f.function == name);
            same.len() > 0 ==> builder::first_mapping(frames, name) == same[0].mapping
        }),
    decreases frames.len(),
{
    reveal(Seq::filter);
    if frames.len() > 0 {
        let t = frames.drop_last();
        let keep = |f: FrameView| f.function == name;
        the_first_mapping_names_the_file(t, name);
        let same = t.filter(keep);
        if builder::functions_in(t).contains(name) {
            let i = builder::functions_in(t).index_of(name);
            assert(t[i].function == name);
            lemma_filter_keeps(t, name, i);
            assert(frames.filter(keep)[0] == same[0]);
        } else {
            lemma_filter_empty(t, name);
        }
    }
}

proof fn lemma_filter_keeps(frames: Seq<FrameView>, name: Seq<char>, i: int)
    requires
        0 <= i < frames.len(),
        frames[i].function == name,
    ensures
        frames.filter(|f: FrameView| f.function == name).len() > 0,
    decreases frames.len(),
{
    reveal(Seq::filter);
    if i < frames.len() - 1 {
        lemma_filter_keeps(frames.drop_last(), name, i);
    }
}

proof fn lemma_filter_empty(frames: Seq<FrameView>, name: Seq<char>)
    requires
        !builder::functions_in(frames).contains(name),
    ensures
        frames.filter(|f: FrameView| f.function == name).len() == 0,
    decreases frames.len(),
{
    reveal(Seq::filter);
    if frames.len() > 0 {
        let t = frames.drop_last();
        assert(builder::functions_in(frames)[frames.len() - 1] == frames.last().function);
        if builder::functions_in(t).contains(name) {
            let i = builder::functions_in(t).index_of(name);
            assert(builder::functions_in(frames)[i] == name);
        }
        lemma_filter_empty(t, name);
    }
}

/// The locations of a profile are the frames of its samples, and its functions the
/// names of those frames, each once.
pub proof fn locations_are_the_frames_of_the_samples(
    samples: Seq<SampleView>,
    f: FrameView,
    name: Seq<char>,
)
    ensures
        builder::frames_of(samples).no_duplicates(),
        builder::frames_of(samples).contains(f) <==> exists|i: int|
            0 <= i < samples.len() && (#[trigger] samples[i]).stack.contains(f),
        builder::names_of(samples).no_duplicates(),
        builder::names_of(samples).contains(name) <==> exists|k: int|
            0 <= k < builder::frames_of(samples).len() && (#[trigger] builder::frames_of(
                samples,
            )[k]).function == name,
{
    let stacks = aggregate::stacks_of(samples);
    let frames = builder::frames_of(samples);
    distinct::lemma_distinct(builder::flat(stacks));
    distinct::lemma_distinct(builder::functions_in(frames));
    if builder::flat(stacks).contains(f) {
        let k = lemma_flat_from(stacks, f);
        assert(stacks.contains(stacks[k]));
        stacks_are_those_of_the_samples(samples, seq![], stacks[k]);
        let i = choose|i: int|
            0 <= i < samples.len() && (#[trigger] samples[i]).stack == stacks[k];
        assert(samples[i].stack.contains(f));
    }
    if exists|i: int| 0 <= i < samples.len() && (#[trigger] samples[i]).stack.contains(f) {
        let i = choose|i: int| 0 <= i < samples.len() && (#[trigger] samples[i]).stack.contains(f);
        stacks_are_those_of_the_samples(samples, seq![], samples[i].stack);
        let k = stacks.index_of(samples[i].stack);
        let m = samples[i].stack.index_of(f);
        laws::lemma_flat_has(stacks, k, m);
    }
    if builder::functions_in(frames).contains(name) {
        let k = builder::functions_in(frames).index_of(name);
        assert(frames[k].function == name);
    }
    if exists|k: int| 0 <= k < frames.len() && (#[trigger] frames[k]).function == name {
        let k = choose|k: int| 0 <= k < frames.len() && (#[trigger] frames[k]).function == name;
        assert(builder::functions_in(frames)[k] == name);
    }
}

proof fn lemma_flat_from(stacks: Seq<Seq<FrameView>>, f: FrameView) -> (k: int)
    requires
        builder::flat(stacks).contains(f),
    ensures
        0 <= k < stacks.len(),
        stacks[k].contains(f),
    decreases stacks.len(),
{
    let before = builder::flat(stacks.drop_last());
    let i = builder::flat(stacks).index_of(f);
    if i < before.len() {
        assert(before[i] == f);
        lemma_flat_from(stacks.drop_last(), f)
    } else {
        assert(stacks.last()[i - before.len()] == f);
        stacks.len() - 1
    }
}

/// A profile asks its reader to drop no frame and keep none in particular, and says
/// nothing of time: every number that is not named here or by another law is zero.
/// It has one mapping, for all addresses, and locations and functions are numbered
/// from one, without gaps.
pub proof fn nothing_else_is_said(samples: Seq<SampleView>, comments: Seq<Seq<char>>)
    ensures
        ({
            let p = builder::profile_of(samples, comments);
            &&& p.drop_frames == 0
            &&& p.keep_frames == 0
            &&& p.time_nanos == 0
            &&& p.duration_nanos == 0
            &&& p.period == 0
            &&& p.mapping.len() == 1
            &&& p.mapping[0] == (Mapping {
                id: 1,
                memory_start: 0,
                memory_limit: u64::MAX,
                file_offset: 0,
                filename: p.mapping[0].filename,
                build_id: 0,
                has_functions: true,
                has_filenames: false,
                has_line_numbers: false,
                has_inline_frames: false,
            })
            &&& p.location.len() == builder::frames_of(samples).len()
            &&& p.function.len() == builder::names_of(samples).len()
            &&& p.sample.len() == aggregate::stacks_of(samples).len()
            &&& forall|k: int|
                0 <= k < p.location.len() ==> {
                    let l = #[trigger] p.location[k];
                    &&& l.id == (k + 1) as u64
                    &&& l.mapping_id == 1
                    &&& !l.is_folded
                    &&& l.line == seq![
                        Line { function_id: l.line[0].function_id, line: 0, column: 0 },
                    ]
                }
            &&& forall|j: int|
                0 <= j < p.function.len() ==> (#[trigger] p.function[j]).start_line == 0
                    && p.function[j].id == (j + 1) as u64 && p.function[j].system_name
                    == p.function[j].name
            &&& forall|i: int|
                0 <= i < p.sample.len() ==> {
                    let label = (#[trigger] p.sample[i]).label;
                    &&& label.len() == 4
                    &&& label[0].num == 0 && label[0].num_unit == 0
                    &&& label[1].str == 0 && label[2].str == 0
                    &&& label[3].num == 0 && label[3].num_unit == 0
                    &&& p.sample[i].location_id.len() == aggregate::stacks_of(samples)[i].len()
                }
        }),
{
    let p = builder::profile_of(samples, comments);
    assert forall|k: int| 0 <= k < p.location.len() implies {
        let l = #[trigger] p.location[k];
        &&& l.id == (k + 1) as u64
        &&& l.mapping_id == 1
        &&& !l.is_folded
        &&& l.line == seq![Line { function_id: l.line[0].function_id, line: 0, column: 0 }]
    } by {
        assert(p.location[k].line =~= seq![
            Line { function_id: p.location[k].line[0].function_id, line: 0, column: 0 },
        ]);
    }
}

/// Every function of a profile has the name of a frame, the one at its place.
pub proof fn functions_resolve(samples: Seq<SampleView>, comments: Seq<Seq<char>>, j: int)
    requires
        builder::buildable(samples, comments),
        0 <= j < builder::names_of(samples).len(),
    ensures
        ({
            let p = builder::profile_of(samples, comments);
            &&& laws::has_string(p, p.function[j].name)
            &&& laws::text_at(p, p.function[j].name) == builder::names_of(samples)[j]
        }),
{
    let frames = builder::frames_of(samples);
    let names = builder::names_of(samples);
    distinct::lemma_distinct(builder::functions_in(frames));
    assert(names.contains(names[j]));
    let k = builder::functions_in(frames).index_of(names[j]);
    assert(builder::functions_in(frames)[k] == names[j]);
    laws::locations_resolve(samples, comments, k);
    distinct::lemma_position(names, j);
    builder::lemma_sizes(samples);
    distinct::lemma_distinct(builder::flat(aggregate::stacks_of(samples)));
}

/// The string is said by a sample or by one of its frames.
pub open spec fn is_said(samples: Seq<SampleView>, s: Seq<char>) -> bool {
    exists|i: int|
        0 <= i < samples.len() && {
            ||| (#[trigger] samples[i]).comm == s
            ||| samples[i].event == s
            ||| exists|k: int|
                0 <= k < samples[i].stack.len() && ((#[trigger] samples[i].stack[k]).function == s
                    || samples[i].stack[k].mapping == s)
        }
}

/// A string table holds what the samples and the comments say, the names that every
/// profile has, and nothing else.
pub proof fn string_tables_hold_nothing_else(
    samples: Seq<SampleView>,
    comments: Seq<Seq<char>>,
    s: Seq<char>,
)
    requires
        builder::profile_of(samples, comments).string_table.contains(s),
    ensures
        ({
            ||| s.len() == 0
            ||| s == "samples"@ || s == "count"@ || s == "[perf script]"@
            ||| s == "comm"@ || s == "pid"@ || s == "tid"@ || s == "event"@
            ||| s == event::normalized(aggregate::event_of(samples))
            ||| s == event::unit_of(aggregate::event_of(samples))
            ||| comments.contains(s)
            ||| s == "generated by perf2pprof from perf script stacks"@
            ||| is_said(samples, s)
        }),
{
    let stacks = aggregate::stacks_of(samples);
    let head = builder::head_requests(aggregate::event_of(samples));
    let body = builder::body_requests(samples, stacks);
    let all = builder::requests(samples, comments);
    distinct::lemma_distinct(all);
    let i = all.index_of(s);
    if i < head.len() {
        assert(head[i] == s);
    } else if i < head.len() + body.len() {
        assert(body[i - head.len()] == s);
        assert(body.contains(s));
        assert forall|k: int| 0 <= k < stacks.len() implies aggregate::count_of(
            samples,
            #[trigger] stacks[k],
        ) > 0 by {
            assert(stacks.contains(stacks[k]));
            aggregate::lemma_recorded(samples, stacks[k]);
        }
        lemma_body_is_said(samples, stacks, s);
    } else if i < head.len() + body.len() + comments.len() {
        assert(comments[i - head.len() - body.len()] == s);
    }
}

proof fn lemma_body_is_said(
    samples: Seq<SampleView>,
    stacks: Seq<Seq<FrameView>>,
    s: Seq<char>,
)
    requires
        builder::body_requests(samples, stacks).contains(s),
        forall|k: int|
            0 <= k < stacks.len() ==> aggregate::count_of(samples, #[trigger] stacks[k]) > 0,
    ensures
        is_said(samples, s),
    decreases stacks.len(),
{
    assert(stacks.len() > 0);
    let t = stacks.drop_last();
    let stack = stacks.last();
    let before = builder::body_requests(samples, t);
    let mid = builder::stack_requests(builder::flat(t), stack);
    let agg = aggregate::agg_of(samples, stack);
    let all = builder::body_requests(samples, stacks);
    let i = all.index_of(s);
    assert(stacks[stacks.len() - 1] == stack);
    let first = aggregate::lemma_first_of(samples, stack);
    assert(samples[first].comm == agg.comm && samples[first].event == agg.event);
    if i < before.len() {
        assert(before[i] == s);
        assert forall|k: int| 0 <= k < t.len() implies aggregate::count_of(
            samples,
            #[trigger] t[k],
        ) > 0 by {
            assert(t[k] == stacks[k]);
        }
        lemma_body_is_said(samples, t, s);
    } else if i < before.len() + mid.len() {
        assert(mid[i - before.len()] == s);
        let k = lemma_stack_is_said(builder::flat(t), stack, s);
        assert(samples[first].stack[k] == stack[k]);
    }
}

proof fn lemma_stack_is_said(seen: Seq<FrameView>, stack: Seq<FrameView>, s: Seq<char>) -> (k: int)
    requires
        builder::stack_requests(seen, stack).contains(s),
    ensures
        0 <= k < stack.len(),
        stack[k].function == s || stack[k].mapping == s,
    decreases stack.len(),
{
    assert(stack.len() > 0);
    let t = stack.drop_last();
    let before = builder::stack_requests(seen, t);
    let i = builder::stack_requests(seen, stack).index_of(s);
    if i < before.len() {
        assert(before[i] == s);
        lemma_stack_is_said(seen, t, s)
    } else {
        let more = builder::frame_request(seen + t, stack.last());
        assert(more[i - before.len()] == s);
        stack.len() - 1
    }
}

/// The comment that says where a profile comes from is always the same.
pub proof fn origins_are_named(samples: Seq<SampleView>, comments: Seq<Seq<char>>)
    requires
        builder::buildable(samples, comments),
    ensures
        ({
            let p = builder::profile_of(samples, comments);
            &&& p.comment.len() > 0
            &&& laws::has_string(p, p.comment.last())
            &&& laws::text_at(p, p.comment.last())
                == "generated by perf2pprof from perf script stacks"@
        }),
{
    laws::comments_resolve(samples, comments);
}

/// Different values are told apart and kept in the order in which they first
/// occur.
pub proof fn values_are_numbered_in_order(s: Seq<Seq<char>>, more: Seq<Seq<char>>, x: Seq<char>)
    ensures
        distinct::distinct(s).no_duplicates(),
        distinct::distinct(s).contains(x) <==> s.contains(x),
        distinct::distinct(s).is_prefix_of(distinct::distinct(s + more)),
    decreases more.len(),
{
    distinct::lemma_distinct(s);
    if more.len() == 0 {
        assert(s + more == s);
    } else {
        let t = more.drop_last();
        values_are_numbered_in_order(s, t, x);
        assert((s + more).drop_last() == s + t);
        distinct::lemma_distinct(s + t);
        distinct::lemma_with(distinct::distinct(s + t), more.last());
    }
}

} // verus!
