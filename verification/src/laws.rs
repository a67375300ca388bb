//! What holds of every profile that is built.

use vstd::prelude::*;

use crate::aggregate;
use crate::builder;
use crate::convert;
use crate::distinct;
use crate::event;
use crate::frame::FrameView;
use crate::profile::{ProfileView, RecordView};
use crate::script::SampleView;

verus! {

/// The text that a string number stands for.
pub open spec fn text_at(p: ProfileView, id: i64) -> Seq<char> {
    p.string_table[id as int]
}

/// The number is one of the string table.
pub open spec fn has_string(p: ProfileView, id: i64) -> bool {
    0 <= id < p.string_table.len()
}

/// The sum of value `v` over all samples of a profile.
pub open spec fn value_sum(records: Seq<RecordView>, v: int) -> int
    decreases records.len(),
{
    if records.len() == 0 {
        0
    } else {
        value_sum(records.drop_last(), v) + records.last().value[v]
    }
}

/// The number of samples that have frames.
pub open spec fn framed_count(samples: Seq<SampleView>) -> int
    decreases samples.len(),
{
    if samples.len() == 0 {
        0
    } else {
        framed_count(samples.drop_last()) + if samples.last().stack.len() > 0 {
            1int
        } else {
            0int
        }
    }
}

/// The sum of the periods of the samples that have frames.
pub open spec fn framed_period(samples: Seq<SampleView>) -> int
    decreases samples.len(),
{
    if samples.len() == 0 {
        0
    } else {
        framed_period(samples.drop_last()) + if samples.last().stack.len() > 0 {
            samples.last().period as int
        } else {
            0int
        }
    }
}

/// Repetitions do not change which mapping comes first.
proof fn lemma_first_mapping_distinct(frames: Seq<FrameView>, name: Seq<char>)
    requires
        builder::functions_in(frames).contains(name),
    ensures
        builder::first_mapping(distinct::distinct(frames), name) == builder::first_mapping(
            frames,
            name,
        ),
    decreases frames.len(),
{
    let t = frames.drop_last();
    let x = frames.last();
    let d = distinct::distinct(t);
    let i = builder::functions_in(frames).index_of(name);
    assert(builder::functions_in(frames)[i] == name);
    distinct::lemma_distinct(t);
    builder::lemma_functions_in_distinct(t, name);
    if i < t.len() {
        assert(builder::functions_in(t)[i] == name);
    }
    if builder::functions_in(t).contains(name) {
        lemma_first_mapping_distinct(t, name);
        if !d.contains(x) {
            assert(d.push(x).drop_last() == d);
        }
    } else {
        assert(name == x.function);
        if d.contains(x) {
            let k = t.index_of(x);
            assert(builder::functions_in(t)[k] == name);
        }
        assert(d.push(x).drop_last() == d);
    }
}

/// The frames of a stack bring along every new function, with its mapping.
proof fn lemma_stack_requests_has(seen: Seq<FrameView>, stack: Seq<FrameView>, name: Seq<char>)
    requires
        builder::functions_in(seen + stack).contains(name),
        !builder::functions_in(seen).contains(name),
    ensures
        builder::stack_requests(seen, stack).contains(name),
        builder::stack_requests(seen, stack).contains(builder::first_mapping(seen + stack, name)),
    decreases stack.len(),
{
    let all = seen + stack;
    let i = builder::functions_in(all).index_of(name);
    assert(builder::functions_in(all)[i] == name);
    if i < seen.len() {
        assert(builder::functions_in(seen)[i] == name);
    }
    let before = stack.drop_last();
    let last = stack.last();
    assert(all.drop_last() == seen + before);
    let earlier = builder::stack_requests(seen, before);
    let more = builder::frame_request(seen + before, last);
    if builder::functions_in(seen + before).contains(name) {
        lemma_stack_requests_has(seen, before, name);
        lemma_contains_left(earlier, more, name);
        lemma_contains_left(earlier, more, builder::first_mapping(seen + before, name));
    } else {
        if i < all.len() - 1 {
            assert(builder::functions_in(seen + before)[i] == name);
        }
        assert(all.last() == last);
        assert(more[0] == name);
        assert(more[1] == last.mapping);
        lemma_contains_right(earlier, more, name);
        lemma_contains_right(earlier, more, last.mapping);
    }
}

proof fn lemma_contains_left<T>(a: Seq<T>, b: Seq<T>, x: T)
    requires
        a.contains(x),
    ensures
        (a + b).contains(x),
{
    let i = a.index_of(x);
    assert((a + b)[i] == x);
}

proof fn lemma_contains_right<T>(a: Seq<T>, b: Seq<T>, x: T)
    requires
        b.contains(x),
    ensures
        (a + b).contains(x),
{
    let i = b.index_of(x);
    assert((a + b)[a.len() + i] == x);
}

/// Every function of the stacks is asked for, with its mapping.
proof fn lemma_body_has_function(
    samples: Seq<SampleView>,
    stacks: Seq<Seq<FrameView>>,
    name: Seq<char>,
)
    requires
        builder::functions_in(builder::flat(stacks)).contains(name),
    ensures
        builder::body_requests(samples, stacks).contains(name),
        builder::body_requests(samples, stacks).contains(
            builder::first_mapping(builder::flat(stacks), name),
        ),
    decreases stacks.len(),
{
    assert(stacks.len() > 0);
    let t = stacks.drop_last();
    let seen = builder::flat(t);
    let all = builder::flat(stacks);
    let earlier = builder::body_requests(samples, t);
    let mid = builder::stack_requests(seen, stacks.last());
    let agg = aggregate::agg_of(samples, stacks.last());
    let tail = seq![agg.comm, agg.event];
    let mapping = builder::first_mapping(all, name);
    if builder::functions_in(seen).contains(name) {
        lemma_body_has_function(samples, t, name);
        assert(seen.is_prefix_of(all));
        builder::lemma_first_mapping_stable(seen, all, name);
        lemma_contains_left(earlier, mid, name);
        lemma_contains_left(earlier, mid, mapping);
    } else {
        lemma_stack_requests_has(seen, stacks.last(), name);
        lemma_contains_right(earlier, mid, name);
        lemma_contains_right(earlier, mid, mapping);
    }
    lemma_contains_left(earlier + mid, tail, name);
    lemma_contains_left(earlier + mid, tail, mapping);
}

/// The labels of every stack are asked for.
proof fn lemma_body_has_labels(samples: Seq<SampleView>, stacks: Seq<Seq<FrameView>>, i: int)
    requires
        0 <= i < stacks.len(),
    ensures
        builder::body_requests(samples, stacks).contains(
            aggregate::agg_of(samples, stacks[i]).comm,
        ),
        builder::body_requests(samples, stacks).contains(
            aggregate::agg_of(samples, stacks[i]).event,
        ),
    decreases stacks.len(),
{
    let t = stacks.drop_last();
    let earlier = builder::body_requests(samples, t);
    let mid = builder::stack_requests(builder::flat(t), stacks.last());
    let last = aggregate::agg_of(samples, stacks.last());
    let tail = seq![last.comm, last.event];
    let agg = aggregate::agg_of(samples, stacks[i]);
    if i < t.len() {
        lemma_body_has_labels(samples, t, i);
        lemma_contains_left(earlier, mid, agg.comm);
        lemma_contains_left(earlier, mid, agg.event);
        lemma_contains_left(earlier + mid, tail, agg.comm);
        lemma_contains_left(earlier + mid, tail, agg.event);
    } else {
        assert(tail[0] == agg.comm);
        assert(tail[1] == agg.event);
        lemma_contains_right(earlier + mid, tail, agg.comm);
        lemma_contains_right(earlier + mid, tail, agg.event);
    }
}

/// A string that is asked for has a number in the table, which stands for it.
pub proof fn lemma_requested(
    samples: Seq<SampleView>,
    comments: Seq<Seq<char>>,
    s: Seq<char>,
)
    requires
        builder::buildable(samples, comments),
        builder::requests(samples, comments).contains(s),
    ensures
        ({
            let table = builder::string_table_of(samples, comments);
            let id = builder::string_id(table, s);
            0 <= id < table.len() && table[id as int] == s
        }),
{
    builder::lemma_sizes(samples);
    distinct::lemma_distinct(builder::requests(samples, comments));
    assert(builder::string_table_of(samples, comments).contains(s));
    distinct::lemma_position_of(builder::string_table_of(samples, comments), s);
}

/// The strings of the parts are strings of the whole.
proof fn lemma_requests_parts(samples: Seq<SampleView>, comments: Seq<Seq<char>>, s: Seq<char>)
    requires
        builder::head_requests(aggregate::event_of(samples)).contains(s)
            || builder::body_requests(samples, aggregate::stacks_of(samples)).contains(s)
            || comments.contains(s) || s == builder::origin_comment(),
    ensures
        builder::requests(samples, comments).contains(s),
{
    let head = builder::head_requests(aggregate::event_of(samples));
    let body = builder::body_requests(samples, aggregate::stacks_of(samples));
    let origin = seq![builder::origin_comment()];
    if head.contains(s) {
        lemma_contains_left(head, body, s);
        lemma_contains_left(head + body, comments, s);
        lemma_contains_left(head + body + comments, origin, s);
    } else if body.contains(s) {
        lemma_contains_right(head, body, s);
        lemma_contains_left(head + body, comments, s);
        lemma_contains_left(head + body + comments, origin, s);
    } else if comments.contains(s) {
        lemma_contains_right(head + body, comments, s);
        lemma_contains_left(head + body + comments, origin, s);
    } else {
        assert(origin[0] == s);
        lemma_contains_right(head + body + comments, origin, s);
    }
}

/// The strings that every profile has are in its table.
proof fn lemma_head_strings(samples: Seq<SampleView>, comments: Seq<Seq<char>>, i: int)
    requires
        builder::buildable(samples, comments),
        0 <= i < 10,
    ensures
        ({
            let table = builder::string_table_of(samples, comments);
            let s = builder::head_requests(aggregate::event_of(samples))[i];
            let id = builder::string_id(table, s);
            0 <= id < table.len() && table[id as int] == s
        }),
{
    let head = builder::head_requests(aggregate::event_of(samples));
    assert(head.contains(head[i]));
    lemma_requests_parts(samples, comments, head[i]);
    lemma_requested(samples, comments, head[i]);
}

/// The string table starts with the empty string and repeats nothing.
pub proof fn string_table_is_valid(samples: Seq<SampleView>, comments: Seq<Seq<char>>)
    requires
        builder::buildable(samples, comments),
    ensures
        builder::profile_of(samples, comments).string_table.len() > 0,
        builder::profile_of(samples, comments).string_table[0] == Seq::<char>::empty(),
        builder::profile_of(samples, comments).string_table.no_duplicates(),
{
    let reqs = builder::requests(samples, comments);
    distinct::lemma_distinct(reqs);
    lemma_first_stays(reqs);
    assert(reqs[0] == builder::head_requests(aggregate::event_of(samples))[0]);
}

proof fn lemma_first_stays<T>(s: Seq<T>)
    requires
        s.len() > 0,
    ensures
        distinct::distinct(s).len() > 0,
        distinct::distinct(s)[0] == s[0],
    decreases s.len(),
{
    if s.len() > 1 {
        lemma_first_stays(s.drop_last());
    } else {
        assert(distinct::distinct(s.drop_last()) == Seq::<T>::empty());
    }
}

/// A profile has two sample values: the number of samples, and the sum of the
/// periods of the event, which is what is shown by default.
pub proof fn sample_types_are_named(samples: Seq<SampleView>, comments: Seq<Seq<char>>)
    requires
        builder::buildable(samples, comments),
    ensures
        ({
            let p = builder::profile_of(samples, comments);
            let event = aggregate::event_of(samples);
            &&& p.sample_type.len() == 2
            &&& has_string(p, p.sample_type[0].kind)
            &&& text_at(p, p.sample_type[0].kind) == "samples"@
            &&& has_string(p, p.sample_type[0].unit)
            &&& text_at(p, p.sample_type[0].unit) == "count"@
            &&& has_string(p, p.sample_type[1].kind)
            &&& text_at(p, p.sample_type[1].kind) == event::normalized(event)
            &&& has_string(p, p.sample_type[1].unit)
            &&& text_at(p, p.sample_type[1].unit) == event::unit_of(event)
            &&& p.period_type == Some(p.sample_type[1])
            &&& p.default_sample_type == p.sample_type[1].kind
            &&& forall|i: int|
                0 <= i < p.sample.len() ==> (#[trigger] p.sample[i]).value.len()
                    == p.sample_type.len()
        }),
{
    lemma_head_strings(samples, comments, 1);
    lemma_head_strings(samples, comments, 2);
    lemma_head_strings(samples, comments, 3);
    lemma_head_strings(samples, comments, 4);
}

/// Every frame of a stack is among the frames of all stacks.
pub proof fn lemma_flat_has(stacks: Seq<Seq<FrameView>>, i: int, k: int)
    requires
        0 <= i < stacks.len(),
        0 <= k < stacks[i].len(),
    ensures
        builder::flat(stacks).contains(stacks[i][k]),
    decreases stacks.len(),
{
    let t = stacks.drop_last();
    if i < t.len() {
        lemma_flat_has(t, i, k);
        lemma_contains_left(builder::flat(t), stacks.last(), stacks[i][k]);
    } else {
        assert(stacks.last()[k] == stacks[i][k]);
        lemma_contains_right(builder::flat(t), stacks.last(), stacks[i][k]);
    }
}

/// The location with this number, where locations are numbered from one.
pub open spec fn location_at(p: ProfileView, id: u64) -> crate::profile::LocationView {
    p.location[id - 1]
}

/// The function with this number, where functions are numbered from one.
pub open spec fn function_at(p: ProfileView, id: u64) -> crate::profile::Function {
    p.function[id - 1]
}

/// A number of a location, and of the function of that location, can be looked
/// up: both carry the number under which they stand.
pub open spec fn resolves(p: ProfileView, id: u64) -> bool {
    let location = location_at(p, id);
    let function = function_at(p, location.line[0].function_id);
    &&& 1 <= id <= p.location.len()
    &&& location.id == id
    &&& p.mapping.len() == 1
    &&& location.mapping_id == p.mapping[0].id
    &&& location.line.len() == 1
    &&& 1 <= location.line[0].function_id <= p.function.len()
    &&& function.id == location.line[0].function_id
    &&& has_string(p, function.name)
    &&& has_string(p, function.system_name)
    &&& has_string(p, function.filename)
}

/// The location of every different frame can be looked up, and leads back to
/// the address and the function name of the frame, and to the mapping of the
/// first frame of that function.
pub proof fn locations_resolve(samples: Seq<SampleView>, comments: Seq<Seq<char>>, k: int)
    requires
        builder::buildable(samples, comments),
        0 <= k < builder::frames_of(samples).len(),
    ensures
        ({
            let p = builder::profile_of(samples, comments);
            let f = builder::frames_of(samples)[k];
            let id = builder::location_id(builder::frames_of(samples), f);
            let location = location_at(p, id);
            let function = function_at(p, location.line[0].function_id);
            &&& id == k + 1
            &&& resolves(p, id)
            &&& location.address == f.address
            &&& text_at(p, function.name) == f.function
            &&& text_at(p, function.system_name) == f.function
            &&& text_at(p, function.filename) == builder::first_mapping(
                builder::flat(aggregate::stacks_of(samples)),
                f.function,
            )
        }),
{
    let p = builder::profile_of(samples, comments);
    let stacks = aggregate::stacks_of(samples);
    let all = builder::flat(stacks);
    let frames = builder::frames_of(samples);
    let names = builder::names_of(samples);
    let f = frames[k];
    builder::lemma_sizes(samples);
    distinct::lemma_distinct(all);
    distinct::lemma_position(frames, k);
    assert(builder::functions_in(frames)[k] == f.function);
    assert(builder::functions_in(frames).contains(f.function));
    distinct::lemma_distinct(builder::functions_in(frames));
    assert(names.contains(f.function));
    distinct::lemma_position_of(names, f.function);
    let j = names.index_of(f.function);
    builder::lemma_functions_in_distinct(all, f.function);
    lemma_first_mapping_distinct(all, f.function);
    lemma_body_has_function(samples, stacks, f.function);
    let mapping = builder::first_mapping(all, f.function);
    lemma_requests_parts(samples, comments, f.function);
    lemma_requested(samples, comments, f.function);
    lemma_requests_parts(samples, comments, mapping);
    lemma_requested(samples, comments, mapping);
    assert(p.function[j] == builder::function_record(p.string_table, frames, names, j));
    assert(p.location[k] == builder::location_record(frames, names, k));
}

/// The sample of a stack leads back to the stack: location by location, from
/// the leaf on, to the address and the function name of each frame.
pub proof fn stacks_resolve(samples: Seq<SampleView>, comments: Seq<Seq<char>>, i: int, k: int)
    requires
        builder::buildable(samples, comments),
        0 <= i < aggregate::stacks_of(samples).len(),
        0 <= k < aggregate::stacks_of(samples)[i].len(),
    ensures
        ({
            let p = builder::profile_of(samples, comments);
            let stack = aggregate::stacks_of(samples)[i];
            let id = p.sample[i].location_id[k];
            let location = location_at(p, id);
            &&& p.sample.len() == aggregate::stacks_of(samples).len()
            &&& p.sample[i].location_id.len() == stack.len()
            &&& resolves(p, id)
            &&& location.address == stack[k].address
            &&& text_at(p, function_at(p, location.line[0].function_id).name) == stack[k].function
        }),
{
    let stacks = aggregate::stacks_of(samples);
    let frames = builder::frames_of(samples);
    let f = stacks[i][k];
    lemma_flat_has(stacks, i, k);
    distinct::lemma_distinct(builder::flat(stacks));
    assert(frames.contains(f));
    distinct::lemma_position_of(frames, f);
    locations_resolve(samples, comments, frames.index_of(f));
}

/// The labels of a sample name the command, process, thread and event of the
/// first sample with its stack.
pub proof fn labels_resolve(samples: Seq<SampleView>, comments: Seq<Seq<char>>, i: int)
    requires
        builder::buildable(samples, comments),
        0 <= i < aggregate::stacks_of(samples).len(),
    ensures
        ({
            let p = builder::profile_of(samples, comments);
            let first = aggregate::first_of(samples, aggregate::stacks_of(samples)[i]);
            let label = p.sample[i].label;
            &&& label.len() == 4
            &&& forall|j: int|
                0 <= j < 4 ==> has_string(p, (#[trigger] label[j]).key) && has_string(
                    p,
                    label[j].str,
                ) && has_string(p, label[j].num_unit)
            &&& text_at(p, label[0].key) == "comm"@
            &&& text_at(p, label[0].str) == first.comm
            &&& text_at(p, label[1].key) == "pid"@
            &&& label[1].num == first.pid
            &&& text_at(p, label[1].num_unit) == "count"@
            &&& text_at(p, label[2].key) == "tid"@
            &&& label[2].num == first.tid
            &&& text_at(p, label[2].num_unit) == "count"@
            &&& text_at(p, label[3].key) == "event"@
            &&& text_at(p, label[3].str) == first.event
        }),
{
    let stacks = aggregate::stacks_of(samples);
    let agg = aggregate::agg_of(samples, stacks[i]);
    string_table_is_valid(samples, comments);
    lemma_head_strings(samples, comments, 2);
    lemma_head_strings(samples, comments, 6);
    lemma_head_strings(samples, comments, 7);
    lemma_head_strings(samples, comments, 8);
    lemma_head_strings(samples, comments, 9);
    lemma_body_has_labels(samples, stacks, i);
    lemma_requests_parts(samples, comments, agg.comm);
    lemma_requested(samples, comments, agg.comm);
    lemma_requests_parts(samples, comments, agg.event);
    lemma_requested(samples, comments, agg.event);
}

/// The comments of a profile are those that were asked for, in order, and then
/// the one that says where the profile comes from. The one mapping is named.
pub proof fn comments_resolve(samples: Seq<SampleView>, comments: Seq<Seq<char>>)
    requires
        builder::buildable(samples, comments),
    ensures
        ({
            let p = builder::profile_of(samples, comments);
            &&& p.comment.len() == comments.len() + 1
            &&& forall|i: int|
                0 <= i < comments.len() ==> has_string(p, #[trigger] p.comment[i]) && text_at(
                    p,
                    p.comment[i],
                ) == comments[i]
            &&& has_string(p, p.comment[comments.len() as int])
            &&& text_at(p, p.comment[comments.len() as int]) == builder::origin_comment()
            &&& has_string(p, p.mapping[0].filename)
            &&& text_at(p, p.mapping[0].filename) == "[perf script]"@
        }),
{
    let p = builder::profile_of(samples, comments);
    assert forall|i: int| 0 <= i < comments.len() implies has_string(p, #[trigger] p.comment[i])
        && text_at(p, p.comment[i]) == comments[i] by {
        assert(comments.contains(comments[i]));
        lemma_requests_parts(samples, comments, comments[i]);
        lemma_requested(samples, comments, comments[i]);
    }
    lemma_requests_parts(samples, comments, builder::origin_comment());
    lemma_requested(samples, comments, builder::origin_comment());
    lemma_head_strings(samples, comments, 5);
}

spec fn count_sum(samples: Seq<SampleView>, stacks: Seq<Seq<FrameView>>) -> int
    decreases stacks.len(),
{
    if stacks.len() == 0 {
        0
    } else {
        count_sum(samples, stacks.drop_last()) + aggregate::count_of(samples, stacks.last())
    }
}

spec fn period_sum(samples: Seq<SampleView>, stacks: Seq<Seq<FrameView>>) -> int
    decreases stacks.len(),
{
    if stacks.len() == 0 {
        0
    } else {
        period_sum(samples, stacks.drop_last()) + aggregate::period_of(samples, stacks.last())
    }
}

/// The last sample counts once, with its own stack.
proof fn lemma_sums_step(samples: Seq<SampleView>, stacks: Seq<Seq<FrameView>>)
    requires
        samples.len() > 0,
        stacks.no_duplicates(),
    ensures
        ({
            let t = samples.drop_last();
            let last = samples.last();
            let here = stacks.contains(last.stack);
            &&& count_sum(samples, stacks) == count_sum(t, stacks) + if here {
                1int
            } else {
                0int
            }
            &&& period_sum(samples, stacks) == period_sum(t, stacks) + if here {
                last.period as int
            } else {
                0int
            }
        }),
    decreases stacks.len(),
{
    if stacks.len() > 0 {
        let before = stacks.drop_last();
        lemma_sums_step(samples, before);
        let x = samples.last().stack;
        if before.contains(x) {
            let i = before.index_of(x);
            assert(stacks[i] == x);
        }
        if stacks.contains(x) && x != stacks.last() {
            let i = stacks.index_of(x);
            assert(before[i] == x);
        }
        if x == stacks.last() {
            assert(stacks[stacks.len() - 1] == x);
        }
    }
}

/// Over stacks that include those of the samples, nothing is lost.
proof fn lemma_sums(samples: Seq<SampleView>, stacks: Seq<Seq<FrameView>>)
    requires
        stacks.no_duplicates(),
        forall|stack: Seq<FrameView>| #[trigger] stacks.contains(stack) ==> stack.len() > 0,
        forall|i: int|
            0 <= i < samples.len() && (#[trigger] samples[i]).stack.len() > 0 ==> stacks.contains(
                samples[i].stack,
            ),
    ensures
        count_sum(samples, stacks) == framed_count(samples),
        period_sum(samples, stacks) == framed_period(samples),
    decreases samples.len(),
{
    if samples.len() == 0 {
        lemma_sums_zero(samples, stacks);
    } else {
        let t = samples.drop_last();
        assert forall|i: int| 0 <= i < t.len() && (#[trigger] t[i]).stack.len()
            > 0 implies stacks.contains(t[i].stack) by {
            assert(t[i] == samples[i]);
        }
        lemma_sums(t, stacks);
        lemma_sums_step(samples, stacks);
        assert(samples[samples.len() - 1] == samples.last());
    }
}

proof fn lemma_sums_zero(samples: Seq<SampleView>, stacks: Seq<Seq<FrameView>>)
    requires
        samples.len() == 0,
    ensures
        count_sum(samples, stacks) == 0,
        period_sum(samples, stacks) == 0,
    decreases stacks.len(),
{
    if stacks.len() > 0 {
        lemma_sums_zero(samples, stacks.drop_last());
    }
}

/// Nothing is lost and nothing counted twice: over all samples of the profile,
/// the first values add up to the number of recorded samples that have frames,
/// and the second to the sum of their periods.
pub proof fn values_are_conserved(samples: Seq<SampleView>, comments: Seq<Seq<char>>)
    requires
        builder::buildable(samples, comments),
    ensures
        value_sum(builder::profile_of(samples, comments).sample, 0) == framed_count(samples),
        value_sum(builder::profile_of(samples, comments).sample, 1) == framed_period(samples),
{
    let stacks = aggregate::stacks_of(samples);
    let records = builder::profile_of(samples, comments).sample;
    distinct::lemma_distinct(aggregate::recorded_stacks(samples));
    assert forall|stack: Seq<FrameView>| #[trigger] stacks.contains(stack) implies stack.len()
        > 0 by {
        aggregate::lemma_recorded(samples, stack);
    }
    assert forall|i: int| 0 <= i < samples.len() && (#[trigger] samples[i]).stack.len()
        > 0 implies stacks.contains(samples[i].stack) by {
        lemma_count_positive(samples, i);
        aggregate::lemma_recorded(samples, samples[i].stack);
    }
    lemma_sums(samples, stacks);
    lemma_values(samples, comments, stacks.len() as int);
    assert(records.take(records.len() as int) == records);
    assert(stacks.take(stacks.len() as int) == stacks);
}

pub proof fn lemma_count_positive(samples: Seq<SampleView>, i: int)
    requires
        0 <= i < samples.len(),
    ensures
        aggregate::count_of(samples, samples[i].stack) > 0,
    decreases samples.len(),
{
    if i < samples.len() - 1 {
        lemma_count_positive(samples.drop_last(), i);
    }
}

proof fn lemma_values(samples: Seq<SampleView>, comments: Seq<Seq<char>>, n: int)
    requires
        builder::buildable(samples, comments),
        0 <= n <= aggregate::stacks_of(samples).len(),
    ensures
        value_sum(builder::profile_of(samples, comments).sample.take(n), 0) == count_sum(
            samples,
            aggregate::stacks_of(samples).take(n),
        ),
        value_sum(builder::profile_of(samples, comments).sample.take(n), 1) == period_sum(
            samples,
            aggregate::stacks_of(samples).take(n),
        ),
    decreases n,
{
    if n > 0 {
        let stacks = aggregate::stacks_of(samples);
        let records = builder::profile_of(samples, comments).sample;
        lemma_values(samples, comments, n - 1);
        assert(records.take(n).drop_last() == records.take(n - 1));
        assert(stacks.take(n).drop_last() == stacks.take(n - 1));
        let stack = stacks[n - 1];
        assert(stacks.contains(stack));
        aggregate::lemma_recorded(samples, stack);
        assert(samples.take(samples.len() as int) == samples);
        assert(i64::MIN <= aggregate::period_of(samples.take(samples.len() as int), stack)
            <= i64::MAX);
        let agg = aggregate::agg_of(samples, stack);
        assert(records[n - 1].value == seq![agg.samples as i64, agg.period as i64]);
    }
}

/// No two samples of a profile have the same locations.
pub proof fn stacks_are_merged(samples: Seq<SampleView>, comments: Seq<Seq<char>>, i: int, j: int)
    requires
        builder::buildable(samples, comments),
        0 <= i < j < aggregate::stacks_of(samples).len(),
    ensures
        builder::profile_of(samples, comments).sample[i].location_id != builder::profile_of(
            samples,
            comments,
        ).sample[j].location_id,
{
    let stacks = aggregate::stacks_of(samples);
    let frames = builder::frames_of(samples);
    let p = builder::profile_of(samples, comments);
    distinct::lemma_distinct(aggregate::recorded_stacks(samples));
    distinct::lemma_distinct(builder::flat(stacks));
    builder::lemma_sizes(samples);
    let a = p.sample[i].location_id;
    let b = p.sample[j].location_id;
    if a == b {
        assert(a.len() == stacks[i].len() && b.len() == stacks[j].len());
        assert forall|k: int| 0 <= k < stacks[i].len() implies stacks[i][k] == stacks[j][k] by {
            lemma_flat_has(stacks, i, k);
            lemma_flat_has(stacks, j, k);
            assert(frames.contains(stacks[i][k]));
            assert(frames.contains(stacks[j][k]));
            distinct::lemma_position_of(frames, stacks[i][k]);
            distinct::lemma_position_of(frames, stacks[j][k]);
            assert(a[k] == builder::location_id(frames, stacks[i][k]));
            assert(b[k] == builder::location_id(frames, stacks[j][k]));
        }
        assert(stacks[i] =~= stacks[j]);
    }
}

/// The strings that stacks bring along do not depend on samples without frames.
proof fn lemma_body_framed(samples: Seq<SampleView>, stacks: Seq<Seq<FrameView>>)
    requires
        forall|i: int|
            0 <= i < stacks.len() ==> (#[trigger] stacks[i]).len() > 0 && aggregate::count_of(
                samples,
                stacks[i],
            ) > 0,
    ensures
        builder::body_requests(aggregate::framed(samples), stacks) == builder::body_requests(
            samples,
            stacks,
        ),
    decreases stacks.len(),
{
    if stacks.len() > 0 {
        let t = stacks.drop_last();
        assert forall|i: int| 0 <= i < t.len() implies (#[trigger] t[i]).len() > 0
            && aggregate::count_of(samples, t[i]) > 0 by {
            assert(t[i] == stacks[i]);
        }
        lemma_body_framed(samples, t);
        assert(stacks[stacks.len() - 1] == stacks.last());
        aggregate::lemma_framed(samples, stacks.last());
    }
}

proof fn lemma_framed_frames(samples: Seq<SampleView>)
    ensures
        builder::total_frames(aggregate::framed(samples)) == builder::total_frames(samples),
    decreases samples.len(),
{
    if samples.len() > 0 {
        let t = samples.drop_last();
        lemma_framed_frames(t);
        if samples.last().stack.len() > 0 {
            assert(aggregate::framed(samples).drop_last() == aggregate::framed(t));
        }
    }
}

/// Samples without frames do not matter: the profile is the same with them
/// removed, and it can be built, or is refused, just the same, as long as they are
/// not too many to be numbered.
pub proof fn frameless_samples_do_not_matter(
    samples: Seq<SampleView>,
    comments: Seq<Seq<char>>,
)
    ensures
        builder::profile_of(aggregate::framed(samples), comments) == builder::profile_of(
            samples,
            comments,
        ),
        builder::countable(samples, comments) ==> convert::built(
            aggregate::framed(samples),
            comments,
        ) == convert::built(samples, comments),
{
    let kept = aggregate::framed(samples);
    let stacks = aggregate::stacks_of(samples);
    let any = seq![FrameView { function: seq![], address: 0, mapping: seq![] }];
    aggregate::lemma_framed(samples, any);
    assert(aggregate::stacks_of(kept) == stacks);
    assert forall|i: int| 0 <= i < stacks.len() implies (#[trigger] stacks[i]).len() > 0
        && aggregate::count_of(samples, stacks[i]) > 0 && aggregate::agg_of(kept, stacks[i])
        == aggregate::agg_of(samples, stacks[i]) by {
        assert(stacks.contains(stacks[i]));
        aggregate::lemma_recorded(samples, stacks[i]);
        aggregate::lemma_framed(samples, stacks[i]);
    }
    lemma_body_framed(samples, stacks);
    assert(builder::requests(kept, comments) == builder::requests(samples, comments));
    let p = builder::profile_of(kept, comments);
    let q = builder::profile_of(samples, comments);
    assert(p.sample =~= q.sample);
    assert(p == q);
    aggregate::lemma_framed_fit(samples);
    aggregate::lemma_framed_elements(samples);
    lemma_framed_frames(samples);
    assert(event::one_event(kept) == event::one_event(samples)) by {
        if event::one_event(samples) {
            assert forall|i: int, j: int|
                0 <= i < kept.len() && 0 <= j < kept.len() && (#[trigger] kept[i]).stack.len() > 0
                    && (#[trigger] kept[j]).stack.len() > 0 implies event::event_base(kept[i].event)
                == event::event_base(kept[j].event) by {
                assert(kept.contains(kept[i]) && kept.contains(kept[j]));
                let a = samples.index_of(kept[i]);
                let b = samples.index_of(kept[j]);
                assert(samples[a] == kept[i] && samples[b] == kept[j]);
            }
        }
        if event::one_event(kept) {
            assert forall|i: int, j: int|
                0 <= i < samples.len() && 0 <= j < samples.len() && (
                #[trigger] samples[i]).stack.len() > 0 && (#[trigger] samples[j]).stack.len()
                    > 0 implies event::event_base(samples[i].event) == event::event_base(
                samples[j].event,
            ) by {
                assert(samples.contains(samples[i]) && samples.contains(samples[j]));
                let a = kept.index_of(samples[i]);
                let b = kept.index_of(samples[j]);
                assert(kept.contains(samples[i]) && kept.contains(samples[j]));
                assert(kept[a] == samples[i] && kept[b] == samples[j]);
            }
        }
    }
}

} // verus!
