//! From samples to a profile.

use vstd::prelude::*;

use crate::aggregate;
use crate::aggregate::AggView;
use crate::distinct;
use crate::event;
use crate::frame;
use crate::frame::{Frame, FrameView};
use crate::profile;
use crate::profile::{
    Function, Label, Line, Location, LocationView, Mapping, Profile, ProfileView, RecordView, Sample,
    ValueType,
};
use crate::script;
use crate::script::{RawSample, SampleView};
use crate::tables;
use crate::tables::{StringTable, Table};

verus! {

/// The frames of all stacks, in order.
pub open spec fn flat(stacks: Seq<Seq<FrameView>>) -> Seq<FrameView>
    decreases stacks.len(),
{
    if stacks.len() == 0 {
        seq![]
    } else {
        flat(stacks.drop_last()) + stacks.last()
    }
}

/// The function names of the frames.
pub open spec fn functions_in(frames: Seq<FrameView>) -> Seq<Seq<char>> {
    Seq::new(frames.len(), |i: int| frames[i].function)
}

/// The mapping of the first frame of this function.
pub open spec fn first_mapping(frames: Seq<FrameView>, function: Seq<char>) -> Seq<char>
    decreases frames.len(),
{
    if frames.len() <= 1 || !functions_in(frames.drop_last()).contains(function) {
        frames.last().mapping
    } else {
        first_mapping(frames.drop_last(), function)
    }
}

/// The different frames of the samples: the locations of their profile.
pub open spec fn frames_of(samples: Seq<SampleView>) -> Seq<FrameView> {
    distinct::distinct(flat(aggregate::stacks_of(samples)))
}

/// The different function names of the samples: the functions of their profile.
pub open spec fn names_of(samples: Seq<SampleView>) -> Seq<Seq<char>> {
    distinct::distinct(functions_in(frames_of(samples)))
}

/// The strings that a frame brings along: its function and its mapping, where
/// the function has not been seen.
pub open spec fn frame_request(seen: Seq<FrameView>, f: FrameView) -> Seq<Seq<char>> {
    if functions_in(seen).contains(f.function) {
        seq![]
    } else {
        seq![f.function, f.mapping]
    }
}

/// The strings that the frames of a stack bring along.
pub open spec fn stack_requests(seen: Seq<FrameView>, stack: Seq<FrameView>) -> Seq<Seq<char>>
    decreases stack.len(),
{
    if stack.len() == 0 {
        seq![]
    } else {
        let before = stack.drop_last();
        stack_requests(seen, before) + frame_request(seen + before, stack.last())
    }
}

/// The strings that the stacks bring along, each with those of its labels.
pub open spec fn body_requests(
    samples: Seq<SampleView>,
    stacks: Seq<Seq<FrameView>>,
) -> Seq<Seq<char>>
    decreases stacks.len(),
{
    if stacks.len() == 0 {
        seq![]
    } else {
        let agg = aggregate::agg_of(samples, stacks.last());
        body_requests(samples, stacks.drop_last()) + stack_requests(
            flat(stacks.drop_last()),
            stacks.last(),
        ) + seq![agg.comm, agg.event]
    }
}

/// The strings that every profile of this event has.
pub open spec fn head_requests(event: Seq<char>) -> Seq<Seq<char>> {
    seq![
        Seq::<char>::empty(),
        "samples"@,
        "count"@,
        event::normalized(event),
        event::unit_of(event),
        "[perf script]"@,
        "comm"@,
        "pid"@,
        "tid"@,
        "event"@,
    ]
}

/// The comment that every profile carries.
pub open spec fn origin_comment() -> Seq<char> {
    "generated by perf2pprof from perf script stacks"@
}

/// Every string of a profile, in the order in which it is first needed.
pub open spec fn requests(samples: Seq<SampleView>, comments: Seq<Seq<char>>) -> Seq<Seq<char>> {
    head_requests(aggregate::event_of(samples)) + body_requests(
        samples,
        aggregate::stacks_of(samples),
    ) + comments + seq![origin_comment()]
}

/// The string table of a profile.
pub open spec fn string_table_of(
    samples: Seq<SampleView>,
    comments: Seq<Seq<char>>,
) -> Seq<Seq<char>> {
    distinct::distinct(requests(samples, comments))
}

/// The number of a string.
pub open spec fn string_id(table: Seq<Seq<char>>, s: Seq<char>) -> i64 {
    table.index_of(s) as i64
}

/// The number of a frame's location. Numbers start at one.
pub open spec fn location_id(frames: Seq<FrameView>, f: FrameView) -> u64 {
    (frames.index_of(f) + 1) as u64
}

/// The number of a function. Numbers start at one.
pub open spec fn function_id(names: Seq<Seq<char>>, name: Seq<char>) -> u64 {
    (names.index_of(name) + 1) as u64
}

/// The location of frame `k`.
pub open spec fn location_record(
    frames: Seq<FrameView>,
    names: Seq<Seq<char>>,
    k: int,
) -> LocationView {
    LocationView {
        id: (k + 1) as u64,
        mapping_id: 1,
        address: frames[k].address,
        line: seq![Line { function_id: function_id(names, frames[k].function), line: 0, column: 0 }],
        is_folded: false,
    }
}

/// The function with name `j`. Its file is the mapping of its first frame.
pub open spec fn function_record(
    table: Seq<Seq<char>>,
    frames: Seq<FrameView>,
    names: Seq<Seq<char>>,
    j: int,
) -> Function {
    Function {
        id: (j + 1) as u64,
        name: string_id(table, names[j]),
        system_name: string_id(table, names[j]),
        filename: string_id(table, first_mapping(frames, names[j])),
        start_line: 0,
    }
}

/// The sample of a stack: its locations from the leaf on, the number of
/// samples and the sum of their periods, and who was sampled.
pub open spec fn sample_record(
    table: Seq<Seq<char>>,
    frames: Seq<FrameView>,
    stack: Seq<FrameView>,
    agg: AggView,
) -> RecordView {
    let count = string_id(table, "count"@);
    RecordView {
        location_id: Seq::new(stack.len(), |i: int| location_id(frames, stack[i])),
        value: seq![agg.samples as i64, agg.period as i64],
        label: seq![
            Label {
                key: string_id(table, "comm"@),
                str: string_id(table, agg.comm),
                num: 0,
                num_unit: 0,
            },
            Label { key: string_id(table, "pid"@), str: 0, num: agg.pid, num_unit: count },
            Label { key: string_id(table, "tid"@), str: 0, num: agg.tid, num_unit: count },
            Label {
                key: string_id(table, "event"@),
                str: string_id(table, agg.event),
                num: 0,
                num_unit: 0,
            },
        ],
    }
}

/// The profile of these samples with these comments.
pub open spec fn profile_of(samples: Seq<SampleView>, comments: Seq<Seq<char>>) -> ProfileView {
    let stacks = aggregate::stacks_of(samples);
    let frames = frames_of(samples);
    let names = names_of(samples);
    let table = string_table_of(samples, comments);
    let event = aggregate::event_of(samples);
    let period_type = ValueType {
        kind: string_id(table, event::normalized(event)),
        unit: string_id(table, event::unit_of(event)),
    };
    ProfileView {
        sample_type: seq![
            ValueType { kind: string_id(table, "samples"@), unit: string_id(table, "count"@) },
            period_type,
        ],
        sample: Seq::new(
            stacks.len(),
            |i: int|
                sample_record(table, frames, stacks[i], aggregate::agg_of(samples, stacks[i])),
        ),
        mapping: seq![
            Mapping {
                id: 1,
                memory_start: 0,
                memory_limit: u64::MAX,
                file_offset: 0,
                filename: string_id(table, "[perf script]"@),
                build_id: 0,
                has_functions: true,
                has_filenames: false,
                has_line_numbers: false,
                has_inline_frames: false,
            },
        ],
        location: Seq::new(frames.len(), |k: int| location_record(frames, names, k)),
        function: Seq::new(names.len(), |j: int| function_record(table, frames, names, j)),
        string_table: table,
        drop_frames: 0,
        keep_frames: 0,
        time_nanos: 0,
        duration_nanos: 0,
        period_type: Some(period_type),
        period: 0,
        comment: Seq::new(comments.len(), |i: int| string_id(table, comments[i])).push(
            string_id(table, origin_comment()),
        ),
        default_sample_type: period_type.kind,
    }
}

/// The number of frames in all samples together.
pub open spec fn total_frames(samples: Seq<SampleView>) -> nat
    decreases samples.len(),
{
    if samples.len() == 0 {
        0
    } else {
        total_frames(samples.drop_last()) + samples.last().stack.len()
    }
}

/// The samples, frames and comments can be numbered.
pub open spec fn countable(samples: Seq<SampleView>, comments: Seq<Seq<char>>) -> bool {
    let weight = samples.len() + total_frames(samples) + comments.len();
    weight <= 0x3fff_ffff_ffff_ff00 && weight < usize::MAX
}

/// Nothing is too large to be numbered, and no sum of periods leaves the range of
/// an `i64`.
pub open spec fn in_range(samples: Seq<SampleView>, comments: Seq<Seq<char>>) -> bool {
    countable(samples, comments) && aggregate::periods_fit(samples)
}

/// A profile of these samples can be built: what is counted is of one event, and
/// everything is in range.
pub open spec fn buildable(samples: Seq<SampleView>, comments: Seq<Seq<char>>) -> bool {
    event::one_event(samples) && in_range(samples, comments)
}

/// What `distinct` keeps of the frames names the same functions.
pub proof fn lemma_functions_in_distinct(frames: Seq<FrameView>, name: Seq<char>)
    ensures
        functions_in(distinct::distinct(frames)).contains(name) <==> functions_in(frames).contains(
            name,
        ),
{
    let d = distinct::distinct(frames);
    distinct::lemma_distinct(frames);
    if functions_in(d).contains(name) {
        let i = functions_in(d).index_of(name);
        assert(d.contains(d[i]));
        let k = frames.index_of(d[i]);
        assert(functions_in(frames)[k] == name);
    }
    if functions_in(frames).contains(name) {
        let i = functions_in(frames).index_of(name);
        assert(frames.contains(frames[i]));
        assert(d.contains(frames[i]));
        let k = d.index_of(frames[i]);
        assert(functions_in(d)[k] == name);
    }
}

/// Further frames do not change the first mapping of a known function.
pub proof fn lemma_first_mapping_stable(
    frames: Seq<FrameView>,
    more: Seq<FrameView>,
    name: Seq<char>,
)
    requires
        frames.is_prefix_of(more),
        functions_in(frames).contains(name),
    ensures
        first_mapping(more, name) == first_mapping(frames, name),
    decreases more.len(),
{
    if frames.len() < more.len() {
        let t = more.drop_last();
        assert(frames.is_prefix_of(t));
        let i = functions_in(frames).index_of(name);
        assert(functions_in(t)[i] == name);
        lemma_first_mapping_stable(frames, t, name);
    } else {
        assert(frames == more);
    }
}

/// The flat list of different stacks is no longer than that of all stacks.
proof fn lemma_flat_distinct_len(stacks: Seq<Seq<FrameView>>)
    ensures
        flat(distinct::distinct(stacks)).len() <= flat(stacks).len(),
    decreases stacks.len(),
{
    if stacks.len() > 0 {
        let t = stacks.drop_last();
        lemma_flat_distinct_len(t);
        let d = distinct::distinct(t);
        if !d.contains(stacks.last()) {
            assert(d.push(stacks.last()).drop_last() == d);
        }
    }
}

proof fn lemma_flat_recorded_len(samples: Seq<SampleView>)
    ensures
        flat(aggregate::recorded_stacks(samples)).len() == total_frames(samples),
    decreases samples.len(),
{
    if samples.len() > 0 {
        lemma_flat_recorded_len(samples.drop_last());
        let before = aggregate::recorded_stacks(samples.drop_last());
        if samples.last().stack.len() > 0 {
            assert(before.push(samples.last().stack).drop_last() == before);
        }
    }
}

proof fn lemma_stack_requests_len(seen: Seq<FrameView>, stack: Seq<FrameView>)
    ensures
        stack_requests(seen, stack).len() <= 2 * stack.len(),
    decreases stack.len(),
{
    if stack.len() > 0 {
        lemma_stack_requests_len(seen, stack.drop_last());
    }
}

proof fn lemma_body_requests_len(samples: Seq<SampleView>, stacks: Seq<Seq<FrameView>>)
    ensures
        body_requests(samples, stacks).len() <= 2 * flat(stacks).len() + 2 * stacks.len(),
    decreases stacks.len(),
{
    if stacks.len() > 0 {
        lemma_body_requests_len(samples, stacks.drop_last());
        lemma_stack_requests_len(flat(stacks.drop_last()), stacks.last());
    }
}

/// The tables of a profile are no larger than its samples allow.
pub proof fn lemma_sizes(samples: Seq<SampleView>)
    ensures
        aggregate::stacks_of(samples).len() <= samples.len(),
        flat(aggregate::stacks_of(samples)).len() <= total_frames(samples),
        body_requests(samples, aggregate::stacks_of(samples)).len() <= 2 * total_frames(samples) + 2
            * samples.len(),
{
    distinct::lemma_distinct(aggregate::recorded_stacks(samples));
    aggregate::lemma_recorded(samples, seq![]);
    lemma_flat_distinct_len(aggregate::recorded_stacks(samples));
    lemma_flat_recorded_len(samples);
    lemma_body_requests_len(samples, aggregate::stacks_of(samples));
}

/// The tables of a profile while it is built.
struct Builder {
    strings: StringTable,
    names: StringTable,
    frames: Table<Frame>,
    functions: Vec<Function>,
    locations: Vec<Location>,
}

impl Builder {
    /// The tables after the strings `reqs` were needed and the frames `seen`
    /// were met.
    spec fn built(&self, reqs: Seq<Seq<char>>, seen: Seq<FrameView>) -> bool {
        let table = self.strings@;
        let frames = self.frames@;
        let names = self.names@;
        &&& self.strings.wf()
        &&& self.names.wf()
        &&& self.frames.wf()
        &&& table == distinct::distinct(reqs)
        &&& frames == distinct::distinct(seen)
        &&& names == distinct::distinct(functions_in(frames))
        &&& self.functions@.len() == names.len()
        &&& forall|j: int|
            0 <= j < names.len() ==> {
                &&& #[trigger] self.functions@[j] == function_record(table, frames, names, j)
                &&& table.contains(names[j])
                &&& table.contains(first_mapping(frames, names[j]))
            }
        &&& self.locations@.len() == frames.len()
        &&& forall|k: int|
            0 <= k < frames.len() ==> (#[trigger] self.locations@[k])@ == location_record(
                frames,
                names,
                k,
            )
    }

    /// The tables kept what they held before.
    spec fn extends(&self, before: &Builder) -> bool {
        &&& before.strings@.is_prefix_of(self.strings@)
        &&& before.frames@.is_prefix_of(self.frames@)
    }

    /// One more string.
    fn string(
        &mut self,
        value: &str,
        Ghost(reqs): Ghost<Seq<Seq<char>>>,
        Ghost(seen): Ghost<Seq<FrameView>>,
    ) -> (id: i64)
        requires
            old(self).built(reqs, seen),
            reqs.len() < i64::MAX,
        ensures
            final(self).built(reqs.push(value@), seen),
            final(self).extends(old(self)),
            final(self).frames == old(self).frames,
            final(self).names == old(self).names,
            final(self).functions == old(self).functions,
            final(self).locations == old(self).locations,
            final(self).strings@.contains(value@),
            id == string_id(final(self).strings@, value@),
    {
        let ghost before = *self;
        proof {
            distinct::lemma_distinct(reqs);
            distinct::lemma_distinct_push(reqs, value@);
            distinct::lemma_with(self.strings@, value@);
        }
        let id: i64 = self.strings.intern(value);
        proof {
            let table = self.strings@;
            assert forall|j: int| 0 <= j < self.names@.len() implies {
                &&& #[trigger] self.functions@[j] == function_record(
                    table,
                    self.frames@,
                    self.names@,
                    j,
                )
                &&& table.contains(self.names@[j])
                &&& table.contains(first_mapping(self.frames@, self.names@[j]))
            } by {
                assert(before.functions@[j] == self.functions@[j]);
                distinct::lemma_position_stable(before.strings@, table, self.names@[j]);
                distinct::lemma_position_stable(
                    before.strings@,
                    table,
                    first_mapping(self.frames@, self.names@[j]),
                );
            }
        }
        id
    }

    /// One more frame; gives the number of its location.
    fn frame(
        &mut self,
        frame: &Frame,
        Ghost(reqs): Ghost<Seq<Seq<char>>>,
        Ghost(seen): Ghost<Seq<FrameView>>,
    ) -> (id: u64)
        requires
            old(self).built(reqs, seen),
            reqs.len() + 2 < i64::MAX,
            seen.len() + 1 < i64::MAX,
            seen.len() + 1 < usize::MAX,
        ensures
            final(self).built(reqs + frame_request(seen, frame@), seen.push(frame@)),
            final(self).extends(old(self)),
            final(self).frames@.contains(frame@),
            id == location_id(final(self).frames@, frame@),
    {
        let ghost f = frame@;
        let ghost start = *self;
        proof {
            distinct::lemma_distinct(seen);
            distinct::lemma_distinct(functions_in(self.frames@));
            distinct::lemma_distinct_push(seen, f);
            distinct::lemma_with(self.frames@, f);
            lemma_functions_in_distinct(seen, f.function);
        }
        if let Some(i) = self.frames.find(frame) {
            proof {
                assert(functions_in(self.frames@)[i as int] == f.function);
                assert(reqs + frame_request(seen, f) == reqs);
            }
            return i as u64 + 1;
        }
        let ghost frames = self.frames@.push(f);
        let ghost old_functions = functions_in(self.frames@);
        proof {
            assert(functions_in(frames) == old_functions.push(f.function));
            distinct::lemma_distinct_push(old_functions, f.function);
            distinct::lemma_with(self.names@, f.function);
        }
        let function: u64 = match self.names.find(frame.function.as_str()) {
            Some(j) => j as u64 + 1,
            None => {
                let name: i64 = self.string(frame.function.as_str(), Ghost(reqs), Ghost(seen));
                let ghost named = *self;
                let filename: i64 = self.string(
                    frame.mapping.as_str(),
                    Ghost(reqs.push(f.function)),
                    Ghost(seen),
                );
                proof {
                    self.strings.lemma_wf();
                    distinct::lemma_position_stable(named.strings@, self.strings@, f.function);
                }
                let id: u64 = self.names.intern(frame.function.as_str()) as u64 + 1;
                self.functions.push(
                    Function { id, name, system_name: name, filename, start_line: 0 },
                );
                id
            },
        };
        let id: u64 = self.frames.len() as u64 + 1;
        let ghost old_names = start.names@;
        proof {
            assert(self.names@ == distinct::with(old_names, f.function));
            assert(reqs + frame_request(seen, f) == if old_functions.contains(f.function) {
                reqs
            } else {
                reqs.push(f.function).push(f.mapping)
            });
        }
        self.locations.push(
            Location {
                id,
                mapping_id: 1,
                address: frame.address,
                line: vec![Line { function_id: function, line: 0, column: 0 }],
                is_folded: false,
            },
        );
        self.frames.add(frame::copy_frame(frame));
        proof {
            let table = self.strings@;
            let names = self.names@;
            assert(self.frames@ == frames);
            assert(frames.drop_last() == start.frames@);
            distinct::lemma_position(frames, frames.len() - 1);
            assert forall|j: int| 0 <= j < names.len() implies {
                &&& #[trigger] self.functions@[j] == function_record(table, frames, names, j)
                &&& table.contains(names[j])
                &&& table.contains(first_mapping(frames, names[j]))
            } by {
                if j < old_names.len() {
                    assert(names[j] == old_names[j]);
                    assert(old_names.contains(old_names[j]));
                    assert(old_functions.contains(names[j]));
                    lemma_first_mapping_stable(start.frames@, frames, names[j]);
                    assert(start.functions@[j] == self.functions@[j]);
                } else {
                    assert(names[j] == f.function);
                    distinct::lemma_position(names, j);
                }
            }
            assert forall|k: int| 0 <= k < frames.len() implies (#[trigger] self.locations@[k])@
                == location_record(frames, names, k) by {
                if k < start.frames@.len() {
                    assert(self.locations@[k] == start.locations@[k]);
                    assert(frames[k] == start.frames@[k]);
                    assert(old_functions[k] == frames[k].function);
                    assert(old_functions.contains(frames[k].function));
                    distinct::lemma_position_stable(old_names, names, frames[k].function);
                } else {
                    assert(self.locations@[k]@.line == location_record(frames, names, k).line);
                }
            }
        }
        id
    }

    /// The frames of a stack; gives the numbers of their locations.
    fn stack(
        &mut self,
        stack: &Vec<Frame>,
        Ghost(reqs): Ghost<Seq<Seq<char>>>,
        Ghost(seen): Ghost<Seq<FrameView>>,
    ) -> (ids: Vec<u64>)
        requires
            old(self).built(reqs, seen),
            reqs.len() + 2 * stack@.len() < i64::MAX,
            seen.len() + stack@.len() < i64::MAX,
            seen.len() + stack@.len() < usize::MAX,
        ensures
            final(self).built(
                reqs + stack_requests(seen, frame::stack_view(stack@)),
                seen + frame::stack_view(stack@),
            ),
            final(self).extends(old(self)),
            ids@ == Seq::new(
                stack@.len(),
                |i: int| location_id(final(self).frames@, frame::stack_view(stack@)[i]),
            ),
            forall|i: int|
                0 <= i < stack@.len() ==> final(self).frames@.contains(
                    #[trigger] frame::stack_view(stack@)[i],
                ),
    {
        let ghost all = frame::stack_view(stack@);
        let ghost start = *self;
        let mut ids: Vec<u64> = Vec::new();
        proof {
            assert(reqs + stack_requests(seen, all.take(0)) == reqs);
            assert(seen + all.take(0) == seen);
        }
        for i in 0..stack.len()
            invariant
                all == frame::stack_view(stack@),
                reqs.len() + 2 * stack@.len() < i64::MAX,
                seen.len() + stack@.len() < i64::MAX,
                seen.len() + stack@.len() < usize::MAX,
                self.built(
                    reqs + stack_requests(seen, all.take(i as int)),
                    seen + all.take(i as int),
                ),
                self.extends(&start),
                ids@.len() == i,
                forall|j: int|
                    0 <= j < i ==> {
                        &&& ids@[j] == location_id(self.frames@, #[trigger] all[j])
                        &&& self.frames@.contains(all[j])
                    },
        {
            let ghost before = *self;
            let ghost now = all.take(i + 1);
            proof {
                assert(now.drop_last() == all.take(i as int));
                assert(now.last() == stack@[i as int]@);
                lemma_stack_requests_len(seen, all.take(i as int));
                assert(reqs + stack_requests(seen, now) == reqs + stack_requests(
                    seen,
                    all.take(i as int),
                ) + frame_request(seen + all.take(i as int), now.last()));
                assert(seen + now == (seen + all.take(i as int)).push(now.last()));
            }
            let id: u64 = self.frame(
                &stack[i],
                Ghost(reqs + stack_requests(seen, all.take(i as int))),
                Ghost(seen + all.take(i as int)),
            );
            ids.push(id);
            proof {
                self.frames.lemma_wf();
                assert forall|j: int| 0 <= j < i + 1 implies {
                    &&& ids@[j] == location_id(self.frames@, #[trigger] all[j])
                    &&& self.frames@.contains(all[j])
                } by {
                    if j < i {
                        distinct::lemma_position_stable(before.frames@, self.frames@, all[j]);
                    }
                }
            }
        }
        proof {
            assert(all.take(all.len() as int) == all);
        }
        ids
    }
}

/// The numbers of the strings that every profile has.
struct Head {
    samples: i64,
    count: i64,
    event: i64,
    unit: i64,
    mapping: i64,
    comm: i64,
    pid: i64,
    tid: i64,
    label_event: i64,
}

impl Head {
    /// The numbers are those that `table` gives.
    spec fn is_in(&self, table: Seq<Seq<char>>, event: Seq<char>) -> bool {
        &&& head_held(table, event)
        &&& self.samples == string_id(table, "samples"@)
        &&& self.count == string_id(table, "count"@)
        &&& self.event == string_id(table, event::normalized(event))
        &&& self.unit == string_id(table, event::unit_of(event))
        &&& self.mapping == string_id(table, "[perf script]"@)
        &&& self.comm == string_id(table, "comm"@)
        &&& self.pid == string_id(table, "pid"@)
        &&& self.tid == string_id(table, "tid"@)
        &&& self.label_event == string_id(table, "event"@)
    }

    /// A longer table gives the same numbers.
    proof fn lemma_stable(&self, table: Seq<Seq<char>>, more: Seq<Seq<char>>, event: Seq<char>)
        requires
            self.is_in(table, event),
            table.is_prefix_of(more),
            more.no_duplicates(),
        ensures
            self.is_in(more, event),
    {
        lemma_head_held(table, event);
        distinct::lemma_position_stable(table, more, Seq::<char>::empty());
        distinct::lemma_position_stable(table, more, "samples"@);
        distinct::lemma_position_stable(table, more, "count"@);
        distinct::lemma_position_stable(table, more, event::normalized(event));
        distinct::lemma_position_stable(table, more, event::unit_of(event));
        distinct::lemma_position_stable(table, more, "[perf script]"@);
        distinct::lemma_position_stable(table, more, "comm"@);
        distinct::lemma_position_stable(table, more, "pid"@);
        distinct::lemma_position_stable(table, more, "tid"@);
        distinct::lemma_position_stable(table, more, "event"@);
        assert forall|s: Seq<char>| #[trigger]
            head_requests(event).contains(s) implies more.contains(s) by {
            assert(table.contains(s));
            let i = table.index_of(s);
            assert(more[i] == s);
        }
    }
}

/// The strings that every profile has are in the table.
spec fn head_held(table: Seq<Seq<char>>, event: Seq<char>) -> bool {
    forall|s: Seq<char>| #[trigger] head_requests(event).contains(s) ==> table.contains(s)
}

proof fn lemma_head_held(table: Seq<Seq<char>>, event: Seq<char>)
    requires
        head_held(table, event),
    ensures
        table.contains(Seq::<char>::empty()),
        table.contains("samples"@),
        table.contains("count"@),
        table.contains(event::normalized(event)),
        table.contains(event::unit_of(event)),
        table.contains("[perf script]"@),
        table.contains("comm"@),
        table.contains("pid"@),
        table.contains("tid"@),
        table.contains("event"@),
{
    let head = head_requests(event);
    assert(head.contains(head[0]));
    assert(head.contains(head[1]));
    assert(head.contains(head[2]));
    assert(head.contains(head[3]));
    assert(head.contains(head[4]));
    assert(head.contains(head[5]));
    assert(head.contains(head[6]));
    assert(head.contains(head[7]));
    assert(head.contains(head[8]));
    assert(head.contains(head[9]));
}

/// The tables of a profile before its first sample.
fn start(event: &str) -> (r: (Builder, Head))
    ensures
        r.0.built(head_requests(event@), seq![]),
        r.1.is_in(r.0.strings@, event@),
{
    let strings = StringTable::new();
    let mut b = Builder {
        strings,
        names: StringTable::empty(),
        frames: Table::new(),
        functions: Vec::new(),
        locations: Vec::new(),
    };
    let ghost none = Seq::<FrameView>::empty();
    let ghost r0 = seq![Seq::<char>::empty()];
    proof {
        let nothing = Seq::<Seq<char>>::empty();
        assert(r0 == nothing.push(Seq::<char>::empty()));
        assert(distinct::distinct(nothing) == nothing);
        distinct::lemma_distinct_push(nothing, Seq::<char>::empty());
        assert(functions_in(none) == Seq::<Seq<char>>::empty());
    }
    let normalized = event::normalize_event_name(event);
    let unit_name = event::event_unit_name(event);
    let ghost r1 = r0.push("samples"@);
    let ghost r2 = r1.push("count"@);
    let ghost r3 = r2.push(event::normalized(event@));
    let ghost r4 = r3.push(event::unit_of(event@));
    let ghost r5 = r4.push("[perf script]"@);
    let ghost r6 = r5.push("comm"@);
    let ghost r7 = r6.push("pid"@);
    let ghost r8 = r7.push("tid"@);
    let ghost r9 = r8.push("event"@);
    let samples: i64 = b.string("samples", Ghost(r0), Ghost(none));
    let count: i64 = b.string("count", Ghost(r1), Ghost(none));
    let event_id: i64 = b.string(normalized.as_str(), Ghost(r2), Ghost(none));
    let unit: i64 = b.string(unit_name, Ghost(r3), Ghost(none));
    let mapping: i64 = b.string("[perf script]", Ghost(r4), Ghost(none));
    let comm: i64 = b.string("comm", Ghost(r5), Ghost(none));
    let pid: i64 = b.string("pid", Ghost(r6), Ghost(none));
    let tid: i64 = b.string("tid", Ghost(r7), Ghost(none));
    let label_event: i64 = b.string("event", Ghost(r8), Ghost(none));
    let head = Head { samples, count, event: event_id, unit, mapping, comm, pid, tid, label_event };
    proof {
        assert(r9 == head_requests(event@));
        distinct::lemma_distinct(r9);
        lemma_prefix_ids(r1, r9, "samples"@);
        lemma_prefix_ids(r2, r9, "count"@);
        lemma_prefix_ids(r3, r9, event::normalized(event@));
        lemma_prefix_ids(r4, r9, event::unit_of(event@));
        lemma_prefix_ids(r5, r9, "[perf script]"@);
        lemma_prefix_ids(r6, r9, "comm"@);
        lemma_prefix_ids(r7, r9, "pid"@);
        lemma_prefix_ids(r8, r9, "tid"@);
    }
    (b, head)
}

/// A string has the same number before and after others are added.
proof fn lemma_prefix_ids(reqs: Seq<Seq<char>>, more: Seq<Seq<char>>, s: Seq<char>)
    requires
        reqs.is_prefix_of(more),
        distinct::distinct(reqs).contains(s),
    ensures
        string_id(distinct::distinct(reqs), s) == string_id(distinct::distinct(more), s),
        distinct::distinct(more).contains(s),
    decreases more.len(),
{
    if reqs.len() < more.len() {
        let t = more.drop_last();
        assert(reqs.is_prefix_of(t));
        lemma_prefix_ids(reqs, t, s);
        distinct::lemma_distinct(t);
        distinct::lemma_distinct(more);
        distinct::lemma_with(distinct::distinct(t), more.last());
        distinct::lemma_position_stable(distinct::distinct(t), distinct::distinct(more), s);
    } else {
        assert(reqs == more);
    }
}

/// What the sample of a stack speaks of is in the tables.
spec fn record_held(
    table: Seq<Seq<char>>,
    frames: Seq<FrameView>,
    stack: Seq<FrameView>,
    agg: AggView,
) -> bool {
    &&& table.contains(agg.comm)
    &&& table.contains(agg.event)
    &&& forall|i: int| 0 <= i < stack.len() ==> frames.contains(#[trigger] stack[i])
}

/// Longer tables give the same sample.
proof fn lemma_record_stable(
    table: Seq<Seq<char>>,
    more: Seq<Seq<char>>,
    frames: Seq<FrameView>,
    more_frames: Seq<FrameView>,
    stack: Seq<FrameView>,
    agg: AggView,
    event: Seq<char>,
)
    requires
        head_held(table, event),
        record_held(table, frames, stack, agg),
        table.is_prefix_of(more),
        more.no_duplicates(),
        frames.is_prefix_of(more_frames),
        more_frames.no_duplicates(),
    ensures
        record_held(more, more_frames, stack, agg),
        sample_record(more, more_frames, stack, agg) == sample_record(table, frames, stack, agg),
{
    lemma_head_held(table, event);
    distinct::lemma_position_stable(table, more, "count"@);
    distinct::lemma_position_stable(table, more, "comm"@);
    distinct::lemma_position_stable(table, more, "pid"@);
    distinct::lemma_position_stable(table, more, "tid"@);
    distinct::lemma_position_stable(table, more, "event"@);
    distinct::lemma_position_stable(table, more, agg.comm);
    distinct::lemma_position_stable(table, more, agg.event);
    assert forall|i: int| 0 <= i < stack.len() implies {
        &&& more_frames.contains(#[trigger] stack[i])
        &&& location_id(more_frames, stack[i]) == location_id(frames, stack[i])
    } by {
        distinct::lemma_position_stable(frames, more_frames, stack[i]);
    }
    assert(sample_record(more, more_frames, stack, agg).location_id == sample_record(
        table,
        frames,
        stack,
        agg,
    ).location_id);
}

/// Whether the samples, frames and comments can be numbered.
fn is_countable(samples: &Vec<RawSample>, comments: &[String]) -> (r: bool)
    ensures
        r == countable(script::samples_view(samples@), tables::strings_view(comments@)),
{
    let ghost views = script::samples_view(samples@);
    let mut room: u64 = 0x3fff_ffff_ffff_ff00;
    let mut space: usize = usize::MAX - 1;
    if samples.len() as u64 > room || samples.len() > space {
        return false;
    }
    room = room - samples.len() as u64;
    space = space - samples.len();
    if comments.len() as u64 > room || comments.len() > space {
        return false;
    }
    room = room - comments.len() as u64;
    space = space - comments.len();
    assert(views.take(0) == Seq::<SampleView>::empty());
    for i in 0..samples.len()
        invariant
            views == script::samples_view(samples@),
            room == 0x3fff_ffff_ffff_ff00 - samples@.len() - comments@.len() - total_frames(
                views.take(i as int),
            ),
            space == usize::MAX - 1 - samples@.len() - comments@.len() - total_frames(
                views.take(i as int),
            ),
    {
        let n: usize = samples[i].stack.len();
        proof {
            assert(views.take(i + 1).drop_last() == views.take(i as int));
            assert(views.take(i + 1).last() == samples@[i as int]@);
            lemma_total_frames_prefix(views, i + 1);
        }
        if n as u64 > room || n > space {
            return false;
        }
        room = room - n as u64;
        space = space - n;
    }
    assert(views.take(views.len() as int) == views);
    true
}

/// Fewer samples have no more frames.
pub proof fn lemma_total_frames_prefix(samples: Seq<SampleView>, n: int)
    requires
        0 <= n <= samples.len(),
    ensures
        total_frames(samples.take(n)) <= total_frames(samples),
    decreases samples.len(),
{
    if n < samples.len() {
        lemma_total_frames_prefix(samples.drop_last(), n);
        assert(samples.drop_last().take(n) == samples.take(n));
    } else {
        assert(samples.take(n) == samples);
    }
}

/// The profile of samples of one event; nothing exactly where something is out of
/// range.
pub(crate) fn checked_profile(samples: Vec<RawSample>, comments: &[String]) -> (r: Option<Profile>)
    requires
        event::one_event(script::samples_view(samples@)),
    ensures
        match r {
            Some(p) => in_range(script::samples_view(samples@), tables::strings_view(comments@))
                && p@ == profile_of(
                script::samples_view(samples@),
                tables::strings_view(comments@),
            ),
            None => !in_range(script::samples_view(samples@), tables::strings_view(comments@)),
        },
{
    let ghost views = script::samples_view(samples@);
    let ghost texts = tables::strings_view(comments@);
    if !is_countable(&samples, comments) {
        return None;
    }
    let a = match aggregate::aggregate(samples) {
        Some(a) => a,
        None => {
            return None;
        },
    };
    let ghost stacks = aggregate::stacks_of(views);
    let ghost event_name = aggregate::event_of(views);
    let ghost head_reqs = head_requests(event_name);
    let (mut b, head) = start(a.event.as_str());
    let mut sample: Vec<Sample> = Vec::new();
    proof {
        lemma_sizes(views);
        assert(stacks.take(0) == Seq::<Seq<FrameView>>::empty());
        assert(head_reqs + body_requests(views, stacks.take(0)) == head_reqs);
    }
    for i in 0..a.totals.len()
        invariant
            a.is_of(views),
            stacks == aggregate::stacks_of(views),
            event_name == aggregate::event_of(views),
            head_reqs == head_requests(event_name),
            stacks.len() <= views.len(),
            flat(stacks).len() <= total_frames(views),
            body_requests(views, stacks).len() <= 2 * total_frames(views) + 2 * views.len(),
            views.len() + total_frames(views) <= 0x3fff_ffff_ffff_ff00,
            views.len() + total_frames(views) < usize::MAX,
            b.built(
                head_reqs + body_requests(views, stacks.take(i as int)),
                flat(stacks.take(i as int)),
            ),
            head.is_in(b.strings@, event_name),
            sample@.len() == i,
            forall|j: int|
                0 <= j < i ==> {
                    &&& sample@[j]@ == sample_record(
                        b.strings@,
                        b.frames@,
                        #[trigger] stacks[j],
                        aggregate::agg_of(views, stacks[j]),
                    )
                    &&& record_held(
                        b.strings@,
                        b.frames@,
                        stacks[j],
                        aggregate::agg_of(views, stacks[j]),
                    )
                },
    {
        let ghost done = stacks.take(i as int);
        let ghost now = stacks.take(i + 1);
        let ghost reqs = head_reqs + body_requests(views, done);
        let ghost seen = flat(done);
        let ghost agg = aggregate::agg_of(views, stacks[i as int]);
        let ghost before = b;
        let ghost old_sample = sample@;
        proof {
            assert(now.drop_last() == done);
            assert(now.last() == stacks[i as int]);
            lemma_flat_prefix(stacks, i + 1);
            lemma_body_prefix(views, stacks, i + 1);
            lemma_body_requests_len(views, done);
            lemma_stack_requests_len(seen, stacks[i as int]);
        }
        let key = a.stacks.get(i);
        let total = &a.totals[i];
        assert(total@ == agg);
        let ids = b.stack(&key.0, Ghost(reqs), Ghost(seen));
        let ghost reqs1 = reqs + stack_requests(seen, stacks[i as int]);
        let ghost seen1 = seen + stacks[i as int];
        let ghost mid = b;
        let comm: i64 = b.string(total.comm.as_str(), Ghost(reqs1), Ghost(seen1));
        let ghost mid2 = b;
        let event: i64 = b.string(total.event.as_str(), Ghost(reqs1.push(agg.comm)), Ghost(seen1));
        proof {
            b.strings.lemma_wf();
            b.frames.lemma_wf();
            assert(reqs1.push(agg.comm).push(agg.event) == head_reqs + body_requests(views, now));
            assert(seen1 == flat(now));
            assert(before.strings@.is_prefix_of(b.strings@)) by {
                lemma_prefix_trans(before.strings@, mid.strings@, mid2.strings@);
                lemma_prefix_trans(before.strings@, mid2.strings@, b.strings@);
            }
            distinct::lemma_position_stable(mid2.strings@, b.strings@, agg.comm);
            head.lemma_stable(before.strings@, b.strings@, event_name);
        }
        sample.push(
            Sample {
                location_id: ids,
                value: vec![total.samples, total.period],
                label: vec![
                    Label { key: head.comm, str: comm, num: 0, num_unit: 0 },
                    Label { key: head.pid, str: 0, num: total.pid, num_unit: head.count },
                    Label { key: head.tid, str: 0, num: total.tid, num_unit: head.count },
                    Label { key: head.label_event, str: event, num: 0, num_unit: 0 },
                ],
            },
        );
        proof {
            assert forall|j: int| 0 <= j < i + 1 implies {
                &&& sample@[j]@ == sample_record(
                    b.strings@,
                    b.frames@,
                    #[trigger] stacks[j],
                    aggregate::agg_of(views, stacks[j]),
                )
                &&& record_held(
                    b.strings@,
                    b.frames@,
                    stacks[j],
                    aggregate::agg_of(views, stacks[j]),
                )
            } by {
                if j < i {
                    assert(sample@[j] == old_sample[j]);
                    lemma_record_stable(
                        before.strings@,
                        b.strings@,
                        before.frames@,
                        b.frames@,
                        stacks[j],
                        aggregate::agg_of(views, stacks[j]),
                        event_name,
                    );
                } else {
                    let record = sample_record(b.strings@, b.frames@, stacks[j], agg);
                    assert(sample@[j]@.location_id == record.location_id);
                    assert(sample@[j]@.value == record.value);
                    assert(sample@[j]@.label == record.label);
                }
            }
        }
    }
    let ghost body = b;
    let ghost reqs = head_reqs + body_requests(views, stacks);
    let mut comment: Vec<i64> = Vec::new();
    proof {
        assert(stacks.take(stacks.len() as int) == stacks);
        assert(reqs + texts.take(0) == reqs);
    }
    for i in 0..comments.len()
        invariant
            texts == tables::strings_view(comments@),
            reqs.len() + comments@.len() < i64::MAX,
            b.built(reqs + texts.take(i as int), flat(stacks)),
            body.strings@.is_prefix_of(b.strings@),
            b.frames == body.frames,
            comment@.len() == i,
            forall|j: int|
                0 <= j < i ==> {
                    &&& comment@[j] == string_id(b.strings@, #[trigger] texts[j])
                    &&& b.strings@.contains(texts[j])
                },
    {
        let ghost before = b;
        assert((reqs + texts.take(i as int)).push(texts[i as int]) == reqs + texts.take(i + 1));
        let id: i64 = b.string(
            comments[i].as_str(),
            Ghost(reqs + texts.take(i as int)),
            Ghost(flat(stacks)),
        );
        comment.push(id);
        proof {
            b.strings.lemma_wf();
            lemma_prefix_trans(body.strings@, before.strings@, b.strings@);
            assert forall|j: int| 0 <= j < i + 1 implies {
                &&& comment@[j] == string_id(b.strings@, #[trigger] texts[j])
                &&& b.strings@.contains(texts[j])
            } by {
                if j < i {
                    distinct::lemma_position_stable(before.strings@, b.strings@, texts[j]);
                }
            }
        }
    }
    let ghost before = b;
    proof {
        assert(texts.take(texts.len() as int) == texts);
        assert((reqs + texts).push(origin_comment()) == requests(views, texts));
    }
    let origin: i64 = b.string(
        "generated by perf2pprof from perf script stacks",
        Ghost(reqs + texts),
        Ghost(flat(stacks)),
    );
    comment.push(origin);
    let ghost table = b.strings@;
    proof {
        b.strings.lemma_wf();
        b.frames.lemma_wf();
        lemma_prefix_trans(body.strings@, before.strings@, b.strings@);
        head.lemma_stable(body.strings@, table, event_name);
        assert forall|j: int| 0 <= j < stacks.len() implies sample@[j]@ == sample_record(
            table,
            b.frames@,
            #[trigger] stacks[j],
            aggregate::agg_of(views, stacks[j]),
        ) by {
            lemma_record_stable(
                body.strings@,
                table,
                body.frames@,
                b.frames@,
                stacks[j],
                aggregate::agg_of(views, stacks[j]),
                event_name,
            );
        }
        assert forall|j: int| 0 <= j < texts.len() implies comment@[j] == string_id(
            table,
            #[trigger] texts[j],
        ) by {
            distinct::lemma_position_stable(before.strings@, table, texts[j]);
        }
    }
    let period_type = ValueType { kind: head.event, unit: head.unit };
    let r = Profile {
        sample_type: vec![ValueType { kind: head.samples, unit: head.count }, period_type],
        sample,
        mapping: vec![
            Mapping {
                id: 1,
                memory_start: 0,
                memory_limit: u64::MAX,
                file_offset: 0,
                filename: head.mapping,
                build_id: 0,
                has_functions: true,
                has_filenames: false,
                has_line_numbers: false,
                has_inline_frames: false,
            },
        ],
        location: b.locations,
        function: b.functions,
        string_table: b.strings.into_values(),
        drop_frames: 0,
        keep_frames: 0,
        time_nanos: 0,
        duration_nanos: 0,
        period_type: Some(period_type),
        period: 0,
        comment,
        default_sample_type: head.event,
    };
    proof {
        let expected = profile_of(views, texts);
        assert(r@.sample_type == expected.sample_type);
        assert(r@.sample == expected.sample);
        assert(r@.mapping == expected.mapping);
        assert(r@.location == expected.location);
        assert(r@.function == expected.function);
        assert(r@.comment == expected.comment);
    }
    Some(r)
}

/// A prefix of a prefix is a prefix.
proof fn lemma_prefix_trans<T>(a: Seq<T>, b: Seq<T>, c: Seq<T>)
    requires
        a.is_prefix_of(b),
        b.is_prefix_of(c),
    ensures
        a.is_prefix_of(c),
{
}

proof fn lemma_flat_prefix(stacks: Seq<Seq<FrameView>>, n: int)
    requires
        0 <= n <= stacks.len(),
    ensures
        flat(stacks.take(n)).len() <= flat(stacks).len(),
    decreases stacks.len(),
{
    if n < stacks.len() {
        lemma_flat_prefix(stacks.drop_last(), n);
        assert(stacks.drop_last().take(n) == stacks.take(n));
    } else {
        assert(stacks.take(n) == stacks);
    }
}

proof fn lemma_body_prefix(samples: Seq<SampleView>, stacks: Seq<Seq<FrameView>>, n: int)
    requires
        0 <= n <= stacks.len(),
    ensures
        body_requests(samples, stacks.take(n)).len() <= body_requests(samples, stacks).len(),
    decreases stacks.len(),
{
    if n < stacks.len() {
        lemma_body_prefix(samples, stacks.drop_last(), n);
        assert(stacks.drop_last().take(n) == stacks.take(n));
    } else {
        assert(stacks.take(n) == stacks);
    }
}

} // verus!
