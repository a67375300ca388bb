//! Samples with the same stack counted together.

use vstd::prelude::*;

use crate::distinct;
use crate::event;
use crate::frame;
use crate::frame::FrameView;
use crate::script;
use crate::script::{RawSample, SampleView};
use crate::tables::{StackKey, Table};

verus! {

/// The samples of one stack: their number, the sum of their periods, and what
/// the first of them says.
#[derive(Debug, Clone)]
pub struct AggSample {
    pub samples: i64,
    pub period: i64,
    pub comm: String,
    pub pid: i64,
    pub tid: i64,
    pub event: String,
}

/// What the samples of one stack come to.
pub struct AggView {
    pub samples: int,
    pub period: int,
    pub comm: Seq<char>,
    pub pid: i64,
    pub tid: i64,
    pub event: Seq<char>,
}

impl View for AggSample {
    type V = AggView;

    open spec fn view(&self) -> AggView {
        AggView {
            samples: self.samples as int,
            period: self.period as int,
            comm: self.comm@,
            pid: self.pid,
            tid: self.tid,
            event: self.event@,
        }
    }
}

/// The stacks of the samples that have frames, in order.
pub open spec fn recorded_stacks(samples: Seq<SampleView>) -> Seq<Seq<FrameView>>
    decreases samples.len(),
{
    if samples.len() == 0 {
        seq![]
    } else {
        let before = recorded_stacks(samples.drop_last());
        if samples.last().stack.len() > 0 {
            before.push(samples.last().stack)
        } else {
            before
        }
    }
}

/// The samples that have frames, in order.
pub open spec fn framed(samples: Seq<SampleView>) -> Seq<SampleView>
    decreases samples.len(),
{
    if samples.len() == 0 {
        seq![]
    } else {
        let before = framed(samples.drop_last());
        if samples.last().stack.len() > 0 {
            before.push(samples.last())
        } else {
            before
        }
    }
}

/// The different stacks, in the order in which they were first recorded.
pub open spec fn stacks_of(samples: Seq<SampleView>) -> Seq<Seq<FrameView>> {
    distinct::distinct(recorded_stacks(samples))
}

/// The number of samples with this stack.
pub open spec fn count_of(samples: Seq<SampleView>, stack: Seq<FrameView>) -> nat
    decreases samples.len(),
{
    if samples.len() == 0 {
        0
    } else {
        let before = count_of(samples.drop_last(), stack);
        if samples.last().stack == stack {
            before + 1
        } else {
            before
        }
    }
}

/// The sum of the periods of the samples with this stack.
pub open spec fn period_of(samples: Seq<SampleView>, stack: Seq<FrameView>) -> int
    decreases samples.len(),
{
    if samples.len() == 0 {
        0
    } else {
        let before = period_of(samples.drop_last(), stack);
        if samples.last().stack == stack {
            before + samples.last().period
        } else {
            before
        }
    }
}

/// The first sample with this stack.
pub open spec fn first_of(samples: Seq<SampleView>, stack: Seq<FrameView>) -> SampleView
    decreases samples.len(),
{
    if samples.len() <= 1 || count_of(samples.drop_last(), stack) == 0 {
        samples.last()
    } else {
        first_of(samples.drop_last(), stack)
    }
}

/// What the samples of one stack come to.
pub open spec fn agg_of(samples: Seq<SampleView>, stack: Seq<FrameView>) -> AggView {
    let first = first_of(samples, stack);
    AggView {
        samples: count_of(samples, stack) as int,
        period: period_of(samples, stack),
        comm: first.comm,
        pid: first.pid,
        tid: first.tid,
        event: first.event,
    }
}

/// The event of the last sample that has frames.
pub open spec fn event_of(samples: Seq<SampleView>) -> Seq<char>
    decreases samples.len(),
{
    if samples.len() == 0 {
        "event"@
    } else if samples.last().stack.len() > 0 {
        samples.last().event
    } else {
        event_of(samples.drop_last())
    }
}

/// No sum of periods leaves the range of an `i64`, at any point on the way.
pub open spec fn periods_fit(samples: Seq<SampleView>) -> bool {
    forall|n: int, stack: Seq<FrameView>|
        0 <= n <= samples.len() && stack.len() > 0 ==> i64::MIN <= #[trigger] period_of(
            samples.take(n),
            stack,
        ) <= i64::MAX
}

/// The stacks of a list of samples, with what the samples of each come to.
pub struct Aggregate {
    pub stacks: Table<StackKey>,
    pub totals: Vec<AggSample>,
    pub event: String,
}

impl Aggregate {
    /// The aggregate of exactly these samples.
    pub open spec fn is_of(&self, samples: Seq<SampleView>) -> bool {
        &&& self.stacks.wf()
        &&& self.stacks@ == stacks_of(samples)
        &&& self.totals@.len() == self.stacks@.len()
        &&& forall|i: int|
            0 <= i < self.totals@.len() ==> (#[trigger] self.totals@[i])@ == agg_of(
                samples,
                self.stacks@[i],
            )
        &&& self.event@ == event_of(samples)
    }
}

/// A stack is among the recorded ones exactly where a sample has it.
pub proof fn lemma_recorded(samples: Seq<SampleView>, stack: Seq<FrameView>)
    ensures
        recorded_stacks(samples).contains(stack) <==> stack.len() > 0 && count_of(samples, stack)
            > 0,
        stacks_of(samples).contains(stack) <==> stack.len() > 0 && count_of(samples, stack) > 0,
        count_of(samples, stack) == 0 ==> period_of(samples, stack) == 0,
        count_of(samples, stack) <= samples.len(),
        recorded_stacks(samples).len() <= samples.len(),
    decreases samples.len(),
{
    distinct::lemma_distinct(recorded_stacks(samples));
    if samples.len() > 0 {
        let t = samples.drop_last();
        lemma_recorded(t, stack);
        let before = recorded_stacks(t);
        let now = recorded_stacks(samples);
        if samples.last().stack.len() > 0 {
            assert(now == before.push(samples.last().stack));
            assert(now[now.len() - 1] == samples.last().stack);
            if before.contains(stack) {
                let i = before.index_of(stack);
                assert(now[i] == stack);
            }
            if now.contains(stack) && stack != samples.last().stack {
                let i = now.index_of(stack);
                assert(before[i] == stack);
            }
        }
    }
}

/// The event of the samples is that of one of them that has frames.
pub proof fn lemma_event_of(samples: Seq<SampleView>, i: int) -> (k: int)
    requires
        0 <= i < samples.len(),
        samples[i].stack.len() > 0,
    ensures
        0 <= k < samples.len(),
        samples[k].stack.len() > 0,
        samples[k].event == event_of(samples),
    decreases samples.len(),
{
    if samples.last().stack.len() > 0 {
        samples.len() - 1
    } else {
        lemma_event_of(samples.drop_last(), i)
    }
}

/// The first sample with a stack is one of the samples, and has that stack.
pub proof fn lemma_first_of(samples: Seq<SampleView>, stack: Seq<FrameView>) -> (k: int)
    requires
        count_of(samples, stack) > 0,
    ensures
        0 <= k < samples.len(),
        samples[k].stack == stack,
        samples[k] == first_of(samples, stack),
    decreases samples.len(),
{
    if samples.len() <= 1 || count_of(samples.drop_last(), stack) == 0 {
        if samples.len() == 1 {
            assert(count_of(samples.drop_last(), stack) == 0);
        }
        samples.len() - 1
    } else {
        lemma_first_of(samples.drop_last(), stack)
    }
}

/// Samples without frames change nothing that is counted.
pub proof fn lemma_framed(samples: Seq<SampleView>, stack: Seq<FrameView>)
    requires
        stack.len() > 0,
    ensures
        recorded_stacks(framed(samples)) == recorded_stacks(samples),
        event_of(framed(samples)) == event_of(samples),
        count_of(framed(samples), stack) == count_of(samples, stack),
        period_of(framed(samples), stack) == period_of(samples, stack),
        count_of(samples, stack) > 0 ==> first_of(framed(samples), stack) == first_of(
            samples,
            stack,
        ),
    decreases samples.len(),
{
    if samples.len() > 0 {
        let t = samples.drop_last();
        lemma_framed(t, stack);
        if samples.last().stack.len() > 0 {
            assert(framed(samples).drop_last() == framed(t));
            if count_of(t, stack) > 0 {
                lemma_first_of(framed(t), stack);
                lemma_first_of(t, stack);
            }
        } else {
            assert(framed(samples) == framed(t));
        }
    }
}

/// The samples that have frames are the ones among the samples that do.
pub proof fn lemma_framed_elements(samples: Seq<SampleView>)
    ensures
        framed(samples).len() <= samples.len(),
        forall|s: SampleView| #[trigger]
            framed(samples).contains(s) <==> samples.contains(s) && s.stack.len() > 0,
    decreases samples.len(),
{
    if samples.len() > 0 {
        let t = samples.drop_last();
        let last = samples.last();
        lemma_framed_elements(t);
        assert forall|s: SampleView| #[trigger]
            framed(samples).contains(s) <==> samples.contains(s) && s.stack.len() > 0 by {
            assert(samples == t.push(last));
            lemma_contains_push(t, last, s);
            lemma_contains_push(framed(t), last, s);
        }
    }
}

proof fn lemma_contains_push<T>(s: Seq<T>, x: T, y: T)
    ensures
        s.push(x).contains(y) <==> s.contains(y) || x == y,
{
    if s.contains(y) {
        let i = s.index_of(y);
        assert(s.push(x)[i] == y);
    }
    if x == y {
        assert(s.push(x)[s.len() as int] == y);
    }
    if s.push(x).contains(y) && x != y {
        let i = s.push(x).index_of(y);
        assert(s[i] == y);
    }
}

/// The first samples that have frames are those among the first samples.
proof fn lemma_framed_prefix(samples: Seq<SampleView>, n: int) -> (m: int)
    requires
        0 <= n <= samples.len(),
    ensures
        0 <= m <= framed(samples).len(),
        framed(samples).take(m) == framed(samples.take(n)),
    decreases samples.len(),
{
    if n == samples.len() {
        assert(samples.take(n) == samples);
        assert(framed(samples).take(framed(samples).len() as int) == framed(samples));
        framed(samples).len() as int
    } else {
        let t = samples.drop_last();
        assert(t.take(n) == samples.take(n));
        let m = lemma_framed_prefix(t, n);
        assert(framed(samples).take(m) == framed(t).take(m));
        m
    }
}

/// The first samples that have frames are those among some first samples.
proof fn lemma_framed_prefix_of(samples: Seq<SampleView>, m: int) -> (n: int)
    requires
        0 <= m <= framed(samples).len(),
    ensures
        0 <= n <= samples.len(),
        framed(samples).take(m) == framed(samples.take(n)),
    decreases samples.len(),
{
    if m == framed(samples).len() {
        assert(samples.take(samples.len() as int) == samples);
        assert(framed(samples).take(m) == framed(samples));
        samples.len() as int
    } else {
        let t = samples.drop_last();
        let n = lemma_framed_prefix_of(t, m);
        assert(t.take(n) == samples.take(n));
        assert(framed(samples).take(m) == framed(t).take(m));
        n
    }
}

/// Samples without frames do not decide whether the sums fit.
pub proof fn lemma_framed_fit(samples: Seq<SampleView>)
    ensures
        periods_fit(framed(samples)) <==> periods_fit(samples),
{
    let kept = framed(samples);
    if periods_fit(samples) {
        assert forall|m: int, stack: Seq<FrameView>|
            0 <= m <= kept.len() && stack.len() > 0 implies i64::MIN <= #[trigger] period_of(
            kept.take(m),
            stack,
        ) <= i64::MAX by {
            let n = lemma_framed_prefix_of(samples, m);
            lemma_framed(samples.take(n), stack);
        }
    }
    if periods_fit(kept) {
        assert forall|n: int, stack: Seq<FrameView>|
            0 <= n <= samples.len() && stack.len() > 0 implies i64::MIN <= #[trigger] period_of(
            samples.take(n),
            stack,
        ) <= i64::MAX by {
            let m = lemma_framed_prefix(samples, n);
            lemma_framed(samples.take(n), stack);
            assert(i64::MIN <= period_of(kept.take(m), stack) <= i64::MAX);
        }
    }
}

/// One more sample changes what its own stack comes to and nothing else.
proof fn lemma_one_more(seen: Seq<SampleView>, sample: SampleView, stack: Seq<FrameView>)
    ensures
        ({
            let now = seen.push(sample);
            &&& stack != sample.stack ==> count_of(now, stack) == count_of(seen, stack)
            &&& stack != sample.stack ==> period_of(now, stack) == period_of(seen, stack)
            &&& stack == sample.stack ==> count_of(now, stack) == count_of(seen, stack) + 1
            &&& stack == sample.stack ==> period_of(now, stack) == period_of(seen, stack)
                + sample.period
            &&& count_of(seen, stack) > 0 ==> first_of(now, stack) == first_of(seen, stack)
            &&& count_of(seen, stack) == 0 ==> first_of(now, stack) == sample
        }),
{
    assert(seen.push(sample).drop_last() == seen);
}

/// Adds one sample. Gives `false` exactly where the sum of periods for its stack
/// would not fit.
fn absorb(a: &mut Aggregate, sample: RawSample, Ghost(seen): Ghost<Seq<SampleView>>) -> (r: bool)
    requires
        old(a).is_of(seen),
        seen.len() < i64::MAX,
        seen.len() < usize::MAX,
    ensures
        r <==> (sample@.stack.len() == 0 || i64::MIN <= period_of(
            seen.push(sample@),
            sample@.stack,
        ) <= i64::MAX),
        r ==> final(a).is_of(seen.push(sample@)),
{
    let ghost view = sample@;
    let ghost now = seen.push(view);
    let ghost old_stacks = a.stacks@;
    let ghost old_totals = a.totals@;
    proof {
        assert(now.drop_last() == seen);
        assert(now.last() == view);
        lemma_recorded(seen, view.stack);
        lemma_one_more(seen, view, view.stack);
        distinct::lemma_distinct(recorded_stacks(seen));
        if view.stack.len() > 0 {
            distinct::lemma_distinct_push(recorded_stacks(seen), view.stack);
        }
        assert forall|i: int| 0 <= i < old_stacks.len() && old_stacks[i] != view.stack implies agg_of(
            now,
            #[trigger] old_stacks[i],
        ) == agg_of(seen, old_stacks[i]) by {
            assert(old_stacks.contains(old_stacks[i]));
            lemma_recorded(seen, old_stacks[i]);
            lemma_one_more(seen, view, old_stacks[i]);
        }
    }
    if sample.stack.len() == 0 {
        proof {
            assert forall|i: int| 0 <= i < a.totals@.len() implies (#[trigger] a.totals@[i])@
                == agg_of(now, a.stacks@[i]) by {
                assert(old_stacks.contains(old_stacks[i]));
                lemma_recorded(seen, old_stacks[i]);
            }
        }
        return true;
    }
    let key = StackKey(sample.stack);
    match a.stacks.find(&key) {
        Some(i) => {
            proof {
                lemma_recorded(seen, view.stack);
                assert(a.totals@[i as int]@ == agg_of(seen, view.stack));
            }
            let period: i64 = match a.totals[i].period.checked_add(sample.period) {
                Some(v) => v,
                None => {
                    return false;
                },
            };
            let slot = &mut a.totals[i];
            slot.samples = slot.samples + 1;
            slot.period = period;
            a.event = sample.event;
            proof {
                a.stacks.lemma_wf();
                assert forall|j: int| 0 <= j < a.totals@.len() implies (#[trigger] a.totals@[j])@
                    == agg_of(now, a.stacks@[j]) by {
                    if j != i {
                        assert(a.totals@[j] == old_totals[j]);
                        assert(old_stacks[j] != view.stack);
                    }
                }
            }
            true
        },
        None => {
            let event = sample.event.clone();
            a.stacks.add(key);
            a.totals.push(
                AggSample {
                    samples: 1,
                    period: sample.period,
                    comm: sample.comm,
                    pid: sample.pid,
                    tid: sample.tid,
                    event: sample.event,
                },
            );
            a.event = event;
            proof {
                assert forall|j: int| 0 <= j < a.totals@.len() implies (#[trigger] a.totals@[j])@
                    == agg_of(now, a.stacks@[j]) by {
                    if j < old_totals.len() {
                        assert(a.totals@[j] == old_totals[j]);
                        assert(a.stacks@[j] == old_stacks[j]);
                        assert(old_stacks.contains(old_stacks[j]));
                        assert(old_stacks[j] != view.stack);
                    }
                }
            }
            true
        },
    }
}

/// Counts samples of one event with the same stack together. Gives nothing exactly
/// where a sum of periods does not fit.
pub fn aggregate(samples: Vec<RawSample>) -> (r: Option<Aggregate>)
    requires
        event::one_event(script::samples_view(samples@)),
        samples@.len() <= i64::MAX,
    ensures
        match r {
            Some(a) => periods_fit(script::samples_view(samples@)) && a.is_of(
                script::samples_view(samples@),
            ),
            None => !periods_fit(script::samples_view(samples@)),
        },
{
    let ghost all = samples@;
    let ghost views = script::samples_view(all);
    let count: usize = samples.len();
    let mut a = Aggregate {
        stacks: Table::new(),
        totals: Vec::new(),
        event: String::from_str("event"),
    };
    assert(views.take(0) == Seq::<SampleView>::empty());
    for sample in it: samples
        invariant
            it.seq() == all,
            views == script::samples_view(all),
            count == all.len(),
            all.len() <= i64::MAX,
            a.is_of(views.take(it.index() as int)),
            forall|n: int, stack: Seq<FrameView>|
                0 <= n <= it.index() && stack.len() > 0 ==> i64::MIN <= #[trigger] period_of(
                    views.take(n),
                    stack,
                ) <= i64::MAX,
    {
        let ghost i = it.index() as int;
        let ghost seen = views.take(i);
        let ghost view = sample@;
        proof {
            assert(views[i] == view);
            assert(views.take(i + 1) == seen.push(view));
        }
        if !absorb(&mut a, sample, Ghost(seen)) {
            assert(!(i64::MIN <= period_of(views.take(i + 1), view.stack) <= i64::MAX));
            return None;
        }
        assert forall|n: int, stack: Seq<FrameView>|
            0 <= n <= i + 1 && stack.len() > 0 implies i64::MIN <= #[trigger] period_of(
            views.take(n),
            stack,
        ) <= i64::MAX by {
            if n == i + 1 {
                lemma_one_more(seen, view, stack);
                assert(i64::MIN <= period_of(views.take(i), stack) <= i64::MAX);
            }
        }
    }
    assert(views.take(views.len() as int) == views);
    Some(a)
}

} // verus!
