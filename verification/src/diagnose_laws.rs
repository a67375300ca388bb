//! What the health check counts and shows, for all samples.

use vstd::prelude::*;

use crate::builder;
use crate::diagnose;
use crate::diagnose::{BadSign, Diagnostics};
use crate::frame;
use crate::frame::FrameView;
use crate::script::SampleView;
use crate::text;

verus! {

/// The frames of all samples, one after the other.
pub open spec fn all_frames(samples: Seq<SampleView>) -> Seq<FrameView> {
    samples.map_values(|s: SampleView| s.stack).flatten()
}

/// A frame of a stack is counted wherever it stands: the count is the number of
/// frames for whose name `p` holds.
pub proof fn frames_of_a_stack_are_counted(
    stack: Seq<FrameView>,
    p: spec_fn(Seq<char>) -> bool,
)
    ensures
        diagnose::stack_count(stack, p) == stack.filter(|f: FrameView| p(f.function)).len(),
        (forall|name: Seq<char>| #[trigger] p(name)) ==> diagnose::stack_count(stack, p)
            == stack.len(),
        forall|i: int|
            0 <= i < stack.len() && p((#[trigger] stack[i]).function) ==> diagnose::stack_count(
                stack,
                p,
            ) > 0,
    decreases stack.len(),
{
    reveal(Seq::filter);
    if stack.len() > 0 {
        let t = stack.drop_last();
        frames_of_a_stack_are_counted(t, p);
        assert forall|i: int| 0 <= i < stack.len() && p(
            (#[trigger] stack[i]).function,
        ) implies diagnose::stack_count(stack, p) > 0 by {
            if i < t.len() {
                assert(t[i] == stack[i]);
            }
        }
    }
}

/// Every frame of every sample is counted once: the count over all samples is the
/// number of their frames for whose name `p` holds.
pub proof fn frames_of_all_samples_are_counted(
    samples: Seq<SampleView>,
    p: spec_fn(Seq<char>) -> bool,
)
    ensures
        diagnose::frame_count(samples, p) == all_frames(samples).filter(
            |f: FrameView| p(f.function),
        ).len(),
        builder::total_frames(samples) == all_frames(samples).len(),
    decreases samples.len(),
{
    let stacks = samples.map_values(|s: SampleView| s.stack);
    let keep = |f: FrameView| p(f.function);
    reveal(Seq::filter);
    if samples.len() > 0 {
        let t = samples.drop_last();
        frames_of_all_samples_are_counted(t, p);
        frames_of_a_stack_are_counted(samples.last().stack, p);
        let before = t.map_values(|s: SampleView| s.stack);
        assert(stacks =~= before.push(samples.last().stack));
        before.lemma_flatten_push(samples.last().stack);
        Seq::filter_distributes_over_add(before.flatten(), samples.last().stack, keep);
    } else {
        assert(stacks =~= Seq::<Seq<FrameView>>::empty());
    }
}

/// Names are counted for what they hold: those with `[unknown]` in them, those
/// that are an address alone, and those that are `main`.
pub proof fn names_are_told_apart(name: Seq<char>)
    ensures
        diagnose::unknown_name()(name) == text::contains(name, "[unknown]"@),
        diagnose::raw_name()(name) == frame::raw_address_name(name),
        diagnose::main_name()(name) == (name == "main"@),
{
}

/// A sample is shallow exactly where it has at most two frames.
pub proof fn shallow_samples_are_counted(samples: Seq<SampleView>)
    ensures
        diagnose::shallow_count(samples) == samples.filter(
            |s: SampleView| s.stack.len() <= 2,
        ).len(),
    decreases samples.len(),
{
    reveal(Seq::filter);
    if samples.len() > 0 {
        shallow_samples_are_counted(samples.drop_last());
    }
}

/// The place of a bad sign among the others.
pub open spec fn rank(sign: BadSign) -> int {
    match sign {
        BadSign::ShallowStacks => 0,
        BadSign::UnknownFrames => 1,
        BadSign::RawAddresses => 2,
        BadSign::NoMainFrames => 3,
    }
}

/// Each bad sign is given exactly where its counts call for it, and once, in this order: stacks
/// with fewer than four frames on average, or more than forty in a hundred of at
/// most two; more than twenty in a hundred unknown names, or addresses alone; and
/// no frame of the program's entry.
pub proof fn bad_signs_follow_the_counts(d: Diagnostics)
    ensures
        ({
            let signs = diagnose::signs_of(d);
            &&& signs.no_duplicates()
            &&& signs.contains(BadSign::ShallowStacks) <==> d.sample_count == 0 || d.frame_count < 4
                * d.sample_count || 100 * d.shallow_count > 40 * d.sample_count
            &&& signs.contains(BadSign::UnknownFrames) <==> d.frame_count > 0 && 100
                * d.unknown_frame_count > 20 * d.frame_count
            &&& signs.contains(BadSign::RawAddresses) <==> d.frame_count > 0 && 100
                * d.raw_address_frame_count > 20 * d.frame_count
            &&& signs.contains(BadSign::NoMainFrames) <==> d.app_frame_count == 0
            &&& forall|i: int, j: int|
                0 <= i < j < signs.len() ==> rank(#[trigger] signs[i]) < rank(#[trigger] signs[j])
        }),
{
    let signs = diagnose::signs_of(d);
    let shallow = d.sample_count == 0 || d.frame_count < 4 * d.sample_count || 100 * d.shallow_count
        > 40 * d.sample_count;
    let unknown = d.frame_count > 0 && 100 * d.unknown_frame_count > 20 * d.frame_count;
    let raw = d.frame_count > 0 && 100 * d.raw_address_frame_count > 20 * d.frame_count;
    let no_main = d.app_frame_count == 0;
    let a = if shallow {
        1int
    } else {
        0
    };
    let b = a + if unknown {
        1int
    } else {
        0
    };
    let c = b + if raw {
        1int
    } else {
        0
    };
    let e = c + if no_main {
        1int
    } else {
        0
    };
    assert(signs.len() == e);
    if shallow {
        assert(signs[0] == BadSign::ShallowStacks);
    }
    if unknown {
        assert(signs[a] == BadSign::UnknownFrames);
    }
    if raw {
        assert(signs[b] == BadSign::RawAddresses);
    }
    if no_main {
        assert(signs[c] == BadSign::NoMainFrames);
    }
}

/// A stack worth showing has four frames or more.
pub open spec fn shows(s: SampleView, main_only: bool) -> bool {
    s.stack.len() >= 4 && (main_only ==> exists|i: int|
        0 <= i < s.stack.len() && (#[trigger] s.stack[i]).function == "main"@)
}

/// The first three stacks that are worth showing are taken.
pub proof fn three_stacks_are_taken(samples: Seq<SampleView>, main_only: bool)
    ensures
        ({
            let all = samples.filter(|s: SampleView| shows(s, main_only));
            diagnose::first_deep(samples, main_only) == if all.len() <= 3 {
                all
            } else {
                all.take(3)
            }
        }),
    decreases samples.len(),
{
    reveal(Seq::filter);
    if samples.len() > 0 {
        let t = samples.drop_last();
        three_stacks_are_taken(t, main_only);
        let before = t.filter(|s: SampleView| shows(s, main_only));
        let last = samples.last();
        assert(diagnose::reaches_main(last.stack) == exists|i: int|
            0 <= i < last.stack.len() && (#[trigger] last.stack[i]).function == "main"@);
        if before.len() >= 3 {
            assert(before.push(last).take(3) == before.take(3));
            assert(before.take(3).len() == 3);
            if before.len() == 3 {
                assert(before.take(3) == before);
            }
        }
    }
}

/// Stacks that reach the program's entry are shown, the first three of them, and
/// where none does, the first three that are deep enough. Each is shown from the
/// leaf on, with all of its function names.
pub proof fn useful_stacks_are_shown_whole(samples: Seq<SampleView>, k: int)
    ensures
        ({
            let with_main = samples.filter(|s: SampleView| shows(s, true));
            let any = samples.filter(|s: SampleView| shows(s, false));
            let chosen = if with_main.len() > 0 {
                with_main
            } else {
                any
            };
            let lines = diagnose::useful_stacks(samples);
            &&& lines.len() == if chosen.len() <= 3 {
                chosen.len()
            } else {
                3
            }
            &&& 0 <= k < lines.len() ==> lines[k] == text::join(
                chosen[k].stack.map_values(|f: FrameView| f.function),
                " <- "@,
            )
        }),
{
    three_stacks_are_taken(samples, true);
    three_stacks_are_taken(samples, false);
    let with_main = samples.filter(|s: SampleView| shows(s, true));
    let any = samples.filter(|s: SampleView| shows(s, false));
    let chosen = if with_main.len() > 0 {
        with_main
    } else {
        any
    };
    let lines = diagnose::useful_stacks(samples);
    if 0 <= k < lines.len() {
        assert(builder::functions_in(chosen[k].stack) =~= chosen[k].stack.map_values(
            |f: FrameView| f.function,
        ));
    }
}

} // verus!
