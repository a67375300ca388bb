//! What the wrapper runs, for all command lines.

use vstd::prelude::*;

use crate::number;
use crate::p2prof;
use crate::p2prof::{ArgScan, WrapperError};
use crate::source;
use crate::source::SourceView;

verus! {

/// The number of places among the first `n` that are marked.
pub open spec fn marked(marks: Seq<bool>, n: int) -> nat {
    marks.take(n).filter(|m: bool| m).len()
}

proof fn lemma_marked(marks: Seq<bool>, n: int)
    requires
        0 <= n <= marks.len(),
    ensures
        p2prof::perf_before(marks, n) == marked(marks, n),
    decreases n,
{
    reveal(Seq::filter);
    if n > 0 {
        lemma_marked(marks, n - 1);
        assert(marks.take(n).drop_last() == marks.take(n - 1));
        assert(marks.take(n).last() == marks[n - 1]);
    }
}

/// pprof gets as many arguments as there are, and every one that is no recorded
/// data unchanged, in its place.
pub proof fn other_arguments_stay_as_they_are(
    args: Seq<Seq<u8>>,
    is_perf: Seq<bool>,
    tempdir: Seq<u8>,
    i: int,
)
    ensures
        p2prof::pprof_args(args, is_perf, tempdir).len() == args.len(),
        0 <= i < args.len() && !is_perf[i] ==> p2prof::pprof_args(args, is_perf, tempdir)[i]
            == args[i],
{
}

/// Recorded data is replaced by its profile, which is named after the number of
/// recordings in front of it, in the temporary directory.
pub proof fn recordings_are_replaced_by_their_profiles(
    args: Seq<Seq<u8>>,
    is_perf: Seq<bool>,
    tempdir: Seq<u8>,
    i: int,
)
    requires
        is_perf.len() == args.len(),
        0 <= i < args.len(),
        is_perf[i],
    ensures
        p2prof::pprof_args(args, is_perf, tempdir)[i] == p2prof::joined(
            tempdir,
            vstd::utf8::encode_utf8(
                "profile-"@ + number::decimal_text(marked(is_perf, i)) + ".pb.gz"@,
            ),
        ),
{
    lemma_marked(is_perf, i);
}

/// Each recording is converted by one run of the converter, in order, which is told
/// the recording, the file that pprof gets in its place, and the selected event.
/// Nothing else is converted.
pub proof fn recordings_are_converted(
    args: Seq<Seq<u8>>,
    is_perf: Seq<bool>,
    tempdir: Seq<u8>,
    event: Option<Seq<u8>>,
    i: int,
)
    requires
        is_perf.len() == args.len(),
    ensures
        ({
            let runs = p2prof::conversions(args, is_perf, tempdir, event, args.len() as int);
            &&& runs.len() == marked(is_perf, args.len() as int)
            &&& 0 <= i < args.len() && is_perf[i] ==> {
                let run = runs[marked(is_perf, i) as int];
                &&& marked(is_perf, i) < runs.len()
                &&& run.len() == if event is Some {
                    6nat
                } else {
                    4nat
                }
                &&& run[0] == source::word("--perf-data")
                &&& run[1] == args[i]
                &&& run[2] == source::word("-o")
                &&& run[3] == p2prof::pprof_args(args, is_perf, tempdir)[i]
                &&& event matches Some(e) ==> run[4] == source::word("--event") && run[5] == e
            }
        }),
{
    lemma_marked(is_perf, args.len() as int);
    lemma_runs(args, is_perf, tempdir, event, args.len() as int);
    if 0 <= i < args.len() && is_perf[i] {
        lemma_marked(is_perf, i);
        p2prof::conversion_feeds_pprof(args, is_perf, tempdir, event, i);
    }
}

proof fn lemma_runs(
    args: Seq<Seq<u8>>,
    is_perf: Seq<bool>,
    tempdir: Seq<u8>,
    event: Option<Seq<u8>>,
    n: int,
)
    ensures
        p2prof::conversions(args, is_perf, tempdir, event, n).len() == p2prof::perf_before(
            is_perf,
            n,
        ),
    decreases n,
{
    if n > 0 {
        lemma_runs(args, is_perf, tempdir, event, n - 1);
    }
}

/// A name is put behind a directory with one slash between them, unless the
/// directory ends in one or is empty; a name that starts with a slash stays alone.
pub proof fn names_are_put_into_directories(dir: Seq<u8>, name: Seq<u8>)
    ensures
        name.len() > 0 && name[0] == 47 ==> p2prof::joined(dir, name) == name,
        !(name.len() > 0 && name[0] == 47) && dir.len() > 0 && dir.last() != 47
            ==> p2prof::joined(dir, name) == dir + seq![47u8] + name,
        !(name.len() > 0 && name[0] == 47) && (dir.len() == 0 || dir.last() == 47)
            ==> p2prof::joined(dir, name) == dir + name,
{
    assert(dir.push(47u8) + name == dir + seq![47u8] + name);
}

/// An argument selects an event in one form or the other, or it does not: what
/// stands behind `--event=` is the event, all of it.
pub proof fn selectors_are_recognized(arg: Seq<u8>, value: Seq<u8>)
    ensures
        vstd::utf8::valid_utf8(source::word("--event=") + value) ==> p2prof::inline_event(
            source::word("--event=") + value,
        ) == Some(value),
        p2prof::is_plain(arg) <==> arg != source::word("--event") && !(vstd::utf8::valid_utf8(arg)
            && source::word("--event=").is_prefix_of(arg)),
        p2prof::inline_event(arg) is Some ==> arg == source::word("--event=")
            + p2prof::inline_event(arg)->0,
{
    p2prof::lemma_event_prefix();
    let full = source::word("--event=") + value;
    assert(source::word("--event=").is_prefix_of(full));
    assert(full.skip(8) == value);
    if p2prof::inline_event(arg) is Some {
        assert(arg == source::word("--event=") + arg.skip(8));
    }
}

/// A second selector is refused, whatever stands around the two.
pub proof fn second_selectors_are_refused(
    before: Seq<Seq<u8>>,
    first: Seq<Seq<u8>>,
    value: Seq<u8>,
    between: Seq<Seq<u8>>,
    second: Seq<u8>,
    after: Seq<Seq<u8>>,
)
    requires
        forall|i: int| 0 <= i < before.len() ==> p2prof::is_plain(#[trigger] before[i]),
        forall|i: int| 0 <= i < between.len() ==> p2prof::is_plain(#[trigger] between[i]),
        first == seq![source::word("--event"), value] || (first.len() == 1
            && p2prof::inline_event(first[0]) == Some(value) && value.len() > 0),
        !p2prof::is_plain(second),
    ensures
        p2prof::parsed_args(before + first + between + seq![second] + after) == Err::<
            (Option<Seq<u8>>, Seq<Seq<u8>>),
            WrapperError,
        >(WrapperError::EventTwice),
{
    let head = before + first + between;
    p2prof::selector_is_taken_out(before, first, value, between);
    let scan = p2prof::scan_args(p2prof::no_args(), head)->Ok_0;
    let one = seq![second];
    assert(one.drop_last() == Seq::<Seq<u8>>::empty());
    assert(p2prof::scan_args(scan, one.drop_last()) == Ok::<ArgScan, WrapperError>(scan));
    p2prof::lemma_scan_concat(p2prof::no_args(), head, one);
    p2prof::lemma_scan_concat(p2prof::no_args(), head + one, after);
}

/// A selector without a value is refused: `--event` at the end, and `--event=` with
/// nothing behind it, wherever it stands.
pub proof fn selectors_need_a_value(
    before: Seq<Seq<u8>>,
    empty: Seq<u8>,
    after: Seq<Seq<u8>>,
)
    requires
        forall|i: int| 0 <= i < before.len() ==> p2prof::is_plain(#[trigger] before[i]),
        p2prof::inline_event(empty) == Some(Seq::<u8>::empty()),
    ensures
        p2prof::parsed_args(before.push(source::word("--event"))) == Err::<
            (Option<Seq<u8>>, Seq<Seq<u8>>),
            WrapperError,
        >(WrapperError::EventWithoutValue),
        p2prof::parsed_args(before + seq![empty] + after) == Err::<
            (Option<Seq<u8>>, Seq<Seq<u8>>),
            WrapperError,
        >(WrapperError::EventWithoutValue),
{
    p2prof::lemma_event_prefix();
    let start = p2prof::no_args();
    p2prof::lemma_scan_plain(start, before);
    assert(start.forwarded + before == before);
    let bare = before.push(source::word("--event"));
    assert(bare.drop_last() == before);
    let scan = ArgScan { event: None, forwarded: before, expecting: false };
    let one = seq![empty];
    assert(one.drop_last() == Seq::<Seq<u8>>::empty());
    assert(p2prof::scan_args(scan, one.drop_last()) == Ok::<ArgScan, WrapperError>(scan));
    p2prof::lemma_scan_concat(start, before, one);
    p2prof::lemma_scan_concat(start, before + one, after);
}

/// Recorded data starts with eight bytes, in one order or the other, and nothing
/// behind them matters.
pub proof fn recordings_are_recognized_by_eight_bytes(header: Seq<u8>)
    ensures
        p2prof::perf_magic(header) <==> header.len() >= 8 && (header.take(8) == seq![
            0x50u8,
            0x45u8,
            0x52u8,
            0x46u8,
            0x49u8,
            0x4cu8,
            0x45u8,
            0x32u8,
        ] || header.take(8) == seq![
            0x32u8,
            0x45u8,
            0x4cu8,
            0x49u8,
            0x46u8,
            0x52u8,
            0x45u8,
            0x50u8,
        ]),
{
    reveal_strlit("PERFILE2");
    reveal_strlit("2ELIFREP");
    vstd::utf8::is_ascii_chars_encode_utf8("PERFILE2"@);
    vstd::utf8::is_ascii_chars_encode_utf8("2ELIFREP"@);
    let a = source::word("PERFILE2");
    let b = source::word("2ELIFREP");
    lemma_bytes_of("PERFILE2"@);
    lemma_bytes_of("2ELIFREP"@);
    assert(a =~= seq![0x50u8, 0x45u8, 0x52u8, 0x46u8, 0x49u8, 0x4cu8, 0x45u8, 0x32u8]);
    assert(b =~= seq![0x32u8, 0x45u8, 0x4cu8, 0x49u8, 0x46u8, 0x52u8, 0x45u8, 0x50u8]);
    if header.len() >= 8 {
        assert(a.is_prefix_of(header) <==> header.take(8) == a) by {
            if a.is_prefix_of(header) {
                assert(header.take(8) =~= a);
            }
            if header.take(8) == a {
                assert(a =~= header.take(a.len() as int));
            }
        }
        assert(b.is_prefix_of(header) <==> header.take(8) == b) by {
            if b.is_prefix_of(header) {
                assert(header.take(8) =~= b);
            }
            if header.take(8) == b {
                assert(b =~= header.take(b.len() as int));
            }
        }
    }
}

proof fn lemma_bytes_of(s: Seq<char>)
    requires
        vstd::utf8::is_ascii_chars(s),
    ensures
        vstd::utf8::encode_utf8(s).len() == s.len(),
        forall|i: int|
            0 <= i < s.len() ==> #[trigger] vstd::utf8::encode_utf8(s)[i] == s[i] as u8,
{
    vstd::utf8::is_ascii_chars_encode_utf8(s);
}

/// A program is looked for beside the running program, and pprof also in `GOBIN`
/// and in `go/bin` of the home directory, in this order and nowhere else.
pub proof fn tools_have_their_places(
    binary: Seq<u8>,
    exe_dir: Option<Seq<u8>>,
    gobin: Option<Seq<u8>>,
    home: Option<Seq<u8>>,
)
    ensures
        ({
            let places = p2prof::candidates(binary, exe_dir, gobin, home);
            let is_pprof = binary == source::word("pprof");
            let a = if exe_dir is Some {
                1int
            } else {
                0
            };
            let b = if is_pprof && gobin is Some {
                a + 1
            } else {
                a
            };
            let c = if is_pprof && home is Some {
                b + 1
            } else {
                b
            };
            &&& places.len() == c
            &&& exe_dir matches Some(dir) ==> places[0] == p2prof::joined(dir, binary)
            &&& is_pprof ==> (gobin matches Some(dir) ==> places[a] == p2prof::joined(dir, binary))
            &&& is_pprof ==> (home matches Some(dir) ==> places[b] == p2prof::joined(
                p2prof::joined(dir, source::word("go/bin")),
                binary,
            ))
        }),
{
}

/// The program that the environment names is run; without one, the first that is
/// there, wherever it stands among the places; and where none is, the bare name.
pub proof fn the_first_tool_is_run(
    environment: Option<Seq<u8>>,
    places: Seq<Seq<u8>>,
    present: Seq<bool>,
    binary: Seq<u8>,
    i: int,
)
    requires
        present.len() == places.len(),
    ensures
        environment matches Some(path) ==> p2prof::chosen_tool(environment, places, present, binary)
            == path,
        environment is None && 0 <= i < places.len() && present[i] && (forall|j: int|
            0 <= j < i ==> !#[trigger] present[j]) ==> p2prof::chosen_tool(
            environment,
            places,
            present,
            binary,
        ) == places[i],
        environment is None && (forall|j: int| 0 <= j < places.len() ==> !#[trigger] present[j])
            ==> p2prof::chosen_tool(environment, places, present, binary) == binary,
{
    if 0 <= i < places.len() && present[i] && (forall|j: int|
        0 <= j < i ==> !#[trigger] present[j]) {
        lemma_none_present(places, present, i);
        let p = places.take(i + 1);
        let q = present.take(i + 1);
        assert(p.drop_last() == places.take(i) && q.drop_last() == present.take(i));
        assert(q.last() == present[i] && p.last() == places[i]);
        p2prof::lemma_present_stays(places, present, i + 1);
    }
    if forall|j: int| 0 <= j < places.len() ==> !#[trigger] present[j] {
        lemma_none_present(places, present, places.len() as int);
        assert(places.take(places.len() as int) == places);
        assert(present.take(present.len() as int) == present);
    }
}

proof fn lemma_none_present(places: Seq<Seq<u8>>, present: Seq<bool>, n: int)
    requires
        present.len() == places.len(),
        0 <= n <= places.len(),
        forall|j: int| 0 <= j < n ==> !#[trigger] present[j],
    ensures
        p2prof::first_present(places.take(n), present.take(n)) is None,
    decreases n,
{
    if n > 0 {
        lemma_none_present(places, present, n - 1);
        assert(places.take(n).drop_last() == places.take(n - 1));
        assert(present.take(n).drop_last() == present.take(n - 1));
        assert(!present[n - 1]);
    }
}

/// Something is converted exactly where an input is recorded data, however many
/// are. An event that is selected for nothing is refused, and so is one that is not
/// text.
pub proof fn conversion_follows_the_inputs(event: Seq<u8>, perf_inputs: nat)
    requires
        perf_inputs > 0,
    ensures
        p2prof::conversion_needed(None, 0) == Ok::<bool, WrapperError>(false),
        p2prof::conversion_needed(None, perf_inputs) == Ok::<bool, WrapperError>(true),
        p2prof::conversion_needed(Some(event), 0) == Err::<bool, WrapperError>(
            WrapperError::EventWithoutPerfData,
        ),
        vstd::utf8::valid_utf8(event) ==> p2prof::conversion_needed(Some(event), perf_inputs)
            == Ok::<bool, WrapperError>(true),
        !vstd::utf8::valid_utf8(event) ==> p2prof::conversion_needed(Some(event), perf_inputs)
            == Err::<bool, WrapperError>(WrapperError::EventNotUtf8),
{
}

/// A script is read from the file that is named, from standard input where the name
/// is a dash or nothing is named, and otherwise from `perf script` on the recording,
/// with every further argument behind it.
pub proof fn scripts_have_their_source(
    path: Seq<u8>,
    perf_data: Option<Seq<u8>>,
    perf_args: Seq<Seq<u8>>,
)
    ensures
        path != source::word("-") ==> source::source_of(Some(path), perf_data, perf_args)
            == SourceView::File(path),
        source::source_of(Some(source::word("-")), perf_data, perf_args) == SourceView::Stdin,
        source::source_of(None, None, perf_args) == SourceView::Stdin,
        source::source_of(None, Some(path), perf_args) matches SourceView::Perf(args) && {
            &&& args.len() == 3 + perf_args.len()
            &&& args[0] == source::word("script")
            &&& args[1] == source::word("-i")
            &&& args[2] == path
            &&& args.skip(3) == perf_args
        },
{
    assert((seq![source::word("script"), source::word("-i"), path] + perf_args).skip(3)
        == perf_args);
}

} // verus!
