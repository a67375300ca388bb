//! The `p2prof` wrapper: what it takes from its command line, which inputs it
//! converts, and what it hands to pprof.

use vstd::prelude::*;
use vstd::slice::slice_subrange;

use crate::number;
use crate::script;
use crate::source;

verus! {

/// Why the wrapper refuses a command line.
#[derive(Debug, Clone, Copy, PartialEq, Eq, Structural)]
pub enum WrapperError {
    /// `--event` was given twice.
    EventTwice,
    /// `--event` has no value.
    EventWithoutValue,
    /// An event was selected, but no input is recorded data.
    EventWithoutPerfData,
    /// The selected event is not valid UTF-8.
    EventNotUtf8,
}

/// What has been read of a command line.
pub struct ArgScan {
    pub event: Option<Seq<u8>>,
    pub forwarded: Seq<Seq<u8>>,
    /// The next argument is the value of `--event`.
    pub expecting: bool,
}

/// The value of an argument `--event=value`, which must be valid UTF-8.
pub open spec fn inline_event(arg: Seq<u8>) -> Option<Seq<u8>> {
    if vstd::utf8::valid_utf8(arg) && source::word("--event=").is_prefix_of(arg) {
        Some(arg.skip(8))
    } else {
        None
    }
}

/// One more argument.
pub open spec fn scan_arg(scan: ArgScan, arg: Seq<u8>) -> Result<ArgScan, WrapperError> {
    if scan.expecting {
        Ok(ArgScan { event: Some(arg), forwarded: scan.forwarded, expecting: false })
    } else if arg == source::word("--event") {
        if scan.event is Some {
            Err(WrapperError::EventTwice)
        } else {
            Ok(ArgScan { event: None, forwarded: scan.forwarded, expecting: true })
        }
    } else {
        match inline_event(arg) {
            Some(value) => if scan.event is Some {
                Err(WrapperError::EventTwice)
            } else if value.len() == 0 {
                Err(WrapperError::EventWithoutValue)
            } else {
                Ok(ArgScan { event: Some(value), forwarded: scan.forwarded, expecting: false })
            },
            None => Ok(
                ArgScan {
                    event: scan.event,
                    forwarded: scan.forwarded.push(arg),
                    expecting: false,
                },
            ),
        }
    }
}

/// The state after `args`, from the state before them. The first error stays.
pub open spec fn scan_args(start: ArgScan, args: Seq<Seq<u8>>) -> Result<ArgScan, WrapperError>
    decreases args.len(),
{
    if args.len() == 0 {
        Ok(start)
    } else {
        match scan_args(start, args.drop_last()) {
            Ok(scan) => scan_arg(scan, args.last()),
            Err(e) => Err(e),
        }
    }
}

/// The state in which nothing has been read.
pub open spec fn no_args() -> ArgScan {
    ArgScan { event: None, forwarded: seq![], expecting: false }
}

/// The selected event and the arguments for pprof.
pub open spec fn parsed_args(args: Seq<Seq<u8>>) -> Result<
    (Option<Seq<u8>>, Seq<Seq<u8>>),
    WrapperError,
> {
    match scan_args(no_args(), args) {
        Ok(scan) => if scan.expecting {
            Err(WrapperError::EventWithoutValue)
        } else {
            Ok((scan.event, scan.forwarded))
        },
        Err(e) => Err(e),
    }
}

/// The first bytes of recorded data, in either byte order.
pub open spec fn perf_magic(header: Seq<u8>) -> bool {
    source::word("PERFILE2").is_prefix_of(header) || source::word("2ELIFREP").is_prefix_of(header)
}

/// The path of `name` inside `dir`. A name that starts with a slash is a path of
/// its own.
pub open spec fn joined(dir: Seq<u8>, name: Seq<u8>) -> Seq<u8> {
    if name.len() > 0 && name[0] == 47 {
        name
    } else if dir.len() == 0 || dir.last() == 47 {
        dir + name
    } else {
        dir.push(47) + name
    }
}

/// The file name of converted profile `n`.
pub open spec fn profile_name(n: nat) -> Seq<char> {
    "profile-"@ + number::decimal_text(n) + ".pb.gz"@
}

/// The path of converted profile `n`.
pub open spec fn profile_path(tempdir: Seq<u8>, n: nat) -> Seq<u8> {
    joined(tempdir, vstd::utf8::encode_utf8(profile_name(n)))
}

/// The number of inputs before position `n` that are recorded data.
pub open spec fn perf_before(is_perf: Seq<bool>, n: int) -> nat
    decreases n,
{
    if n <= 0 {
        0
    } else {
        perf_before(is_perf, n - 1) + if is_perf[n - 1] {
            1nat
        } else {
            0nat
        }
    }
}

/// The arguments of the converter for one input.
pub open spec fn converter_args(
    input: Seq<u8>,
    output: Seq<u8>,
    event: Option<Seq<u8>>,
) -> Seq<Seq<u8>> {
    let base = seq![source::word("--perf-data"), input, source::word("-o"), output];
    match event {
        Some(e) => base + seq![source::word("--event"), e],
        None => base,
    }
}

/// The arguments of pprof: recorded data is replaced by its profile, and
/// everything else stays, in place.
pub open spec fn pprof_args(
    args: Seq<Seq<u8>>,
    is_perf: Seq<bool>,
    tempdir: Seq<u8>,
) -> Seq<Seq<u8>> {
    Seq::new(
        args.len(),
        |i: int|
            if is_perf[i] {
                profile_path(tempdir, perf_before(is_perf, i))
            } else {
                args[i]
            },
    )
}

/// The runs of the converter, in order: one for each input that is recorded
/// data.
pub open spec fn conversions(
    args: Seq<Seq<u8>>,
    is_perf: Seq<bool>,
    tempdir: Seq<u8>,
    event: Option<Seq<u8>>,
    n: int,
) -> Seq<Seq<Seq<u8>>>
    decreases n,
{
    if n <= 0 {
        seq![]
    } else {
        let before = conversions(args, is_perf, tempdir, event, n - 1);
        if is_perf[n - 1] {
            before.push(
                converter_args(
                    args[n - 1],
                    profile_path(tempdir, perf_before(is_perf, n - 1)),
                    event,
                ),
            )
        } else {
            before
        }
    }
}

/// The places where a program is looked for: beside the running program, and
/// for pprof where Go installs programs.
pub open spec fn candidates(
    binary: Seq<u8>,
    exe_dir: Option<Seq<u8>>,
    gobin: Option<Seq<u8>>,
    home: Option<Seq<u8>>,
) -> Seq<Seq<u8>> {
    let sibling = match exe_dir {
        Some(dir) => seq![joined(dir, binary)],
        None => seq![],
    };
    if binary == source::word("pprof") {
        sibling + (match gobin {
            Some(dir) => seq![joined(dir, binary)],
            None => seq![],
        }) + (match home {
            Some(dir) => seq![joined(joined(dir, source::word("go/bin")), binary)],
            None => seq![],
        })
    } else {
        sibling
    }
}

/// The first place where there is a file.
pub open spec fn first_present(places: Seq<Seq<u8>>, present: Seq<bool>) -> Option<Seq<u8>>
    decreases places.len(),
{
    if places.len() == 0 {
        None
    } else {
        match first_present(places.drop_last(), present.drop_last()) {
            Some(p) => Some(p),
            None => if present.last() {
                Some(places.last())
            } else {
                None
            },
        }
    }
}

/// The program to run: the one that the environment names, or the first that
/// was found, or the bare name.
pub open spec fn chosen_tool(
    environment: Option<Seq<u8>>,
    places: Seq<Seq<u8>>,
    present: Seq<bool>,
    binary: Seq<u8>,
) -> Seq<u8> {
    match environment {
        Some(path) => path,
        None => match first_present(places, present) {
            Some(path) => path,
            None => binary,
        },
    }
}

/// Whether `s` starts with `prefix`.
fn has_prefix(s: &[u8], prefix: &[u8]) -> (r: bool)
    ensures
        r == prefix@.is_prefix_of(s@),
{
    if s.len() < prefix.len() {
        return false;
    }
    let head = slice_subrange(s, 0, prefix.len());
    let r = source::same_bytes(head, prefix);
    proof {
        if prefix@.is_prefix_of(s@) {
            assert(head@ == prefix@);
        }
    }
    r
}

/// The bytes of a literal are as many as its characters.
pub proof fn lemma_event_prefix()
    ensures
        source::word("--event=").len() == 8,
        source::word("--event").len() == 7,
{
    reveal_strlit("--event=");
    reveal_strlit("--event");
    vstd::utf8::is_ascii_chars_encode_utf8("--event="@);
    vstd::utf8::is_ascii_chars_encode_utf8("--event"@);
}

/// The value of an argument `--event=value`.
fn inline_event_of(arg: &Vec<u8>) -> (r: Option<Vec<u8>>)
    ensures
        source::option_view(r) == inline_event(arg@),
{
    if script::decode(arg.as_slice()).is_none() {
        return None;
    }
    if !has_prefix(arg.as_slice(), "--event=".as_bytes()) {
        return None;
    }
    proof {
        lemma_event_prefix();
    }
    Some(vstd::slice::slice_to_vec(slice_subrange(arg.as_slice(), 8, arg.len())))
}

/// Takes the event selector out of the command line; the rest is for pprof.
pub fn parse_args(args: Vec<Vec<u8>>) -> (r: Result<(Option<Vec<u8>>, Vec<Vec<u8>>), WrapperError>)
    ensures
        match parsed_args(source::args_view(args@)) {
            Ok((event, forwarded)) => r matches Ok(pair) && source::option_view(pair.0) == event
                && source::args_view(pair.1@) == forwarded,
            Err(e) => r == Err::<(Option<Vec<u8>>, Vec<Vec<u8>>), WrapperError>(e),
        },
{
    let ghost all = source::args_view(args@);
    let ghost given = args@;
    let mut event: Option<Vec<u8>> = None;
    let mut forwarded: Vec<Vec<u8>> = Vec::new();
    let mut expecting: bool = false;
    assert(source::args_view(forwarded@) == Seq::<Seq<u8>>::empty());
    for arg in it: args
        invariant
            it.seq() == given,
            all == source::args_view(given),
            scan_args(no_args(), all.take(it.index() as int)) == Ok::<ArgScan, WrapperError>(
                ArgScan {
                    event: source::option_view(event),
                    forwarded: source::args_view(forwarded@),
                    expecting,
                },
            ),
            expecting ==> event is None,
    {
        let ghost i = it.index() as int;
        let ghost before = source::args_view(forwarded@);
        proof {
            assert(all[i] == arg@);
            assert(all.take(i + 1).drop_last() == all.take(i));
            assert(all.take(i + 1).last() == arg@);
        }
        if expecting {
            event = Some(arg);
            expecting = false;
        } else if source::same_bytes(arg.as_slice(), "--event".as_bytes()) {
            if event.is_some() {
                proof {
                    lemma_error_stays(all, i + 1);
                }
                return Err(WrapperError::EventTwice);
            }
            expecting = true;
        } else {
            match inline_event_of(&arg) {
                Some(value) => {
                    if event.is_some() {
                        proof {
                            lemma_error_stays(all, i + 1);
                        }
                        return Err(WrapperError::EventTwice);
                    }
                    if value.len() == 0 {
                        proof {
                            lemma_error_stays(all, i + 1);
                        }
                        return Err(WrapperError::EventWithoutValue);
                    }
                    event = Some(value);
                },
                None => {
                    forwarded.push(arg);
                    assert(source::args_view(forwarded@) == before.push(arg@));
                },
            }
        }
    }
    assert(all.take(all.len() as int) == all);
    if expecting {
        return Err(WrapperError::EventWithoutValue);
    }
    Ok((event, forwarded))
}

/// An error in the first arguments is the error of all of them.
pub proof fn lemma_error_stays(args: Seq<Seq<u8>>, n: int)
    requires
        0 <= n <= args.len(),
    ensures
        scan_args(no_args(), args.take(n)) matches Err(e) ==> scan_args(no_args(), args) == Err::<
            ArgScan,
            WrapperError,
        >(e),
    decreases args.len(),
{
    if n < args.len() {
        lemma_error_stays(args.drop_last(), n);
        assert(args.drop_last().take(n) == args.take(n));
    } else {
        assert(args.take(n) == args);
    }
}

/// Whether a file that starts with these bytes is recorded data.
pub fn is_perf_data(header: &[u8]) -> (r: bool)
    ensures
        r == perf_magic(header@),
{
    has_prefix(header, "PERFILE2".as_bytes()) || has_prefix(header, "2ELIFREP".as_bytes())
}

/// Whether anything has to be converted, for a selected event and a number of
/// inputs that are recorded data.
pub open spec fn conversion_needed(event: Option<Seq<u8>>, perf_inputs: nat) -> Result<
    bool,
    WrapperError,
> {
    match event {
        None => Ok(perf_inputs > 0),
        Some(e) => if perf_inputs == 0 {
            Err(WrapperError::EventWithoutPerfData)
        } else if vstd::utf8::valid_utf8(e) {
            Ok(true)
        } else {
            Err(WrapperError::EventNotUtf8)
        },
    }
}

/// Whether anything has to be converted. An event can only be selected where
/// something is, and must be valid UTF-8.
pub fn needs_conversion(event: &Option<Vec<u8>>, perf_inputs: usize) -> (r: Result<
    bool,
    WrapperError,
>)
    ensures
        r == (if perf_inputs == 0 {
            if *event is Some {
                Err(WrapperError::EventWithoutPerfData)
            } else {
                Ok(false)
            }
        } else {
            match *event {
                Some(e) => if vstd::utf8::valid_utf8(e@) {
                    Ok(true)
                } else {
                    Err(WrapperError::EventNotUtf8)
                },
                None => Ok(true),
            }
        }),
        r == conversion_needed(source::option_view(*event), perf_inputs as nat),
{
    if perf_inputs == 0 {
        if event.is_some() {
            return Err(WrapperError::EventWithoutPerfData);
        }
        return Ok(false);
    }
    if let Some(e) = event {
        if script::decode(e.as_slice()).is_none() {
            return Err(WrapperError::EventNotUtf8);
        }
    }
    Ok(true)
}

/// The path of `name` inside `dir`.
fn join_path(dir: &[u8], name: &[u8]) -> (r: Vec<u8>)
    ensures
        r@ == joined(dir@, name@),
{
    if name.len() > 0 && name[0] == 47 {
        return vstd::slice::slice_to_vec(name);
    }
    let mut r: Vec<u8> = vstd::slice::slice_to_vec(dir);
    if dir.len() > 0 && dir[dir.len() - 1] != 47 {
        r.push(47);
    }
    let mut tail: Vec<u8> = vstd::slice::slice_to_vec(name);
    r.append(&mut tail);
    r
}

/// The path of converted profile `n`.
fn profile_file(tempdir: &[u8], n: usize) -> (r: Vec<u8>)
    ensures
        r@ == profile_path(tempdir@, n as nat),
{
    let mut name = String::from_str("profile-");
    number::push_decimal(&mut name, n);
    name.append(".pb.gz");
    join_path(tempdir, name.as_str().as_bytes())
}

/// What the wrapper runs: the converter for each input that is recorded data,
/// and then pprof on the results.
pub struct Plan {
    pub conversions: Vec<Vec<Vec<u8>>>,
    pub pprof_args: Vec<Vec<u8>>,
}

/// What a list of argument lists says.
pub open spec fn runs_view(runs: Seq<Vec<Vec<u8>>>) -> Seq<Seq<Seq<u8>>> {
    Seq::new(runs.len(), |i: int| source::args_view(runs[i]@))
}

/// A copy of an argument.
fn copy_bytes(s: &Vec<u8>) -> (r: Vec<u8>)
    ensures
        r@ == s@,
{
    vstd::slice::slice_to_vec(s.as_slice())
}

/// Plans the conversions and the run of pprof.
pub fn plan_run(
    args: Vec<Vec<u8>>,
    is_perf: &Vec<bool>,
    tempdir: &[u8],
    event: &Option<Vec<u8>>,
) -> (r: Plan)
    requires
        is_perf@.len() == args@.len(),
    ensures
        source::args_view(r.pprof_args@) == pprof_args(
            source::args_view(args@),
            is_perf@,
            tempdir@,
        ),
        runs_view(r.conversions@) == conversions(
            source::args_view(args@),
            is_perf@,
            tempdir@,
            source::option_view(*event),
            args@.len() as int,
        ),
{
    let ghost all = source::args_view(args@);
    let ghost wanted = source::option_view(*event);
    let mut runs: Vec<Vec<Vec<u8>>> = Vec::new();
    let mut forwarded: Vec<Vec<u8>> = Vec::new();
    let mut index: usize = 0;
    assert(runs_view(runs@) == Seq::<Seq<Seq<u8>>>::empty());
    for i in 0..args.len()
        invariant
            is_perf@.len() == args@.len(),
            all == source::args_view(args@),
            wanted == source::option_view(*event),
            index == perf_before(is_perf@, i as int),
            index <= i,
            forwarded@.len() == i,
            forall|j: int|
                0 <= j < i ==> (#[trigger] forwarded@[j])@ == pprof_args(
                    all,
                    is_perf@,
                    tempdir@,
                )[j],
            runs_view(runs@) == conversions(all, is_perf@, tempdir@, wanted, i as int),
    {
        if is_perf[i] {
            let output = profile_file(tempdir, index);
            let mut run: Vec<Vec<u8>> = Vec::new();
            run.push("--perf-data".as_bytes_vec());
            run.push(copy_bytes(&args[i]));
            run.push("-o".as_bytes_vec());
            run.push(copy_bytes(&output));
            if let Some(e) = event {
                run.push("--event".as_bytes_vec());
                run.push(copy_bytes(e));
            }
            let ghost before = runs_view(runs@);
            assert(source::args_view(run@) =~= converter_args(
                all[i as int],
                profile_path(tempdir@, perf_before(is_perf@, i as int)),
                wanted,
            ));
            runs.push(run);
            assert(runs_view(runs@) == before.push(source::args_view(run@)));
            index = index + 1;
            forwarded.push(output);
        } else {
            forwarded.push(copy_bytes(&args[i]));
        }
    }
    assert(source::args_view(forwarded@) =~= pprof_args(all, is_perf@, tempdir@));
    Plan { conversions: runs, pprof_args: forwarded }
}

/// The places where a program is looked for, in order.
pub fn tool_candidates(
    binary: &str,
    exe_dir: Option<Vec<u8>>,
    gobin: Option<Vec<u8>>,
    home: Option<Vec<u8>>,
) -> (r: Vec<Vec<u8>>)
    ensures
        source::args_view(r@) == candidates(
            source::word(binary),
            source::option_view(exe_dir),
            source::option_view(gobin),
            source::option_view(home),
        ),
{
    let mut r: Vec<Vec<u8>> = Vec::new();
    let name = binary.as_bytes();
    if let Some(dir) = &exe_dir {
        r.push(join_path(dir.as_slice(), name));
    }
    if source::same_bytes(name, "pprof".as_bytes()) {
        if let Some(dir) = &gobin {
            r.push(join_path(dir.as_slice(), name));
        }
        if let Some(dir) = &home {
            let go = join_path(dir.as_slice(), "go/bin".as_bytes());
            r.push(join_path(go.as_slice(), name));
        }
    }
    assert(source::args_view(r@) =~= candidates(
        source::word(binary),
        source::option_view(exe_dir),
        source::option_view(gobin),
        source::option_view(home),
    ));
    r
}

/// The program to run, given which of the places hold a file.
pub fn tool_path(
    environment: Option<Vec<u8>>,
    places: &Vec<Vec<u8>>,
    present: &Vec<bool>,
    binary: &str,
) -> (r: Vec<u8>)
    requires
        present@.len() == places@.len(),
    ensures
        r@ == chosen_tool(
            source::option_view(environment),
            source::args_view(places@),
            present@,
            source::word(binary),
        ),
{
    if let Some(path) = environment {
        return path;
    }
    let ghost all = source::args_view(places@);
    for i in 0..places.len()
        invariant
            environment is None,
            present@.len() == places@.len(),
            all == source::args_view(places@),
            first_present(all.take(i as int), present@.take(i as int)) is None,
    {
        proof {
            assert(all.take(i + 1).drop_last() == all.take(i as int));
            assert(present@.take(i + 1).drop_last() == present@.take(i as int));
            assert(all.take(i + 1).last() == places@[i as int]@);
        }
        if present[i] {
            proof {
                lemma_present_stays(all, present@, i + 1);
            }
            return copy_bytes(&places[i]);
        }
    }
    assert(all.take(all.len() as int) == all);
    assert(present@.take(present@.len() as int) == present@);
    binary.as_bytes_vec()
}

/// A place that was found is not displaced by a later one.
pub proof fn lemma_present_stays(places: Seq<Seq<u8>>, present: Seq<bool>, n: int)
    requires
        0 <= n <= places.len(),
        present.len() == places.len(),
        first_present(places.take(n), present.take(n)) is Some,
    ensures
        first_present(places, present) == first_present(places.take(n), present.take(n)),
    decreases places.len(),
{
    if n < places.len() {
        assert(places.drop_last().take(n) == places.take(n));
        assert(present.drop_last().take(n) == present.take(n));
        lemma_present_stays(places.drop_last(), present.drop_last(), n);
    } else {
        assert(places.take(n) == places);
        assert(present.take(n) == present);
    }
}

/// An argument that selects no event.
pub open spec fn is_plain(arg: Seq<u8>) -> bool {
    arg != source::word("--event") && inline_event(arg) is None
}

pub proof fn lemma_scan_concat(start: ArgScan, a: Seq<Seq<u8>>, b: Seq<Seq<u8>>)
    ensures
        scan_args(start, a + b) == (match scan_args(start, a) {
            Ok(scan) => scan_args(scan, b),
            Err(e) => Err(e),
        }),
    decreases b.len(),
{
    if b.len() == 0 {
        assert(a + b == a);
    } else {
        assert((a + b).drop_last() == a + b.drop_last());
        lemma_scan_concat(start, a, b.drop_last());
    }
}

pub proof fn lemma_scan_plain(start: ArgScan, args: Seq<Seq<u8>>)
    requires
        !start.expecting,
        forall|i: int| 0 <= i < args.len() ==> is_plain(#[trigger] args[i]),
    ensures
        scan_args(start, args) == Ok::<ArgScan, WrapperError>(
            ArgScan {
                event: start.event,
                forwarded: start.forwarded + args,
                expecting: false,
            },
        ),
    decreases args.len(),
{
    if args.len() == 0 {
        assert(start.forwarded + args == start.forwarded);
    } else {
        let t = args.drop_last();
        assert forall|i: int| 0 <= i < t.len() implies is_plain(#[trigger] t[i]) by {
            assert(t[i] == args[i]);
        }
        lemma_scan_plain(start, t);
        assert(is_plain(args[args.len() - 1]));
        assert((start.forwarded + t).push(args.last()) == start.forwarded + args);
    }
}

/// A command line that selects no event is handed to pprof as it is.
pub proof fn plain_args_are_forwarded(args: Seq<Seq<u8>>)
    requires
        forall|i: int| 0 <= i < args.len() ==> is_plain(#[trigger] args[i]),
    ensures
        parsed_args(args) == Ok::<(Option<Seq<u8>>, Seq<Seq<u8>>), WrapperError>((None, args)),
{
    lemma_scan_plain(no_args(), args);
    assert(no_args().forwarded + args == args);
}

/// The selector is taken out, in either form, and the rest is handed to pprof
/// in its order.
pub proof fn selector_is_taken_out(
    before: Seq<Seq<u8>>,
    selector: Seq<Seq<u8>>,
    value: Seq<u8>,
    after: Seq<Seq<u8>>,
)
    requires
        forall|i: int| 0 <= i < before.len() ==> is_plain(#[trigger] before[i]),
        forall|i: int| 0 <= i < after.len() ==> is_plain(#[trigger] after[i]),
        selector == seq![source::word("--event"), value] || (selector.len() == 1
            && inline_event(selector[0]) == Some(value) && value.len() > 0),
    ensures
        parsed_args(before + selector + after) == Ok::<
            (Option<Seq<u8>>, Seq<Seq<u8>>),
            WrapperError,
        >((Some(value), before + after)),
{
    lemma_event_prefix();
    lemma_scan_plain(no_args(), before);
    assert(no_args().forwarded + before == before);
    lemma_scan_concat(no_args(), before, selector);
    lemma_scan_concat(no_args(), before + selector, after);
    let start = ArgScan { event: None, forwarded: before, expecting: false };
    let done = ArgScan { event: Some(value), forwarded: before, expecting: false };
    if selector.len() == 1 {
        assert(selector.drop_last() == Seq::<Seq<u8>>::empty());
        assert(scan_args(start, selector.drop_last()) == Ok::<ArgScan, WrapperError>(start));
    } else {
        let first = selector.drop_last();
        assert(first.drop_last() == Seq::<Seq<u8>>::empty());
        assert(first.last() == source::word("--event"));
        assert(scan_args(start, first.drop_last()) == Ok::<ArgScan, WrapperError>(start));
        assert(scan_args(start, first) == Ok::<ArgScan, WrapperError>(
            ArgScan { event: None, forwarded: before, expecting: true },
        ));
    }
    assert(scan_args(start, selector) == Ok::<ArgScan, WrapperError>(done));
    lemma_scan_plain(done, after);
}

/// The file name of a converted profile does not start with a slash.
pub proof fn lemma_profile_name(n: nat)
    ensures
        vstd::utf8::encode_utf8(profile_name(n)).len() > 0,
        vstd::utf8::encode_utf8(profile_name(n))[0] != 47,
{
    reveal_strlit("profile-");
    let name = profile_name(n);
    assert(name[0] == 'p');
    assert(0x70u32 & 0x7f == 0x70) by (bit_vector);
    assert(vstd::utf8::encode_scalar(name[0] as u32) == seq![0x70u8]);
}

/// Two converted profiles never have the same path.
pub proof fn profiles_do_not_collide(tempdir: Seq<u8>, m: nat, n: nat)
    requires
        m != n,
    ensures
        profile_path(tempdir, m) != profile_path(tempdir, n),
{
    let a = profile_name(m);
    let b = profile_name(n);
    if profile_path(tempdir, m) == profile_path(tempdir, n) {
        lemma_profile_name(m);
        lemma_profile_name(n);
        let x = vstd::utf8::encode_utf8(a);
        let y = vstd::utf8::encode_utf8(b);
        let path = profile_path(tempdir, m);
        let k = if tempdir.len() == 0 || tempdir.last() == 47 {
            tempdir.len() as int
        } else {
            tempdir.len() as int + 1
        };
        assert(path.skip(k) == x);
        assert(path.skip(k) == y);
        vstd::utf8::encode_utf8_decode_utf8(a);
        vstd::utf8::encode_utf8_decode_utf8(b);
        assert(a == b);
        let head = "profile-"@.len() as int;
        let tail = ".pb.gz"@.len() as int;
        assert(a.subrange(head, a.len() - tail) == number::decimal_text(m));
        assert(b.subrange(head, b.len() - tail) == number::decimal_text(n));
        number::decimal_text_reads_back(m);
        number::decimal_text_reads_back(n);
    }
}

/// Each input that is recorded data is converted once, into the file that
/// takes its place on pprof's command line.
pub proof fn conversion_feeds_pprof(
    args: Seq<Seq<u8>>,
    is_perf: Seq<bool>,
    tempdir: Seq<u8>,
    event: Option<Seq<u8>>,
    i: int,
)
    requires
        is_perf.len() == args.len(),
        0 <= i < args.len(),
        is_perf[i],
    ensures
        ({
            let runs = conversions(args, is_perf, tempdir, event, args.len() as int);
            &&& runs.len() == perf_before(is_perf, args.len() as int)
            &&& perf_before(is_perf, i) < runs.len()
            &&& runs[perf_before(is_perf, i) as int] == converter_args(
                args[i],
                pprof_args(args, is_perf, tempdir)[i],
                event,
            )
        }),
{
    lemma_conversions(args, is_perf, tempdir, event, i, args.len() as int);
}

proof fn lemma_conversions(
    args: Seq<Seq<u8>>,
    is_perf: Seq<bool>,
    tempdir: Seq<u8>,
    event: Option<Seq<u8>>,
    i: int,
    n: int,
)
    requires
        is_perf.len() == args.len(),
        0 <= n <= args.len(),
        0 <= i < args.len(),
        is_perf[i],
    ensures
        conversions(args, is_perf, tempdir, event, n).len() == perf_before(is_perf, n),
        i < n ==> perf_before(is_perf, i) < perf_before(is_perf, n),
        i < n ==> conversions(args, is_perf, tempdir, event, n)[perf_before(is_perf, i) as int]
            == converter_args(args[i], pprof_args(args, is_perf, tempdir)[i], event),
    decreases n,
{
    if n > 0 {
        lemma_conversions(args, is_perf, tempdir, event, i, n - 1);
    }
}

} // verus!
