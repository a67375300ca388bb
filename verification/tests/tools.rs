use std::io::{Read, Write};

use perf2pprof::diagnose::{bad_signs, describe_sign, diagnose_samples, sample_useful_stacks, BadSign, Diagnostics};
use perf2pprof::frame::Frame;
use perf2pprof::p2prof::{is_perf_data, needs_conversion, parse_args, plan_run, tool_candidates, tool_path, WrapperError};
use perf2pprof::script::RawSample;
use perf2pprof::source::{script_source, ScriptSource};

const PERF_MAGIC: &[u8; 8] = b"PERFILE2";
const PERF_MAGIC_REVERSED: &[u8; 8] = b"2ELIFREP";

fn bytes(s: &str) -> Vec<u8> {
    s.as_bytes().to_vec()
}

fn args(list: &[&str]) -> Vec<Vec<u8>> {
    list.iter().map(|s| bytes(s)).collect()
}

#[test]
fn extracts_event_and_preserves_pprof_arguments() {
    let args = ["-png", "--event=instructions", "binary", "perf.data"]
        .into_iter()
        .map(bytes)
        .collect();
    let (event, forwarded) = parse_args(args).expect("parse arguments");

    assert_eq!(event, Some(bytes("instructions")));
    assert_eq!(
        forwarded,
        ["-png", "binary", "perf.data"].map(bytes)
    );
}

fn header_of(file: &tempfile::NamedTempFile) -> Vec<u8> {
    let mut header = Vec::new();
    file.reopen().expect("open").take(8).read_to_end(&mut header).expect("read");
    header
}

#[test]
fn recognizes_perf_data_by_magic_not_filename() {
    let mut file = tempfile::NamedTempFile::new().expect("temporary file");
    file.write_all(PERF_MAGIC).expect("write perf magic");
    file.write_all(b"payload").expect("write payload");

    assert!(is_perf_data(&header_of(&file)));
}

#[test]
fn does_not_treat_an_ordinary_data_file_as_perf_data() {
    let mut file = tempfile::Builder::new()
        .suffix(".data")
        .tempfile()
        .expect("temporary file");
    file.write_all(b"not perf data").expect("write data");

    assert!(!is_perf_data(&header_of(&file)));
}

#[test]
fn perf_data_is_recognized_in_either_byte_order() {
    assert!(is_perf_data(PERF_MAGIC));
    assert!(is_perf_data(PERF_MAGIC_REVERSED));
    assert!(is_perf_data(b"PERFILE2 and more"));
    assert!(!is_perf_data(b"PERFILE"));
    assert!(!is_perf_data(b"PERFILE1"));
    assert!(!is_perf_data(b""));
}

#[test]
fn command_lines_without_a_selector_are_forwarded() {
    let mut plain = args(&["-top", "--events=x", "--eventual", "", "event"]);
    plain.push(vec![0xff]);
    plain.push(b"--event=\xff".to_vec());
    assert_eq!(parse_args(plain.clone()), Ok((None, plain)));
    assert_eq!(parse_args(vec![]), Ok((None, vec![])));
}

#[test]
fn selectors_are_taken_out_in_either_form() {
    let expected = (Some(bytes("cycles")), args(&["-top", "x"]));
    assert_eq!(parse_args(args(&["-top", "--event", "cycles", "x"])), Ok(expected.clone()));
    assert_eq!(parse_args(args(&["--event=cycles", "-top", "x"])), Ok(expected));
    let odd = parse_args(args(&["--event", "--event=x"]));
    assert_eq!(odd, Ok((Some(bytes("--event=x")), vec![])));
    assert_eq!(parse_args(args(&["--event", ""])), Ok((Some(vec![]), vec![])));
}

#[test]
fn bad_selectors_are_refused() {
    for list in [vec!["--event", "a", "--event", "b"], vec!["--event=a", "--event="], vec!["--event=a", "--event"]] {
        assert_eq!(parse_args(args(&list)), Err(WrapperError::EventTwice));
    }
    assert_eq!(parse_args(args(&["--event"])), Err(WrapperError::EventWithoutValue));
    assert_eq!(parse_args(args(&["--event=", "--event"])), Err(WrapperError::EventWithoutValue));
}

#[test]
fn conversion_is_needed_for_recorded_data() {
    assert_eq!(needs_conversion(&None, 0), Ok(false));
    assert_eq!(needs_conversion(&None, 1), Ok(true));
    assert_eq!(needs_conversion(&Some(bytes("cycles")), 2), Ok(true));
    assert_eq!(needs_conversion(&Some(bytes("cycles")), 0), Err(WrapperError::EventWithoutPerfData));
    assert_eq!(needs_conversion(&Some(vec![0xff]), 1), Err(WrapperError::EventNotUtf8));
}

#[test]
fn plans_convert_each_recording_in_place() {
    let line = args(&["-top", "a.data", "bin", "b.data"]);
    let plan = plan_run(line, &vec![false, true, false, true], b"/tmp/d", &Some(bytes("cycles")));
    assert_eq!(
        plan.pprof_args,
        args(&["-top", "/tmp/d/profile-0.pb.gz", "bin", "/tmp/d/profile-1.pb.gz"])
    );
    assert_eq!(
        plan.conversions,
        vec![
            args(&["--perf-data", "a.data", "-o", "/tmp/d/profile-0.pb.gz", "--event", "cycles"]),
            args(&["--perf-data", "b.data", "-o", "/tmp/d/profile-1.pb.gz", "--event", "cycles"]),
        ]
    );
    let bare = plan_run(args(&["a"]), &vec![true], b"d/", &None);
    assert_eq!(bare.conversions, vec![args(&["--perf-data", "a", "-o", "d/profile-0.pb.gz"])]);
    let untouched = plan_run(args(&["a"]), &vec![false], b"d", &None);
    assert!(untouched.conversions.is_empty());
    assert_eq!(untouched.pprof_args, args(&["a"]));
}

#[test]
fn converted_profiles_have_their_own_files() {
    let plan = plan_run(args(&["x"; 12]), &vec![true; 12], b"t", &None);
    for i in 0..12 {
        assert_eq!(plan.pprof_args[i], bytes(&format!("t/profile-{}.pb.gz", i)));
        assert_eq!(plan.conversions[i][3], plan.pprof_args[i]);
    }
}

#[test]
fn tools_are_looked_for_in_order() {
    let dir = |s: &str| Some(bytes(s));
    assert_eq!(
        tool_candidates("pprof", dir("/opt"), dir("/gobin/"), dir("/home/u")),
        args(&["/opt/pprof", "/gobin/pprof", "/home/u/go/bin/pprof"])
    );
    assert_eq!(
        tool_candidates("perf2pprof", dir("/opt"), dir("/gobin"), dir("/home/u")),
        args(&["/opt/perf2pprof"])
    );
    assert_eq!(tool_candidates("pprof", None, dir(""), None), args(&["pprof"]));
    assert_eq!(tool_candidates("/bin/x", dir("/opt"), None, None), args(&["/bin/x"]));
    assert!(tool_candidates("pprof", None, None, None).is_empty());
}

#[test]
fn the_first_tool_that_is_there_is_used() {
    let places = args(&["a", "b", "c"]);
    let pick = |environment, present: Vec<bool>| tool_path(environment, &places, &present, "pprof");
    assert_eq!(pick(Some(bytes("mine")), vec![true, true, true]), bytes("mine"));
    assert_eq!(pick(None, vec![false, true, true]), bytes("b"));
    assert_eq!(pick(None, vec![false, false, false]), bytes("pprof"));
    assert_eq!(pick(Some(vec![]), vec![true, false, false]), bytes(""));
}

#[test]
fn scripts_come_from_where_the_command_line_says() {
    let path = |s: &str| Some(bytes(s));
    assert_eq!(script_source(path("-"), None, vec![]), ScriptSource::Stdin);
    assert_eq!(script_source(None, None, vec![]), ScriptSource::Stdin);
    assert_eq!(script_source(path("x.txt"), None, vec![]), ScriptSource::File(bytes("x.txt")));
    assert_eq!(
        script_source(None, path("p.data"), args(&["--max-stack", "9"])),
        ScriptSource::Perf(args(&["script", "-i", "p.data", "--max-stack", "9"]))
    );
    assert_eq!(script_source(None, path("-"), vec![]), ScriptSource::Perf(args(&["script", "-i", "-"])));
}

fn stack(names: &[&str]) -> RawSample {
    RawSample {
        comm: "c".to_string(),
        pid: 1,
        tid: 1,
        event: "e".to_string(),
        period: 1,
        stack: names
            .iter()
            .map(|n| Frame { function: n.to_string(), address: 0, mapping: String::new() })
            .collect(),
    }
}

#[test]
fn frames_are_counted() {
    let samples = vec![
        stack(&["a", "[unknown] 0x1", "0x2", "main"]),
        stack(&["[unknown]", "main"]),
        stack(&[]),
        stack(&["a", "b", "c"]),
    ];
    assert_eq!(
        diagnose_samples(&samples),
        Diagnostics {
            sample_count: 4,
            frame_count: 9,
            shallow_count: 2,
            unknown_frame_count: 2,
            raw_address_frame_count: 2,
            app_frame_count: 2,
        }
    );
}

fn healthy() -> Diagnostics {
    Diagnostics {
        sample_count: 10,
        frame_count: 40,
        shallow_count: 4,
        unknown_frame_count: 8,
        raw_address_frame_count: 8,
        app_frame_count: 1,
    }
}

#[test]
fn counts_on_the_limit_are_no_bad_sign() {
    assert!(bad_signs(&healthy()).is_empty());
    let nothing = Diagnostics { sample_count: 0, frame_count: 0, shallow_count: 0, unknown_frame_count: 0, raw_address_frame_count: 0, app_frame_count: 0 };
    assert_eq!(bad_signs(&nothing), [BadSign::ShallowStacks, BadSign::NoMainFrames]);
}

#[test]
fn counts_past_the_limit_are_bad_signs() {
    let mut d = healthy();
    d.shallow_count = 5;
    assert_eq!(bad_signs(&d), [BadSign::ShallowStacks]);
    d = healthy();
    d.frame_count = 39;
    d.unknown_frame_count = 0;
    d.raw_address_frame_count = 0;
    assert_eq!(bad_signs(&d), [BadSign::ShallowStacks]);
    d = healthy();
    d.unknown_frame_count = 9;
    assert_eq!(bad_signs(&d), [BadSign::UnknownFrames]);
    d = healthy();
    d.raw_address_frame_count = 9;
    assert_eq!(bad_signs(&d), [BadSign::RawAddresses]);
    d = healthy();
    d.app_frame_count = 0;
    assert_eq!(bad_signs(&d), [BadSign::NoMainFrames]);
}

#[test]
fn limits_agree_with_floating_point() {
    let percent = |count: usize, total: usize| if total == 0 { 0.0 } else { (count as f64 * 100.0) / total as f64 };
    for sample_count in 0..14 {
        for frame_count in 0..60 {
            for part in 0..=sample_count.max(frame_count) {
                let d = Diagnostics {
                    sample_count,
                    frame_count,
                    shallow_count: part.min(sample_count),
                    unknown_frame_count: part.min(frame_count),
                    raw_address_frame_count: part.min(frame_count) / 2,
                    app_frame_count: part % 2,
                };
                let depth = if sample_count == 0 { 0.0 } else { frame_count as f64 / sample_count as f64 };
                let mut expected = Vec::new();
                if depth < 4.0 || percent(d.shallow_count, sample_count) > 40.0 {
                    expected.push(BadSign::ShallowStacks);
                }
                if percent(d.unknown_frame_count, frame_count) > 20.0 {
                    expected.push(BadSign::UnknownFrames);
                }
                if percent(d.raw_address_frame_count, frame_count) > 20.0 {
                    expected.push(BadSign::RawAddresses);
                }
                if d.app_frame_count == 0 {
                    expected.push(BadSign::NoMainFrames);
                }
                assert_eq!(bad_signs(&d), expected);
            }
        }
    }
}

#[test]
fn bad_signs_are_described() {
    assert_eq!(
        describe_sign(BadSign::ShallowStacks),
        "many samples are shallow; DWARF unwind may have failed or frame data may be incomplete"
    );
    assert_eq!(
        describe_sign(BadSign::UnknownFrames),
        "many frames are [unknown]; debug symbols, build IDs, or mappings may be missing"
    );
    assert_eq!(
        describe_sign(BadSign::RawAddresses),
        "many frames are raw addresses; symbolization may be incomplete"
    );
    assert_eq!(
        describe_sign(BadSign::NoMainFrames),
        "no main frames found; check that perf can find the profiled binary and debug info"
    );
}

#[test]
fn useful_stacks_reach_main_where_any_does() {
    let deep = stack(&["a", "b", "c", "d"]);
    let reaching = stack(&["x", "y", "main", "start"]);
    let short = stack(&["x", "main"]);
    assert_eq!(
        sample_useful_stacks(&vec![deep.clone(), short.clone(), reaching.clone()]),
        ["x <- y <- main <- start"]
    );
    assert_eq!(
        sample_useful_stacks(&vec![deep.clone(), short.clone(), deep.clone(), deep.clone(), deep.clone()]),
        ["a <- b <- c <- d"; 3]
    );
    assert!(sample_useful_stacks(&vec![short]).is_empty());
}
