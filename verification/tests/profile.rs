use std::io::Read;

use flate2::read::GzDecoder;
use perf2pprof::aggregate::aggregate;
use perf2pprof::convert::{build_profile, choose_samples, try_build_profile, ConvertError};
use perf2pprof::event::{event_matches, event_unit_name, is_one_event, normalize_event_name, select_event, EventError};
use perf2pprof::frame::Frame;
use perf2pprof::profile::{Function, Label, Line, Location, Mapping, Profile, Sample, ValueType};
use perf2pprof::script::RawSample;
use perf2pprof::tables::StringTable;
use perf2pprof::wire::{encode_profile, gzip_profile};

#[test]
fn builds_pprof_with_leaf_first_locations() {
    let samples = vec![RawSample {
        comm: "test_bin".to_string(),
        pid: 1,
        tid: 1,
        event: "cycles:P".to_string(),
        period: 7,
        stack: vec![
            Frame {
                function: "leaf".to_string(),
                address: 0x20,
                mapping: "/bin/test".to_string(),
            },
            Frame {
                function: "caller".to_string(),
                address: 0x10,
                mapping: "/bin/test".to_string(),
            },
        ],
    }];

    let profile = build_profile(samples, &[]).expect("profile");
    assert_eq!(profile.sample.len(), 1);
    assert_eq!(profile.sample[0].value, vec![1, 7]);
    assert_eq!(profile.sample[0].location_id.len(), 2);

    let leaf_loc = profile.sample[0].location_id[0];
    let location = profile
        .location
        .iter()
        .find(|loc| loc.id == leaf_loc)
        .expect("leaf location");
    let function = profile
        .function
        .iter()
        .find(|function| function.id == location.line[0].function_id)
        .expect("leaf function");
    assert_eq!(profile.string_table[function.name as usize], "leaf");
}

fn frame(function: &str, address: u64, mapping: &str) -> Frame {
    Frame { function: function.to_string(), address, mapping: mapping.to_string() }
}

fn sample(comm: &str, event: &str, period: i64, stack: Vec<Frame>) -> RawSample {
    RawSample {
        comm: comm.to_string(),
        pid: 10,
        tid: 11,
        event: event.to_string(),
        period,
        stack,
    }
}

fn leaf() -> Frame {
    frame("leaf", 0x20, "/bin/a")
}

fn main_frame() -> Frame {
    frame("main", 0x10, "/bin/a")
}

fn recorded() -> Vec<RawSample> {
    vec![
        sample("one", "cycles:P", 5, vec![leaf(), main_frame()]),
        sample("none", "cycles:P", 100, vec![]),
        sample("two", "cycles:u", 7, vec![frame("leaf", 0x24, "/bin/b"), main_frame()]),
        sample("three", "cycles:P", 11, vec![leaf(), main_frame()]),
    ]
}

fn text<'a>(p: &'a Profile, id: i64) -> &'a str {
    &p.string_table[id as usize]
}

#[test]
fn profile_is_laid_out_in_order_of_first_use() {
    let comments = vec!["note".to_string(), "main".to_string()];
    let p = build_profile(recorded(), &comments).expect("profile");
    assert_eq!(
        p.string_table,
        [
            "", "samples", "count", "cycles_P", "cycles", "[perf script]", "comm", "pid", "tid",
            "event", "leaf", "/bin/a", "main", "one", "cycles:P", "two", "cycles:u", "note",
            "generated by perf2pprof from perf script stacks",
        ]
    );
    let expected = Profile {
        sample_type: vec![ValueType { kind: 1, unit: 2 }, ValueType { kind: 3, unit: 4 }],
        sample: vec![
            Sample {
                location_id: vec![1, 2],
                value: vec![2, 16],
                label: vec![
                    Label { key: 6, str: 13, num: 0, num_unit: 0 },
                    Label { key: 7, str: 0, num: 10, num_unit: 2 },
                    Label { key: 8, str: 0, num: 11, num_unit: 2 },
                    Label { key: 9, str: 14, num: 0, num_unit: 0 },
                ],
            },
            Sample {
                location_id: vec![3, 2],
                value: vec![1, 7],
                label: vec![
                    Label { key: 6, str: 15, num: 0, num_unit: 0 },
                    Label { key: 7, str: 0, num: 10, num_unit: 2 },
                    Label { key: 8, str: 0, num: 11, num_unit: 2 },
                    Label { key: 9, str: 16, num: 0, num_unit: 0 },
                ],
            },
        ],
        mapping: vec![Mapping {
            id: 1,
            memory_start: 0,
            memory_limit: u64::MAX,
            file_offset: 0,
            filename: 5,
            build_id: 0,
            has_functions: true,
            has_filenames: false,
            has_line_numbers: false,
            has_inline_frames: false,
        }],
        location: vec![location(1, 0x20, 1), location(2, 0x10, 2), location(3, 0x24, 1)],
        function: vec![
            Function { id: 1, name: 10, system_name: 10, filename: 11, start_line: 0 },
            Function { id: 2, name: 12, system_name: 12, filename: 11, start_line: 0 },
        ],
        string_table: p.string_table.clone(),
        drop_frames: 0,
        keep_frames: 0,
        time_nanos: 0,
        duration_nanos: 0,
        period_type: Some(ValueType { kind: 3, unit: 4 }),
        period: 0,
        comment: vec![17, 12, 18],
        default_sample_type: 3,
    };
    assert_eq!(p, expected);
}

fn location(id: u64, address: u64, function_id: u64) -> Location {
    Location {
        id,
        mapping_id: 1,
        address,
        line: vec![Line { function_id, line: 0, column: 0 }],
        is_folded: false,
    }
}

#[test]
fn string_tables_are_valid() {
    let p = build_profile(recorded(), &[]).expect("profile");
    assert_eq!(p.string_table[0], "");
    for (i, s) in p.string_table.iter().enumerate() {
        assert!(!p.string_table[..i].contains(s), "{}", s);
    }
}

#[test]
fn sample_types_name_the_count_and_the_event() {
    let p = build_profile(recorded(), &[]).expect("profile");
    assert_eq!(text(&p, p.sample_type[0].kind), "samples");
    assert_eq!(text(&p, p.sample_type[0].unit), "count");
    assert_eq!(text(&p, p.sample_type[1].kind), "cycles_P");
    assert_eq!(text(&p, p.sample_type[1].unit), "cycles");
    assert_eq!(p.default_sample_type, p.sample_type[1].kind);
    assert_eq!(p.period_type, Some(p.sample_type[1]));
}

#[test]
fn stacks_and_labels_lead_back_to_the_samples() {
    let p = build_profile(recorded(), &[]).expect("profile");
    let stacks = [vec![leaf(), main_frame()], vec![frame("leaf", 0x24, "/bin/b"), main_frame()]];
    for (s, stack) in p.sample.iter().zip(stacks.iter()) {
        assert_eq!(s.location_id.len(), stack.len());
        for (id, f) in s.location_id.iter().zip(stack.iter()) {
            let l = &p.location[*id as usize - 1];
            assert_eq!((l.id, l.address, l.mapping_id), (*id, f.address, p.mapping[0].id));
            let function = &p.function[l.line[0].function_id as usize - 1];
            assert_eq!(function.id, l.line[0].function_id);
            assert_eq!(text(&p, function.name), f.function);
            assert_eq!(text(&p, function.system_name), f.function);
            assert_eq!(text(&p, function.filename), "/bin/a");
        }
        let keys: Vec<&str> = s.label.iter().map(|l| text(&p, l.key)).collect();
        assert_eq!(keys, ["comm", "pid", "tid", "event"]);
    }
    assert_eq!(text(&p, p.sample[1].label[0].str), "two");
    assert_eq!(text(&p, p.sample[1].label[3].str), "cycles:u");
    assert_eq!(text(&p, p.sample[0].label[1].num_unit), "count");
}

#[test]
fn values_add_up_and_stacks_are_merged() {
    let p = build_profile(recorded(), &[]).expect("profile");
    let count: i64 = p.sample.iter().map(|s| s.value[0]).sum();
    let period: i64 = p.sample.iter().map(|s| s.value[1]).sum();
    assert_eq!((count, period), (3, 23));
    assert_ne!(p.sample[0].location_id, p.sample[1].location_id);
}

#[test]
fn comments_come_before_the_origin() {
    let comments = vec!["b".to_string(), "a".to_string(), "b".to_string()];
    let p = build_profile(recorded(), &comments).expect("profile");
    let shown: Vec<&str> = p.comment.iter().map(|id| text(&p, *id)).collect();
    assert_eq!(shown, ["b", "a", "b", "generated by perf2pprof from perf script stacks"]);
    assert_eq!(text(&p, p.mapping[0].filename), "[perf script]");
}

#[test]
fn no_samples_make_an_empty_profile() {
    let p = build_profile(vec![], &[]).expect("profile");
    assert!(p.sample.is_empty() && p.location.is_empty() && p.function.is_empty());
    assert_eq!(text(&p, p.sample_type[1].kind), "event");
    assert_eq!(text(&p, p.sample_type[1].unit), "count");
    assert_eq!(p.string_table.len(), 9);
}

#[test]
fn sums_that_leave_their_range_are_refused() {
    let too_much = vec![
        sample("a", "e", i64::MAX, vec![leaf()]),
        sample("a", "e", 1, vec![leaf()]),
    ];
    assert_eq!(try_build_profile(too_much.clone(), &[]), Err(ConvertError::OutOfRange));
    assert!(aggregate(too_much).is_none());
    let apart = vec![
        sample("a", "e", i64::MAX, vec![leaf()]),
        sample("a", "e", 1, vec![main_frame()]),
    ];
    let p = try_build_profile(apart, &[]).expect("profile");
    assert_eq!(p.sample[0].value, [1, i64::MAX]);
}

#[test]
fn samples_are_counted_by_stack() {
    let a = aggregate(recorded()).expect("aggregate");
    assert_eq!(a.stacks.len(), 2);
    assert_eq!(a.stacks.get(0).0, vec![leaf(), main_frame()]);
    assert_eq!((a.totals[0].samples, a.totals[0].period), (2, 16));
    assert_eq!(a.totals[0].comm, "one");
    assert_eq!((a.totals[1].samples, a.totals[1].period), (1, 7));
    assert_eq!(a.event, "cycles:P");
}

#[test]
fn strings_are_numbered_once() {
    let mut table = StringTable::new();
    assert_eq!(table.intern(""), 0);
    assert_eq!(table.intern("a"), 1);
    assert_eq!(table.intern("b"), 2);
    assert_eq!(table.intern("a"), 1);
    assert_eq!(table.find("b"), Some(2));
    assert_eq!(table.find("c"), None);
    assert_eq!(table.into_values(), ["", "a", "b"]);
}

#[test]
fn numbers_tell_strings_apart() {
    let words = ["a", "", "b", "a", "\u{e9}", "b", "ab", ""];
    for i in 0..words.len() {
        for j in i + 1..words.len() {
            let mut table = StringTable::new();
            let numbers: Vec<i64> = words[i..=j].iter().map(|w| table.intern(w)).collect();
            assert_eq!(numbers[0] == numbers[j - i], words[i] == words[j]);
            assert_eq!(table.intern(words[i]), numbers[0]);
            let values = table.into_values();
            assert_eq!(values[0], "");
            assert_eq!(values[numbers[0] as usize], words[i]);
        }
    }
}

#[test]
fn event_names_are_normalized() {
    for (event, name) in [("cycles:P", "cycles_P"), ("cycles:P::", "cycles_P"), ("a:b:c", "a_b_c"), (":", ""), ("", ""), (":x", "_x")] {
        assert_eq!(normalize_event_name(event), name);
        assert_eq!(normalize_event_name(name), name);
    }
}

#[test]
fn event_units_follow_the_name() {
    assert_eq!(event_unit_name("cpu-cycles:u"), "cycles");
    assert_eq!(event_unit_name("instructions:u"), "instructions");
    assert_eq!(event_unit_name("cycles-per-instructions"), "cycles");
    assert_eq!(event_unit_name("cache-misses"), "count");
}

#[test]
fn selectors_match_with_or_without_modifiers() {
    assert!(event_matches("cycles", "cycles:P"));
    assert!(event_matches("cycles:P", "cycles:P"));
    assert!(event_matches("cycles", "cycles"));
    assert!(!event_matches("cycles:u", "cycles:P"));
    assert!(!event_matches("cycle", "cycles"));
    assert!(event_matches("sched:sched_switch", "sched:sched_switch"));
    assert!(!event_matches("sched", "sched:sched_switch"));
    assert!(event_matches("L1-dcache-load-misses", "L1-dcache-load-misses:u"));
    assert!(!event_matches("a", "a:"));
}

fn mixed() -> Vec<RawSample> {
    vec![
        sample("a", "cycles:P", 1, vec![leaf()]),
        sample("b", "instructions", 2, vec![leaf()]),
        sample("c", "cycles", 3, vec![leaf()]),
    ]
}

fn comms(samples: &[RawSample]) -> Vec<&str> {
    samples.iter().map(|s| s.comm.as_str()).collect()
}

#[test]
fn one_event_is_selected() {
    let kept = select_event(mixed(), Some("cycles")).expect("selection");
    assert_eq!(comms(&kept), ["a", "c"]);
    assert_eq!(comms(&select_event(kept.clone(), Some("cycles")).expect("again")), ["a", "c"]);
    assert_eq!(comms(&select_event(kept, None).expect("one event")), ["a", "c"]);
    assert!(select_event(mixed(), Some("page-faults")).expect("none").is_empty());
    assert_eq!(select_event(mixed(), None).err(), Some(EventError::MultipleEvents));
    assert!(select_event(vec![], None).expect("nothing").is_empty());
}

#[test]
fn tracepoints_of_one_group_are_different_events() {
    let traced = || vec![
        sample("a", "kmem:kmalloc", 1, vec![leaf()]),
        sample("b", "kmem:kfree", 2, vec![leaf()]),
    ];
    assert_eq!(select_event(traced(), None).err(), Some(EventError::MultipleEvents));
    assert!(select_event(traced(), Some("kmem")).expect("selection").is_empty());
    let freed = select_event(traced(), Some("kmem:kfree")).expect("selection");
    assert_eq!(comms(&freed), ["b"]);
    assert_eq!(try_build_profile(traced(), &[]), Err(ConvertError::MultipleEvents));
    let script = b"a 1 2: 1 kmem:kmalloc:\n\t1 f (m)\n\na 1 2: 2 kmem:kfree:\n\t1 f (m)\n";
    assert_eq!(choose_samples(script, None).err(), Some(ConvertError::MultipleEvents));
    assert!(!event_matches("kmem", "kmem:kfree"));
    assert!(event_matches("kmem:kfree", "kmem:kfree:u"));
}

#[test]
fn modifiers_are_the_letters_of_perf() {
    for modifier in "ukhIGHpPSDWebRX".chars() {
        assert!(event_matches("cycles", &format!("cycles:{}", modifier)));
    }
    assert!(event_matches("cycles", "cycles:uppp"));
    for other in ["a", "x", "uz", "1", "", "U"] {
        assert!(!event_matches("cycles", &format!("cycles:{}", other)), "{}", other);
    }
    assert!(!event_matches("a:u", "a:u:k"));
}

#[test]
fn periods_of_different_events_are_not_added_up() {
    let f = || frame("f", 0x10, "/m");
    let samples = || vec![
        RawSample { comm: "a".to_string(), pid: 1, tid: 1, event: "cycles".to_string(), period: 5, stack: vec![f()] },
        RawSample { comm: "a".to_string(), pid: 1, tid: 1, event: "instructions".to_string(), period: 7, stack: vec![f()] },
    ];
    assert_eq!(build_profile(samples(), &[]), Err(ConvertError::MultipleEvents));
    assert_eq!(try_build_profile(samples(), &[]), Err(ConvertError::MultipleEvents));
    assert!(!is_one_event(&samples()));
    let p = build_profile(select_event(samples(), Some("cycles")).expect("selection"), &[]);
    assert_eq!(p.expect("profile").sample[0].value, [1, 5]);
}

#[test]
fn profiles_are_of_the_event_that_they_are_named_after() {
    let p = build_profile(recorded(), &[]).expect("profile");
    assert_eq!(text(&p, p.default_sample_type), "cycles_P");
    for s in &p.sample {
        assert!(event_matches("cycles", text(&p, s.label[3].str)));
    }
}

#[test]
fn samples_without_frames_do_not_change_a_profile() {
    let mut with: Vec<RawSample> = recorded();
    with.insert(0, sample("x", "instructions", i64::MAX, vec![]));
    with.push(sample("y", "page-faults", i64::MIN, vec![]));
    let without: Vec<RawSample> = with.iter().filter(|s| !s.stack.is_empty()).cloned().collect();
    assert_eq!(without.len(), 3);
    assert!(is_one_event(&with));
    assert_eq!(build_profile(with, &[]), build_profile(without, &[]));
}

const SCRIPT: &[u8] = b"a 1 2: 3 cycles:P:\n\t1 f (m)\n\na 1 2: 4 instructions:u:\n\t1 f (m)\n\n";

#[test]
fn samples_to_convert_are_chosen() {
    let kept = choose_samples(SCRIPT, Some("instructions")).expect("samples");
    assert_eq!(kept.len(), 1);
    assert_eq!(kept[0].period, 4);
    assert_eq!(choose_samples(SCRIPT, None).err(), Some(ConvertError::MultipleEvents));
    assert_eq!(choose_samples(SCRIPT, Some("x")).err(), Some(ConvertError::NoSamples));
    assert_eq!(choose_samples(b"", None).err(), Some(ConvertError::NoSamples));
    assert_eq!(choose_samples(b"\xff", None).err(), Some(ConvertError::InvalidUtf8));
}

fn empty_profile() -> Profile {
    Profile {
        sample_type: vec![],
        sample: vec![],
        mapping: vec![],
        location: vec![],
        function: vec![],
        string_table: vec![],
        drop_frames: 0,
        keep_frames: 0,
        time_nanos: 0,
        duration_nanos: 0,
        period_type: None,
        period: 0,
        comment: vec![],
        default_sample_type: 0,
    }
}

#[test]
fn encoding_follows_the_wire_format() {
    assert_eq!(encode_profile(&empty_profile()), b"");
    let mut p = empty_profile();
    p.sample_type = vec![ValueType { kind: 1, unit: 300 }];
    p.sample = vec![Sample {
        location_id: vec![1, 128],
        value: vec![-1],
        label: vec![Label { key: 2, str: 0, num: -2, num_unit: 0 }],
    }];
    p.mapping = vec![Mapping {
        id: 1,
        memory_start: 0,
        memory_limit: u64::MAX,
        file_offset: 0,
        filename: 5,
        build_id: 0,
        has_functions: true,
        has_filenames: false,
        has_line_numbers: false,
        has_inline_frames: true,
    }];
    p.location = vec![location(1, 0x20, 1)];
    p.function = vec![Function { id: 1, name: 2, system_name: 2, filename: 0, start_line: 0 }];
    p.string_table = vec!["".to_string(), "\u{e9}a".to_string()];
    p.period_type = Some(ValueType { kind: 0, unit: 0 });
    p.comment = vec![3];
    p.default_sample_type = 16384;
    let mut expected: Vec<u8> = vec![
        0x0a, 5, 0x08, 1, 0x10, 0xac, 0x02, // sample type
        0x12, 32, 0x0a, 3, 1, 0x80, 0x01, 0x12, 10, // locations, value
    ];
    expected.extend_from_slice(&[0xff; 9]);
    expected.extend_from_slice(&[0x01, 0x1a, 13, 0x08, 2, 0x18, 0xfe]);
    expected.extend_from_slice(&[0xff; 8]);
    expected.extend_from_slice(&[0x01, 0x1a, 19, 0x08, 1, 0x18]);
    expected.extend_from_slice(&[0xff; 9]);
    expected.extend_from_slice(&[0x01, 0x28, 5, 0x38, 1, 0x50, 1]);
    expected.extend_from_slice(&[0x22, 10, 0x08, 1, 0x10, 1, 0x18, 0x20, 0x22, 2, 0x08, 1]);
    expected.extend_from_slice(&[0x2a, 6, 0x08, 1, 0x10, 2, 0x18, 2]);
    expected.extend_from_slice(&[0x32, 0, 0x32, 3, 0xc3, 0xa9, 0x61]);
    expected.extend_from_slice(&[0x5a, 0, 0x6a, 1, 3, 0x70, 0x80, 0x80, 0x01]);
    assert_eq!(encode_profile(&p), expected);
}

#[test]
fn different_profiles_are_encoded_differently() {
    let p = build_profile(recorded(), &[]).expect("profile");
    let mut q = p.clone();
    q.sample[0].location_id = vec![2, 1];
    assert_ne!(encode_profile(&p), encode_profile(&q));
    let mut r = p.clone();
    r.string_table.push(String::new());
    assert_ne!(encode_profile(&p), encode_profile(&r));
    assert_eq!(encode_profile(&p), encode_profile(&p.clone()));
}

#[test]
fn encoded_profiles_read_back() {
    let p = build_profile(recorded(), &["n\u{e9}".to_string()]).expect("profile");
    let encoded = encode_profile(&p);
    let mut rest: &[u8] = &encoded;
    let mut strings = Vec::new();
    let mut comments = Vec::new();
    let mut samples = 0;
    let mut default_sample_type = 0;
    while !rest.is_empty() {
        let (tag, _) = prost::encoding::decode_key(&mut rest).expect("key");
        let value = prost::encoding::decode_varint(&mut rest).expect("number");
        if tag == 14 {
            default_sample_type = value as i64;
            continue;
        }
        let (mut body, behind) = rest.split_at(value as usize);
        rest = behind;
        match tag {
            2 => samples += 1,
            6 => strings.push(String::from_utf8(body.to_vec()).expect("text")),
            13 => while !body.is_empty() {
                comments.push(prost::encoding::decode_varint(&mut body).expect("number") as i64);
            },
            _ => {}
        }
    }
    assert_eq!(strings, p.string_table);
    assert_eq!(comments, p.comment);
    assert_eq!(samples, p.sample.len());
    assert_eq!(default_sample_type, p.default_sample_type);
}

#[test]
fn compressed_profiles_expand_to_the_encoding() {
    let p = build_profile(recorded(), &["note".to_string()]).expect("profile");
    let file = gzip_profile(&p).expect("compress");
    assert_eq!(file[..2], [0x1f, 0x8b]);
    assert_eq!(gzip_profile(&p), Ok(file.clone()));
    let mut expanded = Vec::new();
    GzDecoder::new(&file[..]).read_to_end(&mut expanded).expect("expand");
    assert_eq!(expanded, encode_profile(&p));
}
