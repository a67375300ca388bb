use perf2pprof::frame::{is_raw_address_frame, is_unknown_frame, looks_like_application_frame, parse_frame, strip_symbol_offset, Frame};
use perf2pprof::number::{is_hex, parse_hex, parse_i64, push_decimal, push_hex};
use perf2pprof::script::{flush_sample, parse_header, parse_perf_script, parse_pid_tid, RawSample, ScriptError};
use perf2pprof::text::{char_is_space, contains_chars, join_chars, last_position_of, position_of, split_words, to_chars, to_text, trim_chars};

#[test]
fn parses_perf_script_sample() {
    let input = b"test_bin 123/456 10.25: 99 cycles:P:\n\t400123 leaf+0x10 (/bin/test)\n\t400100 caller (/bin/test)\n\n";
    let samples = parse_perf_script(&input[..]).expect("parse");
    assert_eq!(samples.len(), 1);
    assert_eq!(samples[0].comm, "test_bin");
    assert_eq!(samples[0].pid, 123);
    assert_eq!(samples[0].tid, 456);
    assert_eq!(samples[0].period, 99);
    assert_eq!(samples[0].event, "cycles:P");
    assert_eq!(samples[0].stack[0].function, "leaf");
    assert_eq!(samples[0].stack[0].address, 0x400123);
    assert_eq!(samples[0].stack[0].mapping, "/bin/test");
}

#[test]
fn parses_padded_one_line_perf_script_samples() {
    let input = b"       perf-exec  185184 1272593.206833:         16 cycles:P:  ffffffff9e4c7c44 [unknown] ([unknown])\n test_fullnode_a  185184 1272593.208016:    1513175 cycles:P:      75f939c28504 strlen@plt+0x4 (/usr/lib/x86_64-linux-gnu/libc.so.6)\n";
    let samples = parse_perf_script(&input[..]).expect("parse");
    assert_eq!(samples.len(), 2);
    assert_eq!(samples[0].comm, "perf-exec");
    assert_eq!(samples[0].period, 16);
    assert_eq!(samples[0].stack.len(), 1);
    assert_eq!(samples[0].stack[0].function, "[unknown] 0xffffffff9e4c7c44");
    assert_eq!(samples[1].comm, "test_fullnode_a");
    assert_eq!(samples[1].period, 1513175);
    assert_eq!(samples[1].stack.len(), 1);
    assert_eq!(samples[1].stack[0].function, "strlen@plt");
    assert_eq!(samples[1].stack[0].mapping, "/usr/lib/x86_64-linux-gnu/libc.so.6");
}

#[test]
fn detects_raw_address_frames() {
    assert!(is_raw_address_frame("0x123abc"));
    assert!(is_raw_address_frame("[unknown] 0x123abc"));
    assert!(!is_raw_address_frame("example_function"));
}

fn frame(function: &str, address: u64, mapping: &str) -> Frame {
    Frame { function: function.to_string(), address, mapping: mapping.to_string() }
}

fn sample(stack: Vec<Frame>) -> RawSample {
    RawSample {
        comm: "c".to_string(),
        pid: 1,
        tid: 2,
        event: "e".to_string(),
        period: 3,
        stack,
    }
}

#[test]
fn white_space_is_that_of_unicode() {
    for c in '\0'..=char::MAX {
        assert_eq!(char_is_space(c), c.is_whitespace(), "{:?}", c);
    }
}

#[test]
fn text_is_taken_apart_and_joined() {
    let text = to_chars(" a\u{2003}bc \t d\u{e9} ");
    let words = split_words(&text);
    assert_eq!(words.len(), 3);
    assert_eq!(to_text(&join_chars(&words, ' ')), "a bc d\u{e9}");
    assert_eq!(to_text(trim_chars(&text)), "a\u{2003}bc \t d\u{e9}");
    assert_eq!(position_of(&text, 'b'), Some(3));
    assert_eq!(position_of(&text, 'z'), None);
    let hay = to_chars("ababa");
    assert_eq!(last_position_of(&hay, &to_chars("ab")), Some(2));
    assert_eq!(last_position_of(&hay, &to_chars("")), Some(5));
    assert_eq!(last_position_of(&hay, &to_chars("abc")), None);
    assert!(contains_chars(&hay, &to_chars("bab")));
    assert!(!contains_chars(&hay, &to_chars("bb")));
}

#[test]
fn decimal_numbers_are_read_like_std() {
    for s in [
        "", "+", "-", "0", "-0", "+7", "--1", "12a", " 1", "1 ", "007", "9223372036854775807",
        "9223372036854775808", "-9223372036854775808", "-9223372036854775809",
        "18446744073709551616", "99999999999999999999999", "\u{661}", "1_0", "1.5",
    ] {
        assert_eq!(parse_i64(&to_chars(s)), s.parse::<i64>().ok(), "{}", s);
    }
}

#[test]
fn hexadecimal_numbers_are_read_like_std() {
    for s in [
        "", "+", "-", "0", "+1f", "-1f", "ff", "FF", "0x1", "g", "ffffffffffffffff",
        "10000000000000000", "0000000000000000000001", " 1",
    ] {
        assert_eq!(parse_hex(&to_chars(s)), u64::from_str_radix(s, 16).ok(), "{}", s);
    }
}

#[test]
fn written_numbers_read_back() {
    for n in [0, 9, 10, 15, 16, 255, 256, 0x400123, u64::MAX - 1, u64::MAX] {
        let mut hex = String::from("x");
        push_hex(&mut hex, n);
        assert_eq!(hex, format!("x{:x}", n));
        let chars = to_chars(&hex[1..]);
        assert!(is_hex(&chars));
        assert_eq!(parse_hex(&chars), Some(n));
    }
    for n in [0, 9, 10, 99, 100, 1234567890, usize::MAX] {
        let mut decimal = String::new();
        push_decimal(&mut decimal, n);
        assert_eq!(decimal, n.to_string());
    }
    let mut decimal = String::new();
    push_decimal(&mut decimal, 9223372036854775807);
    assert_eq!(parse_i64(&to_chars(&decimal)), Some(i64::MAX));
    assert!(!is_hex(&[]));
    assert!(!is_hex(&['g']));
}

#[test]
fn offsets_are_stripped_from_symbols() {
    assert_eq!(strip_symbol_offset("leaf+0x10"), "leaf");
    assert_eq!(strip_symbol_offset("leaf+0xAf"), "leaf");
    assert_eq!(strip_symbol_offset("leaf+0x"), "leaf+0x");
    assert_eq!(strip_symbol_offset("leaf+0xzz"), "leaf+0xzz");
    assert_eq!(strip_symbol_offset("a+0x1+0x2"), "a+0x1");
    assert_eq!(strip_symbol_offset("a+0x1+0xz"), "a+0x1+0xz");
    assert_eq!(strip_symbol_offset("+0x1"), "");
    assert_eq!(strip_symbol_offset("plain"), "plain");
    assert_eq!(strip_symbol_offset("\u{e9}t\u{e9}+0x5"), "\u{e9}t\u{e9}");
}

#[test]
fn frames_are_read_from_lines() {
    let cases = [
        ("\t400123 leaf+0x10 (/bin/test)", frame("leaf", 0x400123, "/bin/test")),
        ("        0x10 f (m)", frame("f", 0x10, "m")),
        ("0x0x10 f (m)", frame("f", 0x10, "m")),
        ("zz f (m)", frame("f", 0, "m")),
        ("10", frame("[unknown] 0x10", 0x10, "")),
        ("0", frame("[unknown]", 0, "")),
        ("zz", frame("[unknown]", 0, "")),
        ("20 (m)", frame("(m)", 0x20, "")),
        ("20  (m)", frame("(m)", 0x20, "")),
        ("20 +0x4 (m)", frame("0x20", 0x20, "m")),
        ("zz +0x4 (m)", frame("0x0", 0, "m")),
        ("20 [unknown] ([unknown])", frame("[unknown] 0x20", 0x20, "[unknown]")),
        ("20 f(int) (m) (deleted))", frame("f(int) (m)", 0x20, "deleted")),
        ("20 f (m", frame("f", 0x20, "m")),
        ("20 f ()", frame("f", 0x20, "")),
        ("20 f ( m ))", frame("f", 0x20, "m")),
        ("20 operator new+0x1 (m)", frame("operator new", 0x20, "m")),
        ("ffffffffffffffff1 f (m)", frame("f", 0, "m")),
        ("+10 f", frame("f", 0x10, "")),
        ("10\u{a0}f (m)", frame("f", 0x10, "m")),
    ];
    for (line, expected) in cases {
        assert_eq!(parse_frame(line), Some(expected), "{:?}", line);
    }
    assert_eq!(parse_frame(""), None);
    assert_eq!(parse_frame(" \t\r"), None);
}

#[test]
fn printed_frames_read_back() {
    for address in [0, 1, 0xabcdef, u64::MAX] {
        for symbol in ["main", "a b", "f(int)", "x+0x1", "[unknown]"] {
            for mapping in ["", "/bin/test", "a b", "[kernel.kallsyms]"] {
                let line = format!("\t {:x} {}+0x{:x} ({})", address, symbol, 0x1f, mapping);
                let shown = if symbol == "[unknown]" && address != 0 {
                    format!("[unknown] 0x{:x}", address)
                } else {
                    symbol.to_string()
                };
                assert_eq!(parse_frame(&line), Some(frame(&shown, address, mapping)), "{:?}", line);
            }
        }
    }
}

#[test]
fn frame_names_are_classified() {
    assert!(is_unknown_frame("[unknown]"));
    assert!(is_unknown_frame("x[unknown]y"));
    assert!(!is_unknown_frame("unknown"));
    assert!(!is_raw_address_frame("0x"));
    assert!(!is_raw_address_frame("[unknown] 0x"));
    assert!(!is_raw_address_frame("[unknown]"));
    assert!(!is_raw_address_frame("0x12g"));
    assert!(is_raw_address_frame("0xABC"));
    assert!(looks_like_application_frame("main"));
    assert!(!looks_like_application_frame("main2"));
    assert!(!looks_like_application_frame("domain"));
}

#[test]
fn nameless_frames_show_their_address() {
    let shown = parse_frame("4f +0x1 (m)").expect("frame");
    assert_eq!(shown.function, "0x4f");
    assert!(is_raw_address_frame(&shown.function));
    let unknown = parse_frame("4f [unknown] (m)").expect("frame");
    assert!(is_unknown_frame(&unknown.function) && is_raw_address_frame(&unknown.function));
    let nowhere = parse_frame("0 [unknown] (m)").expect("frame");
    assert!(is_unknown_frame(&nowhere.function) && !is_raw_address_frame(&nowhere.function));
}

#[test]
fn process_and_thread_are_read() {
    assert_eq!(parse_pid_tid("123/456"), (123, 456));
    assert_eq!(parse_pid_tid("123"), (123, 123));
    assert_eq!(parse_pid_tid("-1"), (-1, -1));
    assert_eq!(parse_pid_tid("x/7"), (0, 7));
    assert_eq!(parse_pid_tid("7/"), (7, 0));
    assert_eq!(parse_pid_tid("1/2/3"), (1, 0));
    assert_eq!(parse_pid_tid(""), (0, 0));
}

#[test]
fn headers_are_read() {
    let s = parse_header("Web Content 10/11 5.5: 250 cpu-clock:pppH: ").expect("header");
    assert_eq!(s.comm, "Web Content");
    assert_eq!((s.pid, s.tid, s.period), (10, 11, 250));
    assert_eq!(s.event, "cpu-clock:pppH");
    assert!(s.stack.is_empty());

    let bare = parse_header("c 1 2: -3").expect("header");
    assert_eq!(bare.event, "event");
    assert_eq!(bare.period, -3);

    let inline = parse_header("c 1 2: 3 cycles:: 10   f   (m)").expect("header");
    assert_eq!(inline.event, "cycles");
    assert_eq!(inline.stack, vec![frame("f", 0x10, "m")]);

    assert!(parse_header("no colon here").is_none());
    assert!(parse_header("c 1 2:").is_none());
    assert!(parse_header("c 1 2: x cycles:").is_none());
    assert!(parse_header("1 2: 3 cycles:").is_none());
    assert!(parse_header("c 1 2:3: 4 cycles:").is_none());
    assert!(parse_header("c 1: 2: 3 cycles:").is_none());
}

#[test]
fn printed_headers_read_back() {
    let line = format!("  a bc {}/{} 12.5: {} instructions:u:", 7, i64::MAX, 0);
    let s = parse_header(&line).expect("header");
    assert_eq!(s.comm, "a bc");
    assert_eq!((s.pid, s.tid, s.period), (7, i64::MAX, 0));
    assert_eq!(s.event, "instructions:u");
}

#[test]
fn samples_without_frames_are_dropped() {
    let mut samples = Vec::new();
    flush_sample(&mut samples, None);
    flush_sample(&mut samples, Some(sample(vec![])));
    assert!(samples.is_empty());
    flush_sample(&mut samples, Some(sample(vec![frame("f", 1, "m")])));
    assert_eq!(samples.len(), 1);

    let input = b"a 1 2: 3 e:\n\nb 1 2: 3 e:\n\t10 f (m)\n";
    let samples = parse_perf_script(input).expect("parse");
    assert_eq!(samples.len(), 1);
    assert_eq!(samples[0].comm, "b");
    assert!(samples.iter().all(|s| !s.stack.is_empty()));
}

#[test]
fn lines_that_hold_nothing_are_passed_over() {
    let input = b"# a comment\n\t10 stray (m)\na 1 2: 3 e:\n  20 not indented enough (m)\n\t\n\t30 f (m)\n";
    assert!(parse_perf_script(input).expect("parse").is_empty());

    let input = b"a 1 2: 3 e:\nnoise\n       7 seven spaces (m)\n        8 eight (m)\n\t9 tab (m)\n";
    let samples = parse_perf_script(input).expect("parse");
    assert_eq!(samples[0].stack, vec![frame("eight", 8, "m"), frame("tab", 9, "m")]);
    assert!(parse_perf_script(b"").expect("parse").is_empty());
}

fn names(samples: &[RawSample]) -> Vec<String> {
    samples.iter().map(|s| s.stack[0].function.clone()).collect()
}

#[test]
fn blank_lines_and_headers_separate_samples() {
    let a = "a 1 2: 3 e:\n\t1 f (m)\n";
    let b = "b 1 2: 3 e:\n\t2 g (m)\n\t3 h (m)\n";
    for gap in ["", "\n", "   \t\n", "\r\n"] {
        let both = format!("{}{}{}", a, gap, b);
        let samples = parse_perf_script(both.as_bytes()).expect("parse");
        assert_eq!(names(&samples), ["f", "g"]);
        assert_eq!(samples[1].stack.len(), 2);
    }
    let late = parse_perf_script(b"a 1 2: 3 e:\n\t1 f (m)\n\n\t2 late (m)\n").expect("parse");
    assert_eq!(late.len(), 1);
    assert_eq!(late[0].stack.len(), 1);
}

#[test]
fn scripts_are_read_one_after_the_other() {
    let scripts: [&[u8]; 6] = [
        b"",
        b"\n",
        b"a 1 2: 3 e:\n\t1 f (m)\n",
        b"a 1 2: 3 e:\n\t1 f (m)",
        b"a 1 2: 3 e: 7 g (m)\r",
        b"\t1 stray (m)\nb 1 2: 3 e:\r\n\t2 h\r\n\t3 i (m)\r",
    ];
    for a in scripts {
        for b in scripts {
            let both = [a, b"\n\n", b].concat();
            let mut expected = names(&parse_perf_script(a).expect("parse"));
            expected.extend(names(&parse_perf_script(b).expect("parse")));
            let samples = parse_perf_script(&both).expect("parse");
            assert_eq!(names(&samples), expected);
            let frames: usize = samples.iter().map(|s| s.stack.len()).sum();
            let apart: usize = [a, b].iter().map(|s| parse_perf_script(s).expect("parse").iter().map(|x| x.stack.len()).sum::<usize>()).sum();
            assert_eq!(frames, apart);
        }
    }
}

#[test]
fn line_ends_follow_the_rules_of_text_files() {
    let samples = parse_perf_script(b"a 1 2: 3 e:\r\n\t1 f (m)\r\n\t2 g (m)").expect("parse");
    assert_eq!(samples[0].event, "e");
    assert_eq!(samples[0].stack, vec![frame("f", 1, "m"), frame("g", 2, "m")]);
}

#[test]
fn scripts_must_be_utf8() {
    let mut input = b"a 1 2: 3 e:\n\t1 f\xc3\xa9 (m)\n".to_vec();
    let samples = parse_perf_script(&input).expect("parse");
    assert_eq!(samples[0].stack[0].function, "f\u{e9}");
    input.extend_from_slice(b"\xff\n");
    assert_eq!(parse_perf_script(&input).err(), Some(ScriptError::InvalidUtf8));
    assert_eq!(parse_perf_script(b"\xc3").err(), Some(ScriptError::InvalidUtf8));
}
