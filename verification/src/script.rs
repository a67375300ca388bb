//! `perf script` output: sample headers, the frames under them, and the
//! division of a script into samples.

use vstd::prelude::*;
use vstd::slice::slice_subrange;

use crate::frame;
use crate::frame::{Frame, FrameView};
use crate::number;
use crate::text;

verus! {

/// One sample as the script records it, leaf frame first.
#[derive(Debug, Clone)]
pub struct RawSample {
    pub comm: String,
    pub pid: i64,
    pub tid: i64,
    pub event: String,
    pub period: i64,
    pub stack: Vec<Frame>,
}

/// What a sample says.
pub struct SampleView {
    pub comm: Seq<char>,
    pub pid: i64,
    pub tid: i64,
    pub event: Seq<char>,
    pub period: i64,
    pub stack: Seq<FrameView>,
}

impl View for RawSample {
    type V = SampleView;

    open spec fn view(&self) -> SampleView {
        SampleView {
            comm: self.comm@,
            pid: self.pid,
            tid: self.tid,
            event: self.event@,
            period: self.period,
            stack: frame::stack_view(self.stack@),
        }
    }
}

/// Why a script cannot be read.
#[derive(Debug, Clone, Copy, PartialEq, Eq, Structural)]
pub enum ScriptError {
    /// A line is not valid UTF-8.
    InvalidUtf8,
}

/// What a list of samples says.
pub open spec fn samples_view(samples: Seq<RawSample>) -> Seq<SampleView> {
    Seq::new(samples.len(), |i: int| samples[i]@)
}

/// What an optional sample says.
pub open spec fn sample_option_view(sample: Option<RawSample>) -> Option<SampleView> {
    match sample {
        Some(s) => Some(s@),
        None => None,
    }
}

/// The number in `s`, zero where there is none.
pub open spec fn id_of(s: Seq<char>) -> i64 {
    match number::i64_value(s) {
        Some(v) => v,
        None => 0,
    }
}

/// The process and thread of `pid/tid`; a single number is both.
pub open spec fn pid_tid_of(value: Seq<char>) -> (i64, i64) {
    match text::find_char(value, '/') {
        Some(i) => (id_of(value.take(i)), id_of(value.skip(i + 1))),
        None => (id_of(value), id_of(value)),
    }
}

/// The sample that a header line `comm pid/tid time: period event: frame`
/// opens. The header ends at its first colon, the command may have several
/// words, and the event and the frame may be missing.
pub open spec fn header_of(line: Seq<char>) -> Option<SampleView> {
    match text::find_char(line, ':') {
        None => None,
        Some(i) => {
            let left = text::words(line.take(i));
            let right = text::words(text::trim(line.skip(i + 1)));
            if right.len() == 0 || number::i64_value(right[0]) is None || left.len() < 3 {
                None
            } else {
                let inline_words = if right.len() > 2 {
                    right.skip(2)
                } else {
                    seq![]
                };
                let inline_frame = text::join(inline_words, seq![' ']);
                let (pid, tid) = pid_tid_of(left[left.len() - 2]);
                Some(
                    SampleView {
                        comm: text::join(left.take(left.len() - 2), seq![' ']),
                        pid,
                        tid,
                        event: if right.len() > 1 {
                            text::trim_end_char(right[1], ':')
                        } else {
                            "event"@
                        },
                        period: number::i64_value(right[0])->0,
                        stack: match frame::frame_of(inline_frame) {
                            Some(f) => seq![f],
                            None => seq![],
                        },
                    },
                )
            }
        },
    }
}

/// `samples` with one more, unless there is none or it has no frames.
pub open spec fn flushed(samples: Seq<SampleView>, sample: Option<SampleView>) -> Seq<SampleView> {
    match sample {
        Some(s) => if s.stack.len() > 0 {
            samples.push(s)
        } else {
            samples
        },
        None => samples,
    }
}

/// A line that may hold a frame: it starts with a tab or with eight spaces.
pub open spec fn indented(line: Seq<char>) -> bool {
    (line.len() > 0 && line[0] == '\t') || "        "@.is_prefix_of(line)
}

/// What has been read of a script: the finished samples, and the one that
/// frames are still added to.
pub struct Scan {
    pub done: Seq<SampleView>,
    pub current: Option<SampleView>,
}

/// One more line. A blank line closes the open sample, a header closes it and
/// opens the next, and an indented line adds its frame to it. Any other line,
/// and a frame outside a sample, is passed over.
pub open spec fn scan_line(scan: Scan, line: Seq<char>) -> Scan {
    if text::trim(line).len() == 0 {
        Scan { done: flushed(scan.done, scan.current), current: None }
    } else if header_of(line) is Some {
        Scan { done: flushed(scan.done, scan.current), current: header_of(line) }
    } else {
        match (scan.current, frame::frame_of(line)) {
            (Some(sample), Some(f)) => if indented(line) {
                Scan {
                    done: scan.done,
                    current: Some(SampleView { stack: sample.stack.push(f), ..sample }),
                }
            } else {
                scan
            },
            _ => scan,
        }
    }
}

/// The state after `lines`, from the state before them.
pub open spec fn scan_lines(start: Scan, lines: Seq<Seq<char>>) -> Scan
    decreases lines.len(),
{
    if lines.len() == 0 {
        start
    } else {
        scan_line(scan_lines(start, lines.drop_last()), lines.last())
    }
}

/// The state in which nothing has been read.
pub open spec fn scan_start() -> Scan {
    Scan { done: seq![], current: None }
}

/// The samples that the lines of a script hold.
pub open spec fn samples_of(lines: Seq<Seq<char>>) -> Seq<SampleView> {
    let end = scan_lines(scan_start(), lines);
    flushed(end.done, end.current)
}

/// The length of the first line, without its newline.
pub open spec fn line_len(bytes: Seq<u8>) -> nat
    decreases bytes.len(),
{
    if bytes.len() == 0 || bytes[0] == 10 {
        0
    } else {
        1 + line_len(bytes.skip(1))
    }
}

/// A line without the carriage return that it may end with.
pub open spec fn without_return(line: Seq<u8>) -> Seq<u8> {
    if line.len() > 0 && line.last() == 13 {
        line.drop_last()
    } else {
        line
    }
}

/// The lines of a byte stream. A newline ends a line, and the carriage return
/// before it is not part of the line; the last line needs no newline.
pub open spec fn byte_lines(bytes: Seq<u8>) -> Seq<Seq<u8>>
    decreases bytes.len(),
    via byte_lines_decreases
{
    if bytes.len() == 0 {
        seq![]
    } else {
        let n = line_len(bytes) as int;
        if n < bytes.len() {
            seq![without_return(bytes.take(n))] + byte_lines(bytes.skip(n + 1))
        } else {
            seq![bytes]
        }
    }
}

#[via_fn]
proof fn byte_lines_decreases(bytes: Seq<u8>) {
}

/// Every line is valid UTF-8.
pub open spec fn all_valid(lines: Seq<Seq<u8>>) -> bool {
    forall|i: int| 0 <= i < lines.len() ==> vstd::utf8::valid_utf8(#[trigger] lines[i])
}

/// The characters of each line.
pub open spec fn decoded(lines: Seq<Seq<u8>>) -> Seq<Seq<char>> {
    Seq::new(lines.len(), |i: int| vstd::utf8::decode_utf8(lines[i]))
}

/// The samples of a script; `None` where it is not UTF-8.
pub open spec fn script_samples(input: Seq<u8>) -> Option<Seq<SampleView>> {
    let lines = byte_lines(input);
    if all_valid(lines) {
        Some(samples_of(decoded(lines)))
    } else {
        None
    }
}

/// The length of the first line is in range, and what follows is a newline.
proof fn lemma_line_len(bytes: Seq<u8>)
    ensures
        line_len(bytes) <= bytes.len(),
        line_len(bytes) < bytes.len() ==> bytes[line_len(bytes) as int] == 10,
    decreases bytes.len(),
{
    if bytes.len() > 0 && bytes[0] != 10 {
        lemma_line_len(bytes.skip(1));
    }
}

/// `str::from_utf8` accepts exactly the valid UTF-8, and gives the characters
/// that the bytes encode.
#[verifier::external_body]
pub(crate) fn decode(bytes: &[u8]) -> (r: Option<&str>)
    ensures
        r is Some <==> vstd::utf8::valid_utf8(bytes@),
        r matches Some(s) ==> s@ == vstd::utf8::decode_utf8(bytes@),
{
    std::str::from_utf8(bytes).ok()
}

/// The number in `s`, zero where there is none.
fn parse_id(s: &[char]) -> (r: i64)
    ensures
        r == id_of(s@),
{
    match number::parse_i64(s) {
        Some(v) => v,
        None => 0,
    }
}

/// Reads `pid/tid` from the characters of a word.
fn pid_tid_from_chars(value: &[char]) -> (r: (i64, i64))
    ensures
        r == pid_tid_of(value@),
{
    let len: usize = value.len();
    match text::position_of(value, '/') {
        Some(i) => (
            parse_id(slice_subrange(value, 0, i)),
            parse_id(slice_subrange(value, i + 1, len)),
        ),
        None => {
            let pid: i64 = parse_id(value);
            (pid, pid)
        },
    }
}

/// Reads `pid/tid`; a single number is both.
pub fn parse_pid_tid(value: &str) -> (r: (i64, i64))
    ensures
        r == pid_tid_of(value@),
{
    let chars = text::to_chars(value);
    pid_tid_from_chars(chars.as_slice())
}

/// Reads a sample header from the characters of a line.
pub fn header_from_chars(line: &[char]) -> (r: Option<RawSample>)
    ensures
        sample_option_view(r) == header_of(line@),
{
    let len: usize = line.len();
    let colon: usize = match text::position_of(line, ':') {
        Some(i) => i,
        None => {
            return None;
        },
    };
    let left = text::split_words(slice_subrange(line, 0, colon));
    let right = text::split_words(text::trim_chars(slice_subrange(line, colon + 1, len)));
    let ghost left_words = text::words(line@.take(colon as int));
    let ghost right_words = text::words(text::trim(line@.skip(colon + 1)));
    assert(line@.subrange(0, colon as int) == line@.take(colon as int));
    assert(line@.subrange(colon + 1, len as int) == line@.skip(colon + 1));
    assert(text::texts(left@) == left_words);
    assert(text::texts(right@) == right_words);
    if right.len() == 0 {
        return None;
    }
    assert(right_words[0] == right@[0]@);
    let period: i64 = match number::parse_i64(right[0]) {
        Some(v) => v,
        None => {
            return None;
        },
    };
    if left.len() < 3 {
        return None;
    }
    let n: usize = left.len();
    assert(left_words[n - 2] == left@[n - 2]@);
    let (pid, tid) = pid_tid_from_chars(left[n - 2]);
    let comm_words = slice_subrange(left.as_slice(), 0, n - 2);
    assert(text::texts(comm_words@) == left_words.take(n - 2));
    let comm = text::join_chars(comm_words, ' ');
    let event: String = if right.len() > 1 {
        assert(right_words[1] == right@[1]@);
        text::to_text(text::trim_end_char_chars(right[1], ':'))
    } else {
        String::from_str("event")
    };
    let first: usize = if right.len() > 2 {
        2
    } else {
        right.len()
    };
    let frame_words = slice_subrange(right.as_slice(), first, right.len());
    let inline_frame = text::join_chars(frame_words, ' ');
    assert(text::texts(frame_words@) == if right_words.len() > 2 {
        right_words.skip(2)
    } else {
        seq![]
    });
    let mut stack: Vec<Frame> = Vec::new();
    if let Some(f) = frame::frame_from_chars(inline_frame.as_slice()) {
        stack.push(f);
    }
    let sample = RawSample { comm: text::to_text(comm.as_slice()), pid, tid, event, period, stack };
    assert(sample@.stack == header_of(line@)->0.stack);
    Some(sample)
}

/// Reads a sample header from a line of text.
pub fn parse_header(line: &str) -> (r: Option<RawSample>)
    ensures
        sample_option_view(r) == header_of(line@),
{
    let chars = text::to_chars(line);
    header_from_chars(chars.as_slice())
}

/// Adds a sample that has frames.
pub fn flush_sample(samples: &mut Vec<RawSample>, sample: Option<RawSample>)
    ensures
        final(samples)@ == (match sample {
            Some(s) => if s.stack@.len() > 0 {
                old(samples)@.push(s)
            } else {
                old(samples)@
            },
            None => old(samples)@,
        }),
        samples_view(final(samples)@) == flushed(
            samples_view(old(samples)@),
            sample_option_view(sample),
        ),
{
    if let Some(s) = sample {
        if s.stack.len() > 0 {
            samples.push(s);
        }
    }
    assert(samples_view(samples@) == flushed(
        samples_view(old(samples)@),
        sample_option_view(sample),
    ));
}

/// Takes one line into the samples that have been read.
fn read_line(samples: &mut Vec<RawSample>, current: Option<RawSample>, line: &[char]) -> (r: Option<
    RawSample,
>)
    ensures
        (Scan {
            done: samples_view(final(samples)@),
            current: sample_option_view(r),
        }) == scan_line(
            Scan { done: samples_view(old(samples)@), current: sample_option_view(current) },
            line@,
        ),
{
    if text::trim_chars(line).len() == 0 {
        flush_sample(samples, current);
        return None;
    }
    if let Some(next) = header_from_chars(line) {
        flush_sample(samples, current);
        return Some(next);
    }
    let spaces = text::to_chars("        ");
    if (line.len() > 0 && line[0] == '\t') || text::starts_with(line, spaces.as_slice()) {
        if let Some(sample) = current {
            if let Some(f) = frame::frame_from_chars(line) {
                let mut stack = sample.stack;
                let ghost before = frame::stack_view(stack@);
                stack.push(f);
                assert(frame::stack_view(stack@) == before.push(f@));
                return Some(
                    RawSample {
                        comm: sample.comm,
                        pid: sample.pid,
                        tid: sample.tid,
                        event: sample.event,
                        period: sample.period,
                        stack,
                    },
                );
            }
            return Some(sample);
        }
        return None;
    }
    current
}

/// Reads the samples of a script, in order. Fails exactly where a line is not
/// valid UTF-8.
pub fn parse_perf_script(input: &[u8]) -> (r: Result<Vec<RawSample>, ScriptError>)
    ensures
        match r {
            Ok(samples) => script_samples(input@) == Some(samples_view(samples@)),
            Err(e) => script_samples(input@) is None && e == ScriptError::InvalidUtf8,
        },
{
    let mut samples: Vec<RawSample> = Vec::new();
    let mut current: Option<RawSample> = None;
    let mut at: usize = 0;
    let len: usize = input.len();
    let ghost lines = byte_lines(input@);
    let ghost mut n: int = 0;
    proof {
        assert(input@.skip(0) == input@);
        assert(lines.skip(0) == lines);
        assert(lines.take(0) == Seq::<Seq<u8>>::empty());
        assert(decoded(lines.take(0)) == Seq::<Seq<char>>::empty());
        assert(samples_view(samples@) == Seq::<SampleView>::empty());
    }
    while at < len
        invariant
            at <= len,
            len == input@.len(),
            lines == byte_lines(input@),
            0 <= n <= lines.len(),
            byte_lines(input@.skip(at as int)) == lines.skip(n),
            all_valid(lines.take(n)),
            scan_lines(scan_start(), decoded(lines.take(n))) == (Scan {
                done: samples_view(samples@),
                current: sample_option_view(current),
            }),
        decreases len - at,
    {
        let ghost rest = input@.skip(at as int);
        let mut end: usize = at;
        proof {
            assert(rest == input@.skip(end as int));
        }
        while end < len && input[end] != 10
            invariant
                at <= end <= len,
                len == input@.len(),
                rest == input@.skip(at as int),
                line_len(rest) == end - at + line_len(input@.skip(end as int)),
            decreases len - end,
        {
            assert(input@.skip(end as int).skip(1) == input@.skip(end + 1));
            end = end + 1;
        }
        assert(line_len(rest) == end - at);
        let mut stop: usize = end;
        if end < len && at < end && input[end - 1] == 13 {
            stop = end - 1;
        }
        let line = slice_subrange(input, at, stop);
        let next: usize = if end < len {
            end + 1
        } else {
            end
        };
        proof {
            assert(rest.take(end - at) == input@.subrange(at as int, end as int));
            if end < len {
                assert(line@ == without_return(rest.take(end - at)));
                assert(rest.skip(end - at + 1) == input@.skip(next as int));
                assert(byte_lines(rest) == seq![line@] + byte_lines(input@.skip(next as int)));
            } else {
                assert(line@ == rest);
                assert(input@.skip(next as int) == Seq::<u8>::empty());
                assert(byte_lines(rest) == seq![line@] + byte_lines(input@.skip(next as int)));
            }
            assert(lines.skip(n)[0] == line@);
            assert(lines[n] == line@);
            assert(lines.skip(n + 1) == lines.skip(n).skip(1));
            assert(byte_lines(rest).skip(1) == byte_lines(input@.skip(next as int)));
            let now = lines.take(n + 1);
            assert(now.drop_last() == lines.take(n));
            assert(decoded(now).drop_last() == decoded(lines.take(n)));
        }
        match decode(line) {
            None => {
                return Err(ScriptError::InvalidUtf8);
            },
            Some(s) => {
                let chars = text::to_chars(s);
                current = read_line(&mut samples, current, chars.as_slice());
                proof {
                    let now = lines.take(n + 1);
                    assert(decoded(now).last() == chars@);
                    n = n + 1;
                }
            },
        }
        at = next;
    }
    proof {
        assert(lines.skip(n) == Seq::<Seq<u8>>::empty());
        assert(lines.take(n) == lines);
    }
    flush_sample(&mut samples, current);
    Ok(samples)
}

/// Every sample of a script has at least one frame.
pub proof fn samples_have_frames(lines: Seq<Seq<char>>)
    ensures
        forall|i: int|
            0 <= i < samples_of(lines).len() ==> (#[trigger] samples_of(lines)[i]).stack.len() > 0,
{
    lemma_done_has_frames(lines);
}

proof fn lemma_done_has_frames(lines: Seq<Seq<char>>)
    ensures
        forall|i: int|
            0 <= i < scan_lines(scan_start(), lines).done.len() ==> (
            #[trigger] scan_lines(scan_start(), lines).done[i]).stack.len() > 0,
    decreases lines.len(),
{
    if lines.len() > 0 {
        lemma_done_has_frames(lines.drop_last());
    }
}

pub proof fn lemma_scan_concat(start: Scan, a: Seq<Seq<char>>, b: Seq<Seq<char>>)
    ensures
        scan_lines(start, a + b) == scan_lines(scan_lines(start, a), b),
    decreases b.len(),
{
    if b.len() == 0 {
        assert(a + b == a);
    } else {
        assert((a + b).drop_last() == a + b.drop_last());
        lemma_scan_concat(start, a, b.drop_last());
    }
}

/// A blank line between two scripts keeps their samples apart: reading both
/// gives the samples of the first, then those of the second.
pub proof fn blank_line_separates(a: Seq<Seq<char>>, blank: Seq<char>, b: Seq<Seq<char>>)
    requires
        text::trim(blank).len() == 0,
    ensures
        samples_of(a.push(blank) + b) == samples_of(a) + samples_of(b),
{
    lemma_scan_concat(scan_start(), a.push(blank), b);
    assert(a.push(blank).drop_last() == a);
    lemma_scan_open(samples_of(a), None, b);
    let end = scan_lines(scan_start(), b);
    assert(flushed(samples_of(a) + end.done, end.current) == samples_of(a) + flushed(
        end.done,
        end.current,
    ));
}

/// A carriage return at its end does not change what a line says.
proof fn lemma_scan_return(scan: Scan, line: Seq<char>)
    ensures
        scan_line(scan, line.push('\r')) == scan_line(scan, line),
{
    let full = line.push('\r');
    text::lemma_trim_push(line, '\r');
    text::lemma_find_char(line, ':');
    text::lemma_find_char(full, ':');
    if let Some(i) = text::find_char(line, ':') {
        assert(full[i] == ':');
        let j = text::find_char(full, ':')->0;
        if j < i {
            assert(line[j] == ':');
        }
        assert(full.take(i) == line.take(i));
        assert(full.skip(i + 1) == line.skip(i + 1).push('\r'));
        text::lemma_trim_push(line.skip(i + 1), '\r');
    } else if let Some(j) = text::find_char(full, ':') {
        assert(line[j] == ':');
    }
    reveal_strlit("        ");
    let spaces = "        "@;
    if spaces.is_prefix_of(full) {
        assert(full[7] == spaces[7]);
        assert(spaces =~= line.take(8));
    }
    if spaces.is_prefix_of(line) {
        assert(spaces =~= full.take(8));
    }
}

/// A carriage return at the end of a line is one character.
proof fn lemma_decode_return(line: Seq<u8>)
    requires
        vstd::utf8::valid_utf8(line),
        line.len() > 0,
        line.last() == 13,
    ensures
        vstd::utf8::valid_utf8(line.drop_last()),
        vstd::utf8::decode_utf8(line) == vstd::utf8::decode_utf8(line.drop_last()).push('\r'),
{
    let n = line.len() - 1;
    vstd::utf8::is_char_boundary_iff_not_is_continuation_byte(line, n);
    vstd::utf8::valid_utf8_split(line, n);
    vstd::utf8::decode_utf8_split(line, n);
    assert(line.subrange(0, n) == line.drop_last());
    let end = seq!['\r'];
    vstd::utf8::is_ascii_chars_encode_utf8(end);
    vstd::utf8::encode_utf8_decode_utf8(end);
    assert(end[0] as u8 == 13);
    assert(line.subrange(n, line.len() as int) == vstd::utf8::encode_utf8(end));
}

/// The first line ends at the newline, whatever follows.
proof fn lemma_line_len_concat(a: Seq<u8>, b: Seq<u8>)
    ensures
        line_len(a.push(10) + b) == line_len(a),
    decreases a.len(),
{
    let s = a.push(10) + b;
    if a.len() == 0 {
        assert(s[0] == 10);
    } else {
        assert(s[0] == a[0]);
        assert(s.skip(1) == a.skip(1).push(10) + b);
        lemma_line_len_concat(a.skip(1), b);
    }
}

/// A newline keeps the lines before it apart from those behind it.
proof fn lemma_byte_lines_concat(a: Seq<u8>, b: Seq<u8>)
    ensures
        byte_lines(a.push(10) + b) == byte_lines(a.push(10)) + byte_lines(b),
    decreases a.len(),
{
    let s = a.push(10) + b;
    let n = line_len(a) as int;
    lemma_line_len(a);
    lemma_line_len_concat(a, b);
    lemma_line_len_concat(a, seq![]);
    assert(a.push(10) + Seq::<u8>::empty() == a.push(10));
    assert(s.take(n) == a.take(n) && a.push(10).take(n) == a.take(n));
    if n == a.len() {
        assert(s.skip(n + 1) == b);
        assert(a.push(10).skip(n + 1) == Seq::<u8>::empty());
        assert(byte_lines(Seq::<u8>::empty()) == Seq::<Seq<u8>>::empty());
    } else {
        let rest = a.skip(n + 1);
        assert(s.skip(n + 1) == rest.push(10) + b);
        assert(a.push(10).skip(n + 1) == rest.push(10));
        lemma_byte_lines_concat(rest, b);
    }
}

/// A newline at the end of a script adds an empty line where the last line has
/// ended; otherwise it ends the last line.
proof fn lemma_closed(a: Seq<u8>)
    ensures
        ({
            let open = byte_lines(a);
            let closed = byte_lines(a.push(10));
            ||| closed == open.push(seq![])
            ||| open.len() > 0 && closed == open.drop_last().push(without_return(open.last()))
        }),
    decreases a.len(),
{
    let n = line_len(a) as int;
    let open = byte_lines(a);
    let closed = byte_lines(a.push(10));
    lemma_line_len(a);
    lemma_line_len_concat(a, seq![]);
    assert(a.push(10) + Seq::<u8>::empty() == a.push(10));
    assert(a.push(10).take(n) == a.take(n));
    assert(byte_lines(Seq::<u8>::empty()) == Seq::<Seq<u8>>::empty());
    if n == a.len() {
        assert(a.take(n) == a);
        assert(a.push(10).skip(n + 1) == Seq::<u8>::empty());
        assert(closed == seq![without_return(a)]);
        if n == 0 {
            assert(without_return(a) == Seq::<u8>::empty());
            assert(closed == open.push(seq![]));
        } else {
            assert(open == seq![a]);
            assert(closed == open.drop_last().push(without_return(open.last())));
        }
    } else {
        let rest = a.skip(n + 1);
        let first = seq![without_return(a.take(n))];
        let open_rest = byte_lines(rest);
        let closed_rest = byte_lines(rest.push(10));
        assert(a.push(10).skip(n + 1) == rest.push(10));
        assert(open == first + open_rest && closed == first + closed_rest);
        lemma_closed(rest);
        if closed_rest == open_rest.push(seq![]) {
            assert(closed == open.push(seq![]));
        } else {
            assert(open.last() == open_rest.last());
            assert(closed == open.drop_last().push(without_return(open.last())));
        }
    }
}

/// Ending the last line of a script does not change its samples.
proof fn lemma_closed_samples(a: Seq<u8>)
    requires
        all_valid(byte_lines(a)),
    ensures
        all_valid(byte_lines(a.push(10))),
        samples_of(decoded(byte_lines(a.push(10)))) == samples_of(decoded(byte_lines(a))),
{
    let open = byte_lines(a);
    let closed = byte_lines(a.push(10));
    lemma_closed(a);
    assert(vstd::utf8::valid_utf8(Seq::<u8>::empty()));
    assert(vstd::utf8::decode_utf8(Seq::<u8>::empty()) == Seq::<char>::empty());
    if closed == open.push(seq![]) {
        assert(decoded(closed).drop_last() == decoded(open));
        assert(decoded(closed).last() == Seq::<char>::empty());
        assert(text::trim(Seq::<char>::empty()).len() == 0);
    } else {
        let last = open.last();
        assert(open[open.len() - 1] == last);
        assert forall|i: int| 0 <= i < closed.len() implies vstd::utf8::valid_utf8(
            #[trigger] closed[i],
        ) by {
            if i < open.len() - 1 {
                assert(closed[i] == open[i]);
            } else if last.len() > 0 && last.last() == 13 {
                lemma_decode_return(last);
            }
        }
        assert(decoded(closed).drop_last() == decoded(open).drop_last());
        if last.len() > 0 && last.last() == 13 {
            lemma_decode_return(last);
            lemma_scan_return(
                scan_lines(scan_start(), decoded(open).drop_last()),
                vstd::utf8::decode_utf8(last.drop_last()),
            );
        }
    }
}

/// Two scripts with an empty line between them are read one after the other: the
/// samples of both are those of the first, then those of the second, and nothing
/// is carried over.
pub proof fn scripts_are_read_one_after_the_other(a: Seq<u8>, b: Seq<u8>)
    requires
        script_samples(a) is Some,
        script_samples(b) is Some,
    ensures
        script_samples(a + seq![10u8, 10u8] + b) == Some(
            script_samples(a)->0 + script_samples(b)->0,
        ),
{
    let both = a + seq![10u8, 10u8] + b;
    let blank = Seq::<u8>::empty();
    let head = byte_lines(a.push(10));
    let tail = byte_lines(b);
    assert(both == a.push(10) + (blank.push(10) + b));
    lemma_byte_lines_concat(a, blank.push(10) + b);
    lemma_byte_lines_concat(blank, b);
    assert(byte_lines(blank.push(10)) == seq![blank]) by {
        assert(blank.push(10).skip(1) == blank);
        assert(blank.push(10).take(0) == blank);
        assert(byte_lines(blank) == Seq::<Seq<u8>>::empty());
    }
    lemma_closed_samples(a);
    let lines = byte_lines(both);
    assert(lines == head.push(blank) + tail);
    assert(vstd::utf8::valid_utf8(blank));
    assert(vstd::utf8::decode_utf8(blank) == Seq::<char>::empty());
    assert forall|i: int| 0 <= i < lines.len() implies vstd::utf8::valid_utf8(
        #[trigger] lines[i],
    ) by {
        if i < head.len() {
            assert(lines[i] == head[i]);
        } else if i > head.len() {
            assert(lines[i] == tail[i - head.len() - 1]);
        }
    }
    assert(decoded(lines) == decoded(head).push(Seq::<char>::empty()) + decoded(tail));
    assert(text::trim(Seq::<char>::empty()).len() == 0);
    blank_line_separates(decoded(head), Seq::<char>::empty(), decoded(tail));
}

/// A header line ends the sample before it: reading on from a header gives
/// the same samples as reading from there alone.
pub proof fn header_separates(a: Seq<Seq<char>>, b: Seq<Seq<char>>)
    requires
        b.len() > 0,
        header_of(b[0]) is Some,
    ensures
        samples_of(a + b) == samples_of(a) + samples_of(b),
{
    text::lemma_find_char(b[0], ':');
    text::lemma_trim_keeps(b[0], text::find_char(b[0], ':')->0);
    let before = scan_lines(scan_start(), a);
    let first = seq![b[0]];
    let tail = b.skip(1);
    assert(b == first + tail);
    assert(first.drop_last() == Seq::<Seq<char>>::empty());
    lemma_scan_concat(scan_start(), a, b);
    lemma_scan_concat(before, first, tail);
    lemma_scan_concat(scan_start(), first, tail);
    assert(scan_lines(before, first) == scan_line(scan_lines(before, first.drop_last()), b[0]));
    assert(scan_lines(scan_start(), first) == scan_line(
        scan_lines(scan_start(), first.drop_last()),
        b[0],
    ));
    lemma_scan_open(samples_of(a), header_of(b[0]), tail);
    let end = scan_lines(scan_start(), b);
    assert(flushed(samples_of(a) + end.done, end.current) == samples_of(a) + flushed(
        end.done,
        end.current,
    ));
}

/// What was finished before does not change what is read next.
proof fn lemma_scan_open(
    done: Seq<SampleView>,
    current: Option<SampleView>,
    lines: Seq<Seq<char>>,
)
    ensures
        scan_lines(Scan { done, current }, lines) == ({
            let end = scan_lines(Scan { done: seq![], current }, lines);
            Scan { done: done + end.done, current: end.current }
        }),
    decreases lines.len(),
{
    if lines.len() == 0 {
        assert(done + Seq::<SampleView>::empty() == done);
    } else {
        lemma_scan_open(done, current, lines.drop_last());
        let before = scan_lines(Scan { done: seq![], current }, lines.drop_last());
        assert(flushed(done + before.done, before.current) == done + flushed(
            before.done,
            before.current,
        ));
    }
}

/// A header line as `perf script` prints it.
pub open spec fn header_line(
    indent: Seq<char>,
    comm: Seq<Seq<char>>,
    pid: i64,
    tid: i64,
    time: Seq<char>,
    period: i64,
    event: Seq<char>,
) -> Seq<char> {
    let ids = number::decimal_text(pid as nat) + (seq!['/'] + number::decimal_text(tid as nat));
    let left = indent + text::join(comm.push(ids).push(time), seq![' ']);
    let right = text::join(seq![number::decimal_text(period as nat), event.push(':')], seq![' ']);
    left + (seq![':'] + (seq![' '] + right))
}

/// Digits are neither white space nor punctuation.
proof fn lemma_decimal_word(n: nat)
    ensures
        text::is_word(number::decimal_text(n)),
        !number::decimal_text(n).contains(':'),
        !number::decimal_text(n).contains('/'),
{
    number::lemma_decimal_digits(n);
    let s = number::decimal_text(n);
    assert forall|i: int| 0 <= i < s.len() implies !text::is_space(#[trigger] s[i]) && s[i] != ':'
        && s[i] != '/' by {
        assert(number::digit_value(s[i], 10) is Some);
    }
}

/// A header that `perf script` prints is read back: the command with all of its
/// words, the process and the thread, the event, and the period.
pub proof fn header_line_reads_back(
    indent: Seq<char>,
    comm: Seq<Seq<char>>,
    pid: i64,
    tid: i64,
    time: Seq<char>,
    period: i64,
    event: Seq<char>,
)
    requires
        forall|i: int| 0 <= i < indent.len() ==> text::is_space(#[trigger] indent[i]),
        comm.len() > 0,
        forall|i: int|
            0 <= i < comm.len() ==> text::is_word(#[trigger] comm[i]) && !comm[i].contains(':'),
        pid >= 0,
        tid >= 0,
        text::is_word(time),
        !time.contains(':'),
        period >= 0,
        text::is_word(event),
        event.last() != ':',
    ensures
        header_of(header_line(indent, comm, pid, tid, time, period, event)) == Some(
            SampleView {
                comm: text::join(comm, seq![' ']),
                pid,
                tid,
                event,
                period,
                stack: seq![],
            },
        ),
{
    let pid_text = number::decimal_text(pid as nat);
    let tid_text = number::decimal_text(tid as nat);
    let period_text = number::decimal_text(period as nat);
    lemma_decimal_word(pid as nat);
    lemma_decimal_word(tid as nat);
    lemma_decimal_word(period as nat);
    let ids = pid_text + (seq!['/'] + tid_text);
    let left_words = comm.push(ids).push(time);
    let right_words = seq![period_text, event.push(':')];
    let left_text = text::join(left_words, seq![' ']);
    let right_text = text::join(right_words, seq![' ']);
    let left = indent + left_text;
    let line = header_line(indent, comm, pid, tid, time, period, event);
    assert(text::is_word(ids) && !ids.contains(':')) by {
        assert forall|i: int| 0 <= i < ids.len() implies !text::is_space(#[trigger] ids[i])
            && ids[i] != ':' by {
            if i < pid_text.len() {
                assert(pid_text.contains(pid_text[i]));
            } else if i > pid_text.len() {
                assert(tid_text.contains(tid_text[i - pid_text.len() - 1]));
            }
        }
    }
    assert forall|i: int| 0 <= i < left_words.len() implies text::is_word(#[trigger] left_words[i])
        && !left_words[i].contains(':') by {
        if i < comm.len() {
            assert(left_words[i] == comm[i]);
        }
    }
    assert forall|i: int| 0 <= i < right_words.len() implies text::is_word(
        #[trigger] right_words[i],
    ) by {
        if i == 1 {
            assert forall|k: int| 0 <= k < event.push(':').len() implies !text::is_space(
                #[trigger] event.push(':')[k],
            ) by {
                if k < event.len() {
                    assert(event.push(':')[k] == event[k]);
                }
            }
        }
    }
    text::joined_words_split_again(left_words);
    text::joined_words_split_again(right_words);
    // The colon that ends the header proper is the first one.
    text::lemma_join_without(left_words, seq![' '], ':');
    assert(!left.contains(':')) by {
        if left.contains(':') {
            let i = left.index_of(':');
            if i < indent.len() {
                assert(text::is_space(indent[i]));
            } else {
                assert(left_text[i - indent.len()] == ':');
            }
        }
    }
    text::lemma_find_char_at(left, ':', seq![' '] + right_text);
    let n = left.len() as int;
    assert(line.take(n) == left);
    assert(line.skip(n + 1) == seq![' '] + right_text);
    // The words on either side.
    assert(text::is_word(left_words[0]));
    text::lemma_words_indented(indent, left_text);
    assert(text::is_word(right_words[0]) && text::is_word(right_words[1]));
    text::lemma_trim_indented(seq![' '], right_text);
    assert(left_words[left_words.len() - 2] == ids);
    assert(left_words.take(left_words.len() - 2) == comm);
    text::lemma_find_char_at(pid_text, '/', tid_text);
    assert(ids.take(pid_text.len() as int) == pid_text);
    assert(ids.skip(pid_text.len() as int + 1) == tid_text);
    number::decimal_text_reads_back_signed(pid);
    number::decimal_text_reads_back_signed(tid);
    number::decimal_text_reads_back_signed(period);
    assert(text::trim_end_char(event, ':') == event);
    assert(event.push(':').drop_last() == event);
    assert(text::trim_end_char(event.push(':'), ':') == event);
    assert(text::join(seq![], seq![' ']) == Seq::<char>::empty());
    assert(text::trim(Seq::<char>::empty()).len() == 0);
}

} // verus!
