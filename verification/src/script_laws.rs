//! How lines make samples, for all scripts.

use vstd::prelude::*;

use crate::frame;
use crate::frame::FrameView;
use crate::number;
use crate::script;
use crate::script::{SampleView, Scan};
use crate::text;
use crate::text_laws;

verus! {

/// A line that starts with a tab, or with eight spaces.
pub open spec fn is_frame_line(line: Seq<char>) -> bool {
    ||| line.len() >= 1 && line[0] == '\t'
    ||| line.len() >= 8 && forall|i: int| 0 <= i < 8 ==> #[trigger] line[i] == ' '
}

/// A line that is neither blank nor a header.
pub open spec fn is_body_line(line: Seq<char>) -> bool {
    !text_laws::blank(line) && script::header_of(line) is None
}

proof fn lemma_indented(line: Seq<char>)
    ensures
        script::indented(line) <==> is_frame_line(line),
{
    reveal_strlit("        ");
    let spaces = "        "@;
    if spaces.is_prefix_of(line) {
        assert forall|i: int| 0 <= i < 8 implies #[trigger] line[i] == ' ' by {
            assert(line[i] == spaces[i]);
        }
    }
    if line.len() >= 8 && forall|i: int| 0 <= i < 8 ==> #[trigger] line[i] == ' ' {
        assert(spaces =~= line.take(8));
    }
}

proof fn lemma_not_blank(line: Seq<char>)
    ensures
        text::trim(line).len() == 0 <==> text_laws::blank(line),
{
    if text_laws::blank(line) {
        text_laws::trimming_takes_the_padding(line, seq![], seq![]);
        assert(line + Seq::<char>::empty() + Seq::<char>::empty() == line);
    } else {
        let i = choose|i: int| 0 <= i < line.len() && !text::is_space(#[trigger] line[i]);
        text::lemma_trim_keeps(line, i);
    }
}

/// A header is never blank.
proof fn lemma_header_not_blank(line: Seq<char>)
    requires
        script::header_of(line) is Some,
    ensures
        !text_laws::blank(line),
{
    text::lemma_find_char(line, ':');
    let i = text::find_char(line, ':')->0;
    assert(line[i] == ':');
}

/// The state after a header and the frame lines under it.
proof fn lemma_frames_under_header(
    header: Seq<char>,
    lines: Seq<Seq<char>>,
    frames: Seq<FrameView>,
)
    requires
        script::header_of(header) is Some,
        lines.len() == frames.len(),
        forall|i: int|
            0 <= i < lines.len() ==> is_body_line(#[trigger] lines[i]) && is_frame_line(lines[i])
                && frame::frame_of(lines[i]) == Some(frames[i]),
    ensures
        ({
            let sample = script::header_of(header)->0;
            script::scan_lines(script::scan_start(), seq![header] + lines) == (Scan {
                done: seq![],
                current: Some(SampleView { stack: sample.stack + frames, ..sample }),
            })
        }),
    decreases lines.len(),
{
    let sample = script::header_of(header)->0;
    let all = seq![header] + lines;
    if lines.len() == 0 {
        assert(all.drop_last() == Seq::<Seq<char>>::empty());
        assert(all.last() == header);
        lemma_header_not_blank(header);
        lemma_not_blank(header);
        assert(script::scan_lines(script::scan_start(), all.drop_last()) == script::scan_start());
        assert(sample.stack + frames == sample.stack);
    } else {
        let before = lines.drop_last();
        assert forall|i: int| 0 <= i < before.len() implies is_body_line(#[trigger] before[i])
            && is_frame_line(before[i]) && frame::frame_of(before[i]) == Some(
            frames.drop_last()[i],
        ) by {
            assert(before[i] == lines[i]);
        }
        lemma_frames_under_header(header, before, frames.drop_last());
        let last = lines[lines.len() - 1];
        assert(is_body_line(last));
        assert(all.drop_last() == seq![header] + before);
        assert(all.last() == last);
        lemma_not_blank(last);
        lemma_indented(last);
        assert((sample.stack + frames.drop_last()).push(frames.last()) == sample.stack + frames);
    }
}

/// A header and the frame lines under it, however many, are one sample: that of
/// the header, with the frame of every line behind the header's own, in their
/// order. Without any frame there is no sample.
pub proof fn every_frame_line_adds_its_frame(
    header: Seq<char>,
    lines: Seq<Seq<char>>,
    frames: Seq<FrameView>,
)
    requires
        script::header_of(header) is Some,
        lines.len() == frames.len(),
        forall|i: int|
            0 <= i < lines.len() ==> is_body_line(#[trigger] lines[i]) && is_frame_line(lines[i])
                && frame::frame_of(lines[i]) == Some(frames[i]),
    ensures
        ({
            let sample = script::header_of(header)->0;
            let whole = SampleView { stack: sample.stack + frames, ..sample };
            script::samples_of(seq![header] + lines) == if whole.stack.len() > 0 {
                seq![whole]
            } else {
                Seq::<SampleView>::empty()
            }
        }),
{
    lemma_frames_under_header(header, lines, frames);
    let sample = script::header_of(header)->0;
    let whole = SampleView { stack: sample.stack + frames, ..sample };
    assert(Seq::<SampleView>::empty().push(whole) == seq![whole]);
}

/// No line is no sample.
pub proof fn no_lines_are_no_samples()
    ensures
        script::samples_of(seq![]) == Seq::<SampleView>::empty(),
{
}

/// A line that is no header and not indented changes nothing, wherever it stands.
pub proof fn other_lines_are_passed_over(
    before: Seq<Seq<char>>,
    line: Seq<char>,
    after: Seq<Seq<char>>,
)
    requires
        is_body_line(line),
        !is_frame_line(line),
    ensures
        script::samples_of(before + seq![line] + after) == script::samples_of(before + after),
{
    lemma_not_blank(line);
    lemma_indented(line);
    let start = script::scan_start();
    let one = seq![line];
    assert(one.drop_last() == Seq::<Seq<char>>::empty());
    script::lemma_scan_concat(start, before + one, after);
    script::lemma_scan_concat(start, before, one);
    script::lemma_scan_concat(start, before, after);
    let mid = script::scan_lines(start, before);
    assert(script::scan_lines(mid, one.drop_last()) == mid);
    assert(script::scan_lines(mid, one) == mid);
}

/// A frame line that no header stands above, since the start or since a blank
/// line, changes nothing.
pub proof fn stray_frame_lines_are_passed_over(line: Seq<char>, after: Seq<Seq<char>>)
    requires
        is_body_line(line),
    ensures
        script::samples_of(seq![line] + after) == script::samples_of(after),
{
    lemma_not_blank(line);
    let start = script::scan_start();
    let one = seq![line];
    assert(one.drop_last() == Seq::<Seq<char>>::empty());
    script::lemma_scan_concat(start, one, after);
    assert(script::scan_lines(start, one.drop_last()) == start);
    assert(script::scan_lines(start, one) == start);
}

/// A blank line is no sample.
pub proof fn blank_lines_are_no_samples(line: Seq<char>, after: Seq<Seq<char>>)
    requires
        text_laws::blank(line),
    ensures
        script::samples_of(seq![line] + after) == script::samples_of(after),
{
    lemma_not_blank(line);
    let none = Seq::<Seq<char>>::empty();
    script::blank_line_separates(none, line, after);
    assert(none.push(line) == seq![line]);
    assert(script::samples_of(none) == Seq::<SampleView>::empty());
    assert(Seq::<SampleView>::empty() + script::samples_of(after) == script::samples_of(after));
}

/// A header is words, a colon, and words. In front of the first colon stand the
/// words of the command, the process, and a time; behind it the period, the event
/// and a frame, of which only the period must be there. Nothing else decides, and
/// no word is lost.
pub proof fn headers_are_read(left: Seq<char>, right: Seq<char>)
    requires
        !left.contains(':'),
    ensures
        ({
            let l = text::words(left);
            let r = text::words(right);
            let line = left + (seq![':'] + right);
            if l.len() >= 3 && r.len() >= 1 && number::i64_value(r[0]) is Some {
                script::header_of(line) matches Some(sample) && {
                    &&& sample.comm == text::join(l.drop_last().drop_last(), seq![' '])
                    &&& (sample.pid, sample.tid) == script::pid_tid_of(l[l.len() - 2])
                    &&& Some(sample.period) == number::i64_value(r[0])
                    &&& sample.event == if r.len() >= 2 {
                        text::trim_end_char(r[1], ':')
                    } else {
                        "event"@
                    }
                    &&& r.len() <= 2 ==> sample.stack.len() == 0
                    &&& r.len() > 2 ==> sample.stack.len() == 1 && Some(sample.stack[0])
                        == frame::frame_of(text::join(r.skip(2), seq![' ']))
                }
            } else {
                script::header_of(line) is None
            }
        }),
{
    let line = left + (seq![':'] + right);
    text::lemma_find_char_at(left, ':', right);
    let n = left.len() as int;
    assert(line.take(n) == left);
    assert(line.skip(n + 1) == right);
    lemma_words_trim(right);
    let l = text::words(left);
    let r = text::words(right);
    if l.len() >= 3 {
        assert(l.take(l.len() - 2) == l.drop_last().drop_last());
    }
    if r.len() > 2 {
        lemma_words_are_words(right);
        let more = r.skip(2);
        assert forall|i: int| 0 <= i < more.len() implies text::is_word(#[trigger] more[i]) by {
            assert(more[i] == r[i + 2]);
        }
        text::joined_words_split_again(more);
        let joined = text::join(more, seq![' ']);
        assert(text::is_word(more[0]));
        text::lemma_trim_keeps(joined, 0);
    } else {
        assert(text::join(seq![], seq![' ']) == Seq::<char>::empty());
        assert(text::trim(Seq::<char>::empty()).len() == 0);
    }
}

/// A line without a colon is no header.
pub proof fn headers_have_a_colon(line: Seq<char>)
    requires
        !line.contains(':'),
    ensures
        script::header_of(line) is None,
{
    text::lemma_find_char(line, ':');
    if let Some(i) = text::find_char(line, ':') {
        assert(line[i] == ':');
    }
}

/// White space around a text does not change its words.
proof fn lemma_words_trim(s: Seq<char>)
    ensures
        text::words(text::trim(s)) == text::words(s),
{
    let (a, b) = text_laws::trimming_splits_a_text(s);
    let core = text::trim(s);
    lemma_words_end(a + core, b);
    lemma_words_start(a, core);
}

proof fn lemma_words_end(s: Seq<char>, b: Seq<char>)
    requires
        text_laws::blank(b),
    ensures
        text::words(s + b) == text::words(s),
    decreases b.len(),
{
    if b.len() == 0 {
        assert(s + b == s);
    } else {
        let t = b.drop_last();
        assert(text_laws::blank(t)) by {
            assert forall|i: int| 0 <= i < t.len() implies text::is_space(#[trigger] t[i]) by {
                assert(t[i] == b[i]);
            }
        }
        lemma_words_end(s, t);
        assert(text::is_space(b[b.len() - 1]));
        text_laws::words_are_split_at_white_space(s + t, b.last(), seq![]);
        assert(s + t + seq![b.last()] + Seq::<char>::empty() == s + b);
        assert(text::words(Seq::<char>::empty()) == Seq::<Seq<char>>::empty());
        assert(text::words(s + t) + Seq::<Seq<char>>::empty() == text::words(s + t));
    }
}

proof fn lemma_words_start(a: Seq<char>, s: Seq<char>)
    requires
        text_laws::blank(a),
    ensures
        text::words(a + s) == text::words(s),
    decreases a.len(),
{
    if a.len() == 0 {
        assert(a + s == s);
    } else {
        let t = a.skip(1);
        assert(text_laws::blank(t)) by {
            assert forall|i: int| 0 <= i < t.len() implies text::is_space(#[trigger] t[i]) by {
                assert(t[i] == a[i + 1]);
            }
        }
        lemma_words_start(t, s);
        assert(text::is_space(a[0]));
        text_laws::words_are_split_at_white_space(seq![], a[0], t + s);
        assert(Seq::<char>::empty() + seq![a[0]] + (t + s) == a + s);
        assert(text::words(Seq::<char>::empty()) == Seq::<Seq<char>>::empty());
        assert(Seq::<Seq<char>>::empty() + text::words(t + s) == text::words(t + s));
    }
}

/// What a text is split into are words.
proof fn lemma_words_are_words(s: Seq<char>)
    ensures
        forall|i: int| 0 <= i < text::words(s).len() ==> text::is_word(#[trigger] text::words(s)[i]),
    decreases s.len(),
{
    let t = text::trim_start(s);
    text::lemma_trim_start(s);
    if t.len() > 0 {
        let n = text::word_len(t) as int;
        text::lemma_word_len(t);
        lemma_words_are_words(t.skip(n));
        let w = t.take(n);
        assert forall|i: int| 0 <= i < w.len() implies !text::is_space(#[trigger] w[i]) by {
            assert(w[i] == t[i]);
        }
        assert forall|i: int| 0 <= i < text::words(s).len() implies text::is_word(
            #[trigger] text::words(s)[i],
        ) by {
            if i > 0 {
                assert(text::words(s)[i] == text::words(t.skip(n))[i - 1]);
            }
        }
    }
}

/// A process and a thread are two numbers around the first slash; a single number
/// is both, and what is no number counts as zero.
pub proof fn processes_and_threads_are_read(pid: Seq<char>, tid: Seq<char>)
    requires
        !pid.contains('/'),
    ensures
        ({
            let p = match number::i64_value(pid) {
                Some(v) => v,
                None => 0,
            };
            let t = match number::i64_value(tid) {
                Some(v) => v,
                None => 0,
            };
            &&& script::pid_tid_of(pid + (seq!['/'] + tid)) == (p, t)
            &&& script::pid_tid_of(pid) == (p, p)
        }),
{
    let both = pid + (seq!['/'] + tid);
    text_laws::the_first_character_is_found(pid, '/', tid);
    let n = pid.len() as int;
    assert(both.take(n) == pid);
    assert(both.skip(n + 1) == tid);
}

/// A newline ends a line, which may be of any length, and takes the carriage return
/// in front of it along. What follows the last newline is a line too.
pub proof fn newlines_end_lines(line: Seq<u8>, rest: Seq<u8>)
    requires
        !line.contains(10),
    ensures
        script::byte_lines(line + (seq![10u8] + rest)) == seq![
            if line.len() > 0 && line.last() == 13 {
                line.drop_last()
            } else {
                line
            },
        ] + script::byte_lines(rest),
        script::byte_lines(line) == if line.len() > 0 {
            seq![line]
        } else {
            Seq::<Seq<u8>>::empty()
        },
{
    let all = line + (seq![10u8] + rest);
    let n = line.len() as int;
    lemma_line_ends(line, seq![10u8] + rest);
    lemma_line_ends(line, seq![]);
    assert(line + Seq::<u8>::empty() == line);
    assert(all.take(n) == line);
    assert(all.skip(n + 1) == rest);
    assert(line.take(n) == line);
}

proof fn lemma_line_ends(line: Seq<u8>, rest: Seq<u8>)
    requires
        !line.contains(10),
        rest.len() > 0 ==> rest[0] == 10,
    ensures
        script::line_len(line + rest) == line.len(),
    decreases line.len(),
{
    let all = line + rest;
    if line.len() == 0 {
        assert(all == rest);
    } else {
        assert(line.contains(line[0]));
        assert(all[0] == line[0]);
        let t = line.skip(1);
        if t.contains(10) {
            let i = t.index_of(10);
            assert(line[i + 1] == 10);
        }
        assert(all.skip(1) == t + rest);
        lemma_line_ends(t, rest);
    }
}

/// The bytes of a script of these lines.
pub open spec fn script_of(lines: Seq<Seq<char>>) -> Seq<u8> {
    lines.map_values(|line: Seq<char>| vstd::utf8::encode_utf8(line).push(10u8)).flatten()
}

/// A script is its lines: the text of any lines, each ended by a newline, is read
/// as the samples of those lines, all of them, in their order.
pub proof fn scripts_are_read_line_by_line(lines: Seq<Seq<char>>)
    requires
        forall|i: int|
            0 <= i < lines.len() ==> !vstd::utf8::encode_utf8(#[trigger] lines[i]).contains(10)
                && (vstd::utf8::encode_utf8(lines[i]).len() > 0 ==> vstd::utf8::encode_utf8(
                lines[i],
            ).last() != 13),
    ensures
        script::script_samples(script_of(lines)) == Some(script::samples_of(lines)),
{
    let encoded = lines.map_values(|line: Seq<char>| vstd::utf8::encode_utf8(line));
    lemma_script_lines(lines);
    assert forall|i: int| 0 <= i < encoded.len() implies vstd::utf8::valid_utf8(
        #[trigger] encoded[i],
    ) by {
        vstd::utf8::encode_utf8_valid_utf8(lines[i]);
    }
    assert forall|i: int| 0 <= i < encoded.len() implies #[trigger] script::decoded(encoded)[i]
        == lines[i] by {
        vstd::utf8::encode_utf8_decode_utf8(lines[i]);
    }
    assert(script::decoded(encoded) =~= lines);
}

proof fn lemma_script_lines(lines: Seq<Seq<char>>)
    requires
        forall|i: int|
            0 <= i < lines.len() ==> !vstd::utf8::encode_utf8(#[trigger] lines[i]).contains(10)
                && (vstd::utf8::encode_utf8(lines[i]).len() > 0 ==> vstd::utf8::encode_utf8(
                lines[i],
            ).last() != 13),
    ensures
        script::byte_lines(script_of(lines)) == lines.map_values(
            |line: Seq<char>| vstd::utf8::encode_utf8(line),
        ),
    decreases lines.len(),
{
    let ended = lines.map_values(|line: Seq<char>| vstd::utf8::encode_utf8(line).push(10u8));
    let encoded = lines.map_values(|line: Seq<char>| vstd::utf8::encode_utf8(line));
    if lines.len() > 0 {
        let rest = lines.skip(1);
        let first = vstd::utf8::encode_utf8(lines[0]);
        assert forall|i: int| 0 <= i < rest.len() implies !vstd::utf8::encode_utf8(
            #[trigger] rest[i],
        ).contains(10) && (vstd::utf8::encode_utf8(rest[i]).len() > 0 ==> vstd::utf8::encode_utf8(
            rest[i],
        ).last() != 13) by {
            assert(rest[i] == lines[i + 1]);
        }
        lemma_script_lines(rest);
        assert(ended.drop_first() =~= rest.map_values(
            |line: Seq<char>| vstd::utf8::encode_utf8(line).push(10u8),
        ));
        assert(ended.first() == first.push(10u8));
        assert(script_of(lines) == first + (seq![10u8] + script_of(rest)));
        newlines_end_lines(first, script_of(rest));
        assert(encoded =~= seq![first] + rest.map_values(
            |line: Seq<char>| vstd::utf8::encode_utf8(line),
        ));
    } else {
        assert(script::byte_lines(Seq::<u8>::empty()) == Seq::<Seq<u8>>::empty());
        assert(encoded =~= Seq::<Seq<u8>>::empty());
    }
}

/// A script is refused exactly where one of its lines is not valid UTF-8, and is
/// otherwise the samples of what its lines say.
pub proof fn only_invalid_lines_are_refused(bytes: Seq<u8>, lines: Seq<Seq<char>>)
    ensures
        script::script_samples(bytes) is None <==> exists|i: int|
            0 <= i < script::byte_lines(bytes).len() && !vstd::utf8::valid_utf8(
                #[trigger] script::byte_lines(bytes)[i],
            ),
        lines.len() == script::byte_lines(bytes).len() && (forall|i: int|
            0 <= i < lines.len() ==> #[trigger] script::byte_lines(bytes)[i]
                == vstd::utf8::encode_utf8(lines[i])) ==> script::script_samples(bytes) == Some(
            script::samples_of(lines),
        ),
{
    let raw = script::byte_lines(bytes);
    if lines.len() == raw.len() && forall|i: int|
        0 <= i < lines.len() ==> #[trigger] raw[i] == vstd::utf8::encode_utf8(lines[i]) {
        assert forall|i: int| 0 <= i < raw.len() implies vstd::utf8::valid_utf8(
            #[trigger] raw[i],
        ) by {
            vstd::utf8::encode_utf8_valid_utf8(lines[i]);
        }
        assert forall|i: int| 0 <= i < raw.len() implies #[trigger] script::decoded(raw)[i]
            == lines[i] by {
            assert(raw[i] == vstd::utf8::encode_utf8(lines[i]));
            vstd::utf8::encode_utf8_decode_utf8(lines[i]);
        }
        assert(script::decoded(raw) =~= lines);
    }
}

} // verus!
