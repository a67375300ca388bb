//! Stack frames: how one is read from a line of `perf script` output, and how
//! its function name is classified.

use vstd::prelude::*;
use vstd::slice::slice_subrange;

use crate::number;
use crate::text;

verus! {

/// One frame of a call stack.
#[derive(Debug, Clone, PartialEq, Eq, Hash)]
pub struct Frame {
    pub function: String,
    pub address: u64,
    pub mapping: String,
}

/// What a frame says.
pub struct FrameView {
    pub function: Seq<char>,
    pub address: u64,
    pub mapping: Seq<char>,
}

impl View for Frame {
    type V = FrameView;

    open spec fn view(&self) -> FrameView {
        FrameView {
            function: self.function@,
            address: self.address,
            mapping: self.mapping@,
        }
    }
}

/// What a stack of frames says, in the same order.
pub open spec fn stack_view(stack: Seq<Frame>) -> Seq<FrameView> {
    Seq::new(stack.len(), |i: int| stack[i]@)
}

/// The base of a symbol `base+0x<hex digits>`; any other name is its own base.
pub open spec fn symbol_base(function: Seq<char>) -> Seq<char> {
    match text::rfind(function, "+0x"@) {
        Some(i) => if number::all_hex(function.skip(i + 3)) {
            function.take(i)
        } else {
            function
        },
        None => function,
    }
}

/// The symbol and the mapping of `symbol (mapping)`, where the mapping starts
/// at the last parenthesis that follows a space and may be missing.
pub open spec fn symbol_and_mapping(rest: Seq<char>) -> (Seq<char>, Seq<char>) {
    match text::rfind(rest, " ("@) {
        Some(i) => (
            text::trim(rest.take(i)),
            text::trim(text::trim_end_char(rest.skip(i + 2), ')')),
        ),
        None => (rest, seq![]),
    }
}

/// The name that a frame is shown under: its symbol, the address where the
/// symbol is empty, and both where the symbol is unknown and the address is not.
pub open spec fn display_name(symbol: Seq<char>, address: u64) -> Seq<char> {
    if symbol.len() == 0 {
        "0x"@ + number::hex_text(address as nat)
    } else if symbol == "[unknown]"@ && address != 0 {
        "[unknown] 0x"@ + number::hex_text(address as nat)
    } else {
        symbol
    }
}

/// The frame that a line `address symbol+0xoffset (mapping)` describes. An
/// address that is no hexadecimal number counts as zero, a missing symbol as
/// unknown, and a blank line is no frame.
pub open spec fn frame_of(line: Seq<char>) -> Option<FrameView> {
    let trimmed = text::trim(line);
    if trimmed.len() == 0 {
        None
    } else {
        let n = text::word_len(trimmed) as int;
        let rest = if n < trimmed.len() {
            text::trim(trimmed.skip(n + 1))
        } else {
            "[unknown]"@
        };
        let address = match number::hex_value(text::trim_start_text(trimmed.take(n), "0x"@)) {
            Some(a) => a,
            None => 0,
        };
        let (symbol, mapping) = symbol_and_mapping(rest);
        Some(
            FrameView {
                function: display_name(symbol_base(symbol), address),
                address,
                mapping,
            },
        )
    }
}

/// What an optional frame says.
pub open spec fn frame_option_view(frame: Option<Frame>) -> Option<FrameView> {
    match frame {
        Some(f) => Some(f@),
        None => None,
    }
}

/// A function name that stands for an address alone.
pub open spec fn raw_address_name(function: Seq<char>) -> bool {
    ||| "0x"@.is_prefix_of(function) && number::all_hex(function.skip(2))
    ||| "[unknown] 0x"@.is_prefix_of(function) && number::all_hex(function.skip(12))
}

/// The length of the base of a symbol.
fn symbol_base_len(function: &[char]) -> (n: usize)
    ensures
        n <= function@.len(),
        symbol_base(function@) == function@.take(n as int),
{
    let marker = text::to_chars("+0x");
    proof {
        reveal_strlit("+0x");
        assert(function@.take(function@.len() as int) == function@);
    }
    let len: usize = function.len();
    match text::last_position_of(function, marker.as_slice()) {
        Some(i) => {
            let offset = slice_subrange(function, i + 3, len);
            assert(offset@ == function@.skip(i + 3));
            if number::is_hex(offset) {
                i
            } else {
                len
            }
        },
        None => len,
    }
}

/// Removes a trailing `+0x<hex digits>` from a symbol.
pub fn strip_symbol_offset(function: &str) -> (r: &str)
    ensures
        r@ == symbol_base(function@),
{
    let chars = text::to_chars(function);
    let n: usize = symbol_base_len(chars.as_slice());
    function.substring_char(0, n)
}

/// Reads a frame from the characters of a line.
pub fn frame_from_chars(line: &[char]) -> (r: Option<Frame>)
    ensures
        frame_option_view(r) == frame_of(line@),
{
    let trimmed = text::trim_chars(line);
    if trimmed.len() == 0 {
        return None;
    }
    let unknown = text::to_chars("[unknown]");
    let hex_prefix = text::to_chars("0x");
    let open = text::to_chars(" (");
    proof {
        reveal_strlit("0x");
        reveal_strlit(" (");
    }
    let n: usize = text::first_word_len(trimmed);
    let rest: &[char] = if n < trimmed.len() {
        text::trim_chars(slice_subrange(trimmed, n + 1, trimmed.len()))
    } else {
        unknown.as_slice()
    };
    let digits = text::trim_start_text_chars(
        slice_subrange(trimmed, 0, n),
        hex_prefix.as_slice(),
    );
    let address: u64 = match number::parse_hex(digits) {
        Some(a) => a,
        None => 0,
    };
    let none: Vec<char> = Vec::new();
    let rest_len: usize = rest.len();
    let (symbol, mapping): (&[char], &[char]) = match text::last_position_of(
        rest,
        open.as_slice(),
    ) {
        Some(i) => (
            text::trim_chars(slice_subrange(rest, 0, i)),
            text::trim_chars(
                text::trim_end_char_chars(slice_subrange(rest, i + 2, rest_len), ')'),
            ),
        ),
        None => (rest, none.as_slice()),
    };
    assert((symbol@, mapping@) == symbol_and_mapping(rest@));
    let base = slice_subrange(symbol, 0, symbol_base_len(symbol));
    let mut function = String::new();
    if base.len() == 0 {
        function.append("0x");
        number::push_hex(&mut function, address);
    } else if address != 0 && text::same_text(base, unknown.as_slice()) {
        function.append("[unknown] 0x");
        number::push_hex(&mut function, address);
    } else {
        text::push_chars(&mut function, base);
    }
    assert(function@ == display_name(base@, address));
    Some(Frame { function, address, mapping: text::to_text(mapping) })
}

/// Reads a frame from a line of text.
pub fn parse_frame(line: &str) -> (r: Option<Frame>)
    ensures
        frame_option_view(r) == frame_of(line@),
{
    let chars = text::to_chars(line);
    frame_from_chars(chars.as_slice())
}

/// Whether the frame has no known symbol.
pub fn is_unknown_frame(function: &str) -> (r: bool)
    ensures
        r == text::contains(function@, "[unknown]"@),
{
    let chars = text::to_chars(function);
    let unknown = text::to_chars("[unknown]");
    text::contains_chars(chars.as_slice(), unknown.as_slice())
}

/// Whether the frame is shown by its address alone.
pub fn is_raw_address_frame(function: &str) -> (r: bool)
    ensures
        r == raw_address_name(function@),
{
    let chars = text::to_chars(function);
    let hex_prefix = text::to_chars("0x");
    let unknown_prefix = text::to_chars("[unknown] 0x");
    proof {
        reveal_strlit("0x");
        reveal_strlit("[unknown] 0x");
    }
    let s = chars.as_slice();
    if text::starts_with(s, hex_prefix.as_slice()) {
        proof {
            if "[unknown] 0x"@.is_prefix_of(s@) {
                assert(s@[0] == "0x"@[0]);
                assert(s@[0] == "[unknown] 0x"@[0]);
            }
        }
        number::is_hex(slice_subrange(s, 2, s.len()))
    } else if text::starts_with(s, unknown_prefix.as_slice()) {
        number::is_hex(slice_subrange(s, 12, s.len()))
    } else {
        false
    }
}

/// Whether the frame belongs to the profiled program itself.
pub fn looks_like_application_frame(function: &str) -> (r: bool)
    ensures
        r == (function@ == "main"@),
{
    let chars = text::to_chars(function);
    let name = text::to_chars("main");
    text::same_text(chars.as_slice(), name.as_slice())
}

/// A copy of a frame.
pub fn copy_frame(frame: &Frame) -> (r: Frame)
    ensures
        r@ == frame@,
{
    Frame {
        function: frame.function.clone(),
        address: frame.address,
        mapping: frame.mapping.clone(),
    }
}

/// Whether two frames say the same.
pub fn same_frame(a: &Frame, b: &Frame) -> (r: bool)
    ensures
        r == (a@ == b@),
{
    a.address == b.address && a.function == b.function && a.mapping == b.mapping
}

/// Whether two stacks say the same.
pub fn same_stack(a: &Vec<Frame>, b: &Vec<Frame>) -> (r: bool)
    ensures
        r == (stack_view(a@) == stack_view(b@)),
{
    if a.len() != b.len() {
        assert(stack_view(a@).len() != stack_view(b@).len());
        return false;
    }
    for i in 0..a.len()
        invariant
            a@.len() == b@.len(),
            forall|j: int| 0 <= j < i ==> (#[trigger] a@[j])@ == b@[j]@,
    {
        if !same_frame(&a[i], &b[i]) {
            assert(stack_view(a@)[i as int] != stack_view(b@)[i as int]);
            return false;
        }
    }
    assert(stack_view(a@) =~= stack_view(b@));
    true
}

/// A frame without a symbol is shown by its address, and the address can be
/// read back from the name.
pub proof fn nameless_frame_shows_its_address(address: u64)
    ensures
        raw_address_name(display_name(seq![], address)),
        number::hex_value(display_name(seq![], address).skip(2)) == Some(address),
{
    reveal_strlit("0x");
    number::hex_text_reads_back(address);
    let digits = number::hex_text(address as nat);
    let name = display_name(seq![], address);
    assert(name.skip(2) == digits);
}

/// A frame whose symbol is unknown counts as unknown, and it counts as a raw
/// address exactly where it has one.
pub proof fn unknown_frame_is_classified(address: u64)
    ensures
        text::contains(display_name("[unknown]"@, address), "[unknown]"@),
        raw_address_name(display_name("[unknown]"@, address)) <==> address != 0,
{
    reveal_strlit("[unknown]");
    reveal_strlit("[unknown] 0x");
    reveal_strlit("0x");
    let name = display_name("[unknown]"@, address);
    assert(text::occurs_at(name, "[unknown]"@, 0)) by {
        assert(name.subrange(0, 9) =~= "[unknown]"@);
    }
    if address != 0 {
        number::hex_text_reads_back(address);
        assert(name.skip(12) == number::hex_text(address as nat));
    } else {
        assert(name[0] == '[');
        assert("0x"@[0] == '0');
    }
}

/// A line for a frame at an offset in a symbol, as `perf script` prints it.
pub open spec fn frame_line(
    indent: Seq<char>,
    address: u64,
    symbol: Seq<char>,
    offset: u64,
    mapping: Seq<char>,
) -> Seq<char> {
    indent + (number::hex_text(address as nat) + (seq![' '] + ((symbol + ("+0x"@ + number::hex_text(
        offset as nat,
    ))) + (" ("@ + mapping.push(')')))))
}

/// The offset is taken from a symbol.
proof fn lemma_symbol_base(symbol: Seq<char>, offset: u64)
    requires
        symbol.len() > 0,
    ensures
        symbol_base(symbol + ("+0x"@ + number::hex_text(offset as nat))) == symbol,
{
    reveal_strlit("+0x");
    let digits = number::hex_text(offset as nat);
    let full = symbol + ("+0x"@ + digits);
    let m = symbol.len() as int;
    number::hex_text_reads_back(offset);
    assert(full.subrange(m, m + 3) == "+0x"@);
    assert forall|j: int| m < j implies !#[trigger] text::occurs_at(full, "+0x"@, j) by {
        if text::occurs_at(full, "+0x"@, j) {
            assert(full.subrange(j, j + 3)[0] == full[j]);
            if j >= m + 3 {
                assert(number::digit_value(digits[j - m - 3], 16) is Some);
            }
        }
    }
    text::lemma_rfind_at(full, "+0x"@, m);
    assert(full.skip(m + 3) == digits);
    assert(full.take(m) == symbol);
}

/// A symbol and a mapping in parentheses are told apart.
proof fn lemma_symbol_and_mapping(symbol: Seq<char>, mapping: Seq<char>)
    requires
        symbol.len() > 0,
        !text::is_space(symbol[0]),
        !text::is_space(symbol.last()),
        mapping.len() > 0 ==> !text::is_space(mapping[0]) && !text::is_space(mapping.last())
            && mapping.last() != ')',
        !text::contains(mapping, " ("@),
    ensures
        symbol_and_mapping(symbol + (" ("@ + mapping.push(')'))) == (symbol, mapping),
{
    reveal_strlit(" (");
    let rest = symbol + (" ("@ + mapping.push(')'));
    let k = symbol.len() as int;
    assert(rest.subrange(k, k + 2) == " ("@);
    assert forall|j: int| k < j implies !#[trigger] text::occurs_at(rest, " ("@, j) by {
        if text::occurs_at(rest, " ("@, j) {
            let found = rest.subrange(j, j + 2);
            assert(found[0] == rest[j] && found[1] == rest[j + 1]);
            assert(j != k + 1);
            if j + 2 < rest.len() {
                let at = j - k - 2;
                assert(mapping.subrange(at, at + 2) == " ("@);
                assert(text::occurs_at(mapping, " ("@, at));
            }
        }
    }
    text::lemma_rfind_at(rest, " ("@, k);
    assert(rest.take(k) == symbol);
    assert(text::trim(symbol) == symbol);
    assert(rest.skip(k + 2) == mapping.push(')'));
    assert(text::trim_end_char(mapping, ')') == mapping);
    assert(mapping.push(')').drop_last() == mapping);
    assert(text::trim(mapping) == mapping);
}

/// A frame that `perf script` prints is read back: its address, its symbol
/// without the offset, and its mapping. The symbol is shown together with the
/// address where it is unknown.
pub proof fn frame_line_reads_back(
    indent: Seq<char>,
    address: u64,
    symbol: Seq<char>,
    offset: u64,
    mapping: Seq<char>,
)
    requires
        forall|i: int| 0 <= i < indent.len() ==> text::is_space(#[trigger] indent[i]),
        symbol.len() > 0,
        !text::is_space(symbol[0]),
        mapping.len() > 0 ==> !text::is_space(mapping[0]) && !text::is_space(mapping.last())
            && mapping.last() != ')',
        !text::contains(mapping, " ("@),
    ensures
        frame_of(frame_line(indent, address, symbol, offset, mapping)) == Some(
            FrameView { function: display_name(symbol, address), address, mapping },
        ),
{
    reveal_strlit("0x");
    let digits = number::hex_text(address as nat);
    let offset_digits = number::hex_text(offset as nat);
    let full = symbol + ("+0x"@ + offset_digits);
    let rest = full + (" ("@ + mapping.push(')'));
    let body = digits + (seq![' '] + rest);
    let n = digits.len() as int;
    number::hex_text_reads_back(address);
    number::hex_text_reads_back(offset);
    assert(number::digit_value(offset_digits[offset_digits.len() - 1], 16) is Some);
    assert(full.last() == offset_digits.last());
    assert(number::digit_value(digits[0], 16) is Some);
    assert(body.last() == ')');
    text::lemma_trim_indented(indent, body);
    assert forall|i: int| 0 <= i < digits.len() implies !text::is_space(#[trigger] digits[i]) by {
        assert(number::digit_value(digits[i], 16) is Some);
    }
    text::lemma_first_word(digits, seq![' '] + rest);
    assert(body.take(n) == digits);
    assert(body.skip(n + 1) == rest);
    assert(!"0x"@.is_prefix_of(digits)) by {
        if "0x"@.is_prefix_of(digits) {
            assert(digits[1] == "0x"@[1]);
            assert(number::digit_value(digits[1], 16) is Some);
        }
    }
    assert(text::trim_start_text(digits, "0x"@) == digits);
    assert(rest[0] == symbol[0] && rest.last() == ')');
    assert(text::trim(rest) == rest);
    lemma_symbol_and_mapping(full, mapping);
    lemma_symbol_base(symbol, offset);
}

} // verus!
