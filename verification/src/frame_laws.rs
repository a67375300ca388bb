//! What a frame line says, for all lines.

use vstd::prelude::*;

use crate::frame;
use crate::frame::FrameView;
use crate::number;
use crate::text;
use crate::text_laws;

verus! {

/// A line is no frame exactly where it is blank.
pub proof fn only_blank_lines_are_no_frame(line: Seq<char>)
    ensures
        frame::frame_of(line) is None <==> text_laws::blank(line),
{
    if text_laws::blank(line) {
        text_laws::trimming_takes_the_padding(line, seq![], seq![]);
        assert(line + Seq::<char>::empty() + Seq::<char>::empty() == line);
    } else {
        let i = choose|i: int| 0 <= i < line.len() && !text::is_space(#[trigger] line[i]);
        text::lemma_trim_keeps(line, i);
    }
}

/// A frame is an address, then a symbol and a mapping, with any white space
/// around them: nothing else on the line, and no length of any part, changes what
/// is read.
pub proof fn frames_are_read(
    indent: Seq<char>,
    word: Seq<char>,
    gap: Seq<char>,
    core: Seq<char>,
    trail: Seq<char>,
)
    requires
        text_laws::blank(indent),
        text_laws::blank(gap),
        text_laws::blank(trail),
        text::is_word(word),
        gap.len() > 0,
        core.len() > 0,
        text_laws::tight(core),
    ensures
        ({
            let address = match number::hex_value(text::trim_start_text(word, "0x"@)) {
                Some(a) => a,
                None => 0,
            };
            let (symbol, mapping) = frame::symbol_and_mapping(core);
            frame::frame_of(indent + (word + gap + core) + trail) == Some(
                FrameView {
                    function: frame::display_name(frame::symbol_base(symbol), address),
                    address,
                    mapping,
                },
            )
        }),
{
    let body = word + gap + core;
    let n = word.len() as int;
    assert(!text::is_space(word[0]));
    assert(body[0] == word[0] && body.last() == core.last());
    text_laws::trimming_takes_the_padding(indent, body, trail);
    assert(body == word + (gap + core));
    assert(text::is_space(gap[0]));
    text::lemma_first_word(word, gap + core);
    assert(body.take(n) == word);
    let rest = gap.skip(1);
    assert(text_laws::blank(rest)) by {
        assert forall|i: int| 0 <= i < rest.len() implies text::is_space(#[trigger] rest[i]) by {
            assert(rest[i] == gap[i + 1]);
        }
    }
    assert(body.skip(n + 1) == rest + core + Seq::<char>::empty());
    text_laws::trimming_takes_the_padding(rest, core, seq![]);
}

/// An address alone on its line is a frame of an unknown symbol.
pub proof fn bare_addresses_are_read(indent: Seq<char>, word: Seq<char>, trail: Seq<char>)
    requires
        text_laws::blank(indent),
        text_laws::blank(trail),
        text::is_word(word),
    ensures
        ({
            let address = match number::hex_value(text::trim_start_text(word, "0x"@)) {
                Some(a) => a,
                None => 0,
            };
            frame::frame_of(indent + word + trail) == Some(
                FrameView {
                    function: frame::display_name("[unknown]"@, address),
                    address,
                    mapping: seq![],
                },
            )
        }),
{
    reveal_strlit("[unknown]");
    reveal_strlit(" (");
    reveal_strlit("+0x");
    let unknown = "[unknown]"@;
    assert(!text::is_space(word[0]) && !text::is_space(word[word.len() - 1]));
    text_laws::trimming_takes_the_padding(indent, word, trail);
    text::lemma_word_len(word);
    assert(text::word_len(word) == word.len());
    assert(word.take(word.len() as int) == word);
    assert(!text::contains(unknown, " ("@)) by {
        if text::contains(unknown, " ("@) {
            let i = choose|i: int| text::occurs_at(unknown, " ("@, i);
            assert(unknown.subrange(i, i + 2)[0] == unknown[i]);
        }
    }
    assert(!text::contains(unknown, "+0x"@)) by {
        if text::contains(unknown, "+0x"@) {
            let i = choose|i: int| text::occurs_at(unknown, "+0x"@, i);
            assert(unknown.subrange(i, i + 3)[0] == unknown[i]);
        }
    }
    mappings_stand_in_the_last_parentheses(unknown, unknown, seq![]);
    offsets_are_taken_from_symbols(unknown, seq![]);
}

/// The mapping starts at the last parenthesis that follows a space, and is what
/// stands in it; without one there is no mapping, and all of the text is the
/// symbol.
pub proof fn mappings_stand_in_the_last_parentheses(
    rest: Seq<char>,
    symbol: Seq<char>,
    mapping: Seq<char>,
)
    ensures
        !text::contains(rest, " ("@) ==> frame::symbol_and_mapping(rest) == (
            rest,
            Seq::<char>::empty(),
        ),
        !text::contains(mapping, " ("@) ==> frame::symbol_and_mapping(symbol + (" ("@ + mapping))
            == (text::trim(symbol), text::trim(text::trim_end_char(mapping, ')'))),
{
    reveal_strlit(" (");
    if !text::contains(rest, " ("@) {
        text::lemma_rfind(rest, " ("@);
        if let Some(i) = text::rfind(rest, " ("@) {
            assert(text::occurs_at(rest, " ("@, i));
        }
    }
    if !text::contains(mapping, " ("@) {
        let all = symbol + (" ("@ + mapping);
        let k = symbol.len() as int;
        assert(all.subrange(k, k + 2) == " ("@);
        assert forall|j: int| k < j implies !#[trigger] text::occurs_at(all, " ("@, j) by {
            if text::occurs_at(all, " ("@, j) {
                let found = all.subrange(j, j + 2);
                assert(found[0] == all[j]);
                assert(j != k + 1);
                assert(mapping.subrange(j - k - 2, j - k) == found);
                assert(text::occurs_at(mapping, " ("@, j - k - 2));
            }
        }
        text::lemma_rfind_at(all, " ("@, k);
        assert(all.take(k) == symbol);
        assert(all.skip(k + 2) == mapping);
    }
}

/// A symbol loses the offset behind its last `+0x`, where that is a hexadecimal
/// number; any other symbol stays whole.
pub proof fn offsets_are_taken_from_symbols(symbol: Seq<char>, offset: Seq<char>)
    ensures
        !text::contains(symbol, "+0x"@) ==> frame::symbol_base(symbol) == symbol,
        !text::contains(offset, "+0x"@) ==> frame::symbol_base(symbol + ("+0x"@ + offset)) == if number::all_hex(
            offset,
        ) {
            symbol
        } else {
            symbol + ("+0x"@ + offset)
        },
{
    reveal_strlit("+0x");
    if !text::contains(symbol, "+0x"@) {
        text::lemma_rfind(symbol, "+0x"@);
        if let Some(i) = text::rfind(symbol, "+0x"@) {
            assert(text::occurs_at(symbol, "+0x"@, i));
        }
    }
    if !text::contains(offset, "+0x"@) {
        let full = symbol + ("+0x"@ + offset);
        let m = symbol.len() as int;
        assert(full.subrange(m, m + 3) == "+0x"@);
        assert forall|j: int| m < j implies !#[trigger] text::occurs_at(full, "+0x"@, j) by {
            if text::occurs_at(full, "+0x"@, j) {
                let found = full.subrange(j, j + 3);
                assert(found[0] == full[j]);
                assert(j >= m + 3);
                assert(offset.subrange(j - m - 3, j - m) == found);
                assert(text::occurs_at(offset, "+0x"@, j - m - 3));
            }
        }
        text::lemma_rfind_at(full, "+0x"@, m);
        assert(full.skip(m + 3) == offset);
        assert(full.take(m) == symbol);
    }
}

/// Hexadecimal digits hold no offset marker.
pub proof fn hexadecimal_offsets_are_taken(symbol: Seq<char>, offset: Seq<char>)
    requires
        number::all_hex(offset),
    ensures
        frame::symbol_base(symbol + ("+0x"@ + offset)) == symbol,
{
    reveal_strlit("+0x");
    if text::contains(offset, "+0x"@) {
        let i = choose|i: int| text::occurs_at(offset, "+0x"@, i);
        assert(offset.subrange(i, i + 3)[0] == offset[i]);
        assert(number::digit_value(offset[i], 16) is Some);
    }
    offsets_are_taken_from_symbols(symbol, offset);
}

/// A frame is shown under its symbol, whatever the symbol is; only where it is
/// empty, or unknown at an address, the address is shown, in hexadecimal.
pub proof fn frames_are_shown_by_their_symbol(symbol: Seq<char>, address: u64)
    ensures
        symbol.len() > 0 && symbol != "[unknown]"@ ==> frame::display_name(symbol, address)
            == symbol,
        frame::display_name(seq![], address) == "0x"@ + number::hex_text(address as nat),
        address != 0 ==> frame::display_name("[unknown]"@, address) == "[unknown] 0x"@
            + number::hex_text(address as nat),
        frame::display_name("[unknown]"@, 0) == "[unknown]"@,
{
    reveal_strlit("[unknown]");
}

/// A frame that `perf script` prints without an offset is read back: its symbol is
/// kept whole.
pub proof fn frame_line_without_offset_reads_back(
    indent: Seq<char>,
    address: u64,
    symbol: Seq<char>,
    mapping: Seq<char>,
)
    requires
        text_laws::blank(indent),
        symbol.len() > 0,
        text_laws::tight(symbol),
        !text::contains(symbol, "+0x"@),
        text_laws::tight(mapping),
        mapping.len() > 0 ==> mapping.last() != ')',
        !text::contains(mapping, " ("@),
    ensures
        frame::frame_of(
            indent + number::hex_text(address as nat) + seq![' '] + symbol + " ("@ + mapping + seq![
                ')',
            ],
        ) == Some(
            FrameView {
                function: if symbol == "[unknown]"@ && address != 0 {
                    "[unknown] 0x"@ + number::hex_text(address as nat)
                } else {
                    symbol
                },
                address,
                mapping,
            },
        ),
{
    reveal_strlit(" (");
    let digits = number::hex_text(address as nat);
    let inner = mapping + seq![')'];
    let core = symbol + (" ("@ + inner);
    lemma_hex_word(address);
    assert(core[0] == symbol[0] && core.last() == ')');
    frames_are_read(indent, digits, seq![' '], core, seq![]);
    assert(!text::contains(inner, " ("@)) by {
        if text::contains(inner, " ("@) {
            let i = choose|i: int| text::occurs_at(inner, " ("@, i);
            assert(inner.subrange(i, i + 2)[1] == inner[i + 1]);
            assert(mapping.subrange(i, i + 2) == inner.subrange(i, i + 2));
            assert(text::occurs_at(mapping, " ("@, i));
        }
    }
    mappings_stand_in_the_last_parentheses(core, symbol, inner);
    text_laws::every_copy_is_trimmed(mapping, ')', 1);
    assert(Seq::new(1, |i: int| ')') == seq![')']);
    text_laws::trimming_takes_the_padding(seq![], symbol, seq![]);
    text_laws::trimming_takes_the_padding(seq![], mapping, seq![]);
    assert(Seq::<char>::empty() + symbol + Seq::<char>::empty() == symbol);
    assert(Seq::<char>::empty() + mapping + Seq::<char>::empty() == mapping);
    offsets_are_taken_from_symbols(symbol, seq![]);
    frames_are_shown_by_their_symbol(symbol, address);
    assert(indent + digits + seq![' '] + symbol + " ("@ + mapping + seq![')'] == indent + (digits
        + seq![' '] + core) + Seq::<char>::empty());
}

/// A hexadecimal address is a word that reads as itself.
proof fn lemma_hex_word(address: u64)
    ensures
        text::is_word(number::hex_text(address as nat)),
        number::hex_value(text::trim_start_text(number::hex_text(address as nat), "0x"@)) == Some(
            address,
        ),
{
    reveal_strlit("0x");
    let digits = number::hex_text(address as nat);
    number::hex_text_reads_back(address);
    assert forall|i: int| 0 <= i < digits.len() implies !text::is_space(#[trigger] digits[i]) by {
        assert(number::digit_value(digits[i], 16) is Some);
    }
    if "0x"@.is_prefix_of(digits) {
        assert(digits[1] == "0x"@[1]);
        assert(number::digit_value(digits[1], 16) is Some);
    }
}

/// A name is an address alone exactly where it is `0x` and hexadecimal digits,
/// with `[unknown]` in front or without.
pub proof fn raw_addresses_are_recognized(name: Seq<char>, digits: Seq<char>)
    ensures
        number::all_hex(digits) ==> frame::raw_address_name("0x"@ + digits),
        number::all_hex(digits) ==> frame::raw_address_name("[unknown] 0x"@ + digits),
        frame::raw_address_name(name) ==> exists|d: Seq<char>| #[trigger]
            number::all_hex(d) && (name == "0x"@ + d || name == "[unknown] 0x"@ + d),
{
    reveal_strlit("0x");
    reveal_strlit("[unknown] 0x");
    let short = "0x"@ + digits;
    let long = "[unknown] 0x"@ + digits;
    assert(short.skip(2) == digits && long.skip(12) == digits);
    assert("0x"@.is_prefix_of(short) && "[unknown] 0x"@.is_prefix_of(long));
    if frame::raw_address_name(name) {
        if "0x"@.is_prefix_of(name) && number::all_hex(name.skip(2)) {
            assert(name == "0x"@ + name.skip(2));
        } else {
            assert(name == "[unknown] 0x"@ + name.skip(12));
        }
    }
}

} // verus!
