//! What written integers stand for, for all of them.

use vstd::prelude::*;

use crate::number;

verus! {

/// The ten digits of base ten and the sixteen of base sixteen, in either case,
/// and nothing else, stand for their values.
pub proof fn digits_stand_for_their_values(c: char, d: int)
    ensures
        0 <= d < 10 ==> number::digit_value("0123456789"@[d], 10) == Some(d),
        0 <= d < 16 ==> number::digit_value("0123456789abcdef"@[d], 16) == Some(d),
        0 <= d < 16 ==> number::digit_value("0123456789ABCDEF"@[d], 16) == Some(d),
        !"0123456789"@.contains(c) ==> number::digit_value(c, 10) is None,
        !"0123456789abcdef"@.contains(c) && !"0123456789ABCDEF"@.contains(c)
            ==> number::digit_value(c, 16) is None,
{
    reveal_strlit("0123456789");
    reveal_strlit("0123456789abcdef");
    reveal_strlit("0123456789ABCDEF");
    let ten = "0123456789"@;
    let low = "0123456789abcdef"@;
    let high = "0123456789ABCDEF"@;
    lemma_digit_texts(d);
    if let Some(v) = number::digit_value(c, 10) {
        lemma_digit_texts(v);
        assert(ten[v] == c);
        assert(ten.contains(c));
    }
    if let Some(v) = number::digit_value(c, 16) {
        lemma_digit_texts(v);
        assert(low[v] == c || high[v] == c);
        assert(low.contains(c) || high.contains(c));
    }
}

proof fn lemma_digit_texts(d: int)
    ensures
        "0123456789"@.len() == 10,
        "0123456789abcdef"@.len() == 16,
        "0123456789ABCDEF"@.len() == 16,
        0 <= d < 10 ==> "0123456789"@[d] as int == 48 + d,
        0 <= d < 16 ==> "0123456789abcdef"@[d] as int == if d < 10 {
            48 + d
        } else {
            87 + d
        },
        0 <= d < 16 ==> "0123456789ABCDEF"@[d] as int == if d < 10 {
            48 + d
        } else {
            55 + d
        },
{
    reveal_strlit("0123456789");
    reveal_strlit("0123456789abcdef");
    reveal_strlit("0123456789ABCDEF");
}

/// A run of digits has a value exactly where it holds digits and nothing else.
pub proof fn only_digits_have_a_value(s: Seq<char>, radix: int)
    ensures
        number::digits_value(s, radix) is Some <==> s.len() > 0 && forall|i: int|
            0 <= i < s.len() ==> number::digit_value(#[trigger] s[i], radix) is Some,
    decreases s.len(),
{
    if s.len() > 0 {
        let t = s.drop_last();
        only_digits_have_a_value(t, radix);
        if number::digits_value(s, radix) is Some {
            assert forall|i: int| 0 <= i < s.len() implies number::digit_value(
                #[trigger] s[i],
                radix,
            ) is Some by {
                if i < t.len() {
                    assert(t[i] == s[i]);
                }
            }
        } else if forall|i: int|
            0 <= i < s.len() ==> number::digit_value(#[trigger] s[i], radix) is Some {
            assert(number::digit_value(s[s.len() - 1], radix) is Some);
            assert forall|i: int| 0 <= i < t.len() implies number::digit_value(
                #[trigger] t[i],
                radix,
            ) is Some by {
                assert(t[i] == s[i]);
            }
        }
    }
}

/// A digit in front counts for as much as digits follow it: each place is worth
/// `radix` times the next.
pub proof fn digits_count_by_their_place(a: Seq<char>, b: Seq<char>, radix: int)
    requires
        number::digits_value(a, radix) is Some,
        number::digits_value(b, radix) is Some,
    ensures
        number::digits_value(a + b, radix) == Some(
            number::digits_value(a, radix)->0 * vstd::arithmetic::power::pow(radix, b.len()) + number::digits_value(
                b,
                radix,
            )->0,
        ),
    decreases b.len(),
{
    let all = a + b;
    assert(all.last() == b.last());
    if b.len() == 1 {
        assert(all.drop_last() == a);
        assert(number::digits_value(b.drop_last(), radix) is None);
        vstd::arithmetic::power::lemma_pow1(radix);
    } else {
        let t = b.drop_last();
        assert(all.drop_last() == a + t);
        digits_count_by_their_place(a, t, radix);
        let va = number::digits_value(a, radix)->0;
        let vt = number::digits_value(t, radix)->0;
        let p = vstd::arithmetic::power::pow(radix, t.len());
        vstd::arithmetic::power::lemma_pow_adds(radix, t.len(), 1);
        vstd::arithmetic::power::lemma_pow1(radix);
        assert((va * p + vt) * radix == va * (p * radix) + vt * radix) by (nonlinear_arith);
    }
}

/// One digit is worth itself.
pub proof fn one_digit_counts_once(c: char, radix: int)
    ensures
        number::digits_value(seq![c], radix) == number::digit_value(c, radix),
{
    assert(seq![c].drop_last() == Seq::<char>::empty());
    assert(number::digits_value(Seq::<char>::empty(), radix) is None);
    assert(seq![c].last() == c);
}

/// A signed number is a run of digits with one sign or none, and every one that an
/// `i64` can hold is read.
pub proof fn signed_numbers_are_read(digits: Seq<char>)
    ensures
        match number::digits_value(digits, 10) {
            Some(v) => {
                &&& number::i64_value(digits) == if v <= i64::MAX {
                    Some(v as i64)
                } else {
                    None
                }
                &&& number::i64_value(seq!['+'] + digits) == if v <= i64::MAX {
                    Some(v as i64)
                } else {
                    None
                }
                &&& number::i64_value(seq!['-'] + digits) == if -v >= i64::MIN {
                    Some((-v) as i64)
                } else {
                    None
                }
            },
            None => {
                &&& digits.len() > 0 && (digits[0] == '+' || digits[0] == '-')
                    || number::i64_value(digits) is None
                &&& number::i64_value(seq!['+'] + digits) is None
                &&& number::i64_value(seq!['-'] + digits) is None
            },
        },
{
    let plus = seq!['+'] + digits;
    let minus = seq!['-'] + digits;
    assert(plus.skip(1) == digits && minus.skip(1) == digits);
    assert(plus[0] == '+' && minus[0] == '-');
    only_digits_have_a_value(digits, 10);
    if let Some(v) = number::digits_value(digits, 10) {
        assert(number::digit_value(digits[0], 10) is Some);
        number::lemma_digits_prefix(digits, digits.len() as int, 10);
        assert(digits.take(digits.len() as int) == digits);
    }
}

/// A hexadecimal number is a run of digits with one plus sign or none, and every
/// one that a `u64` can hold is read.
pub proof fn hexadecimal_numbers_are_read(digits: Seq<char>)
    ensures
        match number::digits_value(digits, 16) {
            Some(v) => {
                &&& number::hex_value(digits) == if v <= u64::MAX {
                    Some(v as u64)
                } else {
                    None
                }
                &&& number::hex_value(seq!['+'] + digits) == if v <= u64::MAX {
                    Some(v as u64)
                } else {
                    None
                }
            },
            None => {
                &&& digits.len() > 0 && digits[0] == '+' || number::hex_value(digits) is None
                &&& number::hex_value(seq!['+'] + digits) is None
            },
        },
{
    let plus = seq!['+'] + digits;
    assert(plus.skip(1) == digits);
    assert(plus[0] == '+');
    only_digits_have_a_value(digits, 16);
    if number::digits_value(digits, 16) is Some {
        assert(number::digit_value(digits[0], 16) is Some);
    }
}

/// Hexadecimal text is made of lower-case digits, without a leading zero.
pub proof fn hexadecimal_text_is_canonical(n: nat)
    ensures
        number::digits_value(number::hex_text(n), 16) == Some(n as int),
        forall|i: int|
            0 <= i < number::hex_text(n).len() ==> "0123456789abcdef"@.contains(
                #[trigger] number::hex_text(n)[i],
            ),
        n > 0 ==> number::hex_text(n)[0] != '0',
        n == 0 ==> number::hex_text(n) == seq!['0'],
    decreases n,
{
    number::lemma_hex_text(n);
    let s = number::hex_text(n);
    let low = "0123456789abcdef"@;
    lemma_digit_texts((n % 16) as int);
    assert(s.last() == low[(n % 16) as int]);
    if n >= 16 {
        hexadecimal_text_is_canonical(n / 16);
        let t = number::hex_text(n / 16);
        assert forall|i: int| 0 <= i < s.len() implies low.contains(#[trigger] s[i]) by {
            if i < t.len() {
                assert(s[i] == t[i]);
            } else {
                assert(s[i] == low[(n % 16) as int]);
            }
        }
        assert(s[0] == t[0]);
    } else {
        assert forall|i: int| 0 <= i < s.len() implies low.contains(#[trigger] s[i]) by {
            assert(s[i] == low[n as int]);
        }
    }
}

/// Decimal text is made of digits, without a leading zero.
pub proof fn decimal_text_is_canonical(n: nat)
    ensures
        number::digits_value(number::decimal_text(n), 10) == Some(n as int),
        forall|i: int|
            0 <= i < number::decimal_text(n).len() ==> "0123456789"@.contains(
                #[trigger] number::decimal_text(n)[i],
            ),
        n > 0 ==> number::decimal_text(n)[0] != '0',
        n == 0 ==> number::decimal_text(n) == seq!['0'],
    decreases n,
{
    number::decimal_text_reads_back(n);
    number::lemma_decimal_digits(n);
    let s = number::decimal_text(n);
    let ten = "0123456789"@;
    lemma_digit_texts((n % 10) as int);
    assert(s.last() == ten[(n % 10) as int]);
    if n >= 10 {
        decimal_text_is_canonical(n / 10);
        let t = number::decimal_text(n / 10);
        number::lemma_decimal_digits(n / 10);
        assert forall|i: int| 0 <= i < s.len() implies ten.contains(#[trigger] s[i]) by {
            if i < t.len() {
                assert(s[i] == t[i]);
            } else {
                assert(s[i] == ten[(n % 10) as int]);
            }
        }
        assert(s[0] == t[0]);
    } else {
        assert forall|i: int| 0 <= i < s.len() implies ten.contains(#[trigger] s[i]) by {
            assert(s[i] == ten[n as int]);
        }
    }
}

/// A text is hexadecimal exactly where it is not empty and every character is a
/// hexadecimal digit in either case.
pub proof fn hexadecimal_text_is_recognized(s: Seq<char>)
    ensures
        number::all_hex(s) <==> s.len() > 0 && forall|i: int|
            0 <= i < s.len() ==> "0123456789abcdef"@.contains(#[trigger] s[i])
                || "0123456789ABCDEF"@.contains(s[i]),
{
    let low = "0123456789abcdef"@;
    let high = "0123456789ABCDEF"@;
    assert forall|c: char| #[trigger] number::digit_value(c, 16) is Some <==> low.contains(c)
        || high.contains(c) by {
        digits_stand_for_their_values(c, 0);
        lemma_digit_texts(0);
        if low.contains(c) {
            digits_stand_for_their_values(c, low.index_of(c));
        } else if high.contains(c) {
            digits_stand_for_their_values(c, high.index_of(c));
        }
    }
    if number::all_hex(s) {
        assert forall|i: int| 0 <= i < s.len() implies low.contains(#[trigger] s[i])
            || high.contains(s[i]) by {
            assert(number::digit_value(s[i], 16) is Some);
        }
    } else if s.len() > 0 {
        let i = choose|i: int|
            0 <= i < s.len() && number::digit_value(#[trigger] s[i], 16) is None;
        assert(!(low.contains(s[i]) || high.contains(s[i])));
    }
}

} // verus!
