//! Integers written as text: signed decimal and unsigned hexadecimal.

use vstd::prelude::*;
use vstd::slice::slice_subrange;

verus! {

/// What a digit of base `radix` stands for. Letters count in either case.
pub open spec fn digit_value(c: char, radix: int) -> Option<int> {
    let n = c as int;
    let v = if '0' as int <= n <= '9' as int {
        n - '0' as int
    } else if 'a' as int <= n <= 'f' as int {
        n - 'a' as int + 10
    } else if 'A' as int <= n <= 'F' as int {
        n - 'A' as int + 10
    } else {
        radix
    };
    if v < radix {
        Some(v)
    } else {
        None
    }
}

/// The number that a run of digits stands for; `None` where `s` is empty or
/// holds anything but digits.
pub open spec fn digits_value(s: Seq<char>, radix: int) -> Option<int>
    decreases s.len(),
{
    if s.len() == 0 {
        None
    } else {
        match (digit_value(s.last(), radix), digits_value(s.drop_last(), radix)) {
            (None, _) => None,
            (Some(d), Some(v)) => Some(v * radix + d),
            (Some(d), None) => if s.len() == 1 {
                Some(d)
            } else {
                None
            },
        }
    }
}

/// `s` without the one sign that it may start with.
pub open spec fn unsigned_part(s: Seq<char>) -> Seq<char> {
    if s.len() > 0 && (s[0] == '+' || s[0] == '-') {
        s.skip(1)
    } else {
        s
    }
}

/// A decimal `i64`: an optional sign, then digits, and a value in range.
pub open spec fn i64_value(s: Seq<char>) -> Option<i64> {
    match digits_value(unsigned_part(s), 10) {
        Some(v) => {
            let signed = if s[0] == '-' {
                -v
            } else {
                v
            };
            if i64::MIN <= signed <= i64::MAX {
                Some(signed as i64)
            } else {
                None
            }
        },
        None => None,
    }
}

/// A hexadecimal `u64`: an optional plus sign, then digits, and a value in
/// range.
pub open spec fn hex_value(s: Seq<char>) -> Option<u64> {
    let digits = if s.len() > 0 && s[0] == '+' {
        s.skip(1)
    } else {
        s
    };
    match digits_value(digits, 16) {
        Some(v) => if v <= u64::MAX {
            Some(v as u64)
        } else {
            None
        },
        None => None,
    }
}

/// The hexadecimal digit for a value below sixteen, in lower case.
pub open spec fn hex_digit(d: int) -> char {
    if d < 10 {
        ('0' as int + d) as char
    } else {
        ('a' as int + d - 10) as char
    }
}

/// `n` in lower-case hexadecimal, without leading zeros.
pub open spec fn hex_text(n: nat) -> Seq<char>
    decreases n,
{
    if n < 16 {
        seq![hex_digit(n as int)]
    } else {
        hex_text(n / 16).push(hex_digit((n % 16) as int))
    }
}

/// `n` in decimal, without leading zeros.
pub open spec fn decimal_text(n: nat) -> Seq<char>
    decreases n,
{
    if n < 10 {
        seq![hex_digit(n as int)]
    } else {
        decimal_text(n / 10).push(hex_digit((n % 10) as int))
    }
}

/// Every character is a hexadecimal digit, and there is one.
pub open spec fn all_hex(s: Seq<char>) -> bool {
    s.len() > 0 && forall|i: int| 0 <= i < s.len() ==> digit_value(#[trigger] s[i], 16) is Some
}

/// A number never falls when digits are added to it, and text that has no
/// value has none when digits are added.
pub proof fn lemma_digits_prefix(s: Seq<char>, n: int, radix: int)
    requires
        0 < n <= s.len(),
        radix > 0,
    ensures
        digits_value(s, radix) matches Some(v) ==> digits_value(s.take(n), radix) matches Some(w)
            && 0 <= w <= v,
    decreases s.len(),
{
    if n < s.len() {
        let t = s.drop_last();
        assert(t.take(n) == s.take(n));
        lemma_digits_prefix(t, n, radix);
        if let Some(v) = digits_value(s, radix) {
            let w = digits_value(t, radix)->0;
            assert(w <= w * radix) by (nonlinear_arith)
                requires
                    w >= 0,
                    radix > 0,
            ;
        }
    } else {
        assert(s.take(n) == s);
        if s.len() > 1 {
            lemma_digits_prefix(s.drop_last(), s.len() - 1, radix);
            if let Some(w) = digits_value(s.drop_last(), radix) {
                assert(s.drop_last().take(s.len() - 1) == s.drop_last());
                assert(0 <= w * radix) by (nonlinear_arith)
                    requires
                        w >= 0,
                        radix > 0,
                ;
            }
        }
    }
}

/// Reading a hexadecimal text back gives the number that was written.
pub proof fn hex_text_reads_back(n: u64)
    ensures
        hex_value(hex_text(n as nat)) == Some(n),
        all_hex(hex_text(n as nat)),
{
    lemma_hex_text(n as nat);
    let s = hex_text(n as nat);
    assert(digit_value(s[0], 16) is Some);
}

/// Writing a number in hexadecimal gives digits of that value.
pub proof fn lemma_hex_text(n: nat)
    ensures
        digits_value(hex_text(n), 16) == Some(n as int),
        all_hex(hex_text(n)),
    decreases n,
{
    let s = hex_text(n);
    if n < 16 {
        assert(s.last() == hex_digit(n as int));
        assert(digits_value(s.drop_last(), 16) is None);
    } else {
        lemma_hex_text(n / 16);
        assert(s.drop_last() == hex_text(n / 16));
        assert(s.last() == hex_digit((n % 16) as int));
        assert(all_hex(s)) by {
            assert forall|i: int| 0 <= i < s.len() implies digit_value(
                #[trigger] s[i],
                16,
            ) is Some by {
                if i < s.len() - 1 {
                    assert(s[i] == hex_text(n / 16)[i]);
                }
            }
        }
    }
}

/// Reading a decimal text back gives the number that was written.
pub proof fn decimal_text_reads_back(n: nat)
    ensures
        digits_value(decimal_text(n), 10) == Some(n as int),
    decreases n,
{
    let s = decimal_text(n);
    if n < 10 {
        assert(s.last() == hex_digit(n as int));
        assert(digits_value(s.drop_last(), 10) is None);
    } else {
        decimal_text_reads_back(n / 10);
        assert(s.drop_last() == decimal_text(n / 10));
        assert(s.last() == hex_digit((n % 10) as int));
    }
}

/// A decimal text is made of digits.
pub proof fn lemma_decimal_digits(n: nat)
    ensures
        decimal_text(n).len() > 0,
        forall|i: int|
            0 <= i < decimal_text(n).len() ==> digit_value(#[trigger] decimal_text(n)[i], 10) is Some,
    decreases n,
{
    if n >= 10 {
        lemma_decimal_digits(n / 10);
        let t = decimal_text(n / 10);
        assert forall|i: int| 0 <= i < decimal_text(n).len() implies digit_value(
            #[trigger] decimal_text(n)[i],
            10,
        ) is Some by {
            if i < t.len() {
                assert(decimal_text(n)[i] == t[i]);
            }
        }
    }
}

/// Reading a decimal text back as an `i64` gives the number that was written.
pub proof fn decimal_text_reads_back_signed(n: i64)
    requires
        n >= 0,
    ensures
        i64_value(decimal_text(n as nat)) == Some(n),
{
    decimal_text_reads_back(n as nat);
    lemma_decimal_digits(n as nat);
    assert(digit_value(decimal_text(n as nat)[0], 10) is Some);
}

/// What a digit stands for.
fn digit_of(c: char, radix: u64) -> (r: Option<u64>)
    requires
        radix <= 16,
    ensures
        match r {
            Some(d) => digit_value(c, radix as int) == Some(d as int),
            None => digit_value(c, radix as int) is None,
        },
{
    let n: u32 = c as u32;
    let v: u64 = if 48 <= n && n <= 57 {
        (n - 48) as u64
    } else if 97 <= n && n <= 102 {
        (n - 97 + 10) as u64
    } else if 65 <= n && n <= 70 {
        (n - 65 + 10) as u64
    } else {
        radix
    };
    if v < radix {
        Some(v)
    } else {
        None
    }
}

/// The value of a run of digits that fits in a `u64`.
fn parse_digits(s: &[char], radix: u64) -> (r: Option<u64>)
    requires
        2 <= radix <= 16,
    ensures
        match digits_value(s@, radix as int) {
            Some(v) => if v <= u64::MAX {
                r == Some(v as u64)
            } else {
                r is None
            },
            None => r is None,
        },
{
    let mut acc: u64 = 0;
    for i in 0..s.len()
        invariant
            2 <= radix <= 16,
            i == 0 ==> acc == 0,
            i > 0 ==> digits_value(s@.take(i as int), radix as int) == Some(acc as int),
    {
        let ghost now = s@.take(i + 1);
        proof {
            assert(now.drop_last() == s@.take(i as int));
            assert(now.last() == s@[i as int]);
            lemma_digits_prefix(s@, i + 1, radix as int);
        }
        match digit_of(s[i], radix) {
            None => {
                return None;
            },
            Some(d) => {
                assert(acc * radix <= u64::MAX * 16) by (nonlinear_arith)
                    requires
                        0 <= acc <= u64::MAX,
                        0 <= radix <= 16,
                ;
                let next: u128 = acc as u128 * radix as u128 + d as u128;
                proof {
                    if i == 0 {
                        assert(now.drop_last() == Seq::<char>::empty());
                    }
                    assert(digits_value(now, radix as int) == Some(next as int));
                }
                if next > 0xffff_ffff_ffff_ffff {
                    return None;
                }
                acc = next as u64;
            },
        }
    }
    assert(s@.take(s@.len() as int) == s@);
    if s.len() == 0 {
        None
    } else {
        Some(acc)
    }
}

/// A decimal `i64`.
pub fn parse_i64(s: &[char]) -> (r: Option<i64>)
    ensures
        r == i64_value(s@),
{
    let signed: bool = s.len() > 0 && (s[0] == '+' || s[0] == '-');
    let negative: bool = s.len() > 0 && s[0] == '-';
    let start: usize = if signed {
        1
    } else {
        0
    };
    let digits = slice_subrange(s, start, s.len());
    proof {
        assert(s@.skip(0) == s@);
        assert(digits@ == unsigned_part(s@));
        if digits@.len() > 0 {
            lemma_digits_prefix(digits@, digits@.len() as int, 10);
        }
    }
    match parse_digits(digits, 10) {
        None => None,
        Some(v) => {
            if negative {
                if v <= 0x7fff_ffff_ffff_ffff {
                    Some(-(v as i64))
                } else if v == 0x8000_0000_0000_0000 {
                    Some(i64::MIN)
                } else {
                    None
                }
            } else if v <= 0x7fff_ffff_ffff_ffff {
                Some(v as i64)
            } else {
                None
            }
        },
    }
}

/// A hexadecimal `u64`.
pub fn parse_hex(s: &[char]) -> (r: Option<u64>)
    ensures
        r == hex_value(s@),
{
    let start: usize = if s.len() > 0 && s[0] == '+' {
        1
    } else {
        0
    };
    assert(s@.skip(0) == s@);
    parse_digits(slice_subrange(s, start, s.len()), 16)
}

/// Appends `n` in hexadecimal.
pub fn push_hex(out: &mut String, n: u64)
    ensures
        final(out)@ == old(out)@ + hex_text(n as nat),
    decreases n,
{
    if n >= 16 {
        push_hex(out, n / 16);
    }
    let d: u8 = (n % 16) as u8;
    let c: char = if d < 10 {
        (48 + d) as char
    } else {
        (87 + d) as char
    };
    assert(c == hex_digit((n % 16) as int));
    out.push(c);
}

/// Appends `n` in decimal.
pub fn push_decimal(out: &mut String, n: usize)
    ensures
        final(out)@ == old(out)@ + decimal_text(n as nat),
    decreases n,
{
    if n >= 10 {
        push_decimal(out, n / 10);
    }
    let c: char = (48 + (n % 10) as u8) as char;
    assert(c == hex_digit((n % 10) as int));
    out.push(c);
}

/// Whether every character is a hexadecimal digit, and there is one.
pub fn is_hex(s: &[char]) -> (r: bool)
    ensures
        r == all_hex(s@),
{
    if s.len() == 0 {
        return false;
    }
    for i in 0..s.len()
        invariant
            forall|j: int| 0 <= j < i ==> digit_value(#[trigger] s@[j], 16) is Some,
    {
        if digit_of(s[i], 16).is_none() {
            return false;
        }
    }
    true
}

} // verus!
