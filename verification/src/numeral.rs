//! Decimal and hexadecimal numerals.

use vstd::prelude::*;
use vstd::string::*;
use crate::text::{text_of, to_chars};

verus! {

/// The character of a decimal digit.
pub open spec fn digit_char(d: int) -> char {
    (48 + d) as char
}

pub open spec fn is_digit(c: char) -> bool {
    '0' <= c && c <= '9'
}

pub open spec fn digit_value(c: char) -> nat {
    (c as int - 48) as nat
}

pub open spec fn all_digits(s: Seq<char>) -> bool {
    forall|i: int| 0 <= i < s.len() ==> is_digit(#[trigger] s[i])
}

/// The number that a row of digits denotes.
pub open spec fn decimal_value(s: Seq<char>) -> nat
    decreases s.len(),
{
    if s.len() == 0 {
        0
    } else {
        decimal_value(s.drop_last()) * 10 + digit_value(s.last())
    }
}

/// The shortest decimal numeral of a number.
pub open spec fn decimal(n: nat) -> Seq<char>
    decreases n,
{
    if n < 10 {
        seq![digit_char(n as int)]
    } else {
        decimal(n / 10).push(digit_char((n % 10) as int))
    }
}

/// `s` with zeros in front, up to a width.
pub open spec fn zero_padded(s: Seq<char>, width: nat) -> Seq<char> {
    if s.len() < width {
        Seq::new((width - s.len()) as nat, |i: int| '0') + s
    } else {
        s
    }
}

fn digit(d: u128) -> (c: char)
    requires
        d < 10,
    ensures
        c == digit_char(d as int),
{
    (48u8 + d as u8) as char
}

/// Puts the decimal numeral of `n` behind `out`.
pub fn push_wide_decimal(out: &mut String, n: u128)
    ensures
        final(out)@ == old(out)@ + decimal(n as nat),
    decreases n,
{
    let ghost before = out@;
    if n >= 10 {
        push_wide_decimal(out, n / 10);
    }
    out.push(digit(n % 10));
    proof {
        assert(out@ =~= before + decimal(n as nat));
    }
}

/// Puts the decimal numeral of `n` behind `out`.
pub fn push_decimal(out: &mut String, n: u64)
    ensures
        final(out)@ == old(out)@ + decimal(n as nat),
{
    push_wide_decimal(out, n as u128);
}

/// The decimal numeral of an integer, with a minus sign in front of a negative one.
pub open spec fn signed_decimal(n: int) -> Seq<char> {
    if n < 0 {
        "-"@ + decimal((-n) as nat)
    } else {
        decimal(n as nat)
    }
}

/// Puts the decimal numeral of `n` behind `out`.
pub fn push_signed(out: &mut String, n: i64)
    ensures
        final(out)@ == old(out)@ + signed_decimal(n as int),
{
    let ghost before = out@;
    if n < 0 {
        out.append("-");
        let wide: i128 = -(n as i128);
        push_wide_decimal(out, wide as u128);
        assert(out@ =~= before + signed_decimal(n as int));
    } else {
        push_wide_decimal(out, n as u128);
    }
}

pub fn signed_text(n: i64) -> (r: String)
    ensures
        r@ == signed_decimal(n as int),
{
    let mut out: String = String::new();
    push_signed(&mut out, n);
    assert(out@ =~= signed_decimal(n as int));
    out
}

pub fn decimal_text(n: u64) -> (r: String)
    ensures
        r@ == decimal(n as nat),
{
    let mut out: String = String::new();
    push_decimal(&mut out, n);
    assert(Seq::<char>::empty() + decimal(n as nat) =~= decimal(n as nat));
    out
}

/// Puts `n` behind `out`, with zeros in front of it up to `width` characters.
pub fn push_padded_decimal(out: &mut String, n: u64, width: usize)
    ensures
        final(out)@ == old(out)@ + zero_padded(decimal(n as nat), width as nat),
{
    let ghost before = out@;
    let numeral: Vec<char> = to_chars(decimal_text(n).as_str());
    let mut len: usize = numeral.len();
    while len < width
        invariant
            numeral@ == decimal(n as nat),
            numeral@.len() <= len,
            len <= width || len == numeral@.len(),
            out@ == before + Seq::new((len - numeral@.len()) as nat, |i: int| '0'),
        decreases width - len,
    {
        out.push('0');
        assert(Seq::new((len + 1 - numeral@.len()) as nat, |i: int| '0') =~= Seq::new(
            (len - numeral@.len()) as nat,
            |i: int| '0',
        ).push('0'));
        len = len + 1;
    }
    let ghost zeros = out@;
    let text: String = text_of(&numeral, 0, numeral.len());
    assert(text@ =~= decimal(n as nat));
    out.append(text.as_str());
    assert(out@ =~= before + zero_padded(decimal(n as nat), width as nat));
}

pub proof fn lemma_decimal(n: nat)
    ensures
        decimal(n).len() >= 1,
        all_digits(decimal(n)),
        decimal_value(decimal(n)) == n,
    decreases n,
{
    if n < 10 {
        assert(decimal(n).drop_last() =~= Seq::<char>::empty());
        assert(decimal_value(Seq::<char>::empty()) == 0);
    } else {
        lemma_decimal(n / 10);
        assert(decimal(n).drop_last() =~= decimal(n / 10));
    }
}

/// Leading zeros leave the number as it is.
pub proof fn lemma_zero_padded(s: Seq<char>, width: nat)
    requires
        all_digits(s),
    ensures
        all_digits(zero_padded(s, width)),
        decimal_value(zero_padded(s, width)) == decimal_value(s),
        zero_padded(s, width).len() == if s.len() < width { width } else { s.len() },
{
    if s.len() < width {
        lemma_leading_zeros(s, (width - s.len()) as nat);
    }
}

proof fn lemma_leading_zeros(s: Seq<char>, count: nat)
    requires
        all_digits(s),
    ensures
        decimal_value(Seq::new(count, |i: int| '0') + s) == decimal_value(s),
    decreases s.len() + count,
{
    let zeros = Seq::new(count, |i: int| '0');
    if s.len() == 0 {
        if count > 0 {
            let fewer = Seq::new((count - 1) as nat, |i: int| '0');
            lemma_leading_zeros(s, (count - 1) as nat);
            assert((zeros + s).drop_last() =~= fewer + s);
        } else {
            assert(zeros + s =~= s);
        }
    } else {
        lemma_leading_zeros(s.drop_last(), count);
        assert((zeros + s).drop_last() =~= zeros + s.drop_last());
    }
}

/// The length of the numeral of a number below a power of ten.
pub proof fn lemma_decimal_len(n: nat, digits: nat)
    requires
        digits >= 1,
        n < vstd::arithmetic::power::pow(10, digits),
    ensures
        decimal(n).len() <= digits,
    decreases digits,
{
    vstd::arithmetic::power::lemma_pow0(10);
    reveal(vstd::arithmetic::power::pow);
    if n >= 10 {
        if digits == 1 {
            assert(vstd::arithmetic::power::pow(10, 1) == 10 * vstd::arithmetic::power::pow(10, 0));
        } else {
            assert(vstd::arithmetic::power::pow(10, digits) == 10 * vstd::arithmetic::power::pow(
                10,
                (digits - 1) as nat,
            ));
            lemma_decimal_len(n / 10, (digits - 1) as nat);
        }
    }
}

/// A sixty-four bit number has at most twenty decimal digits.
pub proof fn lemma_decimal_len_u64(n: u64)
    ensures
        decimal(n as nat).len() <= 20,
{
    assert(vstd::arithmetic::power::pow(10, 20) > u64::MAX) by {
        reveal_with_fuel(vstd::arithmetic::power::pow, 21);
    }
    lemma_decimal_len(n as nat, 20);
}

/// A numeral without the plus sign that may stand in front of it.
pub open spec fn unsigned_digits(s: Seq<char>) -> Seq<char> {
    if s.len() > 0 && s[0] == '+' {
        s.drop_first()
    } else {
        s
    }
}

/// What `u64::from_str` makes of a text: digits, with a plus sign in front or without, of a number
/// that fits.
pub open spec fn unsigned_value(s: Seq<char>) -> Option<nat> {
    let digits = unsigned_digits(s);
    if digits.len() > 0 && all_digits(digits) && decimal_value(digits) <= u64::MAX {
        Some(decimal_value(digits))
    } else {
        None
    }
}

/// What `u128::from_str` makes of a text.
pub open spec fn wide_value(s: Seq<char>) -> Option<nat> {
    let digits = unsigned_digits(s);
    if digits.len() > 0 && all_digits(digits) && decimal_value(digits) <= u128::MAX {
        Some(decimal_value(digits))
    } else {
        None
    }
}

pub fn parse_wide(s: &str) -> (r: Option<u128>)
    ensures
        (match r {
            Some(n) => Some(n as nat),
            None => None,
        }) == wide_value(s@),
{
    let chars: Vec<char> = to_chars(s);
    let start: usize = if chars.len() > 0 && chars[0] == '+' {
        1
    } else {
        0
    };
    let ghost digits = s@.subrange(start as int, s@.len() as int);
    assert(start == 0 ==> digits =~= s@);
    assert(start == 1 ==> digits =~= s@.drop_first());
    if start == chars.len() {
        return None;
    }
    let mut i: usize = start;
    let mut value: Option<u128> = Some(0);
    while i < chars.len()
        invariant
            start <= i <= chars@.len(),
            chars@ == s@,
            digits == s@.subrange(start as int, s@.len() as int),
            digits == unsigned_digits(s@),
            all_digits(digits.take(i - start)),
            match value {
                Some(n) => n == decimal_value(digits.take(i - start)),
                None => decimal_value(digits.take(i - start)) > u128::MAX,
            },
        decreases chars@.len() - i,
    {
        let c: char = chars[i];
        let ghost next = digits.take(i - start + 1);
        assert(next.last() == c);
        assert(next.drop_last() =~= digits.take(i - start));
        if c < '0' || '9' < c {
            assert(digits[i - start] == c);
            assert(!is_digit(digits[i - start]));
            return None;
        }
        let d: u128 = (c as u32 - 48) as u128;
        value = match value {
            Some(n) => if n > (u128::MAX - d) / 10 {
                None
            } else {
                Some(n * 10 + d)
            },
            None => None,
        };
        assert(all_digits(next)) by {
            assert forall|j: int| 0 <= j < next.len() implies is_digit(#[trigger] next[j]) by {
                if j < i - start {
                    assert(next[j] == digits.take(i - start)[j]);
                }
            }
        }
        i = i + 1;
    }
    assert(digits.take(digits.len() as int) =~= digits);
    value
}

pub fn parse_unsigned(s: &str) -> (r: Option<u64>)
    ensures
        (match r {
            Some(n) => Some(n as nat),
            None => None,
        }) == unsigned_value(s@),
{
    match parse_wide(s) {
        Some(n) => if n <= u64::MAX as u128 {
            Some(n as u64)
        } else {
            None
        },
        None => None,
    }
}

// Hexadecimal numerals.

/// The character of a hexadecimal digit, in lower case.
pub open spec fn hex_char(d: int) -> char {
    if d < 10 {
        (48 + d) as char
    } else {
        (87 + d) as char
    }
}

/// The character of a hexadecimal digit, in upper case.
pub open spec fn upper_hex_char(d: int) -> char {
    if d < 10 {
        (48 + d) as char
    } else {
        (55 + d) as char
    }
}

/// The shortest hexadecimal numeral of a number, in lower case.
pub open spec fn hex(n: nat) -> Seq<char>
    decreases n,
{
    if n < 16 {
        seq![hex_char(n as int)]
    } else {
        hex(n / 16).push(hex_char((n % 16) as int))
    }
}

/// The two hexadecimal digits of a byte, in lower case.
pub open spec fn byte_hex(b: u8) -> Seq<char> {
    seq![hex_char(b as int / 16), hex_char(b as int % 16)]
}

/// The two hexadecimal digits of a byte, in upper case.
pub open spec fn upper_byte_hex(b: u8) -> Seq<char> {
    seq![upper_hex_char(b as int / 16), upper_hex_char(b as int % 16)]
}

/// The bytes of a row, two digits each.
pub open spec fn bytes_hex(bytes: Seq<u8>) -> Seq<char>
    decreases bytes.len(),
{
    if bytes.len() == 0 {
        Seq::empty()
    } else {
        bytes_hex(bytes.drop_last()) + byte_hex(bytes.last())
    }
}

fn hex_digit(d: u64) -> (c: char)
    requires
        d < 16,
    ensures
        c == hex_char(d as int),
{
    if d < 10 {
        (48u8 + d as u8) as char
    } else {
        (87u8 + d as u8) as char
    }
}

fn upper_hex_digit(d: u8) -> (c: char)
    requires
        d < 16,
    ensures
        c == upper_hex_char(d as int),
{
    if d < 10 {
        (48u8 + d) as char
    } else {
        (55u8 + d) as char
    }
}

/// Puts the two upper-case digits of a byte behind `out`.
pub fn push_upper_byte_hex(out: &mut String, b: u8)
    ensures
        final(out)@ == old(out)@ + upper_byte_hex(b),
{
    let ghost before = out@;
    out.push(upper_hex_digit(b / 16));
    out.push(upper_hex_digit(b % 16));
    assert(out@ =~= before + upper_byte_hex(b));
}

/// The lower-case digits of a row of bytes.
pub fn hex_text(bytes: &[u8]) -> (r: String)
    ensures
        r@ == bytes_hex(bytes@),
{
    let mut out: String = String::new();
    let mut i: usize = 0;
    while i < bytes.len()
        invariant
            i <= bytes@.len(),
            out@ == bytes_hex(bytes@.take(i as int)),
        decreases bytes@.len() - i,
    {
        let ghost before = out@;
        let b: u8 = bytes[i];
        out.push(hex_digit((b / 16) as u64));
        out.push(hex_digit((b % 16) as u64));
        proof {
            let next = bytes@.take(i + 1);
            assert(next.drop_last() =~= bytes@.take(i as int));
            assert(next.last() == b);
            assert(out@ =~= before + byte_hex(b));
        }
        i = i + 1;
    }
    assert(bytes@.take(bytes@.len() as int) =~= bytes@);
    out
}

/// Puts the lower-case hexadecimal numeral of `n` behind `out`.
fn push_hex(out: &mut String, n: u64)
    ensures
        final(out)@ == old(out)@ + hex(n as nat),
    decreases n,
{
    let ghost before = out@;
    if n >= 16 {
        push_hex(out, n / 16);
    }
    out.push(hex_digit(n % 16));
    proof {
        assert(out@ =~= before + hex(n as nat));
    }
}

/// The lower-case hexadecimal numeral of `n`, with zeros in front of it up to `width` characters.
pub fn padded_hex_text(n: u64, width: usize) -> (r: String)
    ensures
        r@ == zero_padded(hex(n as nat), width as nat),
{
    let mut numeral: String = String::new();
    push_hex(&mut numeral, n);
    assert(numeral@ =~= hex(n as nat));
    let digits: Vec<char> = to_chars(numeral.as_str());
    let mut out: String = String::new();
    let mut len: usize = digits.len();
    while len < width
        invariant
            digits@ == hex(n as nat),
            digits@.len() <= len,
            len <= width || len == digits@.len(),
            out@ == Seq::new((len - digits@.len()) as nat, |i: int| '0'),
        decreases width - len,
    {
        out.push('0');
        assert(Seq::new((len + 1 - digits@.len()) as nat, |i: int| '0') =~= Seq::new(
            (len - digits@.len()) as nat,
            |i: int| '0',
        ).push('0'));
        len = len + 1;
    }
    out.append(numeral.as_str());
    assert(out@ =~= zero_padded(hex(n as nat), width as nat));
    out
}

} // verus!
