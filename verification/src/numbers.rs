//! The number literals of INI values: integers and decimal reals.

use vstd::prelude::*;

use crate::rounding::{rounds_to_zero, vanishes};
use crate::text::{chars_of, digit_char, is_digit, lower, push_char, to_lower};

verus! {

/// The position after the run of digits that starts at `i`.
pub open spec fn digits_end(s: Seq<char>, i: int) -> int
    decreases s.len() - i,
{
    if 0 <= i < s.len() && is_digit(s[i]) {
        digits_end(s, i + 1)
    } else {
        i
    }
}

/// The value of a run of decimal digits.
pub open spec fn digits_value(s: Seq<char>) -> int
    decreases s.len(),
{
    if s.len() == 0 {
        0
    } else {
        digits_value(s.drop_last()) * 10 + (s.last() as int - '0' as int)
    }
}

/// Whether every scalar is a digit.
pub open spec fn all_digits(s: Seq<char>) -> bool {
    forall|i: int| 0 <= i < s.len() ==> is_digit(#[trigger] s[i])
}

/// The integer that a literal stands for: an optional sign and at least one
/// digit. Only signed literals may carry a minus.
pub open spec fn int_literal(s: Seq<char>, signed: bool) -> Option<int> {
    let minus = signed && s.len() > 0 && s[0] == '-';
    let plus = s.len() > 0 && s[0] == '+';
    let body = if minus || plus {
        s.skip(1)
    } else {
        s
    };
    if body.len() > 0 && all_digits(body) {
        Some(
            if minus {
                -digits_value(body)
            } else {
                digits_value(body)
            },
        )
    } else {
        None
    }
}

/// Whether the literal is a 64-bit signed integer.
pub open spec fn is_i64(s: Seq<char>) -> bool {
    match int_literal(s, true) {
        Some(n) => i64::MIN <= n <= i64::MAX,
        None => false,
    }
}

/// Whether the literal is a 64-bit unsigned integer.
pub open spec fn is_u64(s: Seq<char>) -> bool {
    match int_literal(s, false) {
        Some(n) => n <= u64::MAX,
        None => false,
    }
}

/// The value of a digit run, unless it exceeds 64 bits.
fn read_digits(chars: &Vec<char>, from: usize) -> (r: Option<u64>)
    requires
        from <= chars.len(),
        all_digits(chars@.skip(from as int)),
    ensures
        match r {
            Some(n) => digits_value(chars@.skip(from as int)) == n,
            None => digits_value(chars@.skip(from as int)) > u64::MAX,
        },
{
    let ghost body = chars@.skip(from as int);
    let mut value: u64 = 0;
    let mut over: bool = false;
    let mut i: usize = from;
    while i < chars.len()
        invariant
            from <= i <= chars.len(),
            body == chars@.skip(from as int),
            all_digits(body),
            !over ==> digits_value(body.take(i - from)) == value,
            over ==> digits_value(body.take(i - from)) > u64::MAX,
        decreases chars.len() - i,
    {
        proof {
            assert(body.take(i - from + 1).drop_last() =~= body.take(i - from));
            assert(body[i - from] == chars@[i as int]);
        }
        let d: u64 = ((chars[i] as u32) - 48) as u64;
        if !over {
            if value > (u64::MAX - d) / 10 {
                proof {
                    assert(value * 10 + d > u64::MAX) by (nonlinear_arith)
                        requires
                            value > (u64::MAX - d) / 10,
                            d <= 9,
                    ;
                }
                over = true;
            } else {
                proof {
                    assert(value * 10 + d <= u64::MAX) by (nonlinear_arith)
                        requires
                            value <= (u64::MAX - d) / 10,
                            d <= 9,
                    ;
                }
                value = value * 10 + d;
            }
        }
        i += 1;
    }
    assert(body.take(i - from) =~= body);
    if over {
        None
    } else {
        Some(value)
    }
}

fn check_digits(chars: &Vec<char>, from: usize) -> (r: bool)
    requires
        from <= chars.len(),
    ensures
        r == all_digits(chars@.skip(from as int)),
{
    let ghost body = chars@.skip(from as int);
    let mut i: usize = from;
    while i < chars.len()
        invariant
            from <= i <= chars.len(),
            body == chars@.skip(from as int),
            forall|k: int| 0 <= k < i - from ==> is_digit(#[trigger] body[k]),
        decreases chars.len() - i,
    {
        assert(body[i - from] == chars@[i as int]);
        if !('0' <= chars[i] && chars[i] <= '9') {
            return false;
        }
        i += 1;
    }
    true
}

proof fn lemma_digits_value_nonneg(s: Seq<char>)
    requires
        all_digits(s),
    ensures
        digits_value(s) >= 0,
    decreases s.len(),
{
    if s.len() > 0 {
        assert(is_digit(s[s.len() - 1]));
        assert forall|i: int| 0 <= i < s.drop_last().len() implies is_digit(
            #[trigger] s.drop_last()[i],
        ) by {
            assert(is_digit(s[i]));
        }
        lemma_digits_value_nonneg(s.drop_last());
    }
}

/// The 64-bit signed integer that a literal stands for.
pub fn parse_i64(text: &str) -> (r: Option<i64>)
    ensures
        match r {
            Some(n) => is_i64(text@) && int_literal(text@, true) == Some(n as int),
            None => !is_i64(text@),
        },
{
    let chars = chars_of(text);
    let minus = chars.len() > 0 && chars[0] == '-';
    let plus = chars.len() > 0 && chars[0] == '+';
    let from: usize = if minus || plus {
        1
    } else {
        0
    };
    proof {
        if !(minus || plus) {
            assert(chars@.skip(0) =~= chars@);
        }
    }
    if from == chars.len() || !check_digits(&chars, from) {
        return None;
    }
    proof {
        lemma_digits_value_nonneg(chars@.skip(from as int));
    }
    match read_digits(&chars, from) {
        Some(n) => {
            if minus {
                if n <= 0x7fff_ffff_ffff_ffff {
                    Some(-(n as i64))
                } else if n == 0x8000_0000_0000_0000 {
                    Some(i64::MIN)
                } else {
                    None
                }
            } else if n <= 0x7fff_ffff_ffff_ffff {
                Some(n as i64)
            } else {
                None
            }
        },
        None => None,
    }
}

/// The 64-bit unsigned integer that a literal stands for.
pub fn parse_u64(text: &str) -> (r: Option<u64>)
    ensures
        match r {
            Some(n) => is_u64(text@) && int_literal(text@, false) == Some(n as int),
            None => !is_u64(text@),
        },
{
    let chars = chars_of(text);
    let plus = chars.len() > 0 && chars[0] == '+';
    let from: usize = if plus {
        1
    } else {
        0
    };
    proof {
        if !plus {
            assert(chars@.skip(0) =~= chars@);
        }
    }
    if from == chars.len() || !check_digits(&chars, from) {
        return None;
    }
    read_digits(&chars, from)
}

/// Whether a literal is a 64-bit unsigned integer.
pub fn parses_as_u64(text: &str) -> (r: bool)
    ensures
        r == is_u64(text@),
{
    parse_u64(text).is_some()
}

/// A literal in lower case, without its sign.
pub open spec fn unsigned_part(s: Seq<char>) -> Seq<char> {
    let low = lower(s);
    if low.len() > 0 && (low[0] == '+' || low[0] == '-') {
        low.skip(1)
    } else {
        low
    }
}

/// The position after the mantissa: digits, and a fraction after a dot.
pub open spec fn mantissa_end(b: Seq<char>) -> int {
    let i = digits_end(b, 0);
    if i < b.len() && b[i] == '.' {
        digits_end(b, i + 1)
    } else {
        i
    }
}

/// How many digits the mantissa has.
pub open spec fn mantissa_digits(b: Seq<char>) -> int {
    let i = digits_end(b, 0);
    if i < b.len() && b[i] == '.' {
        digits_end(b, i + 1) - 1
    } else {
        i
    }
}

/// Whether what stands from `k` on is nothing or an exponent.
pub open spec fn exponent_ok(b: Seq<char>, k: int) -> bool {
    if k >= b.len() {
        true
    } else if b[k] != 'e' {
        false
    } else {
        let d = if k + 1 < b.len() && (b[k + 1] == '+' || b[k + 1] == '-') {
            k + 2
        } else {
            k + 1
        };
        d < b.len() && digits_end(b, d) == b.len()
    }
}

/// A decimal number: a mantissa with at least one digit, and an optional
/// exponent.
pub open spec fn decimal_number(b: Seq<char>) -> bool {
    mantissa_digits(b) > 0 && exponent_ok(b, mantissa_end(b))
}

/// Whether the literal is a real: a sign, then a decimal number, an infinity
/// or a NaN, in any ASCII case.
pub open spec fn is_real(s: Seq<char>) -> bool {
    let b = unsigned_part(s);
    b == "inf"@ || b == "infinity"@ || b == "nan"@ || decimal_number(b)
}

/// Whether a real literal is read as zero or below: one with a minus sign, or
/// one that is too small to differ from zero. A NaN is neither.
pub open spec fn not_positive(s: Seq<char>) -> bool {
    let b = unsigned_part(s);
    if !is_real(s) || b == "nan"@ {
        false
    } else if s.len() > 0 && s[0] == '-' {
        true
    } else {
        b != "inf"@ && b != "infinity"@ && vanishes(b)
    }
}

pub(crate) fn run_end(b: &Vec<char>, from: usize) -> (r: usize)
    requires
        from <= b.len(),
    ensures
        r == digits_end(b@, from as int),
        from <= r <= b.len(),
{
    let mut i: usize = from;
    while i < b.len() && '0' <= b[i] && b[i] <= '9'
        invariant
            from <= i <= b.len(),
            digits_end(b@, from as int) == digits_end(b@, i as int),
        decreases b.len() - i,
    {
        i += 1;
    }
    i
}

fn unsigned_chars(text: &str) -> (r: Vec<char>)
    ensures
        r@ == unsigned_part(text@),
{
    let low = chars_of(to_lower(text).as_str());
    let mut out: Vec<char> = Vec::new();
    let mut i: usize = if low.len() > 0 && (low[0] == '+' || low[0] == '-') {
        1
    } else {
        0
    };
    let ghost from = i as int;
    while i < low.len()
        invariant
            0 <= from <= i <= low.len(),
            out@ == low@.subrange(from, i as int),
        decreases low.len() - i,
    {
        out.push(low[i]);
        assert(low@.subrange(from, i + 1) =~= low@.subrange(from, i as int).push(low@[i as int]));
        i += 1;
    }
    proof {
        if from <= low@.len() {
            assert(low@.subrange(from, low@.len() as int) =~= low@.skip(from));
        }
        assert(low@.skip(0) =~= low@);
    }
    out
}

fn chars_are(b: &Vec<char>, word: &str) -> (r: bool)
    ensures
        r == (b@ == word@),
{
    let w = chars_of(word);
    if b.len() != w.len() {
        return false;
    }
    let mut i: usize = 0;
    while i < b.len()
        invariant
            i <= b.len(),
            b.len() == w.len(),
            w@ == word@,
            forall|k: int| 0 <= k < i ==> b@[k] == w@[k],
        decreases b.len() - i,
    {
        if b[i] != w[i] {
            return false;
        }
        i += 1;
    }
    assert(b@ =~= w@);
    true
}

fn mantissa_of(b: &Vec<char>) -> (r: (usize, usize))
    ensures
        r.0 == mantissa_end(b@),
        r.1 == mantissa_digits(b@),
        r.0 <= b.len(),
{
    let i: usize = run_end(b, 0);
    if i < b.len() && b[i] == '.' {
        let j: usize = run_end(b, i + 1);
        (j, j - 1)
    } else {
        (i, i)
    }
}

fn decimal_chars(b: &Vec<char>) -> (r: bool)
    ensures
        r == decimal_number(b@),
{
    let (k, digits) = mantissa_of(b);
    if digits == 0 {
        return false;
    }
    if k >= b.len() {
        return true;
    }
    if b[k] != 'e' {
        return false;
    }
    let d: usize = if k + 1 < b.len() && (b[k + 1] == '+' || b[k + 1] == '-') {
        k + 2
    } else {
        k + 1
    };
    d < b.len() && run_end(b, d) == b.len()
}

/// Whether a literal is a real number.
pub fn parses_as_real(text: &str) -> (r: bool)
    ensures
        r == is_real(text@),
{
    let b = unsigned_chars(text);
    chars_are(&b, "inf") || chars_are(&b, "infinity") || chars_are(&b, "nan") || decimal_chars(&b)
}

/// Whether a literal is a real number that is read as zero or below.
pub fn is_not_positive(text: &str) -> (r: bool)
    ensures
        r == not_positive(text@),
{
    let b = unsigned_chars(text);
    if !parses_as_real(text) || chars_are(&b, "nan") {
        return false;
    }
    let chars = chars_of(text);
    if chars.len() > 0 && chars[0] == '-' {
        return true;
    }
    if chars_are(&b, "inf") || chars_are(&b, "infinity") {
        return false;
    }
    let (end, _digits) = mantissa_of(&b);
    rounds_to_zero(&b, end)
}

/// A signed number in decimal.
pub open spec fn signed_decimal(n: int) -> Seq<char> {
    if n < 0 {
        "-"@ + crate::text::decimal((-n) as nat)
    } else {
        crate::text::decimal(n as nat)
    }
}

/// `n` in decimal.
pub fn unsigned_text(n: u128) -> (out: String)
    ensures
        out@ == crate::text::decimal(n as nat),
    decreases n,
{
    let digit: u8 = (n % 10) as u8;
    let c: char = (48u8 + digit) as char;
    let mut out = if n < 10 {
        String::new()
    } else {
        unsigned_text(n / 10)
    };
    push_char(&mut out, c);
    proof {
        if n < 10 {
            assert(out@ =~= seq![digit_char(n as nat)]);
        }
    }
    out
}

/// `n` in decimal, with its sign.
pub fn signed_text(n: i64) -> (out: String)
    ensures
        out@ == signed_decimal(n as int),
{
    if n < 0 {
        let magnitude: u64 = if n == i64::MIN {
            0x8000_0000_0000_0000
        } else {
            (-n) as u64
        };
        crate::text::join2("-", unsigned_text(magnitude as u128).as_str())
    } else {
        unsigned_text(n as u128)
    }
}

} // verus!
