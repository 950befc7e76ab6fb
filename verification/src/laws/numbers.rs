//! Numbers as they are written, and what they are read as.

use vstd::arithmetic::power::{
    lemma_pow0, lemma_pow1, lemma_pow_increases, lemma_pow_positive, pow,
};
use vstd::prelude::*;

use crate::numbers::{
    all_digits, decimal_number, digits_end, digits_value, exponent_ok, int_literal, is_i64,
    is_real, is_u64, mantissa_end, not_positive, signed_decimal, unsigned_part,
};
use crate::rounding::mantissa_text;
use crate::text::{decimal, digit_char, is_digit, lower, lower_char};

verus! {

/// A written number has at least one digit and nothing else.
pub proof fn law_decimals_are_digits(n: nat)
    ensures
        decimal(n).len() > 0,
        all_digits(decimal(n)),
    decreases n,
{
    if n >= 10 {
        law_decimals_are_digits(n / 10);
        let front = decimal(n / 10);
        assert(decimal(n) == front.push(digit_char(n % 10)));
        assert forall|i: int| 0 <= i < decimal(n).len() implies is_digit(
            #[trigger] decimal(n)[i],
        ) by {
            if i < front.len() {
                assert(is_digit(front[i]));
            }
        }
    }
}

/// A written number is read as itself.
pub proof fn law_decimals_read_back(n: nat)
    ensures
        digits_value(decimal(n)) == n,
    decreases n,
{
    reveal_with_fuel(digits_value, 2);
    if n >= 10 {
        law_decimals_read_back(n / 10);
        assert(decimal(n).drop_last() =~= decimal(n / 10));
    } else {
        assert(decimal(n) =~= seq![digit_char(n)]);
        assert(decimal(n).drop_last() =~= Seq::empty());
    }
}

/// A written integer, with or without a minus sign, is read as itself, and an
/// unsigned field takes it only without the sign.
pub proof fn law_integers_read_back(n: int)
    ensures
        int_literal(signed_decimal(n), true) == Some(n),
        n >= 0 ==> int_literal(signed_decimal(n), false) == Some(n),
        n < 0 ==> int_literal(signed_decimal(n), false) is None,
        n >= 0 ==> int_literal("+"@ + signed_decimal(n), false) == Some(n),
{
    reveal_strlit("-");
    reveal_strlit("+");
    let size = if n < 0 {
        (-n) as nat
    } else {
        n as nat
    };
    law_decimals_are_digits(size);
    law_decimals_read_back(size);
    assert(is_digit(decimal(size)[0]));
    let s = signed_decimal(n);
    if n < 0 {
        assert(s.skip(1) =~= decimal(size));
        assert(!is_digit(s[0]));
    } else {
        let plus = "+"@ + s;
        assert(plus.skip(1) =~= s);
    }
}

/// An integer is a number of 64 bits exactly where it lies in their range: from
/// -9223372036854775808 to 9223372036854775807 with a sign, and from 0 to
/// 18446744073709551615 without one.
pub proof fn law_integers_have_64_bits(n: int)
    ensures
        is_i64(signed_decimal(n)) <==> -9223372036854775808 <= n <= 9223372036854775807,
        is_u64(signed_decimal(n)) <==> 0 <= n <= 18446744073709551615,
{
    law_integers_read_back(n);
}

/// Nothing but an optional sign and digits is an integer.
pub proof fn law_integers_are_digits(s: Seq<char>, i: int)
    requires
        0 <= i < s.len(),
        !is_digit(s[i]),
        i > 0 || (s[0] != '+' && s[0] != '-'),
    ensures
        int_literal(s, true) is None,
        int_literal(s, false) is None,
        !is_i64(s),
        !is_u64(s),
{
    if i > 0 {
        assert(s.skip(1)[i - 1] == s[i]);
    }
}

/// The empty text is no number.
pub proof fn law_empty_text_is_no_number(s: Seq<char>)
    requires
        s.len() == 0,
    ensures
        !is_i64(s),
        !is_u64(s),
        !is_real(s),
{
    reveal_strlit("inf");
    reveal_strlit("infinity");
    reveal_strlit("nan");
}

proof fn lemma_digits_end(s: Seq<char>, i: int, j: int)
    requires
        0 <= i <= j <= s.len(),
        forall|k: int| i <= k < j ==> is_digit(#[trigger] s[k]),
        j < s.len() ==> !is_digit(s[j]),
    ensures
        digits_end(s, i) == j,
    decreases j - i,
{
    if i < j {
        lemma_digits_end(s, i + 1, j);
    }
}

proof fn lemma_digits_end_bounds(s: Seq<char>, i: int)
    requires
        0 <= i <= s.len(),
    ensures
        i <= digits_end(s, i) <= s.len(),
        forall|k: int| i <= k < digits_end(s, i) ==> is_digit(#[trigger] s[k]),
    decreases s.len() - i,
{
    if i < s.len() && is_digit(s[i]) {
        lemma_digits_end_bounds(s, i + 1);
    }
}

/// Integers are reals, and so are integers with a fraction or an exponent, also
/// with a sign in front.
pub proof fn law_decimal_fractions_are_reals(n: int, fraction: Seq<char>, power: int)
    requires
        all_digits(fraction),
    ensures
        is_real(signed_decimal(n)),
        is_real(signed_decimal(n) + "."@ + fraction),
        is_real(signed_decimal(n) + "."@ + fraction + "e"@ + signed_decimal(power)),
        is_real(signed_decimal(n) + "."@ + fraction + "E"@ + signed_decimal(power)),
{
    reveal_strlit("-");
    reveal_strlit(".");
    reveal_strlit("e");
    reveal_strlit("E");
    let size = if n < 0 {
        (-n) as nat
    } else {
        n as nat
    };
    let high = if power < 0 {
        (-power) as nat
    } else {
        power as nat
    };
    law_decimals_are_digits(size);
    law_decimals_are_digits(high);
    let digits = decimal(size);
    let p = signed_decimal(power);
    let whole = signed_decimal(n);
    let with_fraction = whole + "."@ + fraction;
    let small = with_fraction + "e"@ + p;
    let large = with_fraction + "E"@ + p;
    assert(is_digit(digits[0]));
    assert(is_digit(decimal(high)[0]));
    assert(unsigned_part(whole) =~= digits);
    assert(unsigned_part(with_fraction) =~= digits + "."@ + fraction);
    assert(unsigned_part(small) =~= digits + "."@ + fraction + "e"@ + p);
    assert(unsigned_part(large) =~= digits + "."@ + fraction + "e"@ + p);
    lemma_digits_end(digits, 0, digits.len() as int);
    let b = digits + "."@ + fraction;
    let at = digits.len() as int;
    assert(b[at] == '.');
    assert forall|k: int| 0 <= k < at implies is_digit(#[trigger] b[k]) by {
        assert(is_digit(digits[k]));
    }
    assert forall|k: int| at + 1 <= k < b.len() implies is_digit(#[trigger] b[k]) by {
        assert(is_digit(fraction[k - at - 1]));
    }
    lemma_digits_end(b, 0, at);
    lemma_digits_end(b, at + 1, b.len() as int);
    let c = b + "e"@ + p;
    assert forall|k: int| 0 <= k < b.len() implies #[trigger] c[k] == b[k] by {}
    assert forall|k: int| 0 <= k < at implies is_digit(#[trigger] c[k]) by {
        assert(is_digit(b[k]));
    }
    assert forall|k: int| at + 1 <= k < b.len() implies is_digit(#[trigger] c[k]) by {
        assert(is_digit(b[k]));
    }
    assert(c[b.len() as int] == 'e');
    assert(c[at] == '.');
    lemma_digits_end(c, 0, at);
    lemma_digits_end(c, at + 1, b.len() as int);
    let n_b = b.len() as int;
    let from = if power < 0 {
        n_b + 2
    } else {
        n_b + 1
    };
    assert forall|k: int| from <= k < c.len() implies is_digit(#[trigger] c[k]) by {
        assert(is_digit(decimal(high)[k - from]));
    }
    assert(c[n_b + 1] == p[0]);
    lemma_digits_end(c, from, c.len() as int);
}

/// A text with a character that no number has is no real, unless it is a word for
/// one: `inf`, `infinity` or `nan`.
pub proof fn law_other_words_are_no_reals(s: Seq<char>, i: int)
    requires
        0 <= i < s.len(),
        !is_digit(s[i]) && s[i] != '.' && s[i] != '+' && s[i] != '-' && s[i] != 'e' && s[i] != 'E',
        ({
            let b = unsigned_part(s);
            b != "inf"@ && b != "infinity"@ && b != "nan"@
        }),
    ensures
        !is_real(s),
        !not_positive(s),
{
    let low = lower(s);
    let b = unsigned_part(s);
    let c = lower_char(s[i]);
    assert(low[i] == c);
    assert(!is_digit(c) && c != '.' && c != '+' && c != '-' && c != 'e');
    let at = if b.len() == low.len() {
        i
    } else {
        i - 1
    };
    assert(b[at] == c);
    if decimal_number(b) {
        let whole = digits_end(b, 0);
        lemma_digits_end_bounds(b, 0);
        let k = mantissa_end(b);
        if whole < b.len() && b[whole] == '.' {
            lemma_digits_end_bounds(b, whole + 1);
        }
        assert(at >= k);
        assert(exponent_ok(b, k));
        let d = if k + 1 < b.len() && (b[k + 1] == '+' || b[k + 1] == '-') {
            k + 2
        } else {
            k + 1
        };
        lemma_digits_end_bounds(b, d);
        assert(is_digit(b[at]));
    }
}

/// An integer is read as positive exactly where it is above zero.
pub proof fn law_integers_above_zero_are_positive(n: int)
    ensures
        not_positive(signed_decimal(n)) <==> n <= 0,
{
    reveal_strlit("-");
    reveal_strlit("nan");
    reveal_strlit("inf");
    reveal_strlit("infinity");
    let size = if n < 0 {
        (-n) as nat
    } else {
        n as nat
    };
    law_decimal_fractions_are_reals(n, Seq::empty(), 0);
    law_decimals_are_digits(size);
    law_decimals_read_back(size);
    let digits = decimal(size);
    assert(is_digit(digits[0]));
    let b = unsigned_part(signed_decimal(n));
    assert(b =~= digits);
    lemma_digits_end(digits, 0, digits.len() as int);
    assert(mantissa_text(digits) =~= digits);
    assert("nan"@[0] == 'n' && "inf"@[0] == 'i' && "infinity"@[0] == 'i');
    if n > 0 {
        lemma_pow0(10);
        lemma_pow_positive(2, 1075);
        lemma_pow_increases(2, 1, 1075);
        lemma_pow1(2);
        assert(size * pow(2, 1075) > 1) by (nonlinear_arith)
            requires
                size >= 1,
                pow(2, 1075) >= 2,
        ;
    }
}

} // verus!
