//! Which decimal literals are so small that a 64-bit real cannot tell them from
//! zero.
//!
//! The smallest positive real of that kind is `2^-1074`. A literal is read as
//! the nearest real, and as the even one of two that are equally near, so that
//! it is read as zero up to and including `2^-1075`.

use vstd::arithmetic::power::{
    lemma_pow0, lemma_pow_adds, lemma_pow_increases, lemma_pow_multiplies, lemma_pow_positive, pow,
};
use vstd::prelude::*;

use crate::numbers::{
    decimal_number, digits_end, digits_value, exponent_ok, mantissa_end, run_end,
};
use crate::text::is_digit;

verus! {

/// The digits of the mantissa, without the dot.
pub open spec fn mantissa_text(b: Seq<char>) -> Seq<char> {
    let i = digits_end(b, 0);
    if i < b.len() && b[i] == '.' {
        b.take(i) + b.subrange(i + 1, digits_end(b, i + 1))
    } else {
        b.take(i)
    }
}

/// How many digits stand behind the dot.
pub open spec fn fraction_len(b: Seq<char>) -> int {
    let i = digits_end(b, 0);
    if i < b.len() && b[i] == '.' {
        digits_end(b, i + 1) - (i + 1)
    } else {
        0
    }
}

/// The exponent that stands from `k` on.
pub open spec fn exponent_value(b: Seq<char>, k: int) -> int {
    if k >= b.len() {
        0
    } else if k + 1 < b.len() && b[k + 1] == '-' {
        -digits_value(b.skip(k + 2))
    } else if k + 1 < b.len() && b[k + 1] == '+' {
        digits_value(b.skip(k + 2))
    } else {
        digits_value(b.skip(k + 1))
    }
}

/// Whether a decimal number is at most `2^-1075`: its mantissa divided by a
/// power of ten.
pub open spec fn vanishes(b: Seq<char>) -> bool {
    let m = digits_value(mantissa_text(b));
    let k = fraction_len(b) - exponent_value(b, mantissa_end(b));
    m == 0 || (k >= 0 && m * pow(2, 1075) <= pow(10, k as nat))
}

/// The number with these digits, the lowest first.
pub open spec fn low_first(v: Seq<u8>) -> int
    decreases v.len(),
{
    if v.len() == 0 {
        0
    } else {
        low_first(v.drop_last()) + v.last() * pow(10, (v.len() - 1) as nat)
    }
}

/// Digits, the highest of which is not zero.
pub open spec fn trimmed(v: Seq<u8>) -> bool {
    &&& v.len() > 0
    &&& v.last() > 0
    &&& forall|i: int| 0 <= i < v.len() ==> #[trigger] v[i] <= 9
}

proof fn lemma_ten(e: nat)
    ensures
        pow(10, e) > 0,
        pow(10, e + 1) == 10 * pow(10, e),
        pow(10, 0) == 1,
{
    lemma_pow_positive(10, e);
    lemma_pow0(10);
    reveal(pow);
}

proof fn lemma_pushed(v: Seq<u8>, d: u8)
    ensures
        low_first(v.push(d)) == low_first(v) + d * pow(10, v.len()),
{
    assert(v.push(d).drop_last() =~= v);
}

/// A number of `n` digits lies between two powers of ten.
proof fn lemma_size(v: Seq<u8>)
    requires
        forall|i: int| 0 <= i < v.len() ==> #[trigger] v[i] <= 9,
    ensures
        0 <= low_first(v) < pow(10, v.len()),
        v.len() > 0 && v.last() > 0 ==> low_first(v) >= pow(10, (v.len() - 1) as nat),
    decreases v.len(),
{
    if v.len() == 0 {
        lemma_ten(0);
    } else {
        let rest = v.drop_last();
        assert forall|i: int| 0 <= i < rest.len() implies #[trigger] rest[i] <= 9 by {
            assert(rest[i] == v[i]);
        }
        lemma_size(rest);
        lemma_ten(rest.len());
        let p = pow(10, rest.len());
        let d = v.last() as int;
        assert(v[v.len() - 1] <= 9);
        assert(d * p <= 9 * p) by (nonlinear_arith)
            requires
                d <= 9,
                p > 0,
        ;
        assert(d >= 1 ==> d * p >= p) by (nonlinear_arith)
            requires
                p > 0,
        ;
        assert(d >= 0 ==> d * p >= 0) by (nonlinear_arith)
            requires
                p > 0,
        ;
    }
}

proof fn lemma_base_grows(a: int, b: int, e: nat)
    requires
        0 < a <= b,
    ensures
        pow(a, e) <= pow(b, e),
    decreases e,
{
    reveal(pow);
    if e > 0 {
        let d = (e - 1) as nat;
        lemma_base_grows(a, b, d);
        lemma_pow_positive(a, d);
        assert(a * pow(a, d) <= b * pow(b, d)) by (nonlinear_arith)
            requires
                0 < a <= b,
                0 < pow(a, d) <= pow(b, d),
        ;
    }
}

proof fn lemma_two_to_the_third(e: nat)
    ensures
        pow(2, e + 3) == 8 * pow(2, e),
        pow(2, 3) == 8,
        pow(2, 4) == 16,
{
    reveal(pow);
    reveal_with_fuel(pow, 6);
    lemma_pow_adds(2, e, 3);
}

/// The limit lies between two powers of ten, with room on both sides.
proof fn lemma_limit()
    ensures
        pow(10, 268) < pow(2, 1075) <= pow(10, 359),
{
    lemma_two_to_the_third(1072);
    lemma_pow_multiplies(2, 3, 359);
    lemma_base_grows(8, 10, 359);
    lemma_pow_increases(2, 1075, 1077);
    lemma_pow_multiplies(2, 4, 268);
    lemma_base_grows(10, 16, 268);
    lemma_pow_positive(10, 268);
}

/// Twice the number.
fn doubled(v: &Vec<u8>) -> (r: Vec<u8>)
    requires
        trimmed(v@),
    ensures
        trimmed(r@),
        low_first(r@) == 2 * low_first(v@),
{
    let mut r: Vec<u8> = Vec::new();
    let mut carry: u8 = 0;
    let mut i: usize = 0;
    while i < v.len()
        invariant
            i <= v.len(),
            r.len() == i,
            carry <= 1,
            trimmed(v@),
            forall|k: int| 0 <= k < i ==> #[trigger] r@[k] <= 9,
            i > 0 && carry == 0 ==> (r@[i - 1] == 0 ==> v@[i - 1] == 0),
            low_first(r@) + carry * pow(10, i as nat) == 2 * low_first(v@.take(i as int)),
        decreases v.len() - i,
    {
        let sum: u8 = v[i] * 2 + carry;
        let (d, next): (u8, u8) = if sum >= 10 {
            (sum - 10, 1)
        } else {
            (sum, 0)
        };
        proof {
            assert(v@.take(i + 1).drop_last() =~= v@.take(i as int));
            lemma_pushed(r@, d);
            lemma_ten(i as nat);
            let p = pow(10, i as nat);
            let x = v@[i as int] as int;
            let c = carry as int;
            let dd = d as int;
            let n = next as int;
            assert(dd * p + n * (10 * p) == 2 * (x * p) + c * p) by (nonlinear_arith)
                requires
                    dd + 10 * n == 2 * x + c,
            ;
        }
        r.push(d);
        carry = next;
        i += 1;
    }
    assert(v@.take(i as int) =~= v@);
    if carry > 0 {
        proof {
            lemma_pushed(r@, carry);
        }
        r.push(carry);
    } else {
        assert(v@[v@.len() - 1] == v@.last());
        assert(r@.last() == r@[i - 1]);
    }
    r
}

/// Whether a number is at most a power of ten.
fn at_most_power(v: &Vec<u8>, k: u128) -> (r: bool)
    requires
        trimmed(v@),
    ensures
        r == (low_first(v@) <= pow(10, k as nat)),
{
    let n: u128 = v.len() as u128;
    proof {
        lemma_size(v@);
    }
    if n <= k {
        proof {
            lemma_pow_increases(10, v@.len(), k as nat);
        }
        return true;
    }
    if n > k + 1 {
        proof {
            lemma_pow_increases(10, (k + 1) as nat, (v@.len() - 1) as nat);
            lemma_ten(k as nat);
        }
        return false;
    }
    let top: usize = v.len() - 1;
    let mut i: usize = 0;
    proof {
        lemma_ten(top as nat);
    }
    let ghost p = pow(10, top as nat);
    while i < top
        invariant
            i <= top,
            top + 1 == v.len(),
            top == k,
            trimmed(v@),
            forall|j: int| 0 <= j < i ==> #[trigger] v@[j] == 0,
        decreases top - i,
    {
        if v[i] > 0 {
            proof {
                lemma_low_part(v@, i as int);
            }
            return false;
        }
        i += 1;
    }
    proof {
        lemma_all_zero(v@.drop_last());
        let d = v@.last() as int;
        assert(d >= 2 ==> d * p > p) by (nonlinear_arith)
            requires
                p > 0,
        ;
    }
    v[top] == 1
}

proof fn lemma_all_zero(v: Seq<u8>)
    requires
        forall|i: int| 0 <= i < v.len() ==> #[trigger] v[i] == 0,
    ensures
        low_first(v) == 0,
    decreases v.len(),
{
    if v.len() > 0 {
        let rest = v.drop_last();
        assert forall|i: int| 0 <= i < rest.len() implies #[trigger] rest[i] == 0 by {
            assert(rest[i] == v[i]);
        }
        lemma_all_zero(rest);
        assert(v[v.len() - 1] == 0);
        let d = v.last() as int;
        let p = pow(10, (v.len() - 1) as nat);
        assert(d * p == 0) by (nonlinear_arith)
            requires
                d == 0,
        ;
    }
}

/// A digit below the highest lifts a number above its highest digit.
proof fn lemma_low_part(v: Seq<u8>, at: int)
    requires
        trimmed(v),
        0 <= at < v.len() - 1,
        v[at] > 0,
    ensures
        low_first(v) > pow(10, (v.len() - 1) as nat),
{
    let rest = v.drop_last();
    lemma_positive(rest, at);
    lemma_ten(rest.len());
    let p = pow(10, rest.len());
    let d = v.last() as int;
    assert(d * p >= p) by (nonlinear_arith)
        requires
            p > 0,
            d >= 1,
    ;
}

proof fn lemma_positive(v: Seq<u8>, at: int)
    requires
        0 <= at < v.len(),
        v[at] > 0,
    ensures
        low_first(v) > 0,
    decreases v.len(),
{
    let rest = v.drop_last();
    lemma_ten(rest.len());
    let p = pow(10, rest.len());
    let d = v.last() as int;
    assert(d * p >= 0 && (d >= 1 ==> d * p >= 1)) by (nonlinear_arith)
        requires
            p > 0,
            d >= 0,
    ;
    lemma_nonnegative(rest);
    if at < rest.len() {
        assert(rest[at] == v[at]);
        lemma_positive(rest, at);
    }
}

proof fn lemma_nonnegative(v: Seq<u8>)
    ensures
        low_first(v) >= 0,
    decreases v.len(),
{
    if v.len() > 0 {
        let rest = v.drop_last();
        lemma_nonnegative(rest);
        lemma_ten(rest.len());
        let p = pow(10, rest.len());
        let d = v.last() as int;
        assert(d * p >= 0) by (nonlinear_arith)
            requires
                p > 0,
                d >= 0,
        ;
    }
}

/// The highest digit of a literal counts a power of ten.
proof fn lemma_first_digit(s: Seq<char>)
    requires
        s.len() > 0,
    ensures
        digits_value(s) == (s[0] as int - '0' as int) * pow(10, (s.len() - 1) as nat)
            + digits_value(s.skip(1)),
    decreases s.len(),
{
    lemma_ten(0);
    if s.len() == 1 {
        assert(s.skip(1) =~= Seq::<char>::empty());
        assert(s.drop_last() =~= Seq::<char>::empty());
        reveal_with_fuel(digits_value, 2);
        let d = s[0] as int - '0' as int;
        let p = pow(10, (s.len() - 1) as nat);
        assert(d * p == d) by (nonlinear_arith)
            requires
                p == 1,
        ;
    } else {
        let rest = s.drop_last();
        lemma_first_digit(rest);
        assert(rest[0] == s[0]);
        assert(rest.skip(1) =~= s.skip(1).drop_last());
        assert(s.skip(1).last() == s.last());
        lemma_ten((s.len() - 2) as nat);
        let d = s[0] as int - '0' as int;
        let p = pow(10, (s.len() - 2) as nat);
        let q = pow(10, (s.len() - 1) as nat);
        assert((d * p) * 10 == d * q) by (nonlinear_arith)
            requires
                q == 10 * p,
        ;
    }
}

/// The digits of the mantissa, the lowest first and without leading zeros.
fn mantissa_digits_of(b: &Vec<char>) -> (r: Vec<u8>)
    requires
        decimal_number(b@),
    ensures
        low_first(r@) == digits_value(mantissa_text(b@)),
        r.len() == 0 || trimmed(r@),
        r.len() <= b.len(),
{
    let ghost text = mantissa_text(b@);
    let whole: usize = run_end(b, 0);
    let dotted = whole < b.len() && b[whole] == '.';
    let end: usize = if dotted {
        run_end(b, whole + 1)
    } else {
        whole
    };
    proof {
        lemma_run(b@, 0);
        if dotted {
            lemma_run(b@, whole + 1);
        }
    }
    let mut r: Vec<u8> = Vec::new();
    let mut i: usize = end;
    let ghost mut at: int = text.len() as int;
    assert(text.skip(at) =~= Seq::<char>::empty());
    while i > 0
        invariant
            text == mantissa_text(b@),
            whole == digits_end(b@, 0),
            dotted == (whole < b@.len() && b@[whole as int] == '.'),
            end == if dotted {
                digits_end(b@, whole + 1)
            } else {
                whole as int
            },
            whole <= end <= b.len(),
            dotted ==> whole < end,
            i <= end,
            forall|k: int| 0 <= k < whole ==> is_digit(#[trigger] b@[k]),
            forall|k: int| whole < k < end ==> is_digit(#[trigger] b@[k]),
            at == if dotted && i > whole {
                i - 1
            } else {
                i as int
            },
            text.len() == if dotted {
                end - 1
            } else {
                end as int
            },
            r.len() == text.len() - at,
            forall|k: int| 0 <= k < r.len() ==> #[trigger] r@[k] <= 9,
            low_first(r@) == digits_value(text.skip(at)),
        decreases i,
    {
        i -= 1;
        if !(dotted && i == whole) {
            let c: char = b[i];
            let d: u8 = c as u8 - 48;
            proof {
                let before = at - 1;
                if dotted && i > whole {
                    assert(text[before] == b@[i as int]);
                } else {
                    assert(text[before] == b@[i as int]);
                }
                lemma_first_digit(text.skip(before));
                assert(text.skip(before).skip(1) =~= text.skip(at));
                lemma_pushed(r@, d);
                at = before;
            }
            r.push(d);
        }
    }
    assert(text.skip(0) =~= text);
    while r.len() > 0 && r[r.len() - 1] == 0
        invariant
            r.len() <= b.len(),
            forall|k: int| 0 <= k < r.len() ==> #[trigger] r@[k] <= 9,
            low_first(r@) == digits_value(text),
        decreases r.len(),
    {
        let ghost full = r@;
        r.pop();
        assert(r@ =~= full.drop_last());
        assert(full.last() == 0);
    }
    r
}

/// A run of digits holds digits.
proof fn lemma_run(b: Seq<char>, i: int)
    requires
        0 <= i <= b.len(),
    ensures
        i <= digits_end(b, i) <= b.len(),
        forall|k: int| i <= k < digits_end(b, i) ==> is_digit(#[trigger] b[k]),
    decreases b.len() - i,
{
    if i < b.len() && is_digit(b[i]) {
        lemma_run(b, i + 1);
        assert forall|k: int| i <= k < digits_end(b, i) implies is_digit(#[trigger] b[k]) by {
            if k > i {
                assert(i + 1 <= k);
            }
        }
    }
}

/// More than any exponent that makes a difference.
const CAP: u128 = 1_000_000_000_000_000_000_000_000_000_000;

/// The value of the digits from `from` on, but no more than [`CAP`].
fn capped(b: &Vec<char>, from: usize) -> (r: u128)
    requires
        from <= b.len(),
        digits_end(b@, from as int) == b@.len(),
    ensures
        r <= CAP,
        r < CAP ==> r == digits_value(b@.skip(from as int)),
        r == CAP ==> digits_value(b@.skip(from as int)) >= CAP,
        digits_value(b@.skip(from as int)) >= 0,
{
    let ghost s = b@.skip(from as int);
    proof {
        lemma_run(b@, from as int);
    }
    let mut value: u128 = 0;
    let mut i: usize = from;
    assert(s.take(0) =~= Seq::<char>::empty());
    while i < b.len()
        invariant
            from <= i <= b.len(),
            s == b@.skip(from as int),
            forall|k: int| from <= k < b@.len() ==> is_digit(#[trigger] b@[k]),
            value <= CAP,
            value < CAP ==> value == digits_value(s.take(i - from)),
            value == CAP ==> digits_value(s.take(i - from)) >= CAP,
            digits_value(s.take(i - from)) >= 0,
        decreases b.len() - i,
    {
        let d: u128 = (b[i] as u8 - 48) as u128;
        proof {
            assert(s.take(i - from + 1).drop_last() =~= s.take(i - from));
            assert(s.take(i - from + 1).last() == b@[i as int]);
        }
        let next: u128 = value * 10 + d;
        value = if value == CAP || next >= CAP {
            CAP
        } else {
            next
        };
        i += 1;
    }
    assert(s.take(i - from) =~= s);
    value
}

/// Whether the mantissa is too small for its power of ten, by size alone or,
/// near the limit, by value.
fn below_limit(v: &Vec<u8>, k: u128) -> (r: bool)
    requires
        trimmed(v@),
    ensures
        r == (low_first(v@) * pow(2, 1075) <= pow(10, k as nat)),
{
    let n: u128 = v.len() as u128;
    let ghost m = low_first(v@);
    let ghost limit = pow(2, 1075);
    proof {
        lemma_size(v@);
        lemma_limit();
        lemma_ten(n as nat);
        lemma_ten((n - 1) as nat);
        lemma_pow_positive(10, 268);
        lemma_pow_positive(10, 359);
    }
    if k >= n + 359 {
        proof {
            let p = pow(10, n as nat);
            lemma_pow_adds(10, n as nat, 359);
            lemma_pow_increases(10, (n + 359) as nat, k as nat);
            assert(m * limit <= p * pow(10, 359)) by (nonlinear_arith)
                requires
                    0 <= m < p,
                    0 < limit <= pow(10, 359),
            ;
        }
        return true;
    }
    if k < n + 268 {
        proof {
            let p = pow(10, (n - 1) as nat);
            lemma_pow_adds(10, (n - 1) as nat, 268);
            lemma_pow_increases(10, k as nat, (n - 1 + 268) as nat);
            assert(m * limit > p * pow(10, 268)) by (nonlinear_arith)
                requires
                    0 < p <= m,
                    0 < pow(10, 268) < limit,
            ;
        }
        return false;
    }
    let mut a: Vec<u8> = v.clone();
    assert(a@ =~= v@);
    let mut i: usize = 0;
    proof {
        lemma_pow0(2);
    }
    while i < 1075
        invariant
            i <= 1075,
            trimmed(a@),
            m == low_first(v@),
            low_first(a@) == m * pow(2, i as nat),
        decreases 1075 - i,
    {
        let ghost before = low_first(a@);
        a = doubled(&a);
        proof {
            reveal(pow);
            let p = pow(2, i as nat);
            assert(2 * (m * p) == m * (2 * p)) by (nonlinear_arith);
        }
        i += 1;
    }
    at_most_power(&a, k)
}

/// Decides [`vanishes`] for a decimal number.
pub(crate) fn rounds_to_zero(b: &Vec<char>, end: usize) -> (r: bool)
    requires
        decimal_number(b@),
        end == mantissa_end(b@),
    ensures
        r == vanishes(b@),
{
    let v = mantissa_digits_of(b);
    if v.len() == 0 {
        return true;
    }
    proof {
        lemma_size(v@);
        lemma_ten((v@.len() - 1) as nat);
        lemma_run(b@, 0);
    }
    let whole: usize = run_end(b, 0);
    let fraction: usize = if whole < b.len() && b[whole] == '.' {
        proof {
            lemma_run(b@, whole + 1);
        }
        end - (whole + 1)
    } else {
        0
    };
    let f: u128 = fraction as u128;
    let n: u128 = v.len() as u128;
    assert(exponent_ok(b@, end as int));
    if end >= b.len() {
        return below_limit(&v, f);
    }
    if end + 1 < b.len() && b[end + 1] == '-' {
        let down: u128 = capped(b, end + 2);
        if down == CAP {
            proof {
                let k = (f + digits_value(b@.skip(end + 2))) as nat;
                lemma_far(v@, k);
            }
            return true;
        }
        return below_limit(&v, f + down);
    }
    let up: u128 = if end + 1 < b.len() && b[end + 1] == '+' {
        capped(b, end + 2)
    } else {
        capped(b, end + 1)
    };
    if up > f {
        return false;
    }
    below_limit(&v, f - up)
}

/// A power of ten far beyond the digits of the mantissa is beyond the limit.
proof fn lemma_far(v: Seq<u8>, k: nat)
    requires
        trimmed(v),
        k >= v.len() + 359,
    ensures
        low_first(v) * pow(2, 1075) <= pow(10, k),
{
    let n = v.len();
    let m = low_first(v);
    let limit = pow(2, 1075);
    lemma_size(v);
    lemma_limit();
    lemma_pow_positive(2, 1075);
    lemma_pow_positive(10, 359);
    lemma_pow_adds(10, n, 359);
    lemma_pow_increases(10, n + 359, k);
    let p = pow(10, n);
    assert(m * limit <= p * pow(10, 359)) by (nonlinear_arith)
        requires
            0 <= m < p,
            0 < limit <= pow(10, 359),
    ;
}

} // verus!
