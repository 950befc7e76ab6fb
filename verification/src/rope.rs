//! The text of an open document, held in a rope.
//!
//! A rope is known by its scalars. Its other indices are sums over them: UTF-8
//! bytes, UTF-16 code units, and lines. A line ends after a line feed, a
//! carriage return that no line feed follows, or another Unicode line break.

use vstd::prelude::*;

use crate::text::{byte_len, lemma_byte_len_add, lemma_byte_len_one};

verus! {

/// [`ropey::Rope`], a text that can be edited in place.
#[verifier::external_type_specification]
#[verifier::external_body]
pub struct ExRope(ropey::Rope);

/// The scalars that a rope holds.
pub uninterp spec fn rope_text(rope: ropey::Rope) -> Seq<char>;

/// How many UTF-16 code units a scalar takes.
pub open spec fn units(c: char) -> nat {
    if c as u32 >= 0x10000 {
        2
    } else {
        1
    }
}

/// The length of a text in UTF-16 code units.
pub open spec fn utf16_len(s: Seq<char>) -> nat
    decreases s.len(),
{
    if s.len() == 0 {
        0
    } else {
        utf16_len(s.drop_last()) + units(s.last())
    }
}

/// Whether a line ends right after the `i`th scalar.
pub open spec fn breaks_after(s: Seq<char>, i: int) -> bool {
    let c = s[i] as u32;
    if c == 0x0d {
        !(i + 1 < s.len() && s[i + 1] as u32 == 0x0a)
    } else {
        c == 0x0a || c == 0x0b || c == 0x0c || c == 0x85 || c == 0x2028 || c == 0x2029
    }
}

/// How many lines end before the `n`th scalar.
pub open spec fn line_of(s: Seq<char>, n: int) -> nat
    decreases n,
{
    if n <= 0 {
        0
    } else {
        line_of(s, n - 1) + if breaks_after(s, n - 1) {
            1nat
        } else {
            0nat
        }
    }
}

/// The first scalar, from `n` on, of that line or a later one; the length when
/// there is none.
pub open spec fn line_from(s: Seq<char>, line: nat, n: int) -> int
    decreases s.len() - n,
{
    if n < 0 || n >= s.len() || line_of(s, n) >= line {
        n
    } else {
        line_from(s, line, n + 1)
    }
}

/// The first scalar of a line.
pub open spec fn line_start(s: Seq<char>, line: nat) -> int {
    line_from(s, line, 0)
}

/// How many lines a text has.
pub open spec fn line_count(s: Seq<char>) -> nat {
    line_of(s, s.len() as int) + 1
}

/// The scalar that a byte belongs to: the longest front of the text that takes
/// no more bytes.
pub open spec fn char_of_byte(s: Seq<char>, byte: nat) -> nat
    decreases s.len(),
{
    if s.len() == 0 || byte_len(s) <= byte {
        s.len()
    } else {
        char_of_byte(s.drop_last(), byte)
    }
}

/// The scalar that a UTF-16 code unit belongs to.
pub open spec fn char_of_unit(s: Seq<char>, unit: nat) -> nat
    decreases s.len(),
{
    if s.len() == 0 || utf16_len(s) <= unit {
        s.len()
    } else {
        char_of_unit(s.drop_last(), unit)
    }
}

/// `Rope::from_str` holds the text.
pub assume_specification[ ropey::Rope::from_str ](text: &str) -> (rope: ropey::Rope)
    ensures
        rope_text(rope) == text@,
;

/// `Rope::len_bytes` counts UTF-8 bytes.
pub assume_specification[ ropey::Rope::len_bytes ](rope: &ropey::Rope) -> (n: usize)
    ensures
        n == byte_len(rope_text(*rope)),
;

/// `Rope::len_chars` counts scalars.
pub assume_specification[ ropey::Rope::len_chars ](rope: &ropey::Rope) -> (n: usize)
    ensures
        n == rope_text(*rope).len(),
;

/// `Rope::len_lines` counts the line breaks, and one more.
pub assume_specification[ ropey::Rope::len_lines ](rope: &ropey::Rope) -> (n: usize)
    ensures
        n == line_count(rope_text(*rope)),
;

/// `Rope::byte_to_char` gives the scalar that a byte belongs to, and the length
/// for the end. It panics past the end.
pub assume_specification[ ropey::Rope::byte_to_char ](
    rope: &ropey::Rope,
    byte_idx: usize,
) -> (n: usize)
    requires
        byte_idx <= byte_len(rope_text(*rope)),
    ensures
        n == char_of_byte(rope_text(*rope), byte_idx as nat),
;

/// `Rope::char_to_byte` gives the bytes before a scalar. It panics past the
/// end.
pub assume_specification[ ropey::Rope::char_to_byte ](
    rope: &ropey::Rope,
    char_idx: usize,
) -> (n: usize)
    requires
        char_idx <= rope_text(*rope).len(),
    ensures
        n == byte_len(rope_text(*rope).take(char_idx as int)),
;

/// `Rope::char_to_line` counts the line breaks before a scalar. It panics past
/// the end.
pub assume_specification[ ropey::Rope::char_to_line ](
    rope: &ropey::Rope,
    char_idx: usize,
) -> (n: usize)
    requires
        char_idx <= rope_text(*rope).len(),
    ensures
        n == line_of(rope_text(*rope), char_idx as int),
;

/// `Rope::line_to_char` gives the first scalar of a line, and the length for
/// the line past the last. It panics for a later one.
pub assume_specification[ ropey::Rope::line_to_char ](
    rope: &ropey::Rope,
    line_idx: usize,
) -> (n: usize)
    requires
        line_idx <= line_count(rope_text(*rope)),
    ensures
        n == line_start(rope_text(*rope), line_idx as nat),
;

/// `Rope::char_to_utf16_cu` gives the UTF-16 code units before a scalar. It
/// panics past the end.
pub assume_specification[ ropey::Rope::char_to_utf16_cu ](
    rope: &ropey::Rope,
    char_idx: usize,
) -> (n: usize)
    requires
        char_idx <= rope_text(*rope).len(),
    ensures
        n == utf16_len(rope_text(*rope).take(char_idx as int)),
;

/// `Rope::utf16_cu_to_char` gives the scalar that a UTF-16 code unit belongs
/// to. It panics past the end.
pub assume_specification[ ropey::Rope::utf16_cu_to_char ](
    rope: &ropey::Rope,
    utf16_cu_idx: usize,
) -> (n: usize)
    requires
        utf16_cu_idx <= utf16_len(rope_text(*rope)),
    ensures
        n == char_of_unit(rope_text(*rope), utf16_cu_idx as nat),
;

/// `Rope::char` gives a scalar. It panics past the end.
pub assume_specification[ ropey::Rope::char ](rope: &ropey::Rope, char_idx: usize) -> (c: char)
    requires
        char_idx < rope_text(*rope).len(),
    ensures
        c == rope_text(*rope)[char_idx as int],
;

/// `Rope::insert` puts a text before a scalar. It panics past the end.
pub assume_specification[ ropey::Rope::insert ](
    rope: &mut ropey::Rope,
    char_idx: usize,
    text: &str,
)
    requires
        char_idx <= rope_text(*old(rope)).len(),
    ensures
        rope_text(*final(rope)) == rope_text(*old(rope)).take(char_idx as int) + text@ + rope_text(
            *old(rope),
        ).skip(char_idx as int),
;

/// Takes out the scalars `start..end` with `Rope::remove`, which panics on a
/// range that ends past the end or before its start.
#[verifier::external_body]
pub(crate) fn remove_chars(rope: &mut ropey::Rope, start: usize, end: usize)
    requires
        start <= end <= rope_text(*old(rope)).len(),
    ensures
        rope_text(*final(rope)) == rope_text(*old(rope)).take(start as int) + rope_text(
            *old(rope),
        ).skip(end as int),
{
    rope.remove(start..end)
}

/// Longer fronts take at least as many bytes and units.
pub proof fn lemma_fronts(s: Seq<char>, a: int, b: int)
    requires
        0 <= a <= b <= s.len(),
    ensures
        byte_len(s.take(a)) <= byte_len(s.take(b)),
        utf16_len(s.take(a)) <= utf16_len(s.take(b)),
        a < b ==> byte_len(s.take(a)) < byte_len(s.take(b)),
        a < b ==> utf16_len(s.take(a)) < utf16_len(s.take(b)),
    decreases b - a,
{
    if a < b {
        lemma_fronts(s, a, b - 1);
        let front = s.take(b);
        assert(front.drop_last() =~= s.take(b - 1));
        assert(front =~= s.take(b - 1) + seq![s[b - 1]]);
        lemma_byte_len_add(s.take(b - 1), seq![s[b - 1]]);
        lemma_byte_len_one(s[b - 1]);
    }
}

/// A text takes no more units than bytes, and no fewer than scalars.
pub proof fn lemma_units_fit(s: Seq<char>)
    ensures
        s.len() <= utf16_len(s) <= byte_len(s),
    decreases s.len(),
{
    if s.len() > 0 {
        lemma_units_fit(s.drop_last());
        assert(s =~= s.drop_last() + seq![s.last()]);
        lemma_byte_len_add(s.drop_last(), seq![s.last()]);
        lemma_scalar_bytes(s.last());
    } else {
        assert(s =~= Seq::<char>::empty());
    }
}

proof fn lemma_scalar_bytes(c: char)
    ensures
        byte_len(seq![c]) >= units(c),
{
    lemma_byte_len_one(c);
    assert(vstd::utf8::encode_utf8(seq![c]) == vstd::utf8::encode_scalar(c as u32)
        + vstd::utf8::encode_utf8(seq![c].drop_first()));
}

/// Lines never go back.
pub proof fn lemma_lines_grow(s: Seq<char>, a: int, b: int)
    requires
        0 <= a <= b,
    ensures
        line_of(s, a) <= line_of(s, b),
        line_of(s, b) <= line_of(s, a) + (b - a),
    decreases b - a,
{
    if a < b {
        lemma_lines_grow(s, a, b - 1);
    }
}

/// The first scalar of the line at or before `c`.
pub proof fn lemma_line_from(s: Seq<char>, line: nat, n: int, c: int)
    requires
        0 <= n <= c <= s.len(),
        line_of(s, c) >= line,
    ensures
        n <= line_from(s, line, n) <= c,
        line_of(s, line_from(s, line, n)) >= line,
    decreases c - n,
{
    if n < c && line_of(s, n) < line {
        lemma_line_from(s, line, n + 1, c);
    }
}

proof fn lemma_line_from_is_exact(s: Seq<char>, line: nat, n: int)
    requires
        0 <= n <= s.len(),
        line_of(s, n) <= line,
        line <= line_of(s, s.len() as int),
    ensures
        n <= line_from(s, line, n) <= s.len(),
        line_of(s, line_from(s, line, n)) == line,
    decreases s.len() - n,
{
    if n < s.len() && line_of(s, n) < line {
        lemma_line_from_is_exact(s, line, n + 1);
    }
}

/// Line starts are in range, and later lines start later.
pub proof fn lemma_line_starts(s: Seq<char>, a: nat, b: nat)
    requires
        a <= b,
    ensures
        0 <= line_start(s, a) <= line_start(s, b) <= s.len(),
{
    lemma_line_from_bounds(s, a, 0);
    lemma_line_from_bounds(s, b, 0);
    lemma_line_from_grows(s, a, b, 0);
}

proof fn lemma_line_from_bounds(s: Seq<char>, line: nat, n: int)
    requires
        0 <= n <= s.len(),
    ensures
        n <= line_from(s, line, n) <= s.len(),
    decreases s.len() - n,
{
    if n < s.len() && line_of(s, n) < line {
        lemma_line_from_bounds(s, line, n + 1);
    }
}

proof fn lemma_line_from_grows(s: Seq<char>, a: nat, b: nat, n: int)
    requires
        a <= b,
        0 <= n <= s.len(),
    ensures
        line_from(s, a, n) <= line_from(s, b, n),
    decreases s.len() - n,
{
    lemma_line_from_bounds(s, b, n);
    if n < s.len() && line_of(s, n) < a {
        lemma_line_from_grows(s, a, b, n + 1);
    }
}

/// The bytes before a scalar lead back to it.
pub proof fn lemma_char_of_byte(s: Seq<char>, c: int)
    requires
        0 <= c <= s.len(),
    ensures
        char_of_byte(s, byte_len(s.take(c))) == c,
    decreases s.len(),
{
    if c == s.len() {
        assert(s.take(c) =~= s);
    } else {
        assert(s.take(s.len() as int) =~= s);
        lemma_fronts(s, c, s.len() as int);
        assert(s.drop_last().take(c) =~= s.take(c));
        lemma_char_of_byte(s.drop_last(), c);
    }
}

/// The units before a scalar lead back to it.
pub proof fn lemma_char_of_unit(s: Seq<char>, c: int)
    requires
        0 <= c <= s.len(),
    ensures
        char_of_unit(s, utf16_len(s.take(c))) == c,
    decreases s.len(),
{
    if c == s.len() {
        assert(s.take(c) =~= s);
    } else {
        assert(s.take(s.len() as int) =~= s);
        lemma_fronts(s, c, s.len() as int);
        assert(s.drop_last().take(c) =~= s.take(c));
        lemma_char_of_unit(s.drop_last(), c);
    }
}

/// A byte belongs to a scalar that starts at or before it.
pub proof fn lemma_char_of_byte_bounds(s: Seq<char>, byte: nat)
    ensures
        char_of_byte(s, byte) <= s.len(),
        byte_len(s.take(char_of_byte(s, byte) as int)) <= byte,
    decreases s.len(),
{
    if s.len() == 0 {
        assert(s.take(0) =~= s);
        lemma_units_fit(s);
        assert(s =~= Seq::<char>::empty());
    } else if byte_len(s) <= byte {
        assert(s.take(s.len() as int) =~= s);
    } else {
        lemma_char_of_byte_bounds(s.drop_last(), byte);
        let c = char_of_byte(s.drop_last(), byte) as int;
        assert(s.drop_last().take(c) =~= s.take(c));
    }
}

/// A unit belongs to a scalar of the text.
pub proof fn lemma_char_of_unit_bounds(s: Seq<char>, unit: nat)
    ensures
        char_of_unit(s, unit) <= s.len(),
    decreases s.len(),
{
    if s.len() > 0 && utf16_len(s) > unit {
        lemma_char_of_unit_bounds(s.drop_last(), unit);
    }
}

/// Later bytes belong to later scalars.
pub proof fn lemma_char_of_byte_grows(s: Seq<char>, a: nat, b: nat)
    requires
        a <= b,
    ensures
        char_of_byte(s, a) <= char_of_byte(s, b),
    decreases s.len(),
{
    lemma_char_of_byte_bounds(s, a);
    if s.len() > 0 && byte_len(s) > b {
        lemma_char_of_byte_grows(s.drop_last(), a, b);
    }
}

} // verus!
