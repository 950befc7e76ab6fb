//! How texts are taken apart.

use vstd::prelude::*;

use crate::text::{
    after_last, find, is_digit, last_part, lower, rsplit_once, same_ci, split_once, trim_end,
    CharClass,
};

verus! {

/// A text that does not hold the character.
pub open spec fn lacks(s: Seq<char>, c: char) -> bool {
    forall|i: int| 0 <= i < s.len() ==> #[trigger] s[i] != c
}

/// The texts around a character.
pub open spec fn around(a: Seq<char>, c: char, b: Seq<char>) -> Seq<char> {
    a + seq![c] + b
}

proof fn lemma_find(s: Seq<char>, c: char, from: int, at: int)
    requires
        0 <= from <= at <= s.len(),
        at < s.len() ==> s[at] == c,
        forall|j: int| 0 <= j < at ==> #[trigger] s[j] != c,
    ensures
        find(s, c, from) == at,
    decreases at - from,
{
    if from < at {
        assert(s[from] != c);
        lemma_find(s, c, from + 1, at);
    }
}

/// A text is parted at the first of a character, and not where it lacks it.
pub proof fn law_texts_part_at_the_first(a: Seq<char>, c: char, b: Seq<char>)
    requires
        lacks(a, c),
    ensures
        split_once(around(a, c, b), c) == Some((a, b)),
        split_once(a, c) is None,
{
    let s = around(a, c, b);
    let at = a.len() as int;
    assert(forall|j: int| 0 <= j < at ==> #[trigger] s[j] == a[j]);
    lemma_find(s, c, 0, at);
    assert(s.subrange(0, at) =~= a);
    assert(s.subrange(at + 1, s.len() as int) =~= b);
    lemma_find(a, c, 0, at);
}

proof fn lemma_after_last(a: Seq<char>, b: Seq<char>, x: char, y: char)
    requires
        lacks(b, x),
        lacks(b, y),
        a.len() > 0 ==> a.last() == x || a.last() == y,
    ensures
        after_last(a + b, x, y) == a.len(),
    decreases b.len(),
{
    let s = a + b;
    if b.len() == 0 {
        assert(s =~= a);
    } else {
        assert(s.last() == b[b.len() - 1]);
        let front = b.drop_last();
        assert forall|i: int| 0 <= i < front.len() implies #[trigger] front[i] != x && front[i]
            != y by {
            assert(front[i] == b[i]);
        }
        assert(s.drop_last() =~= a + front);
        lemma_after_last(a, front, x, y);
    }
}

/// A text is parted from behind at the last of a character, and not where it lacks
/// it.
pub proof fn law_texts_part_at_the_last(a: Seq<char>, c: char, b: Seq<char>)
    requires
        lacks(b, c),
    ensures
        rsplit_once(around(a, c, b), c) == Some((a, b)),
        rsplit_once(b, c) is None,
{
    let s = around(a, c, b);
    lemma_after_last(a + seq![c], b, c, c);
    assert(s.subrange(0, a.len() as int) =~= a);
    assert(s.subrange(a.len() as int + 1, s.len() as int) =~= b);
    lemma_after_last(Seq::empty(), b, c, c);
    assert(Seq::<char>::empty() + b =~= b);
}

/// The last part of a path is what stands behind its last separator, of either
/// kind; a path without one is its own last part.
pub proof fn law_last_parts(a: Seq<char>, c: char, b: Seq<char>, x: char, y: char)
    requires
        c == x || c == y,
        lacks(b, x),
        lacks(b, y),
    ensures
        last_part(around(a, c, b), x, y) == b,
        last_part(b, x, y) == b,
{
    let s = around(a, c, b);
    lemma_after_last(a + seq![c], b, x, y);
    assert(s.subrange(a.len() as int + 1, s.len() as int) =~= b);
    lemma_after_last(Seq::empty(), b, x, y);
    assert(Seq::<char>::empty() + b =~= b);
    assert(b.subrange(0, b.len() as int) =~= b);
}

/// Texts that differ in ASCII case alone still do with something alike behind them.
pub proof fn law_case_is_kept_apart(a: Seq<char>, b: Seq<char>, tail: Seq<char>)
    ensures
        lower(a + tail) == lower(a) + lower(tail),
        same_ci(a, b) ==> same_ci(a + tail, b + tail),
{
    assert(lower(a + tail) =~= lower(a) + lower(tail));
    assert(lower(b + tail) =~= lower(b) + lower(tail));
}

/// Capital letters are those from `A` to `Z`, each the same as its small one;
/// everything else is only the same as itself.
pub proof fn law_case_is_ascii(c: char)
    ensures
        'A' <= c <= 'Z' ==> crate::text::lower_char(c) == ((c as u32 + 32) as u32) as char,
        !('A' <= c <= 'Z') ==> crate::text::lower_char(c) == c,
{
}

/// Digits at the end of a text are taken off, up to what is no digit.
pub proof fn law_digits_are_taken_off(stem: Seq<char>, digits: Seq<char>)
    requires
        stem.len() > 0 ==> !is_digit(stem.last()),
        forall|i: int| 0 <= i < digits.len() ==> is_digit(#[trigger] digits[i]),
    ensures
        trim_end(stem + digits, CharClass::Digit) == stem,
    decreases digits.len(),
{
    let s = stem + digits;
    if digits.len() == 0 {
        assert(s =~= stem);
    } else {
        let front = digits.drop_last();
        assert(s.last() == digits[digits.len() - 1]);
        assert forall|i: int| 0 <= i < front.len() implies is_digit(#[trigger] front[i]) by {
            assert(front[i] == digits[i]);
        }
        assert(s.drop_last() =~= stem + front);
        law_digits_are_taken_off(stem, front);
    }
}

} // verus!
