//! How a comment turns codes off.

use vstd::prelude::*;

use super::lists::{lemma_behind, lemma_front};
use crate::diagnostics::{
    known_codes, no_semicolons, pragma_base, pragma_list, run_of, separator, token_effects,
    word_effects, words_from,
};
use crate::syntax::SyntaxToken;
use crate::text::{byte_len, in_class, strip_prefix, trim_start, CharClass};
use crate::values::DiagnosticView;

verus! {

/// Blanks alone.
pub open spec fn blank(s: Seq<char>) -> bool {
    forall|i: int| 0 <= i < s.len() ==> in_class(#[trigger] s[i], CharClass::Space)
}

/// A comment that turns codes off: semicolons, the keyword, and the list behind it,
/// with or without a colon between.
pub open spec fn pragma(
    semicolons: nat,
    blanks: Seq<char>,
    gap: Seq<char>,
    colon: bool,
    list: Seq<char>,
) -> Seq<char> {
    Seq::new(semicolons, |i: int| ';') + (blanks + ("zerosyntax-disable"@ + (gap + (if colon {
        ":"@
    } else {
        Seq::empty()
    } + list))))
}

/// A list that may follow the keyword.
pub open spec fn listable(colon: bool, list: Seq<char>) -> bool {
    colon || (list.len() > 0 && list[0] != ':' && !in_class(list[0], CharClass::Space))
}

proof fn lemma_semicolons(n: nat, rest: Seq<char>)
    requires
        rest.len() > 0,
        rest[0] != ';',
    ensures
        no_semicolons(Seq::new(n, |i: int| ';') + rest) == rest,
    decreases n,
{
    let s = Seq::new(n, |i: int| ';') + rest;
    if n > 0 {
        lemma_semicolons((n - 1) as nat, rest);
        assert(s.skip(1) =~= Seq::new((n - 1) as nat, |i: int| ';') + rest);
    } else {
        assert(s =~= rest);
    }
}

proof fn lemma_blanks(blanks: Seq<char>, rest: Seq<char>)
    requires
        blank(blanks),
        rest.len() > 0 ==> !in_class(rest[0], CharClass::Space),
    ensures
        trim_start(blanks + rest, CharClass::Space) == rest,
    decreases blanks.len(),
{
    let s = blanks + rest;
    if blanks.len() > 0 {
        let fewer = blanks.drop_first();
        assert(in_class(blanks[0], CharClass::Space));
        assert forall|i: int| 0 <= i < fewer.len() implies in_class(
            #[trigger] fewer[i],
            CharClass::Space,
        ) by {
            assert(fewer[i] == blanks[i + 1]);
        }
        lemma_blanks(fewer, rest);
        assert(s.drop_first() =~= fewer + rest);
    } else {
        assert(s =~= rest);
    }
}

proof fn lemma_no_prefix(front: Seq<char>, rest: Seq<char>)
    ensures
        strip_prefix(front + rest, front) == Some(rest),
{
    assert(front.is_prefix_of(front + rest));
    assert((front + rest).skip(front.len() as int) =~= rest);
}

/// A comment of that form is read as its list.
pub proof fn law_pragmas_are_read(
    semicolons: nat,
    blanks: Seq<char>,
    gap: Seq<char>,
    colon: bool,
    list: Seq<char>,
)
    requires
        blank(blanks),
        blank(gap),
        listable(colon, list),
    ensures
        pragma_list(pragma(semicolons, blanks, gap, colon, list)) == Some(list),
{
    reveal_strlit("zerosyntax-disable");
    reveal_strlit(":");
    let mark = if colon {
        ":"@
    } else {
        Seq::empty()
    };
    let tail = mark + list;
    let keyed = "zerosyntax-disable"@ + (gap + tail);
    let whole = blanks + keyed;
    assert(keyed[0] == 'z');
    assert(whole.len() > 0);
    assert(whole[0] != ';') by {
        if blanks.len() > 0 {
            assert(whole[0] == blanks[0]);
            assert(in_class(blanks[0], CharClass::Space));
        } else {
            assert(whole =~= keyed);
        }
    }
    lemma_semicolons(semicolons, whole);
    assert(!in_class('z', CharClass::Space));
    lemma_blanks(blanks, keyed);
    lemma_no_prefix("zerosyntax-disable"@, gap + tail);
    assert(tail.len() > 0 ==> !in_class(tail[0], CharClass::Space));
    lemma_blanks(gap, tail);
    if colon {
        lemma_no_prefix(":"@, list);
    } else {
        assert(tail =~= list);
        if ":"@.is_prefix_of(list) {
            assert(list.subrange(0, 1)[0] == ":"@[0]);
            assert(list[0] == ':');
        }
    }
}

/// A word of a list: no separator in it, and one, or an end of the list, on either
/// side of it.
pub open spec fn is_word(list: Seq<char>, start: int, end: int) -> bool {
    &&& 0 <= start < end <= list.len()
    &&& start == 0 || separates(list[start - 1])
    &&& end == list.len() || separates(list[end])
    &&& forall|i: int| start <= i < end ==> !separates(#[trigger] list[i])
}

/// What stands between the words of a list.
pub open spec fn separates(c: char) -> bool {
    c == ' ' || c == '\t' || c == ',' || c == '\r'
}

proof fn lemma_run(s: Seq<char>, i: int, b: bool)
    requires
        0 <= i <= s.len(),
    ensures
        i <= run_of(s, i, b) <= s.len(),
        forall|j: int| i <= j < run_of(s, i, b) ==> separator(#[trigger] s[j]) == b,
        run_of(s, i, b) < s.len() ==> separator(s[run_of(s, i, b)]) != b,
    decreases s.len() - i,
{
    if i < s.len() && separator(s[i]) == b {
        lemma_run(s, i + 1, b);
    }
}

proof fn lemma_words(list: Seq<char>, i: int, start: int, end: int)
    requires
        is_word(list, start, end),
        0 <= i <= start,
    ensures
        words_from(list, i).contains((start, end)),
    decreases list.len() - i,
{
    lemma_run(list, i, true);
    let a = run_of(list, i, true);
    assert(!separates(list[start]));
    assert(a <= start);
    lemma_run(list, a, false);
    let b = run_of(list, a, false);
    assert(a < b) by {
        assert(!separator(list[a]));
        assert(b >= a + 1);
    }
    let rest = words_from(list, b);
    assert(words_from(list, i) == seq![(a, b)] + rest);
    if a == start {
        assert(b == end) by {
            if b < end {
                assert(!separates(list[b]));
            }
            if end < b {
                assert(separator(list[end]) == false);
            }
        }
        assert(seq![(a, b)][0] == (start, end));
        lemma_front(seq![(a, b)], rest, (start, end));
    } else {
        assert(b <= start) by {
            if start < b {
                assert(separator(list[start - 1]) == false);
            }
        }
        lemma_words(list, b, start, end);
        lemma_behind(seq![(a, b)], rest, (start, end));
    }
}

/// The hint about a word that is no code.
pub open spec fn unknown_code(d: DiagnosticView, start: int, end: int) -> bool {
    &&& d.severity is Hint
    &&& d.code == "unknown-suppression"@
    &&& d.span.start == start
    &&& d.span.end == end
}

proof fn lemma_word(
    list: Seq<char>,
    words: Seq<(int, int)>,
    base: int,
    w: int,
    k: int,
) -> (d: DiagnosticView)
    requires
        0 <= w <= k < words.len(),
        0 <= base,
        base + byte_len(list.subrange(0, words[k].0)) <= u32::MAX,
        base + byte_len(list.subrange(0, words[k].1)) <= u32::MAX,
    ensures
        ({
            let word = list.subrange(words[k].0, words[k].1);
            let effects = word_effects(list, words, base, w);
            if known_codes().contains(word) {
                effects.codes.contains(word)
            } else {
                effects.hints.contains(d) && unknown_code(
                    d,
                    base + byte_len(list.subrange(0, words[k].0)),
                    base + byte_len(list.subrange(0, words[k].1)),
                )
            }
        }),
    decreases k - w,
{
    let all = word_effects(list, words, base, w);
    let rest = word_effects(list, words, base, w + 1);
    let word = list.subrange(words[k].0, words[k].1);
    if w < k {
        let d = lemma_word(list, words, base, w + 1, k);
        let here = list.subrange(words[w].0, words[w].1);
        if known_codes().contains(here) {
            if known_codes().contains(word) {
                lemma_behind(seq![here], rest.codes, word);
            }
        } else {
            let hint = all.hints.take(all.hints.len() - rest.hints.len());
            assert(all.hints =~= hint + rest.hints);
            if !known_codes().contains(word) {
                lemma_behind(hint, rest.hints, d);
            }
        }
        d
    } else {
        if known_codes().contains(word) {
            assert(seq![word][0] == word);
            lemma_front(seq![word], rest.codes, word);
        }
        let d = all.hints[0];
        if !known_codes().contains(word) {
            assert(all.hints.contains(d));
        }
        d
    }
}

/// Every known code in the list of such a comment is turned off by it; of any other
/// word there a hint is given, at the word.
pub proof fn law_listed_codes_are_turned_off(
    token: SyntaxToken,
    semicolons: nat,
    blanks: Seq<char>,
    gap: Seq<char>,
    colon: bool,
    list: Seq<char>,
    start: int,
    end: int,
) -> (d: DiagnosticView)
    requires
        token.kind is Comment,
        token.text@ == pragma(semicolons, blanks, gap, colon, list),
        token.wf(),
        blank(blanks),
        blank(gap),
        listable(colon, list),
        is_word(list, start, end),
    ensures
        known_codes().contains(list.subrange(start, end)) ==> token_effects(token).codes.contains(
            list.subrange(start, end),
        ),
        !known_codes().contains(list.subrange(start, end)) ==> token_effects(token).hints.contains(
            d,
        ) && unknown_code(
            d,
            token.span.end - byte_len(list.skip(start)),
            token.span.end - byte_len(list.skip(end)),
        ),
{
    law_pragmas_are_read(semicolons, blanks, gap, colon, list);
    lemma_words(list, 0, start, end);
    let words = words_from(list, 0);
    let k = choose|k: int| 0 <= k < words.len() && words[k] == (start, end);
    let base = pragma_base(token, list);
    lemma_parts_len(list, start);
    lemma_parts_len(list, end);
    let front = pragma(semicolons, blanks, gap, colon, Seq::empty());
    assert(token.text@ =~= front + list);
    crate::text::lemma_byte_len_add(front, list);
    lemma_word(list, words, base, 0, k)
}

proof fn lemma_parts_len(list: Seq<char>, i: int)
    requires
        0 <= i <= list.len(),
    ensures
        byte_len(list.subrange(0, i)) + byte_len(list.skip(i)) == byte_len(list),
{
    assert(list =~= list.subrange(0, i) + list.skip(i));
    crate::text::lemma_byte_len_add(list.subrange(0, i), list.skip(i));
}

} // verus!
