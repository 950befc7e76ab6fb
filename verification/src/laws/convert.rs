//! Where the offsets of a text stand in its lines.

use vstd::prelude::*;

use crate::cli::output_position;
use crate::convert::{
    char_at_position, changed, content_of, folded, law_positions_round_trip, position_at,
    position_of, PositionEnc, Position, Range,
};
use crate::rope::{
    breaks_after, lemma_char_of_byte, lemma_fronts, lemma_lines_grow, line_from, line_of,
    line_start, utf16_len,
};
use crate::syntax::Span;
use crate::text::byte_len;

verus! {

/// The position of scalar `i` of a text.
pub open spec fn position_of_scalar(s: Seq<char>, i: int, enc: PositionEnc) -> Position {
    position_of(s, byte_len(s.take(i)) as u32, enc)
}

proof fn lemma_scalar(s: Seq<char>, i: int, enc: PositionEnc)
    requires
        0 <= i <= s.len(),
        byte_len(s) <= u32::MAX,
    ensures
        ({
            let line = line_of(s, i);
            let start = line_start(s, line);
            position_at(s, byte_len(s.take(i)) as int, enc) == (
                line as int,
                match enc {
                    PositionEnc::Utf8 => byte_len(s.take(i)) - byte_len(s.take(start)),
                    PositionEnc::Utf16 => utf16_len(s.take(i)) - utf16_len(s.take(start)),
                },
            )
        }),
        byte_len(s.take(i)) <= byte_len(s),
{
    assert(s.take(s.len() as int) =~= s);
    lemma_fronts(s, i, s.len() as int);
    lemma_char_of_byte(s, i);
}

proof fn lemma_first_of_line(s: Seq<char>, line: nat, n: int, at: int)
    requires
        0 <= n <= at <= s.len(),
        at > n ==> line_of(s, at - 1) < line,
        at < s.len() ==> line_of(s, at) >= line,
    ensures
        line_from(s, line, n) == at,
    decreases at - n,
{
    if n < at {
        lemma_lines_grow(s, n, at - 1);
        lemma_first_of_line(s, line, n + 1, at);
    }
}

/// Behind a line feed the next line begins, at its first character.
pub proof fn law_line_feeds_start_lines(s: Seq<char>, i: int, enc: PositionEnc)
    requires
        0 <= i < s.len(),
        s[i] == '\n',
        byte_len(s) <= u32::MAX,
    ensures
        position_at(s, byte_len(s.take(i + 1)) as int, enc) == (
            position_at(s, byte_len(s.take(i)) as int, enc).0 + 1,
            0int,
        ),
{
    lemma_scalar(s, i, enc);
    lemma_scalar(s, i + 1, enc);
    assert(breaks_after(s, i));
    lemma_first_of_line(s, line_of(s, i + 1), 0, i + 1);
}

/// Behind any other character, unless it breaks the line too, the line goes on, and
/// the column grows by what the character takes: its bytes, or its code units, of which
/// it has two from U+10000 on.
pub proof fn law_columns_grow(s: Seq<char>, i: int, enc: PositionEnc)
    requires
        0 <= i < s.len(),
        ({
            let c = s[i] as u32;
            c != 0x0a && c != 0x0b && c != 0x0c && c != 0x0d && c != 0x85 && c != 0x2028 && c
                != 0x2029
        }),
        byte_len(s) <= u32::MAX,
    ensures
        ({
            let before = position_at(s, byte_len(s.take(i)) as int, enc);
            let after = position_at(s, byte_len(s.take(i + 1)) as int, enc);
            &&& after.0 == before.0
            &&& after.1 == before.1 + match enc {
                PositionEnc::Utf8 => byte_len(seq![s[i]]) as int,
                PositionEnc::Utf16 => if s[i] as u32 >= 0x10000 {
                    2int
                } else {
                    1int
                },
            }
        }),
{
    lemma_scalar(s, i, enc);
    lemma_scalar(s, i + 1, enc);
    assert(!breaks_after(s, i));
    let front = s.take(i);
    let more = s.take(i + 1);
    assert(more =~= front + seq![s[i]]);
    crate::text::lemma_byte_len_add(front, seq![s[i]]);
    assert(more.drop_last() =~= front);
    assert(more.last() == s[i]);
}

/// An edit between the positions of two places of a text replaces what stands between
/// them, and nothing else.
pub proof fn law_edits_replace_the_range(
    s: Seq<char>,
    i: int,
    j: int,
    text: Seq<char>,
    enc: PositionEnc,
)
    requires
        0 <= i <= j <= s.len(),
        byte_len(s) <= u32::MAX,
        i <= content_of(s, line_of(s, i)).1,
        j <= content_of(s, line_of(s, j)).1,
    ensures
        changed(
            s,
            Some(
                Range {
                    start: position_of_scalar(s, i, enc),
                    end: position_of_scalar(s, j, enc),
                },
            ),
            text,
            enc,
        ) == s.take(i) + text + s.skip(j),
        changed(s, None, text, enc) == text,
{
    lemma_found_again(s, i, enc);
    lemma_found_again(s, j, enc);
}

proof fn lemma_found_again(s: Seq<char>, i: int, enc: PositionEnc)
    requires
        0 <= i <= s.len(),
        byte_len(s) <= u32::MAX,
        i <= content_of(s, line_of(s, i)).1,
    ensures
        char_at_position(s, position_of_scalar(s, i, enc), enc) == i,
{
    assert(s.take(s.len() as int) =~= s);
    lemma_fronts(s, i, s.len() as int);
    law_positions_round_trip(s, i, enc);
    let x = char_at_position(s, position_of_scalar(s, i, enc), enc) as int;
    lemma_position_bounds(s, position_of_scalar(s, i, enc), enc);
    lemma_fronts(s, x, s.len() as int);
    if x < i {
        lemma_fronts(s, x, i);
    } else if i < x {
        lemma_fronts(s, i, x);
    }
}

proof fn lemma_position_bounds(s: Seq<char>, pos: Position, enc: PositionEnc)
    ensures
        char_at_position(s, pos, enc) <= s.len(),
{
    let line = crate::convert::least(pos.line as int, crate::rope::line_count(s) - 1) as nat;
    let (start, end) = content_of(s, line);
    match enc {
        PositionEnc::Utf8 => {
            crate::rope::lemma_char_of_byte_bounds(
                s,
                crate::convert::least(
                    byte_len(s.take(start)) + pos.character,
                    byte_len(s.take(end)) as int,
                ) as nat,
            );
        },
        PositionEnc::Utf16 => {
            crate::rope::lemma_char_of_unit_bounds(
                s,
                crate::convert::least(
                    utf16_len(s.take(start)) + pos.character,
                    utf16_len(s.take(end)) as int,
                ) as nat,
            );
        },
    }
}

/// The output counts lines and columns from one, columns by characters: behind a line
/// feed the next line begins, and behind any other character the column grows by
/// one.
pub proof fn law_output_positions(s: Seq<char>, i: int)
    requires
        0 <= i < s.len(),
    ensures
        output_position(s, 0) == (1int, 1int),
        ({
            let before = output_position(s, byte_len(s.take(i)));
            let after = output_position(s, byte_len(s.take(i + 1)));
            after == if s[i] == '\n' {
                (before.0 + 1, 1int)
            } else {
                (before.0, before.1 + 1)
            }
        }),
{
    assert(s.take(s.len() as int) =~= s);
    lemma_fronts(s, i, s.len() as int);
    lemma_fronts(s, i + 1, s.len() as int);
    lemma_fronts(s, 0, s.len() as int);
    lemma_char_of_byte(s, i);
    lemma_char_of_byte(s, i + 1);
    lemma_char_of_byte(s, s.len() as int);
    lemma_char_of_byte(s, 0);
    assert(s.take(0) =~= Seq::<char>::empty());
    crate::rope::lemma_units_fit(Seq::empty());
    assert(byte_len(Seq::<char>::empty()) == 0) by {
        crate::text::lemma_byte_len_add(Seq::empty(), Seq::empty());
        assert(Seq::<char>::empty() + Seq::<char>::empty() =~= Seq::empty());
    }
}

/// A range folds exactly where its last byte stands on a later line than its first,
/// and then from the one line to the other.
pub proof fn law_ranges_fold_over_lines(s: Seq<char>, span: Span, enc: PositionEnc)
    requires
        span.start < span.end,
    ensures
        ({
            let first = position_of(s, span.start, enc).line;
            let last = position_of(s, (span.end - 1) as u32, enc).line;
            folded(s, span, enc) == if last > first {
                Some((first, last))
            } else {
                None
            }
        }),
{
}

} // verus!
