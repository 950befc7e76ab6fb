//! What a tree that was read from a text says of the text.

use vstd::prelude::*;

use crate::analyzer::Analyzer;
use crate::diagnostics::{
    kept, known_codes, law_suppression_drops_listed_codes, pragma_base, pragma_list,
    suppressions_from, token_effects, word_effects, words_from,
};
use crate::extract::defined_kind;
use crate::navigation::{between_bytes, block_called, first_block_called};
use crate::position::element_span;
use crate::reader::{
    cut_from, first_solid, follows, holds_token, leaf_text, leaves_under, lemma_lexed_text,
    lemma_range_leaf, lemma_read_tokens_apart, lemma_root_token, lemma_segment, lexeme, lexes,
    line_end, line_read, line_step, range_leaves, reads, spanned, token_model, unread, ReadState,
};
use crate::rope::lemma_char_of_byte;
use crate::schema::RefKind;
use crate::semantic::{
    element_meets, everything, law_tokens_do_not_overlap, law_whole_range_gives_full_pass,
    marks_in, settles, SemToken,
};
use crate::syntax::{Element, Parse, Span, SyntaxKind, SyntaxToken};
use crate::text::{byte_len, lemma_byte_len_add, same_ci};
use crate::values::DiagnosticView;

verus! {

/// The scalar at which token `k` starts, where the tokens are those of the text
/// from scalar `i` on.
pub open spec fn token_start(s: Seq<char>, i: int, k: int) -> int
    decreases k,
{
    if k <= 0 {
        i
    } else {
        token_start(s, lexeme(s, i).1, k - 1)
    }
}

proof fn lemma_token_start(s: Seq<char>, i: int, tokens: Seq<SyntaxToken>, k: int)
    requires
        lexes(s, i, tokens),
        0 <= i <= s.len(),
        0 <= k < tokens.len(),
    ensures
        0 <= token_start(s, i, k) < token_start(s, i, k + 1) <= s.len(),
        tokens[k].text@ == s.subrange(token_start(s, i, k), token_start(s, i, k + 1)),
        tokens[k].span.start == byte_len(s.take(token_start(s, i, k))) as u32,
        tokens[k].span.end == byte_len(s.take(token_start(s, i, k + 1))) as u32,
    decreases k,
{
    let next = lexeme(s, i).1;
    if k == 0 {
        assert(token_start(s, i, 1) == token_start(s, next, 0));
        assert(cut_from(s, lexeme(s, i).0, i, next, tokens[0]));
    } else {
        assert(tokens.skip(1)[k - 1] == tokens[k]);
        lemma_token_start(s, next, tokens.skip(1), k - 1);
    }
}

/// The text of tokens that follow each other is a part of the text.
proof fn lemma_range_text(s: Seq<char>, tokens: Seq<SyntaxToken>, from: int, to: int, i: int)
    requires
        lexes(s, 0, tokens),
        0 <= from < to <= tokens.len(),
        0 <= i < to - from,
    ensures
        leaf_text(range_leaves(tokens, from, to), i) == s.subrange(
            token_start(s, 0, from + i),
            token_start(s, 0, to),
        ),
        token_start(s, 0, from + i) <= token_start(s, 0, to),
    decreases to - from - i,
{
    lemma_range_leaf(tokens, from, to, i);
    lemma_token_start(s, 0, tokens, from + i);
    lemma_token_start(s, 0, tokens, to - 1);
    let here = s.subrange(token_start(s, 0, from + i), token_start(s, 0, from + i + 1));
    if i + 1 < to - from {
        lemma_range_text(s, tokens, from, to, i + 1);
        assert(here + s.subrange(token_start(s, 0, from + i + 1), token_start(s, 0, to))
            =~= s.subrange(token_start(s, 0, from + i), token_start(s, 0, to)));
    } else {
        assert(leaf_text(range_leaves(tokens, from, to), i + 1) =~= Seq::empty());
        assert(here + Seq::empty() =~= here);
    }
}

/// The part of a text at a node's range is what the node's tokens say.
pub proof fn law_range_holds_the_tokens(
    analyzer: &Analyzer,
    text: Seq<char>,
    tokens: Seq<SyntaxToken>,
    parse: &Parse,
    c: int,
)
    requires
        byte_len(text) <= u32::MAX,
        reads(analyzer, text, tokens, parse),
        0 < c < parse.nodes@.len(),
    ensures
        between_bytes(
            text,
            parse.nodes@[c].span.start as int,
            parse.nodes@[c].span.end as int,
        ) == leaf_text(leaves_under(parse.nodes@, c, 0), 0),
{
    let nodes = parse.nodes@;
    assert(spanned(nodes, c));
    let leaves = leaves_under(nodes, c, 0);
    let from = lemma_segment(parse, tokens, c);
    let to = from + leaves.len();
    lemma_range_leaf(tokens, from, to, 0);
    lemma_range_leaf(tokens, from, to, leaves.len() - 1);
    lemma_range_text(text, tokens, from, to, 0);
    lemma_token_start(text, 0, tokens, from);
    lemma_token_start(text, 0, tokens, to - 1);
    let a = token_start(text, 0, from);
    let b = token_start(text, 0, to);
    lemma_front_fits(text, a);
    lemma_front_fits(text, b);
    lemma_char_of_byte(text, a);
    lemma_char_of_byte(text, b);
}

proof fn lemma_front_fits(s: Seq<char>, i: int)
    requires
        0 <= i <= s.len(),
    ensures
        byte_len(s.take(i)) <= byte_len(s),
{
    assert(s =~= s.take(i) + s.skip(i));
    lemma_byte_len_add(s.take(i), s.skip(i));
}

/// The range that a copied definition is taken from is that of a top-level block
/// of the base text that defines that kind under that name, and what is copied
/// is the text of that block.
pub proof fn law_copy_holds_the_block(
    analyzer: &Analyzer,
    text: Seq<char>,
    tokens: Seq<SyntaxToken>,
    parse: &Parse,
    kind: RefKind,
    name: Seq<char>,
) -> (c: int)
    requires
        byte_len(text) <= u32::MAX,
        reads(analyzer, text, tokens, parse),
        first_block_called(analyzer, parse, kind, name, 0) is Some,
    ensures
        0 < c < parse.nodes@.len(),
        parse.nodes@[c].parent == Some(0usize),
        parse.nodes@[c].kind == SyntaxKind::Block,
        defined_kind(analyzer, parse.nodes@[c]) == Some(kind),
        parse.nodes@[c].name matches Some(t) && same_ci(t.text@, name),
        first_block_called(analyzer, parse, kind, name, 0) == Some(parse.nodes@[c].span),
        between_bytes(
            text,
            parse.nodes@[c].span.start as int,
            parse.nodes@[c].span.end as int,
        ) == leaf_text(leaves_under(parse.nodes@, c, 0), 0),
{
    let c = lemma_called(analyzer, parse, kind, name, 0);
    law_range_holds_the_tokens(analyzer, text, tokens, parse, c);
    c
}

proof fn lemma_called(
    analyzer: &Analyzer,
    parse: &Parse,
    kind: RefKind,
    name: Seq<char>,
    k: int,
) -> (c: int)
    requires
        parse.wf(),
        0 <= k,
        first_block_called(analyzer, parse, kind, name, k) is Some,
    ensures
        0 < c < parse.nodes@.len(),
        parse.nodes@[c].parent == Some(0usize),
        parse.nodes@[c].kind == SyntaxKind::Block,
        defined_kind(analyzer, parse.nodes@[c]) == Some(kind),
        parse.nodes@[c].name matches Some(t) && same_ci(t.text@, name),
        first_block_called(analyzer, parse, kind, name, k) == Some(parse.nodes@[c].span),
    decreases parse.nodes@[0].elements@.len() - k,
{
    if block_called(analyzer, parse, k, kind, name) is Some {
        parse.nodes@[0].elements@[k]->Node_0 as int
    } else {
        lemma_called(analyzer, parse, kind, name, k + 1)
    }
}

/// The semantic tokens of a text, or of a range of it, never overlap.
pub proof fn law_semantic_tokens_of_a_text_do_not_overlap(
    analyzer: &Analyzer,
    text: Seq<char>,
    tokens: Seq<SyntaxToken>,
    parse: &Parse,
    span: Span,
    marked: Seq<SemToken>,
    i: int,
    j: int,
)
    requires
        byte_len(text) <= u32::MAX,
        reads(analyzer, text, tokens, parse),
        settles(marked, marks_in(analyzer, parse, span)),
        0 <= i < j < marked.len(),
    ensures
        marked[i].span.end <= marked[j].span.start,
{
    lemma_read_tokens_apart(analyzer, text, tokens, parse);
    law_tokens_do_not_overlap(analyzer, parse, span, marked, i, j);
}

/// Every top-level element of a text lies inside the text.
pub proof fn law_elements_lie_in_the_text(
    analyzer: &Analyzer,
    text: Seq<char>,
    tokens: Seq<SyntaxToken>,
    parse: &Parse,
    k: int,
)
    requires
        byte_len(text) <= u32::MAX,
        reads(analyzer, text, tokens, parse),
        0 <= k < parse.nodes@[0].elements@.len(),
    ensures
        ({
            let span = element_span(parse, parse.nodes@[0].elements@[k]);
            span.start < span.end <= byte_len(text)
        }),
{
    let nodes = parse.nodes@;
    lemma_lexed_text(text, 0, tokens);
    match nodes[0].elements@[k] {
        Element::Node(x) => {
            let c = x as int;
            assert(spanned(nodes, c));
            let from = lemma_segment(parse, tokens, c);
            let to = from + leaves_under(nodes, c, 0).len();
            lemma_range_leaf(tokens, from, to, 0);
            lemma_range_leaf(tokens, from, to, to - from - 1);
            lemma_token_in_text(text, tokens, from, to - 1);
        },
        Element::Token(t) => {
            let at = lemma_root_token(parse, tokens, k);
            lemma_token_in_text(text, tokens, at, at);
        },
    }
}

proof fn lemma_token_in_text(text: Seq<char>, tokens: Seq<SyntaxToken>, a: int, b: int)
    requires
        byte_len(text) <= u32::MAX,
        lexes(text, 0, tokens),
        0 <= a <= b < tokens.len(),
    ensures
        tokens[a].span.start < tokens[b].span.end <= byte_len(text),
{
    lemma_lexed_text(text, 0, tokens);
    let last = tokens.len() - 1;
    assert(tokens[a].span.start < tokens[a].span.end);
    assert(tokens[b].span.start < tokens[b].span.end);
    if a < b {
        assert(tokens[a].span.end <= tokens[b].span.start);
    }
    if b < last {
        assert(tokens[b].span.end <= tokens[last].span.start);
        assert(tokens[last].span.start < tokens[last].span.end);
    }
}

/// The range of the whole text gives the tokens of the full pass.
pub proof fn law_range_of_the_text_gives_full_pass(
    analyzer: &Analyzer,
    text: Seq<char>,
    tokens: Seq<SyntaxToken>,
    parse: &Parse,
    ranged: Seq<SemToken>,
    full: Seq<SemToken>,
)
    requires
        byte_len(text) <= u32::MAX,
        reads(analyzer, text, tokens, parse),
        settles(
            ranged,
            marks_in(analyzer, parse, (Span { start: 0, end: byte_len(text) as u32 })),
        ),
        settles(full, marks_in(analyzer, parse, everything())),
    ensures
        ranged == full,
{
    let span = Span { start: 0, end: byte_len(text) as u32 };
    assert forall|j: int|
        #![trigger parse.nodes@[0].elements@[j]]
        0 <= j < parse.nodes@[0].elements@.len() implies element_meets(
        parse,
        parse.nodes@[0].elements@[j],
        span,
    ) by {
        law_elements_lie_in_the_text(analyzer, text, tokens, parse, j);
    }
    law_whole_range_gives_full_pass(analyzer, parse, span, ranged, full);
}

/// The first token of the line that holds token `i`, from the line at `from` on.
pub open spec fn line_holding(tokens: Seq<SyntaxToken>, from: int, i: int) -> int
    decreases tokens.len() - from,
{
    let to = line_end(tokens, from);
    if from < 0 || from >= tokens.len() || !(from < to <= tokens.len()) || i < to {
        from
    } else {
        line_holding(tokens, to, i)
    }
}

/// How far the text was read before the line that holds token `i`.
pub open spec fn state_before(
    parse: &Parse,
    tokens: Seq<SyntaxToken>,
    from: int,
    state: ReadState,
    i: int,
) -> ReadState
    decreases tokens.len() - from,
{
    let to = line_end(tokens, from);
    if from < 0 || from >= tokens.len() || !(from < to <= tokens.len()) || i < to {
        state
    } else {
        state_before(parse, tokens, to, line_step(parse.nodes@, tokens, from, to, state), i)
    }
}

/// Token `i` is on a line without a word, outside any scope.
pub open spec fn at_file_scope(parse: &Parse, tokens: Seq<SyntaxToken>, i: int) -> bool {
    let from = line_holding(tokens, 0, i);
    let to = line_end(tokens, from);
    &&& 0 <= i < tokens.len()
    &&& first_solid(tokens, from, to) >= to
    &&& state_before(parse, tokens, 0, unread(), i).open.len() == 0
}

proof fn lemma_line_holding(
    analyzer: &Analyzer,
    parse: &Parse,
    tokens: Seq<SyntaxToken>,
    from: int,
    state: ReadState,
    i: int,
)
    requires
        follows(analyzer, parse, tokens, from, state),
        0 <= from <= i < tokens.len(),
    ensures
        ({
            let at = line_holding(tokens, from, i);
            let to = line_end(tokens, at);
            at <= i < to && line_read(
                analyzer,
                parse,
                tokens,
                at,
                to,
                state_before(parse, tokens, from, state, i),
            )
        }),
    decreases tokens.len() - from,
{
    let to = line_end(tokens, from);
    if i >= to {
        lemma_line_holding(
            analyzer,
            parse,
            tokens,
            to,
            line_step(parse.nodes@, tokens, from, to, state),
            i,
        );
    }
}

proof fn lemma_word_listed(list: Seq<char>, words: Seq<(int, int)>, base: int, v: int, w: int)
    requires
        0 <= v <= w < words.len(),
        known_codes().contains(list.subrange(words[w].0, words[w].1)),
    ensures
        word_effects(list, words, base, v).codes.contains(
            list.subrange(words[w].0, words[w].1),
        ),
    decreases w - v,
{
    let word = list.subrange(words[w].0, words[w].1);
    let here = word_effects(list, words, base, v).codes;
    if v < w {
        lemma_word_listed(list, words, base, v + 1, w);
        let rest = word_effects(list, words, base, v + 1).codes;
        let k = choose|k: int| 0 <= k < rest.len() && rest[k] == word;
        assert(here[k + here.len() - rest.len()] == word);
    } else {
        assert(here[0] == word);
    }
}

proof fn lemma_effect_listed(parse: &Parse, j: int, k: int, code: Seq<char>)
    requires
        0 <= j <= k < parse.nodes@[0].elements@.len(),
        parse.nodes@[0].elements@[k] matches Element::Token(t) && token_effects(
            t,
        ).codes.contains(code),
    ensures
        suppressions_from(parse, j).codes.contains(code),
    decreases k - j,
{
    let all = suppressions_from(parse, j).codes;
    if j < k {
        lemma_effect_listed(parse, j + 1, k, code);
        let rest = suppressions_from(parse, j + 1).codes;
        let i = choose|i: int| 0 <= i < rest.len() && rest[i] == code;
        assert(all[i + all.len() - rest.len()] == code);
    } else {
        let t = parse.nodes@[0].elements@[k]->Token_0;
        let here = token_effects(t).codes;
        let i = choose|i: int| 0 <= i < here.len() && here[i] == code;
        assert(all[i] == code);
    }
}

/// A comment of a text that stands on a line of its own outside any block, and
/// disables a code, drops every finding of that code.
pub proof fn law_comment_at_file_scope_disables(
    analyzer: &Analyzer,
    text: Seq<char>,
    tokens: Seq<SyntaxToken>,
    parse: &Parse,
    i: int,
    w: int,
    found: Seq<DiagnosticView>,
    d: DiagnosticView,
)
    requires
        reads(analyzer, text, tokens, parse),
        at_file_scope(parse, tokens, i),
        tokens[i].kind is Comment,
        pragma_list(tokens[i].text@) matches Some(list) && {
            let words = words_from(list, 0);
            0 <= w < words.len() && d.code == list.subrange(words[w].0, words[w].1)
        },
        known_codes().contains(d.code),
    ensures
        suppressions_from(parse, 0).codes.contains(d.code),
        !kept(found, suppressions_from(parse, 0).codes).contains(d),
{
    lemma_line_holding(analyzer, parse, tokens, 0, unread(), i);
    let root = parse.nodes@[0];
    assert(holds_token(root, token_model(tokens[i])));
    let k = choose|k: int|
        0 <= k < root.elements@.len() && (#[trigger] root.elements@[k] matches Element::Token(t)
            && token_model(t) == token_model(tokens[i]));
    let t = root.elements@[k]->Token_0;
    let list = pragma_list(t.text@)->Some_0;
    lemma_word_listed(list, words_from(list, 0), pragma_base(t, list), 0, w);
    lemma_effect_listed(parse, 0, k, d.code);
    law_suppression_drops_listed_codes(found, suppressions_from(parse, 0).codes, d);
}

} // verus!
