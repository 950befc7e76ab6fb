//! How a text falls into tokens, and its lines into nodes.

use vstd::prelude::*;

use crate::analyzer::Analyzer;
use crate::laws::schema::{last_block, law_block_types_are_found};
use crate::laws::tree::{law_nodes_lie_in_scopes, lemma_line_of};
use crate::model::{scope_of, sub_block_at};
use crate::navigation::is_single_token;
use crate::reader::{
    lexeme, lexes, maybe_model, reads, ruled_node, run_end, token_model, token_models, unread,
    words, Stop, TokenModel,
};
use crate::scopes::slot_at;
use crate::syntax::{Parse, SyntaxKind, SyntaxToken, TokenKind};
use crate::text::same_ci;

verus! {

/// A blank inside a line.
pub open spec fn blank(c: char) -> bool {
    c == ' ' || c == '\t' || c == '\r'
}

/// A character that ends a word.
pub open spec fn ends_word(c: char) -> bool {
    blank(c) || c == '\n' || c == ';' || c == '='
}

/// A text none of whose characters ends a word, and that opens no quotes.
pub open spec fn is_word(w: Seq<char>) -> bool {
    &&& w.len() > 0
    &&& w[0] != '"'
    &&& forall|i: int| 0 <= i < w.len() ==> !ends_word(#[trigger] w[i])
}

proof fn lemma_run(s: Seq<char>, i: int, end: int, stop: Stop)
    requires
        0 <= i <= end <= s.len(),
        forall|j: int| i <= j < end ==> !crate::reader::stops(stop, #[trigger] s[j]),
        end < s.len() ==> crate::reader::stops(stop, s[end]),
    ensures
        run_end(s, i, stop) == end,
    decreases end - i,
{
    if i < end {
        lemma_run(s, i + 1, end, stop);
    }
}

/// A word is one token, up to the first blank, line break, `;` or `=` behind it.
pub proof fn law_words_are_tokens(front: Seq<char>, w: Seq<char>, back: Seq<char>)
    requires
        is_word(w),
        back.len() > 0 ==> ends_word(back[0]),
    ensures
        lexeme(front + w + back, front.len() as int) == (
            TokenKind::Word,
            (front.len() + w.len()) as int,
        ),
{
    let s = front + w + back;
    let at = front.len() as int;
    let end = at + w.len();
    assert forall|j: int| at <= j < end implies #[trigger] s[j] == w[j - at] by {}
    assert(!ends_word(w[0]));
    assert forall|j: int| at + 1 <= j < end implies !crate::reader::stops(
        Stop::Word,
        #[trigger] s[j],
    ) by {
        assert(!ends_word(w[j - at]));
    }
    assert(end < s.len() ==> s[end] == back[0]);
    lemma_run(s, at + 1, end, Stop::Word);
}

/// A text in double quotes is one token, up to the closing quote or the end of the
/// line, whatever else it holds.
pub proof fn law_quotes_are_tokens(front: Seq<char>, q: Seq<char>, back: Seq<char>)
    requires
        forall|i: int| 0 <= i < q.len() ==> #[trigger] q[i] != '"' && q[i] != '\n',
    ensures
        lexeme(front + ("\""@ + q + "\""@) + back, front.len() as int) == (
            TokenKind::Quoted,
            (front.len() + q.len() + 2) as int,
        ),
        back.len() > 0 && back[0] == '\n' ==> lexeme(
            front + ("\""@ + q) + back,
            front.len() as int,
        ) == (TokenKind::Quoted, (front.len() + q.len() + 1) as int),
{
    reveal_strlit("\"");
    let at = front.len() as int;
    let end = at + 1 + q.len();
    let s = front + ("\""@ + q + "\""@) + back;
    assert(s[at] == '"' && s[end] == '"');
    assert forall|j: int| at + 1 <= j < end implies #[trigger] s[j] == q[j - at - 1] by {}
    lemma_run(s, at + 1, end, Stop::Quote);
    if back.len() > 0 && back[0] == '\n' {
        let u = front + ("\""@ + q) + back;
        assert(u[at] == '"' && u[end] == '\n');
        assert forall|j: int| at + 1 <= j < end implies #[trigger] u[j] == q[j - at - 1] by {}
        lemma_run(u, at + 1, end, Stop::Quote);
    }
}

/// A comment goes from its `;` to the end of the line.
pub proof fn law_comments_are_tokens(front: Seq<char>, c: Seq<char>, back: Seq<char>)
    requires
        forall|i: int| 0 <= i < c.len() ==> #[trigger] c[i] != '\n',
        back.len() > 0 ==> back[0] == '\n',
    ensures
        lexeme(front + (";"@ + c) + back, front.len() as int) == (
            TokenKind::Comment,
            (front.len() + c.len() + 1) as int,
        ),
{
    reveal_strlit(";");
    let at = front.len() as int;
    let end = at + 1 + c.len();
    let s = front + (";"@ + c) + back;
    assert(s[at] == ';');
    assert forall|j: int| at + 1 <= j < end implies #[trigger] s[j] == c[j - at - 1] by {}
    assert(end < s.len() ==> s[end] == back[0]);
    lemma_run(s, at + 1, end, Stop::Line);
}

/// Blanks are one token, a line break and an equal sign one each.
pub proof fn law_signs_are_tokens(front: Seq<char>, b: Seq<char>, back: Seq<char>)
    requires
        b.len() > 0,
        forall|i: int| 0 <= i < b.len() ==> blank(#[trigger] b[i]),
        back.len() > 0 ==> !blank(back[0]),
    ensures
        lexeme(front + b + back, front.len() as int) == (
            TokenKind::Whitespace,
            (front.len() + b.len()) as int,
        ),
        lexeme(front + "="@ + back, front.len() as int) == (
            TokenKind::Equals,
            (front.len() + 1) as int,
        ),
        lexeme(front + "\n"@ + back, front.len() as int) == (
            TokenKind::Newline,
            (front.len() + 1) as int,
        ),
{
    reveal_strlit("=");
    reveal_strlit("\n");
    let at = front.len() as int;
    let end = at + b.len();
    let s = front + b + back;
    assert forall|j: int| at <= j < end implies #[trigger] s[j] == b[j - at] by {}
    assert(blank(b[0]));
    assert forall|j: int| at + 1 <= j < end implies !crate::reader::stops(
        Stop::Solid,
        #[trigger] s[j],
    ) by {
        assert(blank(b[j - at]));
    }
    assert(end < s.len() ==> s[end] == back[0]);
    lemma_run(s, at + 1, end, Stop::Solid);
    assert((front + "="@ + back)[at] == '=');
    assert((front + "\n"@ + back)[at] == '\n');
}

/// A name that a definition can be renamed to is a name that is read as one bare word:
/// the text of the name alone is one word, to its end.
pub proof fn law_new_names_are_words(name: Seq<char>, tokens: Seq<SyntaxToken>)
    requires
        is_single_token(name),
        lexes(name, 0, tokens),
    ensures
        tokens.len() == 1,
        tokens[0].kind == TokenKind::Word,
        tokens[0].text@ == name,
{
    assert(is_word(name)) by {
        assert(!crate::navigation::breaks_token(name[0]));
        assert forall|i: int| 0 <= i < name.len() implies !ends_word(#[trigger] name[i]) by {
            assert(!crate::navigation::breaks_token(name[i]));
        }
    }
    law_words_are_tokens(Seq::empty(), name, Seq::empty());
    assert(Seq::<char>::empty() + name + Seq::<char>::empty() =~= name);
    let rest = tokens.skip(1);
    assert(lexes(name, name.len() as int, rest));
    assert(rest.len() == 0);
    assert(name.subrange(0, name.len() as int) =~= name);
}

/// What cannot be a new name would not be read as one bare word, or would hold a
/// quote.
pub proof fn law_refused_names_are_no_words(name: Seq<char>)
    requires
        !is_single_token(name),
    ensures
        !is_word(name) || exists|i: int| 0 <= i < name.len() && #[trigger] name[i] == '"',
{
    if name.len() > 0 && is_word(name) {
        let k = choose|k: int|
            0 <= k < name.len() && crate::navigation::breaks_token(#[trigger] name[k]);
        assert(!ends_word(name[k]));
        assert(name[k] == '"');
    }
}

proof fn lemma_no_slot(slots: Seq<crate::schema::ModuleSlot>, word: Seq<char>, from: int, i: int)
    requires
        0 <= from,
    ensures
        from <= i < slots.len() && slots[i].keyword@ == word ==> slot_at(slots, word, from)
            < slots.len(),
        slot_at(slots, word, from) < slots.len() && from <= slots.len() ==> exists|j: int|
            from <= j < slots.len() && (#[trigger] slots[j]).keyword@ == word,
    decreases slots.len() - from,
{
    if from < slots.len() {
        lemma_no_slot(slots, word, from + 1, i);
    }
}

proof fn lemma_no_sub(subs: Seq<crate::schema::SubBlock>, word: Seq<char>, from: int, i: int)
    requires
        0 <= from,
    ensures
        from <= i < subs.len() && subs[i].keyword@ == word ==> sub_block_at(subs, word, from)
            < subs.len(),
        sub_block_at(subs, word, from) < subs.len() && from <= subs.len() ==> exists|j: int|
            from <= j < subs.len() && (#[trigger] subs[j]).keyword@ == word,
    decreases subs.len() - from,
{
    if from < subs.len() {
        lemma_no_sub(subs, word, from + 1, i);
    }
}

/// The scope has a slot or a sub-block of that keyword.
pub open spec fn opened_by(scope: crate::model::ScopeSchema<'_>, word: Seq<char>) -> bool {
    ||| exists|j: int|
        0 <= j < scope.slot_list().len() && (#[trigger] scope.slot_list()[j]).keyword@ == word
    ||| exists|j: int|
        0 <= j < scope.sub_list().len() && (#[trigger] scope.sub_list()[j]).keyword@ == word
}

/// A line inside a scope opens a module exactly where its first word is one of the
/// scope's slots or sub-blocks, and is a field otherwise; at the top, a line with the
/// keyword of a block type opens the block, unless the type is of a single line.
pub proof fn law_first_words_decide(
    analyzer: &Analyzer,
    text: Seq<char>,
    tokens: Seq<SyntaxToken>,
    parse: &Parse,
    c: int,
    p: int,
    b: int,
)
    requires
        reads(analyzer, text, tokens, parse),
        0 < c < parse.nodes@.len(),
        parse.nodes@[c].parent matches Some(q) && q == p,
    ensures
        parse.nodes@[c].head is Some,
        p > 0 ==> parse.nodes@[c].kind == if opened_by(
            scope_of(analyzer, parse, p),
            parse.nodes@[c].head->Some_0.text@,
        ) {
            SyntaxKind::Module
        } else {
            SyntaxKind::Field
        },
        p == 0 && last_block(analyzer.schema.blocks@, parse.nodes@[c].head->Some_0.text@, b)
            ==> parse.nodes@[c].kind == if analyzer.schema.blocks@[b].terminated {
            SyntaxKind::Block
        } else {
            SyntaxKind::Field
        },
{
    assert(ruled_node(analyzer, parse, c));
    let word = parse.nodes@[c].head->Some_0.text@;
    if p > 0 {
        let scope = scope_of(analyzer, parse, p);
        let slots = scope.slot_list();
        let subs = scope.sub_list();
        lemma_no_slot(slots, word, 0, 0);
        lemma_no_sub(subs, word, 0, 0);
        if opened_by(scope, word) {
            if exists|j: int| 0 <= j < slots.len() && (#[trigger] slots[j]).keyword@ == word {
                let j = choose|j: int|
                    0 <= j < slots.len() && (#[trigger] slots[j]).keyword@ == word;
                lemma_no_slot(slots, word, 0, j);
            } else {
                let j = choose|j: int| 0 <= j < subs.len() && (#[trigger] subs[j]).keyword@ == word;
                lemma_no_sub(subs, word, 0, j);
            }
        }
    } else {
        law_block_types_are_found(analyzer.schema.blocks@, word, b);
    }
}

/// The words of a range of tokens are all the bare and quoted words in it.
pub proof fn law_words_of_a_line(tokens: Seq<SyntaxToken>, from: int, to: int, i: int)
    requires
        0 <= from <= i < to <= tokens.len(),
        tokens[i].kind is Word || tokens[i].kind is Quoted,
    ensures
        words(tokens, from, to).contains(token_model(tokens[i])),
    decreases i - from,
{
    let rest = words(tokens, from + 1, to);
    let all = words(tokens, from, to);
    if from < i {
        law_words_of_a_line(tokens, from + 1, to, i);
        let j = choose|j: int| 0 <= j < rest.len() && rest[j] == token_model(tokens[i]);
        let n = all.len() - rest.len();
        assert(all[n + j] == token_model(tokens[i]));
    } else {
        assert(all[0] == token_model(tokens[i]));
    }
}

/// The line that makes a node has the node's first word, and behind it the words that
/// are the node's values, or its name and tag: of a field all of them are values, of
/// a block none.
pub proof fn law_headers_hold_the_words_of_the_line(
    analyzer: &Analyzer,
    text: Seq<char>,
    tokens: Seq<SyntaxToken>,
    parse: &Parse,
    c: int,
) -> (line: (int, int))
    requires
        reads(analyzer, text, tokens, parse),
        0 < c < parse.nodes@.len(),
    ensures
        0 <= line.0 < line.1 <= tokens.len(),
        maybe_model(parse.nodes@[c].head) == Some(token_model(tokens[line.0])),
        !same_ci(tokens[line.0].text@, "End"@),
        ({
            let rest = words(tokens, line.0 + 1, line.1);
            let node = parse.nodes@[c];
            &&& node.kind is Field ==> token_models(node.values@) == rest && node.name is None
                && node.tag is None
            &&& node.kind is Module ==> token_models(node.values@) == rest
            &&& node.kind is Block ==> node.values@.len() == 0
            &&& !(node.kind is Field) ==> maybe_model(node.name) == if rest.len() > 0 {
                Some(rest[0])
            } else {
                None::<TokenModel>
            }
            &&& !(node.kind is Field) ==> maybe_model(node.tag) == if rest.len() > 1 {
                Some(rest[1])
            } else {
                None::<TokenModel>
            }
        }),
{
    let line = lemma_line_of(analyzer, parse, tokens, 0, unread(), c);
    law_nodes_lie_in_scopes(analyzer, text, tokens, parse, c);
    let node = parse.nodes@[c];
    if node.kind is Block {
        assert(token_models(node.values@).len() == node.values@.len());
    }
    line
}

} // verus!
