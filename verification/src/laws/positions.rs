//! What a position in a text is for.

use vstd::prelude::*;

use super::document::first_slot;
use super::references::{lemma_unquoted, writes};
use super::tree::{law_nodes_lie_in_scopes, lemma_same_start, lemma_value_token};
use crate::analyzer::Analyzer;
use crate::index::override_layer;
use crate::model::{bare_texts, scope_of};
use crate::position::{
    covering, element_span, ended, equals_before, field_position, nearest, node_at, on_header,
    position_of, slot_of, touched, PosView,
};
use crate::reader::{
    child_of, held_in, leaves_under, lemma_lexed_text, lemma_range_leaf, lemma_segment, reads,
    spanned, token_model, words, TokenModel,
};
use crate::schema::ModuleSlot;
use crate::syntax::{Element, Parse, SyntaxKind, SyntaxNode, SyntaxToken};
use crate::text::{byte_len, same_ci, texts};

verus! {

/// Tokens of a text in their order.
pub open spec fn apart(list: Seq<TokenModel>) -> bool {
    &&& forall|i: int|
        0 <= i < list.len() ==> (#[trigger] list[i]).span.start < list[i].span.end
    &&& forall|i: int, j: int|
        #![trigger list[i], list[j]]
        0 <= i < j < list.len() ==> list[i].span.end <= list[j].span.start
}

proof fn lemma_apart(
    analyzer: &Analyzer,
    text: Seq<char>,
    tokens: Seq<SyntaxToken>,
    parse: &Parse,
    node: int,
)
    requires
        byte_len(text) <= u32::MAX,
        reads(analyzer, text, tokens, parse),
        0 <= node < parse.nodes@.len(),
    ensures
        apart(leaves_under(parse.nodes@, node, 0)),
{
    let list = leaves_under(parse.nodes@, node, 0);
    let from = lemma_segment(parse, tokens, node);
    let to = from + list.len();
    lemma_lexed_text(text, 0, tokens);
    assert forall|i: int| 0 <= i < list.len() implies (#[trigger] list[i]).span.start
        < list[i].span.end by {
        lemma_range_leaf(tokens, from, to, i);
        assert(tokens[from + i].span.start < tokens[from + i].span.end);
    }
    assert forall|i: int, j: int|
        #![trigger list[i], list[j]]
        0 <= i < j < list.len() implies list[i].span.end <= list[j].span.start by {
        lemma_range_leaf(tokens, from, to, i);
        lemma_range_leaf(tokens, from, to, j);
        assert(tokens[from + i].span.end <= tokens[from + j].span.start);
    }
}

/// The leaves of an element.
pub open spec fn leaves_of(nodes: Seq<SyntaxNode>, node: int, k: int) -> Seq<TokenModel> {
    match nodes[node].elements@[k] {
        Element::Node(c) => leaves_under(nodes, c as int, 0),
        Element::Token(t) => seq![token_model(t)],
    }
}

/// Every node below the root is as wide as its tokens.
pub open spec fn all_spanned(parse: &Parse) -> bool {
    parse.wf() && forall|c: int| 0 < c < parse.nodes@.len() ==> #[trigger] spanned(parse.nodes@, c)
}

proof fn lemma_leaves(parse: &Parse, node: int, k: int)
    requires
        all_spanned(parse),
        0 <= node < parse.nodes@.len(),
        0 <= k < parse.nodes@[node].elements@.len(),
    ensures
        ({
            let mine = leaves_of(parse.nodes@, node, k);
            let span = element_span(parse, parse.nodes@[node].elements@[k]);
            &&& mine.len() > 0
            &&& mine[0].span.start == span.start
            &&& mine.last().span.end == span.end
            &&& leaves_under(parse.nodes@, node, k) == mine + leaves_under(
                parse.nodes@,
                node,
                k + 1,
            )
        }),
{
    match parse.nodes@[node].elements@[k] {
        Element::Node(c) => {
            assert(spanned(parse.nodes@, c as int));
        },
        Element::Token(t) => {},
    }
}

/// Where the leaves of an element stand among those of its node.
proof fn lemma_place(parse: &Parse, node: int, from: int, k: int) -> (at: int)
    requires
        all_spanned(parse),
        0 <= node < parse.nodes@.len(),
        0 <= from <= k < parse.nodes@[node].elements@.len(),
    ensures
        ({
            let all = leaves_under(parse.nodes@, node, from);
            let mine = leaves_of(parse.nodes@, node, k);
            let span = element_span(parse, parse.nodes@[node].elements@[k]);
            &&& 0 <= at
            &&& mine.len() > 0
            &&& at + mine.len() <= all.len()
            &&& all[at].span.start == span.start
            &&& all[at + mine.len() - 1].span.end == span.end
        }),
    decreases k - from,
{
    lemma_leaves(parse, node, from);
    let all = leaves_under(parse.nodes@, node, from);
    let here = leaves_of(parse.nodes@, node, from);
    let rest = leaves_under(parse.nodes@, node, from + 1);
    let mine = leaves_of(parse.nodes@, node, k);
    if from < k {
        let at = lemma_place(parse, node, from + 1, k);
        assert(all[here.len() + at] == rest[at]);
        assert(all[here.len() + at + mine.len() - 1] == rest[at + mine.len() - 1]);
        here.len() + at
    } else {
        assert(all[0] == mine[0]);
        assert(all[mine.len() - 1] == mine[mine.len() - 1]);
        0
    }
}

proof fn lemma_rest_apart(parse: &Parse, node: int, from: int, k: int)
    requires
        all_spanned(parse),
        0 <= node < parse.nodes@.len(),
        0 <= from <= k <= parse.nodes@[node].elements@.len(),
        apart(leaves_under(parse.nodes@, node, from)),
    ensures
        apart(leaves_under(parse.nodes@, node, k)),
    decreases k - from,
{
    if from < k {
        lemma_leaves(parse, node, from);
        let all = leaves_under(parse.nodes@, node, from);
        let here = leaves_of(parse.nodes@, node, from);
        let rest = leaves_under(parse.nodes@, node, from + 1);
        assert forall|i: int| 0 <= i < rest.len() implies (#[trigger] rest[i]).span.start
            < rest[i].span.end by {
            assert(all[here.len() + i] == rest[i]);
        }
        assert forall|i: int, j: int|
            #![trigger rest[i], rest[j]]
            0 <= i < j < rest.len() implies rest[i].span.end <= rest[j].span.start by {
            assert(all[here.len() + i] == rest[i]);
            assert(all[here.len() + j] == rest[j]);
        }
        lemma_rest_apart(parse, node, from + 1, k);
    }
}

proof fn lemma_two_parts(
    all: Seq<TokenModel>,
    here: Seq<TokenModel>,
    rest: Seq<TokenModel>,
    at: int,
    n: int,
)
    requires
        all == here + rest,
        apart(all),
        here.len() > 0,
        0 <= at,
        0 < n,
        at + n <= rest.len(),
    ensures
        here[0].span.start < here.last().span.end <= rest[at].span.start < rest[at + n
            - 1].span.end,
{
    let m = here.len() as int;
    let last = m - 1;
    assert(all[0] == here[0]);
    assert(all[last] == here[last]);
    assert(all[m + at] == rest[at]);
    let end = m + at + n - 1;
    assert(all[end] == rest[at + n - 1]);
    assert(all[last].span.end <= all[m + at].span.start);
    assert(all[0].span.start < all[0].span.end);
    assert(all[end].span.start < all[end].span.end);
    if 0 < last {
        assert(all[0].span.end <= all[last].span.start);
        assert(all[last].span.start < all[last].span.end);
    }
    if m + at < end {
        assert(all[m + at].span.start < all[m + at].span.end);
        assert(all[m + at].span.end <= all[end].span.start);
    }
}

/// The elements of a node of a text stand in the order of the text.
pub proof fn law_elements_are_in_order(
    analyzer: &Analyzer,
    text: Seq<char>,
    tokens: Seq<SyntaxToken>,
    parse: &Parse,
    node: int,
    j: int,
    k: int,
)
    requires
        byte_len(text) <= u32::MAX,
        reads(analyzer, text, tokens, parse),
        0 <= node < parse.nodes@.len(),
        0 <= j < k < parse.nodes@[node].elements@.len(),
    ensures
        element_span(parse, parse.nodes@[node].elements@[j]).start < element_span(
            parse,
            parse.nodes@[node].elements@[j],
        ).end <= element_span(parse, parse.nodes@[node].elements@[k]).start < element_span(
            parse,
            parse.nodes@[node].elements@[k],
        ).end,
{
    lemma_apart(analyzer, text, tokens, parse, node);
    lemma_rest_apart(parse, node, 0, j);
    lemma_leaves(parse, node, j);
    let at = lemma_place(parse, node, j + 1, k);
    lemma_two_parts(
        leaves_under(parse.nodes@, node, j),
        leaves_of(parse.nodes@, node, j),
        leaves_under(parse.nodes@, node, j + 1),
        at,
        leaves_of(parse.nodes@, node, k).len() as int,
    );
}

/// A node below another one lies inside it.
proof fn lemma_inside(
    analyzer: &Analyzer,
    text: Seq<char>,
    tokens: Seq<SyntaxToken>,
    parse: &Parse,
    node: int,
    k: int,
)
    requires
        byte_len(text) <= u32::MAX,
        reads(analyzer, text, tokens, parse),
        0 < node < parse.nodes@.len(),
        0 <= k < parse.nodes@[node].elements@.len(),
    ensures
        parse.nodes@[node].span.start <= element_span(parse, parse.nodes@[node].elements@[k]).start,
        element_span(parse, parse.nodes@[node].elements@[k]).end <= parse.nodes@[node].span.end,
{
    lemma_apart(analyzer, text, tokens, parse, node);
    assert(spanned(parse.nodes@, node));
    let all = leaves_under(parse.nodes@, node, 0);
    let at = lemma_place(parse, node, 0, k);
    let mine = leaves_of(parse.nodes@, node, k);
    let last = at + mine.len() - 1;
    if at > 0 {
        assert(all[0].span.start < all[0].span.end);
        assert(all[0].span.end <= all[at].span.start);
    }
    if last < all.len() - 1 {
        assert(all[last].span.end <= all[all.len() - 1].span.start);
        assert(all[all.len() - 1].span.start < all[all.len() - 1].span.end);
    }
}

proof fn lemma_covering(parse: &Parse, node: int, offset: u32, n: int, k: int)
    requires
        0 <= k < n <= parse.nodes@[node].elements@.len(),
        element_span(parse, parse.nodes@[node].elements@[k]).start < offset,
        forall|j: int|
            k < j < n ==> offset <= element_span(
                parse,
                #[trigger] parse.nodes@[node].elements@[j],
            ).start && offset < element_span(parse, parse.nodes@[node].elements@[j]).end,
    ensures
        covering(parse, node, offset, n) == k,
    decreases n,
{
    if n > 1 && k < n - 1 {
        let last = parse.nodes@[node].elements@[n - 1];
        assert(offset <= element_span(parse, last).start);
        lemma_covering(parse, node, offset, n - 1, k);
    }
}

proof fn lemma_covers(
    analyzer: &Analyzer,
    text: Seq<char>,
    tokens: Seq<SyntaxToken>,
    parse: &Parse,
    node: int,
    k: int,
    offset: u32,
)
    requires
        byte_len(text) <= u32::MAX,
        reads(analyzer, text, tokens, parse),
        0 <= node < parse.nodes@.len(),
        0 <= k < parse.nodes@[node].elements@.len(),
        element_span(parse, parse.nodes@[node].elements@[k]).start < offset <= element_span(
            parse,
            parse.nodes@[node].elements@[k],
        ).end,
    ensures
        covering(parse, node, offset, parse.nodes@[node].elements@.len() as int) == k,
{
    let n = parse.nodes@[node].elements@.len() as int;
    assert forall|j: int| k < j < n implies offset <= element_span(
        parse,
        #[trigger] parse.nodes@[node].elements@[j],
    ).start && offset < element_span(parse, parse.nodes@[node].elements@[j]).end by {
        law_elements_are_in_order(analyzer, text, tokens, parse, node, k, j);
    }
    lemma_covering(parse, node, offset, n, k);
}

proof fn lemma_down(
    analyzer: &Analyzer,
    text: Seq<char>,
    tokens: Seq<SyntaxToken>,
    parse: &Parse,
    node: int,
    offset: u32,
)
    requires
        byte_len(text) <= u32::MAX,
        reads(analyzer, text, tokens, parse),
        0 <= node < parse.nodes@.len(),
        node > 0 ==> parse.nodes@[node].span.start < offset <= parse.nodes@[node].span.end,
    ensures
        node_at(parse, 0, offset) == node_at(parse, node, offset),
    decreases node,
{
    if node > 0 {
        assert(parse.nodes@[node].parent is Some);
        let p = parse.nodes@[node].parent->Some_0 as int;
        assert(child_of(parse.nodes@, p, node));
        let k = choose|k: int|
            0 <= k < parse.nodes@[p].elements@.len() && (
            #[trigger] parse.nodes@[p].elements@[k] matches Element::Node(x) && x == node);
        lemma_covers(analyzer, text, tokens, parse, p, k, offset);
        assert(node_at(parse, p, offset) == node_at(parse, node, offset));
        if p > 0 {
            lemma_inside(analyzer, text, tokens, parse, p, k);
        }
        lemma_down(analyzer, text, tokens, parse, p, offset);
    }
}

/// A position inside a token or at its end lies in the node that holds the token.
pub proof fn law_positions_lie_in_the_node_of_their_token(
    analyzer: &Analyzer,
    text: Seq<char>,
    tokens: Seq<SyntaxToken>,
    parse: &Parse,
    node: int,
    k: int,
    offset: u32,
)
    requires
        byte_len(text) <= u32::MAX,
        reads(analyzer, text, tokens, parse),
        0 <= node < parse.nodes@.len(),
        0 <= k < parse.nodes@[node].elements@.len(),
        parse.nodes@[node].elements@[k] matches Element::Token(t) && t.span.start < offset
            <= t.span.end,
    ensures
        node_at(parse, 0, offset) == node,
{
    lemma_covers(analyzer, text, tokens, parse, node, k, offset);
    if node > 0 {
        lemma_inside(analyzer, text, tokens, parse, node, k);
    }
    lemma_down(analyzer, text, tokens, parse, node, offset);
}

proof fn lemma_words_grow(tokens: Seq<SyntaxToken>, from: int, a: int, b: int)
    requires
        0 <= from,
        a <= b,
    ensures
        words(tokens, from, a).len() <= words(tokens, from, b).len(),
    decreases b - from,
{
    if from < a {
        lemma_words_grow(tokens, from + 1, a, b);
    }
}

proof fn lemma_values_in_order(
    analyzer: &Analyzer,
    text: Seq<char>,
    tokens: Seq<SyntaxToken>,
    parse: &Parse,
    c: int,
    i: int,
    j: int,
)
    requires
        byte_len(text) <= u32::MAX,
        reads(analyzer, text, tokens, parse),
        0 < c < parse.nodes@.len(),
        0 <= i < j < parse.nodes@[c].values@.len(),
    ensures
        parse.nodes@[c].values@[i].span.end <= parse.nodes@[c].values@[j].span.start,
        parse.nodes@[c].values@[j].span.start < parse.nodes@[c].values@[j].span.end,
{
    let a = lemma_value_token(analyzer, text, tokens, parse, c, i);
    let b = lemma_value_token(analyzer, text, tokens, parse, c, j);
    lemma_lexed_text(text, 0, tokens);
    lemma_same_start(tokens, a.0, b.0);
    if b.1 <= a.1 {
        lemma_words_grow(tokens, a.0 + 1, b.1, a.1);
    }
    assert(tokens[a.1].span.end <= tokens[b.1].span.start);
    assert(tokens[b.1].span.start < tokens[b.1].span.end);
}

proof fn lemma_ended(values: Seq<SyntaxToken>, from: int, i: int, offset: u32)
    requires
        0 <= from <= values.len(),
        0 <= i < values.len(),
        forall|j: int| 0 <= j < i ==> (#[trigger] values[j]).span.end < offset,
        forall|j: int| i <= j < values.len() ==> offset <= (#[trigger] values[j]).span.end,
    ensures
        ended(values, from, offset) == if from < i {
            i - from
        } else {
            0
        },
    decreases values.len() - from,
{
    if from < values.len() {
        lemma_ended(values, from + 1, i, offset);
        assert(from < i ==> values[from].span.end < offset);
        assert(i <= from ==> offset <= values[from].span.end);
    }
}

proof fn lemma_touched(values: Seq<SyntaxToken>, from: int, i: int, offset: u32)
    requires
        0 <= from <= i < values.len(),
        values[i].span.start <= offset <= values[i].span.end,
        forall|j: int| 0 <= j < i ==> (#[trigger] values[j]).span.end < offset,
    ensures
        touched(values, from, offset) == Some(i),
    decreases i - from,
{
    if from < i {
        assert(values[from].span.end < offset);
        lemma_touched(values, from + 1, i, offset);
    }
}

proof fn lemma_in_text(text: Seq<char>, tokens: Seq<SyntaxToken>, i: int)
    requires
        byte_len(text) <= u32::MAX,
        crate::reader::lexes(text, 0, tokens),
        0 <= i < tokens.len(),
    ensures
        tokens[i].span.end <= byte_len(text),
{
    lemma_lexed_text(text, 0, tokens);
    let last = tokens.len() - 1;
    if i < last {
        assert(tokens[i].span.end <= tokens[last].span.start);
        assert(tokens[last].span.start < tokens[last].span.end);
    }
}

proof fn lemma_outer(
    analyzer: &Analyzer,
    text: Seq<char>,
    tokens: Seq<SyntaxToken>,
    parse: &Parse,
    c: int,
)
    requires
        reads(analyzer, text, tokens, parse),
        0 < c < parse.nodes@.len(),
    ensures
        parse.nodes@[c].parent matches Some(p) && parse.outer_scope(c) == (if p == 0 {
            None
        } else {
            Some(p as int)
        }),
{
    law_nodes_lie_in_scopes(analyzer, text, tokens, parse, c);
    let p = parse.nodes@[c].parent->Some_0 as int;
    if p == 0 {
        assert(parse.nodes@[0].kind is Root);
        assert(parse.outer_scope(0) is None);
    }
}

/// A position inside a value or at its end is for that value: the line's key, the text that stands
/// there, and the scope of the line.
pub proof fn law_values_are_at_their_position(
    analyzer: &Analyzer,
    text: Seq<char>,
    tokens: Seq<SyntaxToken>,
    parse: &Parse,
    c: int,
    i: int,
    name: Seq<char>,
    offset: u32,
    file: Option<Seq<char>>,
)
    requires
        byte_len(text) <= u32::MAX,
        reads(analyzer, text, tokens, parse),
        0 < c < parse.nodes@.len(),
        parse.nodes@[c].kind is Field,
        0 <= i < parse.nodes@[c].values@.len(),
        parse.nodes@[c].values@[i].span.start < offset <= parse.nodes@[c].values@[i].span.end,
        name.len() > 0,
        writes(parse.nodes@[c].values@[i].text@, name),
        i > 0 ==> !crate::position::ends_with_colon(
            crate::text::unquoted(parse.nodes@[c].values@[i - 1].text@),
        ),
    ensures
        position_of(analyzer, parse, offset, file) matches PosView::FieldValue {
            scope,
            key,
            value_index,
            current_token,
            first_token,
        } && {
            &&& parse.nodes@[c].parent matches Some(p) && scope == p
            &&& parse.nodes@[c].head matches Some(head) && key == head.text@
            &&& current_token == Some(name)
            &&& first_token is Some
            &&& i == 0 ==> first_token == Some(name)
            &&& scope == 0 || scope_of(analyzer, parse, scope).field_of(key) is None
                ==> value_index == i
        },
{
    let node = parse.nodes@[c];
    let values = node.values@;
    let found = lemma_value_token(analyzer, text, tokens, parse, c, i);
    lemma_lexed_text(text, 0, tokens);
    lemma_in_text(text, tokens, found.1);
    assert(tokens[found.0].span.end <= tokens[found.1].span.start);
    assert(crate::reader::contained(node));
    assert(held_in(node.elements@, values[i].span));
    let k = choose|k: int|
        0 <= k < node.elements@.len() && (#[trigger] node.elements@[k] matches Element::Token(t)
            && t.span == values[i].span);
    law_positions_lie_in_the_node_of_their_token(analyzer, text, tokens, parse, c, k, offset);
    assert(nearest(parse, c, SyntaxKind::Field) == Some(c));
    assert(position_of(analyzer, parse, offset, file) == field_position(analyzer, parse, c, offset));
    assert forall|j: int| 0 <= j < i implies (#[trigger] values[j]).span.end < offset by {
        lemma_values_in_order(analyzer, text, tokens, parse, c, j, i);
    }
    assert forall|j: int| i <= j < values.len() implies offset <= (#[trigger] values[j]).span.end by {
        if i < j {
            lemma_values_in_order(analyzer, text, tokens, parse, c, i, j);
        }
    }
    lemma_ended(values, 0, i, offset);
    lemma_touched(values, 0, i, offset);
    lemma_unquoted(values[i].text@, name);
    let bare = bare_texts(values);
    assert(bare[i] == name);
    if i > 0 {
        assert(bare[i - 1] == crate::text::unquoted(values[i - 1].text@));
    }
    lemma_outer(analyzer, text, tokens, parse, c);
}

proof fn lemma_no_equals(elements: Seq<Element>, from: int, offset: u32)
    requires
        0 <= from,
        forall|k: int|
            from <= k < elements.len() ==> (#[trigger] elements[k] matches Element::Token(t) ==> offset
                < t.span.end || !(t.kind is Equals)),
    ensures
        !equals_before(elements, from, offset),
    decreases elements.len() - from,
{
    if from < elements.len() {
        match elements[from] {
            Element::Token(t) => {
                lemma_no_equals(elements, from + 1, offset);
            },
            Element::Node(_) => {},
        }
    }
}

proof fn lemma_equals(elements: Seq<Element>, from: int, e: int, offset: u32)
    requires
        0 <= from <= e < elements.len(),
        forall|k: int| from <= k < e ==> #[trigger] elements[k] is Token,
        elements[e] matches Element::Token(t) && t.kind is Equals && t.span.end <= offset,
    ensures
        equals_before(elements, from, offset),
    decreases e - from,
{
    if from < e {
        assert(elements[from] is Token);
        lemma_equals(elements, from + 1, e, offset);
    }
}

proof fn lemma_on_header(elements: Seq<Element>, from: int, offset: u32)
    requires
        0 <= from,
        forall|k: int|
            from <= k < elements.len() ==> (#[trigger] elements[k] matches Element::Token(t) ==> offset
                <= t.span.start || !(t.kind is Newline)),
    ensures
        on_header(elements, from, offset),
    decreases elements.len() - from,
{
    if from < elements.len() {
        match elements[from] {
            Element::Token(t) => {
                if !(t.kind is Newline) {
                    lemma_on_header(elements, from + 1, offset);
                }
            },
            Element::Node(_) => {},
        }
    }
}

proof fn lemma_head_first(
    analyzer: &Analyzer,
    text: Seq<char>,
    tokens: Seq<SyntaxToken>,
    parse: &Parse,
    c: int,
    k: int,
    offset: u32,
)
    requires
        byte_len(text) <= u32::MAX,
        reads(analyzer, text, tokens, parse),
        0 < c < parse.nodes@.len(),
        parse.nodes@[c].head matches Some(head) && head.span.start < offset <= head.span.end,
        0 <= k < parse.nodes@[c].elements@.len(),
    ensures
        k > 0 ==> (parse.nodes@[c].elements@[k] matches Element::Token(t) ==> offset < t.span.end),
        k > 0 ==> offset <= element_span(parse, parse.nodes@[c].elements@[k]).start,
        parse.nodes@[c].elements@[0] matches Element::Token(t) && parse.nodes@[c].head matches Some(
            head,
        ) && t.span == head.span && t.kind == head.kind,
{
    let node = parse.nodes@[c];
    let head = node.head->Some_0;
    assert(spanned(parse.nodes@, c));
    lemma_leaves(parse, c, 0);
    let mine = leaves_of(parse.nodes@, c, 0);
    assert(leaves_under(parse.nodes@, c, 0)[0] == mine[0]);
    assert(mine[0] == token_model(head));
    assert(crate::reader::contained(node));
    let h = choose|h: int|
        0 <= h < node.elements@.len() && (#[trigger] node.elements@[h] matches Element::Token(t)
            && t.span == head.span);
    if h > 0 {
        law_elements_are_in_order(analyzer, text, tokens, parse, c, 0, h);
    }
    if k > 0 {
        law_elements_are_in_order(analyzer, text, tokens, parse, c, 0, k);
    }
}

/// A position inside a field's key or at its end is for a key of the scope around it, or for a
/// block where there is none.
pub proof fn law_keys_are_at_their_position(
    analyzer: &Analyzer,
    text: Seq<char>,
    tokens: Seq<SyntaxToken>,
    parse: &Parse,
    c: int,
    offset: u32,
    file: Option<Seq<char>>,
)
    requires
        byte_len(text) <= u32::MAX,
        reads(analyzer, text, tokens, parse),
        0 < c < parse.nodes@.len(),
        parse.nodes@[c].kind is Field,
        parse.nodes@[c].head matches Some(head) && head.span.start < offset <= head.span.end && !(
        head.kind is Equals),
    ensures
        parse.nodes@[c].parent matches Some(p) && position_of(analyzer, parse, offset, file) == (
        if p == 0 {
            PosView::TopLevel
        } else {
            PosView::FieldKey(p as int)
        }),
{
    let node = parse.nodes@[c];
    lemma_outer(analyzer, text, tokens, parse, c);
    lemma_at_head(analyzer, text, tokens, parse, c, offset);
    assert(nearest(parse, c, SyntaxKind::Field) == Some(c));
    assert forall|k: int| 0 <= k < node.elements@.len() implies (
    #[trigger] node.elements@[k] matches Element::Token(t) ==> offset < t.span.end || !(t.kind
        is Equals)) by {
        lemma_head_first(analyzer, text, tokens, parse, c, k, offset);
    }
    lemma_no_equals(node.elements@, 0, offset);
}

proof fn lemma_at_head(
    analyzer: &Analyzer,
    text: Seq<char>,
    tokens: Seq<SyntaxToken>,
    parse: &Parse,
    c: int,
    offset: u32,
)
    requires
        byte_len(text) <= u32::MAX,
        reads(analyzer, text, tokens, parse),
        0 < c < parse.nodes@.len(),
        parse.nodes@[c].head matches Some(head) && head.span.start < offset <= head.span.end,
    ensures
        node_at(parse, 0, offset) == c,
        offset <= parse.nodes@[0].span.end,
{
    let node = parse.nodes@[c];
    let head = node.head->Some_0;
    assert(crate::reader::contained(node));
    let k = choose|k: int|
        0 <= k < node.elements@.len() && (#[trigger] node.elements@[k] matches Element::Token(t)
            && t.span == head.span);
    lemma_in_tree(analyzer, text, tokens, parse, c, k, offset);
}

proof fn lemma_in_tree(
    analyzer: &Analyzer,
    text: Seq<char>,
    tokens: Seq<SyntaxToken>,
    parse: &Parse,
    c: int,
    k: int,
    offset: u32,
)
    requires
        byte_len(text) <= u32::MAX,
        reads(analyzer, text, tokens, parse),
        0 < c < parse.nodes@.len(),
        0 <= k < parse.nodes@[c].elements@.len(),
        parse.nodes@[c].elements@[k] matches Element::Token(t) && t.span.start < offset
            <= t.span.end,
    ensures
        node_at(parse, 0, offset) == c,
        offset <= parse.nodes@[0].span.end,
{
    law_positions_lie_in_the_node_of_their_token(analyzer, text, tokens, parse, c, k, offset);
    let at = super::tree::lemma_element_token(analyzer, text, tokens, parse, c, k);
    lemma_in_text(text, tokens, at);
}

proof fn lemma_no_field(
    analyzer: &Analyzer,
    text: Seq<char>,
    tokens: Seq<SyntaxToken>,
    parse: &Parse,
    c: int,
)
    requires
        reads(analyzer, text, tokens, parse),
        0 <= c < parse.nodes@.len(),
        !(parse.nodes@[c].kind is Field),
    ensures
        nearest(parse, c, SyntaxKind::Field) is None,
    decreases c,
{
    if c > 0 {
        law_nodes_lie_in_scopes(analyzer, text, tokens, parse, c);
        lemma_no_field(analyzer, text, tokens, parse, parse.nodes@[c].parent->Some_0 as int);
    } else {
        assert(parse.nodes@[0].kind is Root);
    }
}

proof fn lemma_first_slot(slots: Seq<ModuleSlot>, from: int, i: int, keyword: Seq<char>)
    requires
        0 <= from <= i,
        first_slot(slots, keyword, i),
    ensures
        slot_of(slots, from, keyword) == Some(slots[i]),
    decreases i - from,
{
    if from < i {
        assert(slots[from].keyword@ != keyword);
        lemma_first_slot(slots, from + 1, i, keyword);
    }
}

/// A position inside a token or at its end, behind the `=` of a module's header line is for the name
/// of a module that the slot of its first word accepts.
pub proof fn law_module_names_are_at_their_position(
    analyzer: &Analyzer,
    text: Seq<char>,
    tokens: Seq<SyntaxToken>,
    parse: &Parse,
    c: int,
    e: int,
    k: int,
    i: int,
    offset: u32,
    file: Option<Seq<char>>,
)
    requires
        byte_len(text) <= u32::MAX,
        reads(analyzer, text, tokens, parse),
        0 < c < parse.nodes@.len(),
        parse.nodes@[c].kind is Module,
        parse.nodes@[c].head is Some,
        0 <= e < k < parse.nodes@[c].elements@.len(),
        parse.nodes@[c].elements@[e] matches Element::Token(t) && t.kind is Equals,
        parse.nodes@[c].elements@[k] matches Element::Token(t) && t.span.start < offset
            <= t.span.end && !(t.kind is Newline),
        forall|j: int|
            0 <= j < k ==> (#[trigger] parse.nodes@[c].elements@[j] matches Element::Token(t) && !(
            t.kind is Newline)),
        parse.nodes@[c].parent matches Some(p) && first_slot(
            scope_of(analyzer, parse, p as int).slot_list(),
            parse.nodes@[c].head->Some_0.text@,
            i,
        ),
    ensures
        parse.nodes@[c].parent matches Some(p) && position_of(analyzer, parse, offset, file) == (
        PosView::ModuleName {
            scope: p as int,
            accepts: texts(scope_of(analyzer, parse, p as int).slot_list()[i].accepts@),
        }),
{
    let node = parse.nodes@[c];
    let elements = node.elements@;
    lemma_in_tree(analyzer, text, tokens, parse, c, k, offset);
    lemma_no_field(analyzer, text, tokens, parse, c);
    assert(nearest(parse, c, SyntaxKind::Module) == Some(c));
    lemma_outer(analyzer, text, tokens, parse, c);
    law_nodes_lie_in_scopes(analyzer, text, tokens, parse, c);
    law_elements_are_in_order(analyzer, text, tokens, parse, c, e, k);
    lemma_equals(elements, 0, e, offset);
    assert forall|j: int| 0 <= j < elements.len() implies (
    #[trigger] elements[j] matches Element::Token(t) ==> offset <= t.span.start || !(t.kind
        is Newline)) by {
        if k < j {
            law_elements_are_in_order(analyzer, text, tokens, parse, c, k, j);
        }
    }
    lemma_on_header(elements, 0, offset);
    let p = node.parent->Some_0 as int;
    lemma_first_slot(
        scope_of(analyzer, parse, p).slot_list(),
        0,
        i,
        node.head->Some_0.text@,
    );
}

/// A position inside or at the end of the keyword of a block at the top is for a block.
pub proof fn law_block_keywords_are_at_their_position(
    analyzer: &Analyzer,
    text: Seq<char>,
    tokens: Seq<SyntaxToken>,
    parse: &Parse,
    c: int,
    offset: u32,
    file: Option<Seq<char>>,
)
    requires
        byte_len(text) <= u32::MAX,
        reads(analyzer, text, tokens, parse),
        0 < c < parse.nodes@.len(),
        parse.nodes@[c].kind is Block,
        parse.nodes@[c].parent == Some(0usize),
        parse.nodes@[c].head matches Some(head) && head.span.start < offset <= head.span.end && !(
        head.kind is Equals),
    ensures
        position_of(analyzer, parse, offset, file) == PosView::TopLevel,
{
    let node = parse.nodes@[c];
    let elements = node.elements@;
    lemma_at_head(analyzer, text, tokens, parse, c, offset);
    lemma_no_field(analyzer, text, tokens, parse, c);
    lemma_no_module(parse, c);
    assert(nearest(parse, c, SyntaxKind::Block) == Some(c));
    assert forall|k: int| 0 <= k < elements.len() implies (
    #[trigger] elements[k] matches Element::Token(t) ==> offset < t.span.end || !(t.kind
        is Equals)) by {
        lemma_head_first(analyzer, text, tokens, parse, c, k, offset);
    }
    lemma_no_equals(elements, 0, offset);
    let _ = super::tree::lemma_line_of(
        analyzer,
        parse,
        tokens,
        0,
        crate::reader::unread(),
        c,
    );
    assert forall|k: int| 0 <= k < elements.len() implies (
    #[trigger] elements[k] matches Element::Token(t) ==> offset <= t.span.start || !(t.kind
        is Newline)) by {
        lemma_head_first(analyzer, text, tokens, parse, c, k, offset);
    }
    lemma_on_header(elements, 0, offset);
}

proof fn lemma_no_module(parse: &Parse, c: int)
    requires
        parse.wf(),
        0 < c < parse.nodes@.len(),
        parse.nodes@[c].kind is Block,
        parse.nodes@[c].parent == Some(0usize),
    ensures
        nearest(parse, c, SyntaxKind::Module) is None,
{
    assert(parse.nodes@[0].kind is Root);
    assert(nearest(parse, 0, SyntaxKind::Module) is None);
}

/// A position inside or at the end of the name of a block at the top is for the name of an object to
/// override, where the file is an override layer and the block an object; else it
/// is for the block's fields.
pub proof fn law_block_names_are_at_their_position(
    analyzer: &Analyzer,
    text: Seq<char>,
    tokens: Seq<SyntaxToken>,
    parse: &Parse,
    c: int,
    k: int,
    offset: u32,
    file: Option<Seq<char>>,
)
    requires
        byte_len(text) <= u32::MAX,
        reads(analyzer, text, tokens, parse),
        0 < c < parse.nodes@.len(),
        parse.nodes@[c].kind is Block,
        parse.nodes@[c].parent == Some(0usize),
        0 < k < parse.nodes@[c].elements@.len(),
        parse.nodes@[c].elements@[k] matches Element::Token(t) && t.span.start < offset
            <= t.span.end && !(t.kind is Newline) && !(t.kind is Equals),
        forall|j: int|
            0 <= j < k ==> (#[trigger] parse.nodes@[c].elements@[j] matches Element::Token(t) && !(
            t.kind is Newline) && !(t.kind is Equals)),
    ensures
        position_of(analyzer, parse, offset, file) == (if (file matches Some(f)
            && override_layer(f)) && (parse.nodes@[c].head matches Some(head) && same_ci(
            head.text@,
            "Object"@,
        )) {
            PosView::ObjectName
        } else {
            PosView::FieldKey(c)
        }),
{
    let node = parse.nodes@[c];
    let elements = node.elements@;
    lemma_in_tree(analyzer, text, tokens, parse, c, k, offset);
    lemma_no_field(analyzer, text, tokens, parse, c);
    lemma_no_module(parse, c);
    assert(nearest(parse, c, SyntaxKind::Block) == Some(c));
    assert forall|j: int| 0 <= j < elements.len() implies (
    #[trigger] elements[j] matches Element::Token(t) ==> offset <= t.span.start || !(t.kind
        is Newline)) by {
        if k < j {
            law_elements_are_in_order(analyzer, text, tokens, parse, c, k, j);
        }
    }
    lemma_on_header(elements, 0, offset);
    assert forall|j: int| 0 <= j < elements.len() implies (
    #[trigger] elements[j] matches Element::Token(t) ==> offset < t.span.end || !(t.kind
        is Equals)) by {
        if k < j {
            law_elements_are_in_order(analyzer, text, tokens, parse, c, k, j);
        }
    }
    lemma_no_equals(elements, 0, offset);
    assert(spanned(parse.nodes@, c));
    lemma_leaves(parse, c, 0);
    assert(leaves_under(parse.nodes@, c, 0)[0] == leaves_of(parse.nodes@, c, 0)[0]);
    assert(elements[0] is Token);
    law_elements_are_in_order(analyzer, text, tokens, parse, c, 0, k);
}

} // verus!
