//! Where the tokens of a text stand in its tree.

use vstd::prelude::*;

use crate::analyzer::Analyzer;
use crate::reader::{
    child_of, follows, has_header, held_in, leaves_under, lemma_lexed_text, lemma_range_leaf,
    line_end, line_step, linked, maybe_model, nth, reads, ruled_node, token_model, token_models,
    unread, words, ReadState, TokenModel,
};
use crate::syntax::{Element, Parse, Span, SyntaxKind, SyntaxNode, SyntaxToken};
use crate::text::{byte_len, same_ci};

verus! {

/// Which element of which node each leaf is, from element `k` of a node on.
pub open spec fn owners(nodes: Seq<SyntaxNode>, node: int, k: int) -> Seq<(int, int)>
    decreases nodes.len() - node, nodes[node].elements@.len() - k,
{
    if k < 0 || k >= nodes[node].elements@.len() {
        Seq::empty()
    } else {
        (match nodes[node].elements@[k] {
            Element::Node(c) => if node < c < nodes.len() {
                owners(nodes, c as int, 0)
            } else {
                Seq::empty()
            },
            Element::Token(_) => seq![(node, k)],
        }) + owners(nodes, node, k + 1)
    }
}

/// A leaf is a token element.
pub open spec fn is_leaf(nodes: Seq<SyntaxNode>, at: (int, int), leaf: TokenModel) -> bool {
    &&& 0 <= at.0 < nodes.len()
    &&& 0 <= at.1 < nodes[at.0].elements@.len()
    &&& nodes[at.0].elements@[at.1] matches Element::Token(t) && token_model(t) == leaf
}

proof fn lemma_owners(nodes: Seq<SyntaxNode>, node: int, k: int)
    requires
        0 <= node < nodes.len(),
        0 <= k,
    ensures
        owners(nodes, node, k).len() == leaves_under(nodes, node, k).len(),
        forall|i: int|
            0 <= i < owners(nodes, node, k).len() ==> is_leaf(
                nodes,
                #[trigger] owners(nodes, node, k)[i],
                leaves_under(nodes, node, k)[i],
            ),
    decreases nodes.len() - node, nodes[node].elements@.len() - k,
{
    if k < nodes[node].elements@.len() {
        lemma_owners(nodes, node, k + 1);
        let all = owners(nodes, node, k);
        let leaves = leaves_under(nodes, node, k);
        let rest = owners(nodes, node, k + 1);
        let later = leaves_under(nodes, node, k + 1);
        match nodes[node].elements@[k] {
            Element::Node(c) => {
                if node < c < nodes.len() {
                    lemma_owners(nodes, c as int, 0);
                    let here = owners(nodes, c as int, 0);
                    let mine = leaves_under(nodes, c as int, 0);
                    assert(all == here + rest);
                    assert(leaves == mine + later);
                    assert forall|i: int| 0 <= i < all.len() implies is_leaf(
                        nodes,
                        #[trigger] all[i],
                        leaves[i],
                    ) by {
                        if i < here.len() {
                            assert(all[i] == here[i] && leaves[i] == mine[i]);
                        } else {
                            assert(all[i] == rest[i - here.len()] && leaves[i] == later[i
                                - here.len()]);
                        }
                    }
                } else {
                    assert(all =~= rest);
                    assert(leaves =~= later);
                }
            },
            Element::Token(t) => {
                assert forall|i: int| 0 <= i < all.len() implies is_leaf(
                    nodes,
                    #[trigger] all[i],
                    leaves[i],
                ) by {
                    if i > 0 {
                        assert(all[i] == rest[i - 1] && leaves[i] == later[i - 1]);
                    }
                }
            },
        }
    }
}

proof fn lemma_owners_part(nodes: Seq<SyntaxNode>, node: int, j: int, k: int, at: (int, int))
    requires
        0 <= node < nodes.len(),
        0 <= j <= k < nodes[node].elements@.len(),
        match nodes[node].elements@[k] {
            Element::Node(c) => node < c < nodes.len() && owners(nodes, c as int, 0).contains(at),
            Element::Token(_) => at == (node, k),
        },
    ensures
        owners(nodes, node, j).contains(at),
    decreases k - j,
{
    let all = owners(nodes, node, j);
    let rest = owners(nodes, node, j + 1);
    let n = all.len() - rest.len();
    if j < k {
        lemma_owners_part(nodes, node, j + 1, k, at);
        let i = choose|i: int| 0 <= i < rest.len() && rest[i] == at;
        assert(all[i + n] == at);
    } else {
        match nodes[node].elements@[k] {
            Element::Node(c) => {
                let here = owners(nodes, c as int, 0);
                let i = choose|i: int| 0 <= i < here.len() && here[i] == at;
                assert(all[i] == at);
            },
            Element::Token(_) => {
                assert(all[0] == at);
            },
        }
    }
}

proof fn lemma_owned_by_ancestors(nodes: Seq<SyntaxNode>, node: int, at: (int, int))
    requires
        linked(nodes),
        0 <= node < nodes.len(),
        owners(nodes, node, 0).contains(at),
    ensures
        owners(nodes, 0, 0).contains(at),
    decreases node,
{
    if node > 0 {
        assert(nodes[node].parent is Some);
        let p = nodes[node].parent->Some_0 as int;
        assert(child_of(nodes, p, node));
        let k = choose|k: int|
            0 <= k < nodes[p].elements@.len() && (
            #[trigger] nodes[p].elements@[k] matches Element::Node(x) && x == node);
        lemma_owners_part(nodes, p, 0, k, at);
        lemma_owned_by_ancestors(nodes, p, at);
    }
}

/// The token of the text that a token element of the tree is.
pub proof fn lemma_element_token(
    analyzer: &Analyzer,
    text: Seq<char>,
    tokens: Seq<SyntaxToken>,
    parse: &Parse,
    node: int,
    k: int,
) -> (at: int)
    requires
        reads(analyzer, text, tokens, parse),
        0 <= node < parse.nodes@.len(),
        0 <= k < parse.nodes@[node].elements@.len(),
        parse.nodes@[node].elements@[k] is Token,
    ensures
        0 <= at < tokens.len(),
        tokens.len() == owners(parse.nodes@, 0, 0).len(),
        owners(parse.nodes@, 0, 0)[at] == (node, k),
        token_model(tokens[at]) == token_model(parse.nodes@[node].elements@[k]->Token_0),
{
    let nodes = parse.nodes@;
    lemma_owners_part(nodes, node, 0, k, (node, k));
    lemma_owned_by_ancestors(nodes, node, (node, k));
    lemma_owners(nodes, 0, 0);
    let all = owners(nodes, 0, 0);
    let at = choose|at: int| 0 <= at < all.len() && all[at] == (node, k);
    assert(is_leaf(nodes, all[at], leaves_under(nodes, 0, 0)[at]));
    lemma_range_leaf(tokens, 0, tokens.len() as int, at);
    at
}

/// No two tokens of the tree start at the same place: two that do are the same
/// element of the same node.
pub proof fn law_every_token_stands_in_one_place(
    analyzer: &Analyzer,
    text: Seq<char>,
    tokens: Seq<SyntaxToken>,
    parse: &Parse,
    a: (int, int),
    b: (int, int),
)
    requires
        byte_len(text) <= u32::MAX,
        reads(analyzer, text, tokens, parse),
        0 <= a.0 < parse.nodes@.len(),
        0 <= a.1 < parse.nodes@[a.0].elements@.len(),
        0 <= b.0 < parse.nodes@.len(),
        0 <= b.1 < parse.nodes@[b.0].elements@.len(),
        parse.nodes@[a.0].elements@[a.1] matches Element::Token(s) && (
        parse.nodes@[b.0].elements@[b.1] matches Element::Token(t) && s.span.start == t.span.start),
    ensures
        a == b,
{
    let i = lemma_element_token(analyzer, text, tokens, parse, a.0, a.1);
    let j = lemma_element_token(analyzer, text, tokens, parse, b.0, b.1);
    lemma_lexed_text(text, 0, tokens);
    lemma_same_start(tokens, i, j);
}

pub proof fn lemma_same_start(tokens: Seq<SyntaxToken>, i: int, j: int)
    requires
        crate::reader::in_source_order(tokens),
        0 <= i < tokens.len(),
        0 <= j < tokens.len(),
        tokens[i].span.start == tokens[j].span.start,
    ensures
        i == j,
{
    assert(tokens[i].span.start < tokens[i].span.end);
    assert(tokens[j].span.start < tokens[j].span.end);
    if i < j {
        assert(tokens[i].span.end <= tokens[j].span.start);
    } else if j < i {
        assert(tokens[j].span.end <= tokens[i].span.start);
    }
}

/// The place of a token of the text that a node holds in its header or among its
/// elements.
pub proof fn lemma_held_token(
    analyzer: &Analyzer,
    text: Seq<char>,
    tokens: Seq<SyntaxToken>,
    parse: &Parse,
    node: int,
    span: Span,
) -> (at: int)
    requires
        reads(analyzer, text, tokens, parse),
        0 <= node < parse.nodes@.len(),
        held_in(parse.nodes@[node].elements@, span),
    ensures
        0 <= at < tokens.len(),
        tokens.len() == owners(parse.nodes@, 0, 0).len(),
        owners(parse.nodes@, 0, 0)[at].0 == node,
        tokens[at].span == span,
{
    let elements = parse.nodes@[node].elements@;
    let k = choose|k: int|
        0 <= k < elements.len() && (#[trigger] elements[k] matches Element::Token(t) && t.span
            == span);
    lemma_element_token(analyzer, text, tokens, parse, node, k)
}

/// Nodes that hold tokens with the same start are the same node.
pub proof fn lemma_one_holder(
    analyzer: &Analyzer,
    text: Seq<char>,
    tokens: Seq<SyntaxToken>,
    parse: &Parse,
    a: int,
    b: int,
    x: Span,
    y: Span,
)
    requires
        byte_len(text) <= u32::MAX,
        reads(analyzer, text, tokens, parse),
        0 <= a < parse.nodes@.len(),
        0 <= b < parse.nodes@.len(),
        held_in(parse.nodes@[a].elements@, x),
        held_in(parse.nodes@[b].elements@, y),
        x.start == y.start,
    ensures
        a == b,
        x == y,
{
    let i = lemma_held_token(analyzer, text, tokens, parse, a, x);
    let j = lemma_held_token(analyzer, text, tokens, parse, b, y);
    lemma_lexed_text(text, 0, tokens);
    lemma_same_start(tokens, i, j);
}

/// The line that makes a node: the place of its first word, and where it ends.
pub proof fn lemma_line_of(
    analyzer: &Analyzer,
    parse: &Parse,
    tokens: Seq<SyntaxToken>,
    from: int,
    state: ReadState,
    c: int,
) -> (line: (int, int))
    requires
        follows(analyzer, parse, tokens, from, state),
        0 <= from <= tokens.len(),
        0 < state.next <= c < parse.nodes@.len(),
    ensures
        from <= line.0 < line.1 <= tokens.len(),
        !same_ci(tokens[line.0].text@, "End"@),
        tokens[line.0].kind is Word || tokens[line.0].kind is Quoted || tokens[line.0].kind is Equals,
        has_header(
            parse.nodes@[c],
            tokens[line.0],
            words(tokens, line.0 + 1, line.1),
        ),
    decreases tokens.len() - from,
{
    let to = line_end(tokens, from);
    let first = crate::reader::first_solid(tokens, from, to);
    lemma_first_solid(tokens, from, to);
    let next = line_step(parse.nodes@, tokens, from, to, state);
    if first < to && !same_ci(tokens[first].text@, "End"@) && c == state.next {
        (first, to)
    } else {
        lemma_line_of(analyzer, parse, tokens, to, next, c)
    }
}

proof fn lemma_first_solid(tokens: Seq<SyntaxToken>, from: int, to: int)
    requires
        0 <= from <= to,
    ensures
        from <= crate::reader::first_solid(tokens, from, to) <= to,
        ({
            let at = crate::reader::first_solid(tokens, from, to);
            at < to ==> tokens[at].kind is Word || tokens[at].kind is Quoted || tokens[at].kind
                is Equals
        }),
    decreases to - from,
{
    if from < to {
        lemma_first_solid(tokens, from + 1, to);
    }
}

/// The token that word `j` of a range is.
pub proof fn lemma_word_token(tokens: Seq<SyntaxToken>, from: int, to: int, j: int) -> (at: int)
    requires
        0 <= from <= to <= tokens.len(),
        0 <= j < words(tokens, from, to).len(),
    ensures
        from <= at < to,
        words(tokens, from, to)[j] == token_model(tokens[at]),
        tokens[at].kind is Word || tokens[at].kind is Quoted,
        words(tokens, from, at).len() == j,
    decreases to - from,
{
    let rest = words(tokens, from + 1, to);
    let is_word = tokens[from].kind is Word || tokens[from].kind is Quoted;
    if is_word && j == 0 {
        assert(words(tokens, from, from) =~= Seq::empty());
        from
    } else {
        let next = if is_word {
            j - 1
        } else {
            j
        };
        let at = lemma_word_token(tokens, from + 1, to, next);
        at
    }
}

/// The tokens of a header: the first word, and the values behind it, each a
/// different token of the text.
pub proof fn lemma_value_token(
    analyzer: &Analyzer,
    text: Seq<char>,
    tokens: Seq<SyntaxToken>,
    parse: &Parse,
    c: int,
    i: int,
) -> (found: (int, int))
    requires
        reads(analyzer, text, tokens, parse),
        0 < c < parse.nodes@.len(),
        0 <= i < parse.nodes@[c].values@.len(),
    ensures
        0 <= found.0 < found.1 < tokens.len(),
        maybe_model(parse.nodes@[c].head) == Some(token_model(tokens[found.0])),
        token_model(parse.nodes@[c].values@[i]) == token_model(tokens[found.1]),
        tokens[found.1].kind is Word || tokens[found.1].kind is Quoted,
        words(tokens, found.0 + 1, found.1).len() == i,
{
    let node = parse.nodes@[c];
    let (first, to) = lemma_line_of(analyzer, parse, tokens, 0, unread(), c);
    let rest = words(tokens, first + 1, to);
    assert(token_models(node.values@)[i] == token_model(node.values@[i]));
    assert(token_models(node.values@).len() == node.values@.len());
    let at = lemma_word_token(tokens, first + 1, to, i);
    (first, at)
}

/// Two values of a line start at different places.
pub proof fn lemma_values_apart(
    analyzer: &Analyzer,
    text: Seq<char>,
    tokens: Seq<SyntaxToken>,
    parse: &Parse,
    c: int,
    i: int,
    j: int,
)
    requires
        byte_len(text) <= u32::MAX,
        reads(analyzer, text, tokens, parse),
        0 < c < parse.nodes@.len(),
        0 <= i < parse.nodes@[c].values@.len(),
        0 <= j < parse.nodes@[c].values@.len(),
        parse.nodes@[c].values@[i].span.start == parse.nodes@[c].values@[j].span.start,
    ensures
        i == j,
{
    let a = lemma_value_token(analyzer, text, tokens, parse, c, i);
    let b = lemma_value_token(analyzer, text, tokens, parse, c, j);
    lemma_lexed_text(text, 0, tokens);
    lemma_same_start(tokens, a.0, b.0);
    lemma_same_start(tokens, a.1, b.1);
}

/// A value of a line does not start where its first word does.
pub proof fn lemma_head_apart(
    analyzer: &Analyzer,
    text: Seq<char>,
    tokens: Seq<SyntaxToken>,
    parse: &Parse,
    c: int,
    i: int,
)
    requires
        byte_len(text) <= u32::MAX,
        reads(analyzer, text, tokens, parse),
        0 < c < parse.nodes@.len(),
        0 <= i < parse.nodes@[c].values@.len(),
    ensures
        parse.nodes@[c].head matches Some(head) && head.span.start
            != parse.nodes@[c].values@[i].span.start,
{
    let a = lemma_value_token(analyzer, text, tokens, parse, c, i);
    lemma_lexed_text(text, 0, tokens);
    if tokens[a.0].span.start == tokens[a.1].span.start {
        lemma_same_start(tokens, a.0, a.1);
    }
}

/// The tokens of a header's first word, and of word `i` behind it, where the header
/// has that many.
pub proof fn lemma_header_token(
    analyzer: &Analyzer,
    text: Seq<char>,
    tokens: Seq<SyntaxToken>,
    parse: &Parse,
    c: int,
    i: int,
) -> (found: (int, int))
    requires
        reads(analyzer, text, tokens, parse),
        0 < c < parse.nodes@.len(),
        i == 0 && parse.nodes@[c].name is Some || i == 1 && parse.nodes@[c].tag is Some,
    ensures
        0 <= found.0 < found.1 < tokens.len(),
        maybe_model(parse.nodes@[c].head) == Some(token_model(tokens[found.0])),
        !same_ci(tokens[found.0].text@, "End"@),
        maybe_model(
            if i == 0 {
                parse.nodes@[c].name
            } else {
                parse.nodes@[c].tag
            },
        ) == Some(token_model(tokens[found.1])),
        tokens[found.1].kind is Word || tokens[found.1].kind is Quoted,
        words(tokens, found.0 + 1, found.1).len() == i,
{
    let (first, to) = lemma_line_of(analyzer, parse, tokens, 0, unread(), c);
    let rest = words(tokens, first + 1, to);
    assert(nth(rest, i) is Some);
    let at = lemma_word_token(tokens, first + 1, to, i);
    (first, at)
}

/// The first word, the name and the tag of a header start at different places.
pub proof fn lemma_header_apart(
    analyzer: &Analyzer,
    text: Seq<char>,
    tokens: Seq<SyntaxToken>,
    parse: &Parse,
    c: int,
)
    requires
        byte_len(text) <= u32::MAX,
        reads(analyzer, text, tokens, parse),
        0 < c < parse.nodes@.len(),
    ensures
        parse.nodes@[c].head matches Some(head) && {
            &&& parse.nodes@[c].name matches Some(name) ==> head.span.start != name.span.start
            &&& parse.nodes@[c].tag matches Some(tag) ==> head.span.start != tag.span.start
            &&& parse.nodes@[c].tag matches Some(tag) ==> parse.nodes@[c].name matches Some(
                name,
            ) ==> name.span.start != tag.span.start
        },
{
    let node = parse.nodes@[c];
    lemma_lexed_text(text, 0, tokens);
    assert(ruled_node(analyzer, parse, c));
    if node.name is Some {
        let a = lemma_header_token(analyzer, text, tokens, parse, c, 0);
        if tokens[a.0].span.start == tokens[a.1].span.start {
            lemma_same_start(tokens, a.0, a.1);
        }
        if node.tag is Some {
            let b = lemma_header_token(analyzer, text, tokens, parse, c, 1);
            if tokens[a.1].span.start == tokens[b.1].span.start {
                lemma_same_start(tokens, a.0, b.0);
                lemma_same_start(tokens, a.1, b.1);
            }
        }
    }
    if node.tag is Some {
        let b = lemma_header_token(analyzer, text, tokens, parse, c, 1);
        if tokens[b.0].span.start == tokens[b.1].span.start {
            lemma_same_start(tokens, b.0, b.1);
        }
    }
}

/// The scopes of a list are open: none is a field, and none the root.
pub open spec fn scopes_only(nodes: Seq<SyntaxNode>, open: Seq<usize>) -> bool {
    forall|k: int|
        0 <= k < open.len() ==> 0 < (#[trigger] open[k]) < nodes.len() && !(nodes[open[k] as int].kind
            is Field)
}

proof fn lemma_parent_is_scope(
    analyzer: &Analyzer,
    parse: &Parse,
    tokens: Seq<SyntaxToken>,
    from: int,
    state: ReadState,
    c: int,
)
    requires
        follows(analyzer, parse, tokens, from, state),
        0 <= from <= tokens.len(),
        0 < state.next <= c < parse.nodes@.len(),
        scopes_only(parse.nodes@, state.open),
        parse.nodes@.len() <= usize::MAX,
    ensures
        parse.nodes@[c].parent matches Some(p) && (p == 0 || (p < parse.nodes@.len() && !(
        parse.nodes@[p as int].kind is Field))),
    decreases tokens.len() - from,
{
    let nodes = parse.nodes@;
    let to = line_end(tokens, from);
    let first = crate::reader::first_solid(tokens, from, to);
    let next = line_step(nodes, tokens, from, to, state);
    let makes = first < to && !same_ci(tokens[first].text@, "End"@);
    if makes && c == state.next {
        if state.open.len() > 0 {
            assert(state.open[state.open.len() - 1] == state.open.last());
        }
    } else {
        assert forall|k: int| 0 <= k < next.open.len() implies 0 < (#[trigger] next.open[k])
            < nodes.len() && !(nodes[next.open[k] as int].kind is Field) by {
            if k < state.open.len() {
                assert(next.open[k] == state.open[k]);
            }
        }
        lemma_parent_is_scope(analyzer, parse, tokens, to, next, c);
    }
}

/// In the tree of a text every node lies in the root or in a scope: in a block at
/// the top, or in a module below one. A field never holds a node.
pub proof fn law_nodes_lie_in_scopes(
    analyzer: &Analyzer,
    text: Seq<char>,
    tokens: Seq<SyntaxToken>,
    parse: &Parse,
    c: int,
)
    requires
        reads(analyzer, text, tokens, parse),
        0 < c < parse.nodes@.len(),
    ensures
        parse.nodes@[c].parent matches Some(p) && p < c && if p == 0 {
            parse.nodes@[c].kind is Block || parse.nodes@[c].kind is Field
        } else {
            &&& parse.nodes@[c].kind is Module || parse.nodes@[c].kind is Field
            &&& parse.nodes@[p as int].kind == if parse.nodes@[p as int].parent == Some(0usize) {
                SyntaxKind::Block
            } else {
                SyntaxKind::Module
            }
        },
{
    assert(parse.nodes@.len() == parse.nodes.len());
    lemma_parent_is_scope(analyzer, parse, tokens, 0, unread(), c);
    assert(ruled_node(analyzer, parse, c));
    let p = parse.nodes@[c].parent->Some_0 as int;
    if p > 0 {
        assert(ruled_node(analyzer, parse, p));
    }
}

} // verus!
