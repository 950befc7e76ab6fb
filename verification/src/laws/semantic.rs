//! How the tokens of a document are shown.

use vstd::prelude::*;

use crate::analyzer::Analyzer;
use crate::laws::lists::{lemma_behind, lemma_either, lemma_front};
use crate::laws::references::declared_line;
use crate::laws::tree::{
    law_every_token_stands_in_one_place, law_nodes_lie_in_scopes, lemma_head_apart,
    lemma_header_apart, lemma_header_token, lemma_line_of, lemma_one_holder, lemma_value_token,
    lemma_values_apart,
};
use crate::model::scope_of;
use crate::reader::{child_of, contained, held_in, reads, unread};
use crate::schema::{Field, RefKind, ValueType};
use crate::semantic::{
    block_marks, element_meets, everything, field_marks, in_slot, left_at, lexical_mark,
    lexical_marks, lexical_under, line_schema, marked, marks_in, module_marks, removes_module,
    settles, structured_marks, token_at, top_lexical, top_marks, value_marks, walk_marks, Mark,
    SemKind, SemToken,
};
use crate::syntax::{Element, Parse, Span, SyntaxKind, SyntaxToken};
use crate::text::{byte_len, same_ci};

verus! {

/// A mark that is not overridden, at an offset, says this.
pub open spec fn says(m: Mark, at: u32, token: SemToken) -> bool {
    m.token.span.start == at && !m.weak ==> m.token == token
}

proof fn lemma_left(marks: Seq<Mark>, at: u32, before: Option<SemToken>, token: SemToken, i: int)
    requires
        0 <= i < marks.len(),
        marks[i] == (Mark { token, weak: false }),
        token.span.start == at,
        forall|j: int| 0 <= j < marks.len() ==> says(#[trigger] marks[j], at, token),
    ensures
        left_at(marks, at, before) == Some(token),
    decreases marks.len(),
{
    let front = marks.drop_last();
    assert(marks.last() == marks[marks.len() - 1]);
    assert(says(marks[marks.len() - 1], at, token));
    if i < marks.len() - 1 {
        assert(front[i] == marks[i]);
        assert forall|j: int| 0 <= j < front.len() implies says(#[trigger] front[j], at, token) by {
            assert(says(marks[j], at, token));
        }
        lemma_left(front, at, before, token, i);
    }
}

proof fn lemma_left_append(a: Seq<Mark>, b: Seq<Mark>, at: u32, before: Option<SemToken>)
    ensures
        left_at(a + b, at, before) == left_at(b, at, left_at(a, at, before)),
    decreases b.len(),
{
    if b.len() == 0 {
        assert(a + b =~= a);
    } else {
        assert((a + b).drop_last() =~= a + b.drop_last());
        lemma_left_append(a, b.drop_last(), at, before);
    }
}

/// An element that, where it is the token of a range, is neither a comment nor a
/// sign nor the word `End`.
pub open spec fn plain_at(element: Element, span: Span) -> bool {
    match element {
        Element::Node(_) => true,
        Element::Token(t) => t.span != span || !(t.kind is Comment || t.kind is Equals || same_ci(
            t.text@,
            "End"@,
        )),
    }
}

spec fn words_at(elements: Seq<Element>, span: Span) -> bool {
    forall|k: int| 0 <= k < elements.len() ==> plain_at(#[trigger] elements[k], span)
}

/// The marks of a node's own header.
pub open spec fn own_marks(analyzer: &Analyzer, parse: &Parse, c: int) -> Seq<Mark> {
    let node = parse.nodes@[c];
    match node.parent {
        Some(p) => {
            let scope = scope_of(analyzer, parse, p as int);
            match node.kind {
                SyntaxKind::Field => field_marks(node, scope),
                SyntaxKind::Module => module_marks(node, in_slot(scope.slot_list(), node.head)),
                SyntaxKind::Block => block_marks(node),
                SyntaxKind::Root => Seq::empty(),
            }
        },
        None => Seq::empty(),
    }
}

/// The marks of element `k` of a node.
spec fn element_marks(analyzer: &Analyzer, parse: &Parse, node: int, k: int) -> Seq<Mark> {
    match parse.nodes@[node].elements@[k] {
        Element::Node(c) => if node < c < parse.nodes@.len() {
            own_marks(analyzer, parse, c as int) + if parse.nodes@[c as int].kind is Field
                || parse.nodes@[c as int].kind is Root {
                Seq::empty()
            } else {
                walk_marks(analyzer, parse, c as int, 0)
            }
        } else {
            Seq::empty()
        },
        Element::Token(_) => Seq::empty(),
    }
}

proof fn lemma_walk_step(analyzer: &Analyzer, parse: &Parse, node: int, k: int)
    requires
        parse.wf(),
        0 <= node < parse.nodes@.len(),
        0 <= k < parse.nodes@[node].elements@.len(),
    ensures
        walk_marks(analyzer, parse, node, k) == element_marks(analyzer, parse, node, k)
            + walk_marks(analyzer, parse, node, k + 1),
{
    if let Element::Node(c) = parse.nodes@[node].elements@[k] {
        assert(parse.nodes@[c as int].parent == Some(node as usize));
        assert(parse.nodes.len() == parse.nodes@.len());
        let own = own_marks(analyzer, parse, c as int);
        assert(own + Seq::<Mark>::empty() =~= own);
    }
}

proof fn lemma_walk_source(analyzer: &Analyzer, parse: &Parse, node: int, k: int, m: Mark) -> (c:
    int)
    requires
        parse.wf(),
        0 <= node < parse.nodes@.len(),
        0 <= k,
        walk_marks(analyzer, parse, node, k).contains(m),
    ensures
        node < c < parse.nodes@.len(),
        own_marks(analyzer, parse, c).contains(m),
    decreases parse.nodes@.len() - node, parse.nodes@[node].elements@.len() - k,
{
    let elements = parse.nodes@[node].elements@;
    assert(k < elements.len());
    let rest = walk_marks(analyzer, parse, node, k + 1);
    lemma_walk_step(analyzer, parse, node, k);
    lemma_either(element_marks(analyzer, parse, node, k), rest, m);
    if rest.contains(m) {
        lemma_walk_source(analyzer, parse, node, k + 1, m)
    } else {
        let c = elements[k]->Node_0 as int;
        let own = own_marks(analyzer, parse, c);
        let deeper = if parse.nodes@[c].kind is Field || parse.nodes@[c].kind is Root {
            Seq::empty()
        } else {
            walk_marks(analyzer, parse, c, 0)
        };
        lemma_either(own, deeper, m);
        if own.contains(m) {
            c
        } else {
            lemma_walk_source(analyzer, parse, c, 0, m)
        }
    }
}

proof fn lemma_top_source(analyzer: &Analyzer, parse: &Parse, k: int, m: Mark) -> (c: int)
    requires
        parse.wf(),
        0 <= k,
        structured_marks(analyzer, parse, everything(), k).contains(m),
    ensures
        0 < c < parse.nodes@.len(),
        own_marks(analyzer, parse, c).contains(m),
    decreases parse.nodes@[0].elements@.len() - k,
{
    let elements = parse.nodes@[0].elements@;
    assert(k < elements.len());
    let rest = structured_marks(analyzer, parse, everything(), k + 1);
    let here = top_marks(analyzer, parse, elements[k]);
    if element_meets(parse, elements[k], everything()) {
        lemma_either(here, rest, m);
    }
    if rest.contains(m) {
        lemma_top_source(analyzer, parse, k + 1, m)
    } else {
        let c = elements[k]->Node_0 as int;
        assert(parse.nodes@[0].elements@[k] == Element::Node(c as usize));
        assert(parse.nodes@[c].parent == Some(0usize));
        if parse.nodes@[c].kind is Block {
            let own = block_marks(parse.nodes@[c]);
            lemma_either(own, walk_marks(analyzer, parse, c, 0), m);
            if own.contains(m) {
                c
            } else {
                lemma_walk_source(analyzer, parse, c, 0, m)
            }
        } else {
            c
        }
    }
}

proof fn lemma_lexical_source(parse: &Parse, node: int, k: int, m: Mark) -> (at: (int, int))
    requires
        parse.wf(),
        0 <= node < parse.nodes@.len(),
        0 <= k,
        lexical_under(parse, node, k).contains(m),
    ensures
        0 <= at.0 < parse.nodes@.len(),
        0 <= at.1 < parse.nodes@[at.0].elements@.len(),
        parse.nodes@[at.0].elements@[at.1] matches Element::Token(t) && lexical_mark(t).contains(m),
    decreases parse.nodes@.len() - node, parse.nodes@[node].elements@.len() - k,
{
    let elements = parse.nodes@[node].elements@;
    assert(k < elements.len());
    let rest = lexical_under(parse, node, k + 1);
    let here = match elements[k] {
        Element::Node(c) => if node < c < parse.nodes@.len() {
            lexical_under(parse, c as int, 0)
        } else {
            Seq::empty()
        },
        Element::Token(t) => lexical_mark(t),
    };
    lemma_either(here, rest, m);
    if rest.contains(m) {
        lemma_lexical_source(parse, node, k + 1, m)
    } else {
        match elements[k] {
            Element::Node(c) => lemma_lexical_source(parse, c as int, 0, m),
            Element::Token(_) => (node, k),
        }
    }
}

proof fn lemma_lexical_top_source(parse: &Parse, k: int, m: Mark) -> (at: (int, int))
    requires
        parse.wf(),
        0 <= k,
        lexical_marks(parse, everything(), k).contains(m),
    ensures
        0 <= at.0 < parse.nodes@.len(),
        0 <= at.1 < parse.nodes@[at.0].elements@.len(),
        parse.nodes@[at.0].elements@[at.1] matches Element::Token(t) && lexical_mark(t).contains(m),
    decreases parse.nodes@[0].elements@.len() - k,
{
    let elements = parse.nodes@[0].elements@;
    assert(k < elements.len());
    let rest = lexical_marks(parse, everything(), k + 1);
    if element_meets(parse, elements[k], everything()) {
        lemma_either(top_lexical(parse, elements[k]), rest, m);
    }
    if rest.contains(m) {
        lemma_lexical_top_source(parse, k + 1, m)
    } else {
        match elements[k] {
            Element::Node(c) => {
                assert(parse.nodes@[0].elements@[k] == Element::Node(c));
                lemma_lexical_source(parse, c as int, 0, m)
            },
            Element::Token(_) => (0, k),
        }
    }
}

proof fn lemma_walk_holds(
    analyzer: &Analyzer,
    parse: &Parse,
    node: int,
    j: int,
    k: int,
    m: Mark,
)
    requires
        parse.wf(),
        0 <= node < parse.nodes@.len(),
        0 <= j <= k < parse.nodes@[node].elements@.len(),
        element_marks(analyzer, parse, node, k).contains(m),
    ensures
        walk_marks(analyzer, parse, node, j).contains(m),
    decreases k - j,
{
    let rest = walk_marks(analyzer, parse, node, j + 1);
    lemma_walk_step(analyzer, parse, node, j);
    if j < k {
        lemma_walk_holds(analyzer, parse, node, j + 1, k, m);
        lemma_behind(element_marks(analyzer, parse, node, j), rest, m);
    } else {
        lemma_front(element_marks(analyzer, parse, node, j), rest, m);
    }
}

proof fn lemma_top_holds(analyzer: &Analyzer, parse: &Parse, j: int, k: int, m: Mark)
    requires
        0 <= j <= k < parse.nodes@[0].elements@.len(),
        top_marks(analyzer, parse, parse.nodes@[0].elements@[k]).contains(m),
    ensures
        structured_marks(analyzer, parse, everything(), j).contains(m),
    decreases k - j,
{
    let elements = parse.nodes@[0].elements@;
    let rest = structured_marks(analyzer, parse, everything(), j + 1);
    let here = top_marks(analyzer, parse, elements[j]);
    assert(element_meets(parse, elements[j], everything()));
    if j < k {
        lemma_top_holds(analyzer, parse, j + 1, k, m);
        lemma_behind(here, rest, m);
    } else {
        lemma_front(here, rest, m);
    }
}

proof fn lemma_scope_marks(
    analyzer: &Analyzer,
    text: Seq<char>,
    tokens: Seq<SyntaxToken>,
    parse: &Parse,
    c: int,
    m: Mark,
)
    requires
        reads(analyzer, text, tokens, parse),
        0 < c < parse.nodes@.len(),
        parse.nodes@[c].kind is Block || parse.nodes@[c].kind is Module,
        walk_marks(analyzer, parse, c, 0).contains(m),
    ensures
        structured_marks(analyzer, parse, everything(), 0).contains(m),
    decreases c,
{
    let nodes = parse.nodes@;
    law_nodes_lie_in_scopes(analyzer, text, tokens, parse, c);
    let q = nodes[c].parent->Some_0 as int;
    assert(child_of(nodes, q, c));
    let k = choose|k: int|
        0 <= k < nodes[q].elements@.len() && (#[trigger] nodes[q].elements@[k] matches Element::Node(
            x,
        ) && x == c);
    if q == 0 {
        lemma_behind(block_marks(nodes[c]), walk_marks(analyzer, parse, c, 0), m);
        lemma_top_holds(analyzer, parse, 0, k, m);
    } else {
        lemma_behind(own_marks(analyzer, parse, c), walk_marks(analyzer, parse, c, 0), m);
        lemma_walk_holds(analyzer, parse, q, 0, k, m);
        lemma_scope_marks(analyzer, text, tokens, parse, q, m);
    }
}

/// What a node's own header marks is marked in the document.
proof fn lemma_own_marks(
    analyzer: &Analyzer,
    text: Seq<char>,
    tokens: Seq<SyntaxToken>,
    parse: &Parse,
    c: int,
    m: Mark,
)
    requires
        reads(analyzer, text, tokens, parse),
        0 < c < parse.nodes@.len(),
        own_marks(analyzer, parse, c).contains(m),
    ensures
        structured_marks(analyzer, parse, everything(), 0).contains(m),
{
    let nodes = parse.nodes@;
    law_nodes_lie_in_scopes(analyzer, text, tokens, parse, c);
    let q = nodes[c].parent->Some_0 as int;
    assert(child_of(nodes, q, c));
    let k = choose|k: int|
        0 <= k < nodes[q].elements@.len() && (#[trigger] nodes[q].elements@[k] matches Element::Node(
            x,
        ) && x == c);
    let own = own_marks(analyzer, parse, c);
    if q == 0 {
        if nodes[c].kind is Block {
            lemma_front(own, walk_marks(analyzer, parse, c, 0), m);
        }
        lemma_top_holds(analyzer, parse, 0, k, m);
    } else {
        let deeper = if nodes[c].kind is Field || nodes[c].kind is Root {
            Seq::empty()
        } else {
            walk_marks(analyzer, parse, c, 0)
        };
        lemma_front(own, deeper, m);
        lemma_walk_holds(analyzer, parse, q, 0, k, m);
        lemma_scope_marks(analyzer, text, tokens, parse, q, m);
    }
}

/// Where a value mark comes from.
proof fn lemma_value_source(
    removes: bool,
    field: Option<Field>,
    values: Seq<SyntaxToken>,
    from: int,
    m: Mark,
) -> (i: int)
    requires
        0 <= from,
        value_marks(removes, field, values, from).contains(m),
    ensures
        from <= i < values.len(),
        m.token.span == values[i].span,
        m == value_marks(removes, field, values, i)[0],
    decreases values.len() - from,
{
    let rest = value_marks(removes, field, values, from + 1);
    let all = value_marks(removes, field, values, from);
    let here = seq![all[0]];
    assert(all =~= here + rest);
    lemma_either(here, rest, m);
    if rest.contains(m) {
        lemma_value_source(removes, field, values, from + 1, m)
    } else {
        from
    }
}

proof fn lemma_value_marked(
    removes: bool,
    field: Option<Field>,
    values: Seq<SyntaxToken>,
    from: int,
    i: int,
)
    requires
        0 <= from <= i < values.len(),
    ensures
        value_marks(removes, field, values, from).contains(
            value_marks(removes, field, values, i)[0],
        ),
    decreases i - from,
{
    let all = value_marks(removes, field, values, from);
    if from < i {
        lemma_value_marked(removes, field, values, from + 1, i);
        let rest = value_marks(removes, field, values, from + 1);
        let here = seq![all[0]];
        assert(all =~= here + rest);
        lemma_behind(here, rest, value_marks(removes, field, values, i)[0]);
    } else {
        assert(all.contains(all[0]));
    }
}

/// The marks of a node's header lie on the header's tokens.
proof fn lemma_own_held(analyzer: &Analyzer, parse: &Parse, c: int, m: Mark)
    requires
        0 < c < parse.nodes@.len(),
        contained(parse.nodes@[c]),
        own_marks(analyzer, parse, c).contains(m),
    ensures
        held_in(parse.nodes@[c].elements@, m.token.span),
{
    let node = parse.nodes@[c];
    let scope = scope_of(analyzer, parse, node.parent->Some_0 as int);
    match node.kind {
        SyntaxKind::Field => {
            let removes = removes_module(node.head);
            let field = line_schema(scope, node.head);
            let key = marked(
                node.head,
                if removes {
                    SemKind::Keyword
                } else {
                    SemKind::Field
                },
            );
            let values = value_marks(removes, field, node.values@, 0);
            lemma_either(key, values, m);
            if values.contains(m) {
                let i = lemma_value_source(removes, field, node.values@, 0, m);
                assert(held_in(node.elements@, node.values@[i].span));
            }
        },
        _ => {},
    }
}

/// A token of a node's header is shown as its one strong mark says.
proof fn lemma_shown(
    analyzer: &Analyzer,
    text: Seq<char>,
    tokens: Seq<SyntaxToken>,
    parse: &Parse,
    sems: Seq<SemToken>,
    c: int,
    token: SemToken,
)
    requires
        byte_len(text) <= u32::MAX,
        reads(analyzer, text, tokens, parse),
        settles(sems, marks_in(analyzer, parse, everything())),
        0 < c < parse.nodes@.len(),
        held_in(parse.nodes@[c].elements@, token.span),
        own_marks(analyzer, parse, c).contains(Mark { token, weak: false }),
        forall|m: Mark| #[trigger]
            own_marks(analyzer, parse, c).contains(m) ==> says(m, token.span.start, token),
        words_at(parse.nodes@[c].elements@, token.span),
    ensures
        token_at(sems, token.span.start) == Some(token),
{
    let at = token.span.start;
    let nodes = parse.nodes@;
    let upper = structured_marks(analyzer, parse, everything(), 0);
    let lower = lexical_marks(parse, everything(), 0);
    let all = marks_in(analyzer, parse, everything());
    let mine = Mark { token, weak: false };
    lemma_own_marks(analyzer, text, tokens, parse, c, mine);
    lemma_front(upper, lower, mine);
    let i = choose|i: int| 0 <= i < all.len() && all[i] == mine;
    assert forall|j: int| 0 <= j < all.len() implies says(#[trigger] all[j], at, token) by {
        let m = all[j];
        if m.token.span.start == at {
            assert(all.contains(m));
            lemma_either(upper, lower, m);
            if upper.contains(m) {
                let d = lemma_top_source(analyzer, parse, 0, m);
                assert(contained(nodes[d]));
                lemma_own_held(analyzer, parse, d, m);
                lemma_one_holder(
                    analyzer,
                    text,
                    tokens,
                    parse,
                    c,
                    d,
                    token.span,
                    m.token.span,
                );
            } else {
                let from = lemma_lexical_top_source(parse, 0, m);
                let t = nodes[from.0].elements@[from.1]->Token_0;
                assert(t.span == m.token.span);
                assert(nodes[from.0].elements@[from.1] == Element::Token(t));
                assert(held_in(nodes[from.0].elements@, t.span));
                lemma_one_holder(analyzer, text, tokens, parse, c, from.0, token.span, t.span);
                assert(plain_at(nodes[c].elements@[from.1], token.span));
            }
        }
    }
    lemma_left(all, at, None, token, i);
    assert(token_at(sems, at) == left_at(all, at, None));
}

/// The elements of a node at a place of a word are that word.
proof fn lemma_word_elements(
    analyzer: &Analyzer,
    text: Seq<char>,
    tokens: Seq<SyntaxToken>,
    parse: &Parse,
    c: int,
    at: int,
    k: int,
)
    requires
        byte_len(text) <= u32::MAX,
        reads(analyzer, text, tokens, parse),
        0 <= c < parse.nodes@.len(),
        0 <= k < parse.nodes@[c].elements@.len(),
        0 <= at < tokens.len(),
        parse.nodes@[c].elements@[k] matches Element::Token(t) && t.span == tokens[at].span,
    ensures
        parse.nodes@[c].elements@[k] matches Element::Token(t) && t.kind == tokens[at].kind
            && t.text@ == tokens[at].text@,
{
    let j = crate::laws::tree::lemma_element_token(analyzer, text, tokens, parse, c, k);
    crate::reader::lemma_lexed_text(text, 0, tokens);
    crate::laws::tree::lemma_same_start(tokens, at, j);
}

/// A value of a field line, in quotes or not, is shown as its line's schema has
/// it, unless it is the word `End`.
proof fn lemma_value_shown(
    analyzer: &Analyzer,
    text: Seq<char>,
    tokens: Seq<SyntaxToken>,
    parse: &Parse,
    sems: Seq<SemToken>,
    c: int,
    i: int,
)
    requires
        byte_len(text) <= u32::MAX,
        reads(analyzer, text, tokens, parse),
        settles(sems, marks_in(analyzer, parse, everything())),
        0 < c < parse.nodes@.len(),
        parse.nodes@[c].kind is Field,
        0 <= i < parse.nodes@[c].values@.len(),
        !same_ci(parse.nodes@[c].values@[i].text@, "End"@),
    ensures
        parse.nodes@[c].parent matches Some(p) && token_at(
            sems,
            parse.nodes@[c].values@[i].span.start,
        ) == Some(
            value_marks(
                removes_module(parse.nodes@[c].head),
                line_schema(scope_of(analyzer, parse, p as int), parse.nodes@[c].head),
                parse.nodes@[c].values@,
                i,
            )[0].token,
        ),
{
    let node = parse.nodes@[c];
    law_nodes_lie_in_scopes(analyzer, text, tokens, parse, c);
    let scope = scope_of(analyzer, parse, node.parent->Some_0 as int);
    let removes = removes_module(node.head);
    let field = line_schema(scope, node.head);
    let key = marked(
        node.head,
        if removes {
            SemKind::Keyword
        } else {
            SemKind::Field
        },
    );
    let values = value_marks(removes, field, node.values@, 0);
    let mine = value_marks(removes, field, node.values@, i)[0];
    let token = mine.token;
    let own = own_marks(analyzer, parse, c);
    assert(contained(node));
    assert(held_in(node.elements@, node.values@[i].span));
    lemma_value_marked(removes, field, node.values@, 0, i);
    lemma_behind(key, values, mine);
    lemma_head_apart(analyzer, text, tokens, parse, c, i);
    assert forall|m: Mark| #[trigger] own.contains(m) implies says(m, token.span.start, token) by {
        lemma_either(key, values, m);
        if values.contains(m) {
            let j = lemma_value_source(removes, field, node.values@, 0, m);
            if m.token.span.start == token.span.start {
                lemma_values_apart(analyzer, text, tokens, parse, c, i, j);
            }
        }
    }
    let found = lemma_value_token(analyzer, text, tokens, parse, c, i);
    lemma_words_only(analyzer, text, tokens, parse, c, found.1, token.span);
    lemma_shown(analyzer, text, tokens, parse, sems, c, token);
}

/// A token is shown as one of a class: one semantic token starts where it does,
/// covers it, and is of that class.
pub open spec fn shown(sems: Seq<SemToken>, span: Span, kind: SemKind) -> bool {
    token_at(sems, span.start) == Some(SemToken { span, kind })
}

/// The conditions under which the value types of a field decide how its values are
/// shown: the key removes no module, and the field does not read an animation.
pub open spec fn typed_by_schema(parse: &Parse, c: int, field: Field, i: int) -> bool {
    &&& 0 <= i < parse.nodes@[c].values@.len()
    &&& !(parse.nodes@[c].values@[i].kind is Quoted)
    &&& !same_ci(parse.nodes@[c].values@[i].text@, "End"@)
    &&& !removes_module(parse.nodes@[c].head)
    &&& field.parse_fn@ != "parseAnimation"@
}

/// A bare value that is collected as a reference is shown as one: the first value of
/// a reference field, and every value of a list of references.
pub proof fn law_references_are_shown(
    analyzer: &Analyzer,
    text: Seq<char>,
    tokens: Seq<SyntaxToken>,
    parse: &Parse,
    sems: Seq<SemToken>,
    p: int,
    c: int,
    field: Field,
    kind: RefKind,
    i: int,
)
    requires
        declared_line(analyzer, text, tokens, parse, p, c, field),
        settles(sems, marks_in(analyzer, parse, everything())),
        typed_by_schema(parse, c, field, i),
        field.value_type == (ValueType::Reference { ref_kind: kind }) && i == 0 || field.value_type
            == (ValueType::ReferenceList { ref_kind: kind }),
    ensures
        shown(sems, parse.nodes@[c].values@[i].span, SemKind::Reference),
{
    lemma_value_shown(analyzer, text, tokens, parse, sems, c, i);
}

/// A bare value of a game file, a model, or what a model holds, is shown as a
/// reference.
pub proof fn law_files_are_shown_as_references(
    analyzer: &Analyzer,
    text: Seq<char>,
    tokens: Seq<SyntaxToken>,
    parse: &Parse,
    sems: Seq<SemToken>,
    p: int,
    c: int,
    field: Field,
)
    requires
        declared_line(analyzer, text, tokens, parse, p, c, field),
        settles(sems, marks_in(analyzer, parse, everything())),
        typed_by_schema(parse, c, field, 0),
        field.value_type is W3dModel || field.value_type is W3dModelList || field.value_type
            is W3dModelMember || field.value_type is AudioFile || field.value_type is AudioStemList
            || field.value_type is TextureFile || field.value_type is TextureStem
            || field.value_type is TextureSequenceStem,
    ensures
        shown(sems, parse.nodes@[c].values@[0].span, SemKind::Reference),
{
    lemma_value_shown(analyzer, text, tokens, parse, sems, c, 0);
}

/// A bare value of a field that takes numbers is shown as one; so are all the
/// values of one that takes coordinates or a color.
pub proof fn law_numbers_are_shown(
    analyzer: &Analyzer,
    text: Seq<char>,
    tokens: Seq<SyntaxToken>,
    parse: &Parse,
    sems: Seq<SemToken>,
    p: int,
    c: int,
    field: Field,
    i: int,
)
    requires
        declared_line(analyzer, text, tokens, parse, p, c, field),
        settles(sems, marks_in(analyzer, parse, everything())),
        typed_by_schema(parse, c, field, i),
        ({
            let ty = field.value_type;
            ||| i == 0 && (ty is Int || ty is UInt || ty is Real || ty is PositiveReal || ty
                is AngleReal || ty is Percent || ty is Duration || ty is Velocity || ty
                is Acceleration || ty is Color)
            ||| ty is Coord2D || ty is Coord3D || ty is RandomKeyframe || ty is ColorKeyframe
            ||| ty is RandomVariable && i != 2
        }),
    ensures
        shown(sems, parse.nodes@[c].values@[i].span, SemKind::Number),
{
    lemma_value_shown(analyzer, text, tokens, parse, sems, c, i);
}

/// A bare value that is a choice is shown as one: yes or no, a choice of a list, each
/// flag of a mask, and the distribution behind the two bounds of a random number.
pub proof fn law_choices_are_shown(
    analyzer: &Analyzer,
    text: Seq<char>,
    tokens: Seq<SyntaxToken>,
    parse: &Parse,
    sems: Seq<SemToken>,
    p: int,
    c: int,
    field: Field,
    i: int,
)
    requires
        declared_line(analyzer, text, tokens, parse, p, c, field),
        settles(sems, marks_in(analyzer, parse, everything())),
        typed_by_schema(parse, c, field, i),
        ({
            let ty = field.value_type;
            ||| i == 0 && (ty is Bool || ty is Enum)
            ||| ty is BitFlags
            ||| ty is RandomVariable && i == 2
        }),
    ensures
        shown(sems, parse.nodes@[c].values@[i].span, SemKind::EnumMember),
{
    lemma_value_shown(analyzer, text, tokens, parse, sems, c, i);
}

/// A value that the schema gives no type is shown as a string: every value of an
/// undeclared key, and the values of a field behind the ones that its type takes.
pub proof fn law_untyped_values_are_shown_as_strings(
    analyzer: &Analyzer,
    text: Seq<char>,
    tokens: Seq<SyntaxToken>,
    parse: &Parse,
    sems: Seq<SemToken>,
    p: int,
    c: int,
    i: int,
)
    requires
        byte_len(text) <= u32::MAX,
        reads(analyzer, text, tokens, parse),
        settles(sems, marks_in(analyzer, parse, everything())),
        0 <= p < c < parse.nodes@.len(),
        parse.nodes@[c].kind is Field,
        parse.nodes@[c].parent matches Some(q) && q == p,
        !removes_module(parse.nodes@[c].head),
        0 <= i < parse.nodes@[c].values@.len(),
        !same_ci(parse.nodes@[c].values@[i].text@, "End"@),
        parse.nodes@[c].head matches Some(key) && match scope_of(analyzer, parse, p).field_of(
            key.text@,
        ) {
            Some(f) => f.parse_fn@ != "parseAnimation"@ && ({
                ||| f.value_type is AsciiString && i == 0
                ||| i > 0 && (f.value_type is Int || f.value_type is Real || f.value_type is Bool
                    || f.value_type is Enum || f.value_type is Reference)
            }),
            None => true,
        },
    ensures
        shown(sems, parse.nodes@[c].values@[i].span, SemKind::StringLit),
{
    lemma_value_shown(analyzer, text, tokens, parse, sems, c, i);
}

/// Every value of a line that removes a module is shown as a reference to it.
pub proof fn law_removed_modules_are_shown_as_references(
    analyzer: &Analyzer,
    text: Seq<char>,
    tokens: Seq<SyntaxToken>,
    parse: &Parse,
    sems: Seq<SemToken>,
    c: int,
    i: int,
)
    requires
        byte_len(text) <= u32::MAX,
        reads(analyzer, text, tokens, parse),
        settles(sems, marks_in(analyzer, parse, everything())),
        0 < c < parse.nodes@.len(),
        parse.nodes@[c].kind is Field,
        parse.nodes@[c].head matches Some(key) && same_ci(key.text@, "RemoveModule"@),
        0 <= i < parse.nodes@[c].values@.len(),
        !same_ci(parse.nodes@[c].values@[i].text@, "End"@),
    ensures
        shown(sems, parse.nodes@[c].values@[i].span, SemKind::Reference),
{
    lemma_value_shown(analyzer, text, tokens, parse, sems, c, i);
}

/// The values of an animation are shown as the animation and, behind it, two
/// numbers.
pub proof fn law_animations_are_shown(
    analyzer: &Analyzer,
    text: Seq<char>,
    tokens: Seq<SyntaxToken>,
    parse: &Parse,
    sems: Seq<SemToken>,
    p: int,
    c: int,
    field: Field,
    i: int,
)
    requires
        declared_line(analyzer, text, tokens, parse, p, c, field),
        settles(sems, marks_in(analyzer, parse, everything())),
        field.parse_fn@ == "parseAnimation"@,
        !removes_module(parse.nodes@[c].head),
        0 <= i < parse.nodes@[c].values@.len(),
        i < 3,
        !same_ci(parse.nodes@[c].values@[i].text@, "End"@),
    ensures
        shown(
            sems,
            parse.nodes@[c].values@[i].span,
            if i == 0 {
                SemKind::Reference
            } else {
                SemKind::Number
            },
        ),
{
    lemma_value_shown(analyzer, text, tokens, parse, sems, c, i);
}

/// Comments, equal signs and the word `End` are shown as such, wherever they stand.
pub proof fn law_comments_and_signs_are_shown(
    analyzer: &Analyzer,
    text: Seq<char>,
    tokens: Seq<SyntaxToken>,
    parse: &Parse,
    sems: Seq<SemToken>,
    n: int,
    k: int,
)
    requires
        byte_len(text) <= u32::MAX,
        reads(analyzer, text, tokens, parse),
        settles(sems, marks_in(analyzer, parse, everything())),
        0 <= n < parse.nodes@.len(),
        0 <= k < parse.nodes@[n].elements@.len(),
    ensures
        parse.nodes@[n].elements@[k] matches Element::Token(t) ==> {
            &&& t.kind is Comment ==> shown(sems, t.span, SemKind::Comment)
            &&& t.kind is Equals ==> shown(sems, t.span, SemKind::Operator)
            &&& t.kind is Word && same_ci(t.text@, "End"@) ==> shown(
                sems,
                t.span,
                SemKind::Keyword,
            )
        },
{
    let nodes = parse.nodes@;
    if let Element::Token(t) = nodes[n].elements@[k] {
        let own = lexical_mark(t);
        if t.kind is Comment || t.kind is Equals || t.kind is Word && same_ci(t.text@, "End"@) {
            let mine = own[0];
            let token = mine.token;
            let at = t.span.start;
            let upper = structured_marks(analyzer, parse, everything(), 0);
            let lower = lexical_marks(parse, everything(), 0);
            assert(own.contains(mine));
            lemma_lexical_held_up(analyzer, text, tokens, parse, n, k, mine);
            let i = choose|i: int| 0 <= i < lower.len() && lower[i] == mine;
            assert forall|j: int| 0 <= j < lower.len() implies says(
                #[trigger] lower[j],
                at,
                token,
            ) by {
                let m = lower[j];
                if m.token.span.start == at {
                    assert(lower.contains(m));
                    let from = lemma_lexical_top_source(parse, 0, m);
                    law_every_token_stands_in_one_place(
                        analyzer,
                        text,
                        tokens,
                        parse,
                        (n, k),
                        from,
                    );
                }
            }
            lemma_left(lower, at, left_at(upper, at, None), token, i);
            lemma_left_append(upper, lower, at, None);
            assert(token_at(sems, at) == left_at(marks_in(analyzer, parse, everything()), at, None));
        }
    }
}

proof fn lemma_lexical_holds(parse: &Parse, node: int, j: int, k: int, m: Mark)
    requires
        parse.wf(),
        0 <= node < parse.nodes@.len(),
        0 <= j <= k < parse.nodes@[node].elements@.len(),
        match parse.nodes@[node].elements@[k] {
            Element::Node(c) => lexical_under(parse, c as int, 0).contains(m),
            Element::Token(t) => lexical_mark(t).contains(m),
        },
    ensures
        lexical_under(parse, node, j).contains(m),
    decreases k - j,
{
    let here = match parse.nodes@[node].elements@[j] {
        Element::Node(c) => lexical_under(parse, c as int, 0),
        Element::Token(t) => lexical_mark(t),
    };
    let rest = lexical_under(parse, node, j + 1);
    assert(lexical_under(parse, node, j) == here + rest);
    if j < k {
        lemma_lexical_holds(parse, node, j + 1, k, m);
        lemma_behind(here, rest, m);
    } else {
        lemma_front(here, rest, m);
    }
}

proof fn lemma_lexical_top_holds(parse: &Parse, j: int, k: int, m: Mark)
    requires
        0 <= j <= k < parse.nodes@[0].elements@.len(),
        top_lexical(parse, parse.nodes@[0].elements@[k]).contains(m),
    ensures
        lexical_marks(parse, everything(), j).contains(m),
    decreases k - j,
{
    let elements = parse.nodes@[0].elements@;
    let rest = lexical_marks(parse, everything(), j + 1);
    let here = top_lexical(parse, elements[j]);
    assert(element_meets(parse, elements[j], everything()));
    if j < k {
        lemma_lexical_top_holds(parse, j + 1, k, m);
        lemma_behind(here, rest, m);
    } else {
        lemma_front(here, rest, m);
    }
}

proof fn lemma_lexical_held_up(
    analyzer: &Analyzer,
    text: Seq<char>,
    tokens: Seq<SyntaxToken>,
    parse: &Parse,
    n: int,
    k: int,
    m: Mark,
)
    requires
        reads(analyzer, text, tokens, parse),
        0 <= n < parse.nodes@.len(),
        0 <= k < parse.nodes@[n].elements@.len(),
        match parse.nodes@[n].elements@[k] {
            Element::Node(c) => lexical_under(parse, c as int, 0).contains(m),
            Element::Token(t) => lexical_mark(t).contains(m),
        },
    ensures
        lexical_marks(parse, everything(), 0).contains(m),
    decreases n,
{
    let nodes = parse.nodes@;
    if n == 0 {
        lemma_lexical_top_holds(parse, 0, k, m);
    } else {
        lemma_lexical_holds(parse, n, 0, k, m);
        assert(nodes[n].parent is Some);
        let q = nodes[n].parent->Some_0 as int;
        assert(child_of(nodes, q, n));
        let j = choose|j: int|
            0 <= j < nodes[q].elements@.len() && (
            #[trigger] nodes[q].elements@[j] matches Element::Node(x) && x == n);
        lemma_lexical_held_up(analyzer, text, tokens, parse, q, j, m);
    }
}

/// The first word of a line is shown as a key where the line is a field, and as a
/// keyword where it opens a block or a module, or removes a module. A sign in its
/// place stays a sign.
pub proof fn law_first_words_are_shown(
    analyzer: &Analyzer,
    text: Seq<char>,
    tokens: Seq<SyntaxToken>,
    parse: &Parse,
    sems: Seq<SemToken>,
    c: int,
)
    requires
        byte_len(text) <= u32::MAX,
        reads(analyzer, text, tokens, parse),
        settles(sems, marks_in(analyzer, parse, everything())),
        0 < c < parse.nodes@.len(),
        parse.nodes@[c].head matches Some(head) && !(head.kind is Equals),
    ensures
        parse.nodes@[c].head matches Some(head) && shown(
            sems,
            head.span,
            if parse.nodes@[c].kind is Field && !same_ci(head.text@, "RemoveModule"@) {
                SemKind::Field
            } else {
                SemKind::Keyword
            },
        ),
{
    let node = parse.nodes@[c];
    let head = node.head->Some_0;
    law_nodes_lie_in_scopes(analyzer, text, tokens, parse, c);
    let scope = scope_of(analyzer, parse, node.parent->Some_0 as int);
    let removes = removes_module(node.head);
    let field = line_schema(scope, node.head);
    let kind = if node.kind is Field && !removes {
        SemKind::Field
    } else {
        SemKind::Keyword
    };
    let token = SemToken { span: head.span, kind };
    let own = own_marks(analyzer, parse, c);
    assert(contained(node));
    assert(own[0] == (Mark { token, weak: false }));
    assert(own.contains(own[0]));
    lemma_header_apart(analyzer, text, tokens, parse, c);
    assert forall|m: Mark| #[trigger] own.contains(m) implies says(m, token.span.start, token) by {
        if node.kind is Field {
            let key = marked(node.head, kind);
            let values = value_marks(removes, field, node.values@, 0);
            lemma_either(key, values, m);
            if values.contains(m) {
                let j = lemma_value_source(removes, field, node.values@, 0, m);
                lemma_head_apart(analyzer, text, tokens, parse, c, j);
            }
        }
    }
    let line = lemma_line_of(analyzer, parse, tokens, 0, unread(), c);
    lemma_words_only(analyzer, text, tokens, parse, c, line.0, token.span);
    lemma_shown(analyzer, text, tokens, parse, sems, c, token);
}

/// The word behind a block's keyword is shown as the block's name, and the words
/// behind a module's slot as the module and its tag; where the word before them names
/// no slot of the scope, the first of them is a choice.
pub proof fn law_names_are_shown(
    analyzer: &Analyzer,
    text: Seq<char>,
    tokens: Seq<SyntaxToken>,
    parse: &Parse,
    sems: Seq<SemToken>,
    c: int,
)
    requires
        byte_len(text) <= u32::MAX,
        reads(analyzer, text, tokens, parse),
        settles(sems, marks_in(analyzer, parse, everything())),
        0 < c < parse.nodes@.len(),
    ensures
        parse.nodes@[c].name matches Some(name) ==> same_ci(name.text@, "End"@) || shown(
            sems,
            name.span,
            if parse.nodes@[c].kind is Block {
                SemKind::BlockName
            } else if in_slot(
                scope_of(analyzer, parse, parse.nodes@[c].parent->Some_0 as int).slot_list(),
                parse.nodes@[c].head,
            ) {
                SemKind::Module
            } else {
                SemKind::EnumMember
            },
        ),
        parse.nodes@[c].kind is Module && in_slot(
            scope_of(analyzer, parse, parse.nodes@[c].parent->Some_0 as int).slot_list(),
            parse.nodes@[c].head,
        ) ==> (parse.nodes@[c].tag matches Some(tag) ==> same_ci(tag.text@, "End"@) || shown(
            sems,
            tag.span,
            SemKind::Reference,
        )),
{
    let node = parse.nodes@[c];
    law_nodes_lie_in_scopes(analyzer, text, tokens, parse, c);
    let line = lemma_line_of(analyzer, parse, tokens, 0, unread(), c);
    let scope = scope_of(analyzer, parse, node.parent->Some_0 as int);
    let genuine = in_slot(scope.slot_list(), node.head);
    let own = own_marks(analyzer, parse, c);
    assert(contained(node));
    lemma_header_apart(analyzer, text, tokens, parse, c);
    if let Some(name) = node.name {
        if !same_ci(name.text@, "End"@) {
            let kind = if node.kind is Block {
                SemKind::BlockName
            } else if genuine {
                SemKind::Module
            } else {
                SemKind::EnumMember
            };
            let token = SemToken { span: name.span, kind };
            assert(own[1] == (Mark { token, weak: false }));
            assert(own.contains(own[1]));
            let found = lemma_header_token(analyzer, text, tokens, parse, c, 0);
            lemma_words_only(analyzer, text, tokens, parse, c, found.1, token.span);
            lemma_shown(analyzer, text, tokens, parse, sems, c, token);
        }
    }
    if let Some(tag) = node.tag {
        if node.kind is Module && genuine && !same_ci(tag.text@, "End"@) {
            let token = SemToken { span: tag.span, kind: SemKind::Reference };
            assert(own.last() == (Mark { token, weak: false }));
            assert(own.contains(own[own.len() - 1]));
            let found = lemma_header_token(analyzer, text, tokens, parse, c, 1);
            lemma_words_only(analyzer, text, tokens, parse, c, found.1, token.span);
            lemma_shown(analyzer, text, tokens, parse, sems, c, token);
        }
    }
}

proof fn lemma_words_only(
    analyzer: &Analyzer,
    text: Seq<char>,
    tokens: Seq<SyntaxToken>,
    parse: &Parse,
    c: int,
    at: int,
    span: Span,
)
    requires
        byte_len(text) <= u32::MAX,
        reads(analyzer, text, tokens, parse),
        0 <= c < parse.nodes@.len(),
        0 <= at < tokens.len(),
        tokens[at].span == span,
        tokens[at].kind is Word || tokens[at].kind is Quoted,
        !same_ci(tokens[at].text@, "End"@),
    ensures
        words_at(parse.nodes@[c].elements@, span),
{
    let elements = parse.nodes@[c].elements@;
    assert forall|k: int| 0 <= k < elements.len() implies plain_at(
        #[trigger] elements[k],
        span,
    ) by {
        if let Element::Token(t) = elements[k] {
            if t.span == span {
                lemma_word_elements(analyzer, text, tokens, parse, c, at, k);
            }
        }
    }
}

} // verus!
