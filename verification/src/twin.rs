//! Blocks that differ only in where they stand have the same fixed parts,
//! each relative to its own start.

use vstd::prelude::*;

use crate::alike::{
    lemma_argument_alike, lemma_relative_parts, lemma_token_views, lemma_value_alike,
};
use crate::model::{scope_of, ScopeSchema};
use crate::objects::{
    condition_in, condition_span, facts_from, facts_step, locomotor_diags, reachability_diags,
    set_facts, unreached_sets, upgrade_diags, SetFacts,
};
use crate::schema::{Field, ValueType};
use crate::scopes::{
    behind_prefix, direct_field, field_diags, head_view, in_override_layer, model_asset_diags,
    model_field_diags, model_type_at, raw_asset_diags, stripped_texts, sub_block_diags,
};
use crate::shift::{
    maybe_token_view, moved, relative, token_view, token_views, tree_of, KidView,
};
use crate::steady::{
    asks_index, field_asks, parts_of, relative_parts, relative_slots, sub_block_asks, walk_slots,
};
use crate::syntax::{Element, Parse, Span, SyntaxKind, SyntaxNode, SyntaxToken};
use crate::values::{nothing, Ctx, DiagnosticView};

verus! {

proof fn lemma_list_type_asks(
    tokens: Seq<ValueType>,
    k: int,
    raw: int,
    input: Seq<Seq<char>>,
    index: int,
)
    requires
        0 <= k,
        forall|i: int| 0 <= i < tokens.len() ==> !asks_index(#[trigger] tokens[i]),
    ensures
        crate::schema::list_type(tokens, k, raw, input, index) matches Some(t) ==> !asks_index(t),
    decreases tokens.len() - k,
{
    if k < tokens.len() {
        assert(!asks_index(tokens[k]));
        lemma_list_type_asks(tokens, k + 1, raw + 2, input, index);
        lemma_list_type_asks(tokens, k + 1, raw + 1, input, index);
    } else if tokens.len() > 0 {
        assert(!asks_index(tokens.last()));
    }
}

proof fn lemma_input_type_asks(ty: ValueType, input: Seq<Seq<char>>, index: int)
    requires
        !asks_index(ty),
    ensures
        ty.input_type(input, index) matches Some(t) ==> !asks_index(t),
    decreases ty,
{
    match ty {
        ValueType::OneOf { variants } => {
            let k = crate::schema::active_variant(variants@, crate::schema::first_of(input));
            if 0 <= k < variants@.len() {
                lemma_input_type_asks(variants@[k], input, index);
            }
        },
        ValueType::TokenList { tokens } => lemma_list_type_asks(tokens@, 0, 0, input, index),
        _ => {},
    }
}

proof fn lemma_no_models(
    ctx: Ctx<'_>,
    scope_node: int,
    field: Field,
    tokens: Seq<SyntaxToken>,
    i: int,
)
    requires
        !asks_index(field.value_type),
        0 <= i,
    ensures
        model_field_diags(ctx, scope_node, field, tokens, i) == nothing(),
    decreases tokens.len() - i,
{
    if i < tokens.len() {
        lemma_no_models(ctx, scope_node, field, tokens, i + 1);
        lemma_input_type_asks(field.value_type, stripped_texts(tokens), i);
        match model_type_at(field.value_type, tokens, i) {
            Some(ty) => {
                match behind_prefix(ty, crate::values::stripped(tokens[i].text@)) {
                    Some((inner, _)) => assert(!asks_index(inner)),
                    None => {},
                }
            },
            None => {},
        }
    }
}

/// A field that does not ask the index has findings that move with it.
proof fn lemma_field_alike(
    c: Ctx<'_>,
    d: Ctx<'_>,
    scope: ScopeSchema<'_>,
    x: int,
    y: int,
    a: SyntaxNode,
    oa: u32,
    b: SyntaxNode,
    ob: u32,
)
    requires
        c.analyzer == d.analyzer,
        maybe_token_view(a.head, oa) == maybe_token_view(b.head, ob),
        token_views(a.values@, oa) == token_views(b.values@, ob),
    ensures
        field_asks(scope, a) == field_asks(scope, b),
        !field_asks(scope, a) ==> relative(field_diags(c, scope, x, a), oa) == relative(
            field_diags(d, scope, y, b),
            ob,
        ),
{
    lemma_relative_parts();
    if a.head is Some {
        let key = a.head->Some_0;
        let twin = b.head->Some_0;
        assert(token_view(key, oa) == token_view(twin, ob));
        assert(key.text@ == twin.text@);
        if !field_asks(scope, a) {
            match scope.field_of(key.text@) {
                Some(f) => {
                    lemma_value_alike(
                        c,
                        d,
                        a.head,
                        a.values@,
                        oa,
                        b.head,
                        b.values@,
                        ob,
                        f.value_type,
                    );
                    lemma_no_models(c, x, f, a.values@, 0);
                    lemma_no_models(d, y, f, b.values@, 0);
                    assert(model_asset_diags(c, x, f, a.values@) == nothing());
                    assert(model_asset_diags(d, y, f, b.values@) == nothing());
                    assert(raw_asset_diags(c, a.values@, f.value_type) == nothing());
                    assert(raw_asset_diags(d, b.values@, f.value_type) == nothing());
                },
                None => {},
            }
        }
    }
}

/// The place of a child in two subtrees that are alike.
proof fn lemma_kids(p: &Parse, x: int, oa: u32, q: &Parse, y: int, ob: u32, k: int)
    requires
        p.wf(),
        q.wf(),
        0 <= x < p.nodes@.len(),
        0 <= y < q.nodes@.len(),
        tree_of(p, x, oa) == tree_of(q, y, ob),
    ensures
        p.nodes@[x].elements@.len() == q.nodes@[y].elements@.len(),
        p.nodes@[x].kind == q.nodes@[y].kind,
        maybe_token_view(p.nodes@[x].head, oa) == maybe_token_view(q.nodes@[y].head, ob),
        maybe_token_view(p.nodes@[x].name, oa) == maybe_token_view(q.nodes@[y].name, ob),
        maybe_token_view(p.nodes@[x].tag, oa) == maybe_token_view(q.nodes@[y].tag, ob),
        token_views(p.nodes@[x].values@, oa) == token_views(q.nodes@[y].values@, ob),
        0 <= k < p.nodes@[x].elements@.len() ==> match (
            p.nodes@[x].elements@[k],
            q.nodes@[y].elements@[k],
        ) {
            (Element::Node(a), Element::Node(b)) => {
                &&& x < a < p.nodes@.len()
                &&& y < b < q.nodes@.len()
                &&& p.nodes@[a as int].parent == Some(x as usize)
                &&& q.nodes@[b as int].parent == Some(y as usize)
                &&& tree_of(p, a as int, oa) == tree_of(q, b as int, ob)
                &&& p.nodes@[a as int].kind == q.nodes@[b as int].kind
                &&& maybe_token_view(p.nodes@[a as int].head, oa) == maybe_token_view(
                    q.nodes@[b as int].head,
                    ob,
                )
                &&& maybe_token_view(p.nodes@[a as int].name, oa) == maybe_token_view(
                    q.nodes@[b as int].name,
                    ob,
                )
                &&& maybe_token_view(p.nodes@[a as int].tag, oa) == maybe_token_view(
                    q.nodes@[b as int].tag,
                    ob,
                )
                &&& token_views(p.nodes@[a as int].values@, oa) == token_views(
                    q.nodes@[b as int].values@,
                    ob,
                )
            },
            (Element::Token(_), Element::Token(_)) => true,
            _ => false,
        },
{
    let s = tree_of(p, x, oa);
    let t = tree_of(q, y, ob);
    assert(s.kids.len() == p.nodes@[x].elements@.len());
    assert(t.kids.len() == q.nodes@[y].elements@.len());
    if 0 <= k < p.nodes@[x].elements@.len() {
        assert(s.kids[k] == t.kids[k]);
        match (p.nodes@[x].elements@[k], q.nodes@[y].elements@[k]) {
            (Element::Node(a), Element::Node(b)) => {
                assert(s.kids[k] == KidView::Node(tree_of(p, a as int, oa)));
                assert(t.kids[k] == KidView::Node(tree_of(q, b as int, ob)));
            },
            (Element::Node(a), _) => {
                assert(s.kids[k] == KidView::Node(tree_of(p, a as int, oa)));
            },
            (_, Element::Node(b)) => {
                assert(t.kids[k] == KidView::Node(tree_of(q, b as int, ob)));
            },
            _ => {},
        }
    }
}

/// Children at the same place of scopes with the same schema have the same
/// schema.
proof fn lemma_scope_alike(
    c: Ctx<'_>,
    d: Ctx<'_>,
    x: int,
    oa: u32,
    y: int,
    ob: u32,
    a: int,
    b: int,
)
    requires
        c.analyzer == d.analyzer,
        0 <= x < a < c.parse.nodes@.len(),
        0 <= y < b < d.parse.nodes@.len(),
        c.parse.nodes@[a].parent == Some(x as usize),
        d.parse.nodes@[b].parent == Some(y as usize),
        c.parse.is_scope(x),
        d.parse.is_scope(y),
        scope_of(c.analyzer, c.parse, x) == scope_of(d.analyzer, d.parse, y),
        c.parse.nodes@[a].kind == d.parse.nodes@[b].kind,
        maybe_token_view(c.parse.nodes@[a].head, oa) == maybe_token_view(
            d.parse.nodes@[b].head,
            ob,
        ),
        maybe_token_view(c.parse.nodes@[a].name, oa) == maybe_token_view(
            d.parse.nodes@[b].name,
            ob,
        ),
    ensures
        scope_of(c.analyzer, c.parse, a) == scope_of(d.analyzer, d.parse, b),
{
    let p = c.parse;
    let q = d.parse;
    if p.nodes@[a].head is Some {
        assert(token_view(p.nodes@[a].head->Some_0, oa) == token_view(
            q.nodes@[b].head->Some_0,
            ob,
        ));
        assert(p.nodes@[a].head->Some_0.text@ == q.nodes@[b].head->Some_0.text@);
    }
    if p.nodes@[a].name is Some {
        assert(token_view(p.nodes@[a].name->Some_0, oa) == token_view(
            q.nodes@[b].name->Some_0,
            ob,
        ));
        assert(p.nodes@[a].name->Some_0.text@ == q.nodes@[b].name->Some_0.text@);
    }
    assert(x < p.nodes.len() && y < q.nodes.len());
    assert(p.outer_scope(a) == Some(x));
    assert(q.outer_scope(b) == Some(y));
}

proof fn lemma_head_alike<'a>(
    c: Ctx<'a>,
    d: Ctx<'a>,
    a: int,
    oa: u32,
    b: int,
    ob: u32,
    parent: ScopeSchema<'a>,
    seen: Seq<Seq<char>>,
)
    requires
        c.analyzer == d.analyzer,
        in_override_layer(c) == in_override_layer(d),
        scope_of(c.analyzer, c.parse, a) == scope_of(d.analyzer, d.parse, b),
        maybe_token_view(c.parse.nodes@[a].head, oa) == maybe_token_view(
            d.parse.nodes@[b].head,
            ob,
        ),
        maybe_token_view(c.parse.nodes@[a].name, oa) == maybe_token_view(
            d.parse.nodes@[b].name,
            ob,
        ),
        maybe_token_view(c.parse.nodes@[a].tag, oa) == maybe_token_view(
            d.parse.nodes@[b].tag,
            ob,
        ),
    ensures
        relative(head_view(c, a, parent, seen).found, oa) == relative(
            head_view(d, b, parent, seen).found,
            ob,
        ),
        head_view(c, a, parent, seen).seen == head_view(d, b, parent, seen).seen,
        head_view(c, a, parent, seen).inner == head_view(d, b, parent, seen).inner,
{
    lemma_relative_parts();
    let m = c.parse.nodes@[a];
    let n = d.parse.nodes@[b];
    if m.head is Some {
        assert(token_view(m.head->Some_0, oa) == token_view(n.head->Some_0, ob));
        assert(m.head->Some_0.text@ == n.head->Some_0.text@);
    }
    if m.name is Some {
        assert(token_view(m.name->Some_0, oa) == token_view(n.name->Some_0, ob));
        assert(m.name->Some_0.text@ == n.name->Some_0.text@);
    }
    if m.tag is Some {
        let s = m.tag->Some_0;
        let t = n.tag->Some_0;
        assert(token_view(s, oa) == token_view(t, ob));
        assert(s.text@ == t.text@);
        assert(relative(crate::scopes::tag_diags(c, s, seen), oa) == relative(
            crate::scopes::tag_diags(d, t, seen),
            ob,
        ));
    }
}

proof fn lemma_direct_field_alike(
    p: &Parse,
    x: int,
    oa: u32,
    q: &Parse,
    y: int,
    ob: u32,
    key: Seq<char>,
    k: int,
)
    requires
        p.wf(),
        q.wf(),
        0 <= x < p.nodes@.len(),
        0 <= y < q.nodes@.len(),
        tree_of(p, x, oa) == tree_of(q, y, ob),
        0 <= k,
    ensures
        direct_field(p, x, key, k) == direct_field(q, y, key, k),
    decreases p.nodes@[x].elements@.len() - k,
{
    lemma_kids(p, x, oa, q, y, ob, k);
    if k < p.nodes@[x].elements@.len() {
        lemma_direct_field_alike(p, x, oa, q, y, ob, key, k + 1);
        match (p.nodes@[x].elements@[k], q.nodes@[y].elements@[k]) {
            (Element::Node(a), Element::Node(b)) => {
                if p.nodes@[a as int].head is Some {
                    assert(token_view(p.nodes@[a as int].head->Some_0, oa) == token_view(
                        q.nodes@[b as int].head->Some_0,
                        ob,
                    ));
                    assert(p.nodes@[a as int].head->Some_0.text@
                        == q.nodes@[b as int].head->Some_0.text@);
                }
            },
            _ => {},
        }
    }
}

proof fn lemma_sub_block_alike(
    c: Ctx<'_>,
    d: Ctx<'_>,
    x: int,
    oa: u32,
    y: int,
    ob: u32,
    inner: ScopeSchema<'_>,
)
    requires
        c.analyzer == d.analyzer,
        c.parse.wf(),
        d.parse.wf(),
        0 <= x < c.parse.nodes@.len(),
        0 <= y < d.parse.nodes@.len(),
        tree_of(c.parse, x, oa) == tree_of(d.parse, y, ob),
        !sub_block_asks(inner),
    ensures
        relative(sub_block_diags(c, x, inner), oa) == relative(sub_block_diags(d, y, inner), ob),
{
    lemma_relative_parts();
    lemma_kids(c.parse, x, oa, d.parse, y, ob, 0);
    let m = c.parse.nodes@[x];
    let n = d.parse.nodes@[y];
    if m.head is Some {
        assert(token_view(m.head->Some_0, oa) == token_view(n.head->Some_0, ob));
    }
    match inner {
        ScopeSchema::SubBlock(sb) => {
            lemma_direct_field_alike(c.parse, x, oa, d.parse, y, ob, "Conditions"@, 0);
            match sb.argument_type {
                Some(ty) => lemma_argument_alike(c, d, m.values@, oa, n.values@, ob, ty),
                None => {},
            }
        },
        _ => {},
    }
}

proof fn lemma_relative_slots_add(
    a: Seq<Option<Seq<DiagnosticView>>>,
    b: Seq<Option<Seq<DiagnosticView>>>,
    o: u32,
)
    ensures
        relative_slots(a + b, o) == relative_slots(a, o) + relative_slots(b, o),
{
    assert(relative_slots(a + b, o) =~= relative_slots(a, o) + relative_slots(b, o));
}

/// Scopes that are alike have slots that are alike.
#[verifier::spinoff_prover]
proof fn lemma_slots_alike<'a>(
    c: Ctx<'a>,
    d: Ctx<'a>,
    x: int,
    oa: u32,
    y: int,
    ob: u32,
    scope: ScopeSchema<'a>,
    k: int,
    seen: Seq<Seq<char>>,
)
    requires
        c.analyzer == d.analyzer,
        in_override_layer(c) == in_override_layer(d),
        c.parse.wf(),
        d.parse.wf(),
        0 <= x < c.parse.nodes@.len(),
        0 <= y < d.parse.nodes@.len(),
        tree_of(c.parse, x, oa) == tree_of(d.parse, y, ob),
        c.parse.is_scope(x),
        scope_of(c.analyzer, c.parse, x) == scope_of(d.analyzer, d.parse, y),
        0 <= k,
    ensures
        relative_slots(walk_slots(c, x, scope, k, seen).slots, oa) == relative_slots(
            walk_slots(d, y, scope, k, seen).slots,
            ob,
        ),
        walk_slots(c, x, scope, k, seen).seen == walk_slots(d, y, scope, k, seen).seen,
    decreases c.parse.nodes@.len() - x, c.parse.nodes@[x].elements@.len() - k,
{
    let p = c.parse;
    let q = d.parse;
    lemma_kids(p, x, oa, q, y, ob, k);
    let none = Seq::<Option<Seq<DiagnosticView>>>::empty();
    assert(relative_slots(none, oa) =~= relative_slots(none, ob));
    if k < p.nodes@[x].elements@.len() {
        let mut s = none;
        let mut t = none;
        let mut after = seen;
        match (p.nodes@[x].elements@[k], q.nodes@[y].elements@[k]) {
            (Element::Node(ca), Element::Node(cb)) => {
                let a = ca as int;
                let b = cb as int;
                match p.nodes@[a].kind {
                    SyntaxKind::Field => {
                        let m = p.nodes@[a];
                        let n = q.nodes@[b];
                        lemma_field_alike(c, d, scope, x, y, m, oa, n, ob);
                        s = seq![
                            if field_asks(scope, m) {
                                None
                            } else {
                                Some(field_diags(c, scope, x, m))
                            },
                        ];
                        t = seq![
                            if field_asks(scope, n) {
                                None
                            } else {
                                Some(field_diags(d, scope, y, n))
                            },
                        ];
                        assert(relative_slots(s, oa) =~= relative_slots(t, ob));
                    },
                    SyntaxKind::Module => {
                        lemma_scope_alike(c, d, x, oa, y, ob, a, b);
                        lemma_head_alike(c, d, a, oa, b, ob, scope, seen);
                        let head = head_view(c, a, scope, seen);
                        let twin = head_view(d, b, scope, seen);
                        let inner = head.inner;
                        if !sub_block_asks(inner) {
                            lemma_sub_block_alike(c, d, a, oa, b, ob, inner);
                        }
                        lemma_slots_alike(c, d, a, oa, b, ob, inner, 0, head.seen);
                        let first = seq![
                            Some(head.found),
                            if sub_block_asks(inner) {
                                None
                            } else {
                                Some(sub_block_diags(c, a, inner))
                            },
                        ];
                        let second = seq![
                            Some(twin.found),
                            if sub_block_asks(inner) {
                                None
                            } else {
                                Some(sub_block_diags(d, b, inner))
                            },
                        ];
                        assert(relative_slots(first, oa) =~= relative_slots(second, ob));
                        let body = walk_slots(c, a, inner, 0, head.seen);
                        let other = walk_slots(d, b, inner, 0, head.seen);
                        lemma_relative_slots_add(first, body.slots, oa);
                        lemma_relative_slots_add(second, other.slots, ob);
                        s = first + body.slots;
                        t = second + other.slots;
                        after = body.seen;
                    },
                    SyntaxKind::Block => {
                        lemma_scope_alike(c, d, x, oa, y, ob, a, b);
                        let inner = scope_of(c.analyzer, p, a);
                        lemma_slots_alike(c, d, a, oa, b, ob, inner, 0, seen);
                        s = walk_slots(c, a, inner, 0, seen).slots;
                        t = walk_slots(d, b, inner, 0, seen).slots;
                        after = walk_slots(c, a, inner, 0, seen).seen;
                    },
                    SyntaxKind::Root => {},
                }
            },
            _ => {},
        }
        assert(relative_slots(s, oa) == relative_slots(t, ob));
        lemma_slots_alike(c, d, x, oa, y, ob, scope, k + 1, after);
        let rest = walk_slots(c, x, scope, k + 1, after);
        let more = walk_slots(d, y, scope, k + 1, after);
        lemma_relative_slots_add(s, rest.slots, oa);
        lemma_relative_slots_add(t, more.slots, ob);
        assert(walk_slots(c, x, scope, k, seen).slots == s + rest.slots);
        assert(walk_slots(d, y, scope, k, seen).slots == t + more.slots);
    }
}

spec fn maybe_moved(span: Option<Span>, o: u32) -> Option<Span> {
    match span {
        Some(s) => Some(moved(s, o)),
        None => None,
    }
}

proof fn lemma_condition_in_alike(
    a: Seq<SyntaxToken>,
    oa: u32,
    b: Seq<SyntaxToken>,
    ob: u32,
    cond: Seq<char>,
    i: int,
)
    requires
        token_views(a, oa) == token_views(b, ob),
        0 <= i,
    ensures
        maybe_moved(condition_in(a, cond, i), oa) == maybe_moved(condition_in(b, cond, i), ob),
    decreases a.len() - i,
{
    lemma_token_views(a, oa, b, ob);
    if i < a.len() {
        assert(token_view(a[i], oa) == token_view(b[i], ob));
        assert(a[i].text@ == b[i].text@);
        lemma_condition_in_alike(a, oa, b, ob, cond, i + 1);
    }
}

proof fn lemma_condition_alike(
    p: &Parse,
    x: int,
    oa: u32,
    q: &Parse,
    y: int,
    ob: u32,
    cond: Seq<char>,
    k: int,
)
    requires
        p.wf(),
        q.wf(),
        0 <= x < p.nodes@.len(),
        0 <= y < q.nodes@.len(),
        tree_of(p, x, oa) == tree_of(q, y, ob),
        0 <= k,
    ensures
        maybe_moved(condition_span(p, x, cond, k), oa) == maybe_moved(
            condition_span(q, y, cond, k),
            ob,
        ),
    decreases p.nodes@[x].elements@.len() - k,
{
    lemma_kids(p, x, oa, q, y, ob, k);
    if k < p.nodes@[x].elements@.len() {
        lemma_condition_alike(p, x, oa, q, y, ob, cond, k + 1);
        match (p.nodes@[x].elements@[k], q.nodes@[y].elements@[k]) {
            (Element::Node(a), Element::Node(b)) => {
                let m = p.nodes@[a as int];
                let n = q.nodes@[b as int];
                if m.head is Some {
                    assert(token_view(m.head->Some_0, oa) == token_view(n.head->Some_0, ob));
                    assert(m.head->Some_0.text@ == n.head->Some_0.text@);
                }
                lemma_condition_in_alike(m.values@, oa, n.values@, ob, cond, 0);
            },
            _ => {},
        }
    }
}

spec fn moved_spans(spans: Seq<Span>, o: u32) -> Seq<Span> {
    spans.map_values(|s: Span| moved(s, o))
}

spec fn moved_sets(sets: Seq<(bool, Span)>, o: u32) -> Seq<(bool, Span)> {
    sets.map_values(|s: (bool, Span)| (s.0, moved(s.1, o)))
}

spec fn facts_alike(f: SetFacts, oa: u32, g: SetFacts, ob: u32) -> bool {
    &&& f.names == g.names
    &&& moved_spans(f.upgrades, oa) == moved_spans(g.upgrades, ob)
    &&& moved_sets(f.sets, oa) == moved_sets(g.sets, ob)
    &&& f.patch == g.patch
}

proof fn lemma_facts_alike(
    p: &Parse,
    x: int,
    oa: u32,
    q: &Parse,
    y: int,
    ob: u32,
    k: int,
    f: SetFacts,
    g: SetFacts,
)
    requires
        p.wf(),
        q.wf(),
        0 <= x < p.nodes@.len(),
        0 <= y < q.nodes@.len(),
        tree_of(p, x, oa) == tree_of(q, y, ob),
        0 <= k,
        facts_alike(f, oa, g, ob),
    ensures
        facts_alike(facts_from(p, x, k, f), oa, facts_from(q, y, k, g), ob),
    decreases p.nodes@[x].elements@.len() - k,
{
    lemma_kids(p, x, oa, q, y, ob, k);
    if k < p.nodes@[x].elements@.len() {
        let mut f1 = f;
        let mut g1 = g;
        match (p.nodes@[x].elements@[k], q.nodes@[y].elements@[k]) {
            (Element::Node(a), Element::Node(b)) => {
                let m = p.nodes@[a as int];
                let n = q.nodes@[b as int];
                if m.head is Some {
                    assert(token_view(m.head->Some_0, oa) == token_view(n.head->Some_0, ob));
                    assert(m.head->Some_0.text@ == n.head->Some_0.text@);
                }
                if m.name is Some {
                    assert(token_view(m.name->Some_0, oa) == token_view(n.name->Some_0, ob));
                    assert(m.name->Some_0.text@ == n.name->Some_0.text@);
                }
                lemma_condition_alike(p, a as int, oa, q, b as int, ob, "PLAYER_UPGRADE"@, 0);
                f1 = facts_step(p, a as int, f);
                g1 = facts_step(q, b as int, g);
                assert(moved_spans(f1.upgrades, oa) =~= moved_spans(g1.upgrades, ob)) by {
                    if m.name is Some {
                        assert(moved_spans(f.upgrades.push(m.name->Some_0.span), oa)
                            =~= moved_spans(f.upgrades, oa).push(
                            moved(m.name->Some_0.span, oa),
                        ));
                        assert(moved_spans(g.upgrades.push(n.name->Some_0.span), ob)
                            =~= moved_spans(g.upgrades, ob).push(
                            moved(n.name->Some_0.span, ob),
                        ));
                    }
                }
                assert(moved_sets(f1.sets, oa) =~= moved_sets(g1.sets, ob)) by {
                    if m.head is Some {
                        let weapon = m.head->Some_0.text@ == "WeaponSet"@;
                        match (
                            condition_span(p, a as int, "PLAYER_UPGRADE"@, 0),
                            condition_span(q, b as int, "PLAYER_UPGRADE"@, 0),
                        ) {
                            (Some(s), Some(t)) => {
                                assert(moved_sets(f.sets.push((weapon, s)), oa) =~= moved_sets(
                                    f.sets,
                                    oa,
                                ).push((weapon, moved(s, oa))));
                                assert(moved_sets(g.sets.push((weapon, t)), ob) =~= moved_sets(
                                    g.sets,
                                    ob,
                                ).push((weapon, moved(t, ob))));
                            },
                            _ => {},
                        }
                    }
                }
            },
            _ => {},
        }
        assert(facts_alike(f1, oa, g1, ob));
        lemma_facts_alike(p, x, oa, q, y, ob, k + 1, f1, g1);
    }
}

proof fn lemma_locomotor_alike(p: &Parse, x: int, oa: u32, q: &Parse, y: int, ob: u32, k: int)
    requires
        p.wf(),
        q.wf(),
        0 <= x < p.nodes@.len(),
        0 <= y < q.nodes@.len(),
        tree_of(p, x, oa) == tree_of(q, y, ob),
        0 <= k,
    ensures
        relative(locomotor_diags(p, x, k), oa) == relative(locomotor_diags(q, y, k), ob),
    decreases p.nodes@[x].elements@.len() - k,
{
    lemma_relative_parts();
    lemma_kids(p, x, oa, q, y, ob, k);
    if k < p.nodes@[x].elements@.len() {
        lemma_locomotor_alike(p, x, oa, q, y, ob, k + 1);
        match (p.nodes@[x].elements@[k], q.nodes@[y].elements@[k]) {
            (Element::Node(a), Element::Node(b)) => {
                let m = p.nodes@[a as int];
                let n = q.nodes@[b as int];
                if m.head is Some {
                    assert(token_view(m.head->Some_0, oa) == token_view(n.head->Some_0, ob));
                    assert(m.head->Some_0.text@ == n.head->Some_0.text@);
                }
                lemma_token_views(m.values@, oa, n.values@, ob);
                if m.values@.len() > 0 {
                    assert(token_view(m.values@[0], oa) == token_view(n.values@[0], ob));
                    assert(m.values@[0].text@ == n.values@[0].text@);
                }
            },
            _ => {},
        }
    }
}

proof fn lemma_upgrades_alike(a: Seq<Span>, oa: u32, b: Seq<Span>, ob: u32, i: int)
    requires
        moved_spans(a, oa) == moved_spans(b, ob),
        0 <= i,
    ensures
        relative(upgrade_diags(a, i), oa) == relative(upgrade_diags(b, i), ob),
    decreases a.len() - i,
{
    lemma_relative_parts();
    assert(moved_spans(a, oa).len() == a.len() && moved_spans(b, ob).len() == b.len());
    if i < a.len() {
        assert(moved_spans(a, oa)[i] == moved(a[i], oa));
        assert(moved_spans(b, ob)[i] == moved(b[i], ob));
        assert(moved(a[i], oa) == moved(b[i], ob));
        lemma_upgrades_alike(a, oa, b, ob, i + 1);
    }
}

proof fn lemma_sets_alike(
    a: Seq<(bool, Span)>,
    oa: u32,
    b: Seq<(bool, Span)>,
    ob: u32,
    names: Seq<Seq<char>>,
    i: int,
)
    requires
        moved_sets(a, oa) == moved_sets(b, ob),
        0 <= i,
    ensures
        relative(unreached_sets(a, names, i), oa) == relative(unreached_sets(b, names, i), ob),
    decreases a.len() - i,
{
    lemma_relative_parts();
    assert(moved_sets(a, oa).len() == a.len() && moved_sets(b, ob).len() == b.len());
    if i < a.len() {
        assert(moved_sets(a, oa)[i] == moved_sets(b, ob)[i]);
        assert(a[i].0 == b[i].0 && moved(a[i].1, oa) == moved(b[i].1, ob));
        lemma_sets_alike(a, oa, b, ob, names, i + 1);
    }
}

proof fn lemma_has_weapon_alike(a: Seq<(bool, Span)>, oa: u32, b: Seq<(bool, Span)>, ob: u32)
    requires
        moved_sets(a, oa) == moved_sets(b, ob),
    ensures
        crate::objects::has_weapon_set(a) ==> crate::objects::has_weapon_set(b),
{
    assert(moved_sets(a, oa).len() == a.len() && moved_sets(b, ob).len() == b.len());
    if crate::objects::has_weapon_set(a) {
        let i = choose|i: int| 0 <= i < a.len() && (#[trigger] a[i]).0;
        assert(moved_sets(a, oa)[i] == moved_sets(b, ob)[i]);
        assert(b[i].0);
    }
}

proof fn lemma_reachability_alike(p: &Parse, x: int, oa: u32, q: &Parse, y: int, ob: u32)
    requires
        p.wf(),
        q.wf(),
        0 <= x < p.nodes@.len(),
        0 <= y < q.nodes@.len(),
        tree_of(p, x, oa) == tree_of(q, y, ob),
    ensures
        relative(reachability_diags(p, x), oa) == relative(reachability_diags(q, y), ob),
{
    lemma_relative_parts();
    lemma_direct_field_alike(p, x, oa, q, y, ob, "RemoveModule"@, 0);
    let start = SetFacts {
        names: Seq::empty(),
        upgrades: Seq::empty(),
        sets: Seq::empty(),
        patch: direct_field(p, x, "RemoveModule"@, 0),
    };
    assert(moved_spans(start.upgrades, oa) =~= moved_spans(start.upgrades, ob));
    assert(moved_sets(start.sets, oa) =~= moved_sets(start.sets, ob));
    lemma_facts_alike(p, x, oa, q, y, ob, 0, start, start);
    let f = set_facts(p, x);
    let g = set_facts(q, y);
    lemma_locomotor_alike(p, x, oa, q, y, ob, 0);
    lemma_upgrades_alike(f.upgrades, oa, g.upgrades, ob, 0);
    lemma_sets_alike(f.sets, oa, g.sets, ob, f.names, 0);
    lemma_has_weapon_alike(f.sets, oa, g.sets, ob);
    lemma_has_weapon_alike(g.sets, ob, f.sets, oa);
}

/// Children of a root that differ only in where they stand have the same
/// fixed parts, each relative to its own start, whatever the index holds.
pub proof fn law_parts_move_with_the_block(
    c: Ctx<'_>,
    x: int,
    oa: u32,
    d: Ctx<'_>,
    y: int,
    ob: u32,
)
    requires
        c.analyzer == d.analyzer,
        in_override_layer(c) == in_override_layer(d),
        c.parse.wf(),
        d.parse.wf(),
        0 <= x < c.parse.nodes@.len(),
        0 <= y < d.parse.nodes@.len(),
        tree_of(c.parse, x, oa) == tree_of(d.parse, y, ob),
    ensures
        relative_parts(parts_of(c, x), oa) == relative_parts(parts_of(d, y), ob),
{
    lemma_relative_parts();
    lemma_kids(c.parse, x, oa, d.parse, y, ob, 0);
    let m = c.parse.nodes@[x];
    let n = d.parse.nodes@[y];
    if m.head is Some {
        assert(token_view(m.head->Some_0, oa) == token_view(n.head->Some_0, ob));
        assert(m.head->Some_0.text@ == n.head->Some_0.text@);
    }
    let none = Seq::<Option<Seq<DiagnosticView>>>::empty();
    assert(relative_slots(none, oa) =~= relative_slots(none, ob));
    if m.kind is Block {
        lemma_reachability_alike(c.parse, x, oa, d.parse, y, ob);
        lemma_slots_alike(
            c,
            d,
            x,
            oa,
            y,
            ob,
            scope_of(c.analyzer, c.parse, x),
            0,
            Seq::empty(),
        );
    }
}

} // verus!
