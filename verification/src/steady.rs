//! The part of a block's findings that its subtree, the schema and the layer
//! of its file fix, apart from the part that asks the index.
//!
//! Walking a block gives a list of slots. A slot holds findings that only the
//! subtree fixes, or it is a hole for findings that ask the index. Weaving the
//! latter into the holes gives the findings of the walk.

use vstd::prelude::*;

use crate::model::{scope_of, scope_schema, ScopeSchema};
use crate::objects::{
    block_diags, check_default_module_removals, check_keyword, check_redefinition,
    check_set_reachability, check_stray, default_module_diags, keyword_diags, reachability_diags,
    redefinition, root_child_diags, stray_diags,
};
use crate::schema::ValueType;
use crate::scopes::{
    check_field, check_head, check_sub_block, field_diags, find_slot, head_view, sub_block_diags,
    walk_view,
};
use crate::shift::{absolute, law_rebase_round_trip, relative, shift_down, shift_up};
use crate::syntax::{Element, SyntaxKind, SyntaxNode};
use crate::text::{eq_ci, same, same_ci, texts};
use crate::values::{diags, nothing, Ctx, Diagnostic, DiagnosticView};

verus! {

/// Whether findings about a value of this type depend on the index.
pub open spec fn asks_index(ty: ValueType) -> bool
    decreases ty,
{
    match ty {
        ValueType::Reference { .. } => true,
        ValueType::ReferenceList { .. } => true,
        ValueType::W3dModel => true,
        ValueType::W3dModelList => true,
        ValueType::W3dModelMember => true,
        ValueType::AudioFile { .. } => true,
        ValueType::AudioStemList => true,
        ValueType::TextureFile => true,
        ValueType::TextureStem => true,
        ValueType::TextureSequenceStem => true,
        ValueType::Prefixed { value_type, .. } => asks_index(*value_type),
        ValueType::TokenList { tokens } => exists|i: int|
            0 <= i < tokens@.len() && asks_index(#[trigger] tokens@[i]),
        ValueType::OneOf { variants } => exists|i: int|
            0 <= i < variants@.len() && asks_index(#[trigger] variants@[i]),
        _ => false,
    }
}

fn any_asks_index(list: &Vec<ValueType>) -> (r: bool)
    ensures
        r == exists|i: int| 0 <= i < list@.len() && asks_index(#[trigger] list@[i]),
    decreases list,
{
    let mut i: usize = 0;
    while i < list.len()
        invariant
            i <= list.len(),
            forall|k: int| 0 <= k < i ==> !asks_index(#[trigger] list@[k]),
        decreases list.len() - i,
    {
        if type_asks_index(&list[i]) {
            return true;
        }
        i += 1;
    }
    false
}

/// Decides [`asks_index`].
pub fn type_asks_index(ty: &ValueType) -> (r: bool)
    ensures
        r == asks_index(*ty),
    decreases ty,
{
    match ty {
        ValueType::Reference { .. } => true,
        ValueType::ReferenceList { .. } => true,
        ValueType::W3dModel => true,
        ValueType::W3dModelList => true,
        ValueType::W3dModelMember => true,
        ValueType::AudioFile { .. } => true,
        ValueType::AudioStemList => true,
        ValueType::TextureFile => true,
        ValueType::TextureStem => true,
        ValueType::TextureSequenceStem => true,
        ValueType::Prefixed { value_type, .. } => type_asks_index(value_type),
        ValueType::TokenList { tokens } => any_asks_index(tokens),
        ValueType::OneOf { variants } => any_asks_index(variants),
        _ => false,
    }
}

/// Whether the findings about a field depend on the index.
pub open spec fn field_asks(scope: ScopeSchema<'_>, node: SyntaxNode) -> bool {
    match node.head {
        Some(key) => match scope.field_of(key.text@) {
            Some(f) => same_ci(key.text@, "RemoveModule"@) || asks_index(f.value_type),
            None => false,
        },
        None => false,
    }
}

fn does_field_ask(scope: ScopeSchema<'_>, node: &SyntaxNode) -> (r: bool)
    ensures
        r == field_asks(scope, *node),
{
    match &node.head {
        Some(key) => match scope.field(key.text.as_str()) {
            Some(f) => eq_ci(key.text.as_str(), "RemoveModule") || type_asks_index(&f.value_type),
            None => false,
        },
        None => false,
    }
}

/// Whether the findings about a sub-block's header depend on the index.
pub open spec fn sub_block_asks(inner: ScopeSchema<'_>) -> bool {
    match inner {
        ScopeSchema::SubBlock(sb) => match sb.argument_type {
            Some(ty) => asks_index(ty),
            None => false,
        },
        _ => false,
    }
}

fn does_sub_block_ask(inner: ScopeSchema<'_>) -> (r: bool)
    ensures
        r == sub_block_asks(inner),
{
    match inner {
        ScopeSchema::SubBlock(sb) => match &sb.argument_type {
            Some(ty) => type_asks_index(ty),
            None => false,
        },
        _ => false,
    }
}

/// The slots of a walk, with the module tags seen after it.
pub struct SlotsView {
    pub slots: Seq<Option<Seq<DiagnosticView>>>,
    pub seen: Seq<Seq<char>>,
}

/// The slots of `node` from element `k` on, given the schema of `node`.
pub open spec fn walk_slots<'a>(
    ctx: Ctx<'a>,
    node: int,
    scope: ScopeSchema<'a>,
    k: int,
    seen: Seq<Seq<char>>,
) -> SlotsView
    decreases ctx.parse.nodes@.len() - node, ctx.parse.nodes@[node].elements@.len() - k,
{
    let none = SlotsView { slots: Seq::empty(), seen };
    if k < 0 || k >= ctx.parse.nodes@[node].elements@.len() {
        none
    } else {
        let here = match ctx.parse.nodes@[node].elements@[k] {
            Element::Node(c) => if node < c < ctx.parse.nodes@.len() {
                match ctx.parse.nodes@[c as int].kind {
                    SyntaxKind::Field => SlotsView {
                        slots: seq![
                            if field_asks(scope, ctx.parse.nodes@[c as int]) {
                                None
                            } else {
                                Some(field_diags(ctx, scope, node, ctx.parse.nodes@[c as int]))
                            },
                        ],
                        seen,
                    },
                    SyntaxKind::Module => {
                        let head = head_view(ctx, c as int, scope, seen);
                        let body = walk_slots(ctx, c as int, head.inner, 0, head.seen);
                        SlotsView {
                            slots: seq![
                                Some(head.found),
                                if sub_block_asks(head.inner) {
                                    None
                                } else {
                                    Some(sub_block_diags(ctx, c as int, head.inner))
                                },
                            ] + body.slots,
                            seen: body.seen,
                        }
                    },
                    SyntaxKind::Block => walk_slots(
                        ctx,
                        c as int,
                        scope_of(ctx.analyzer, ctx.parse, c as int),
                        0,
                        seen,
                    ),
                    SyntaxKind::Root => none,
                }
            } else {
                none
            },
            Element::Token(_) => none,
        };
        let rest = walk_slots(ctx, node, scope, k + 1, here.seen);
        SlotsView { slots: here.slots + rest.slots, seen: rest.seen }
    }
}

/// The schema inside a module or sub-block.
pub open spec fn inner_scope<'a>(ctx: Ctx<'a>, node: int, parent: ScopeSchema<'a>) -> ScopeSchema<
    'a,
> {
    head_view(ctx, node, parent, Seq::empty()).inner
}

/// What goes into the holes of a walk: the findings that ask the index, from
/// element `k` of `node` on.
pub open spec fn walk_stops<'a>(ctx: Ctx<'a>, node: int, scope: ScopeSchema<'a>, k: int) -> Seq<
    Seq<DiagnosticView>,
>
    decreases ctx.parse.nodes@.len() - node, ctx.parse.nodes@[node].elements@.len() - k,
{
    if k < 0 || k >= ctx.parse.nodes@[node].elements@.len() {
        Seq::empty()
    } else {
        let here = match ctx.parse.nodes@[node].elements@[k] {
            Element::Node(c) => if node < c < ctx.parse.nodes@.len() {
                match ctx.parse.nodes@[c as int].kind {
                    SyntaxKind::Field => if field_asks(scope, ctx.parse.nodes@[c as int]) {
                        seq![field_diags(ctx, scope, node, ctx.parse.nodes@[c as int])]
                    } else {
                        Seq::empty()
                    },
                    SyntaxKind::Module => {
                        let inner = inner_scope(ctx, c as int, scope);
                        (if sub_block_asks(inner) {
                            seq![sub_block_diags(ctx, c as int, inner)]
                        } else {
                            Seq::empty()
                        }) + walk_stops(ctx, c as int, inner, 0)
                    },
                    SyntaxKind::Block => walk_stops(
                        ctx,
                        c as int,
                        scope_of(ctx.analyzer, ctx.parse, c as int),
                        0,
                    ),
                    SyntaxKind::Root => Seq::empty(),
                }
            } else {
                Seq::empty()
            },
            Element::Token(_) => Seq::empty(),
        };
        here + walk_stops(ctx, node, scope, k + 1)
    }
}

/// The findings of a list of slots, with the holes filled in order.
pub open spec fn woven(
    slots: Seq<Option<Seq<DiagnosticView>>>,
    stops: Seq<Seq<DiagnosticView>>,
) -> Seq<DiagnosticView>
    decreases slots.len(),
{
    if slots.len() == 0 {
        nothing()
    } else {
        match slots[0] {
            Some(found) => found + woven(slots.skip(1), stops),
            None => if stops.len() > 0 {
                stops[0] + woven(slots.skip(1), stops.skip(1))
            } else {
                woven(slots.skip(1), stops)
            },
        }
    }
}

/// How many holes a list of slots has.
pub open spec fn holes(slots: Seq<Option<Seq<DiagnosticView>>>) -> nat
    decreases slots.len(),
{
    if slots.len() == 0 {
        0
    } else {
        holes(slots.skip(1)) + if slots[0] is None {
            1nat
        } else {
            0nat
        }
    }
}

proof fn lemma_woven_add(
    a: Seq<Option<Seq<DiagnosticView>>>,
    b: Seq<Option<Seq<DiagnosticView>>>,
    s: Seq<Seq<DiagnosticView>>,
    t: Seq<Seq<DiagnosticView>>,
)
    requires
        holes(a) == s.len(),
    ensures
        woven(a + b, s + t) == woven(a, s) + woven(b, t),
        holes(a + b) == holes(a) + holes(b),
    decreases a.len(),
{
    if a.len() == 0 {
        assert(a + b =~= b);
        assert(s + t =~= t);
        assert(woven(a + b, s + t) =~= woven(a, s) + woven(b, t));
    } else {
        assert((a + b).skip(1) =~= a.skip(1) + b);
        assert((a + b)[0] == a[0]);
        if a[0] is Some {
            lemma_woven_add(a.skip(1), b, s, t);
        } else {
            assert((s + t).skip(1) =~= s.skip(1) + t);
            assert((s + t)[0] == s[0]);
            lemma_woven_add(a.skip(1), b, s.skip(1), t);
        }
        assert(woven(a + b, s + t) =~= woven(a, s) + woven(b, t));
    }
}

proof fn lemma_one_slot(slot: Option<Seq<DiagnosticView>>, found: Seq<DiagnosticView>)
    requires
        slot matches Some(f) ==> f == found,
    ensures
        ({
            let stops = if slot is None {
                seq![found]
            } else {
                Seq::empty()
            };
            woven(seq![slot], stops) == found && holes(seq![slot]) == stops.len()
        }),
{
    let slots = seq![slot];
    assert(slots.skip(1).len() == 0);
    let stops = if slot is None {
        seq![found]
    } else {
        Seq::empty()
    };
    assert(woven(slots.skip(1), stops) == nothing());
    assert(woven(slots.skip(1), stops.skip(1)) == nothing());
    assert(woven(slots, stops) =~= found);
    assert(holes(slots.skip(1)) == 0);
}

/// The slots of a walk, woven with what goes into their holes, give the
/// findings of the walk.
pub proof fn law_slots_and_stops_give_the_walk<'a>(
    ctx: Ctx<'a>,
    node: int,
    scope: ScopeSchema<'a>,
    k: int,
    seen: Seq<Seq<char>>,
)
    ensures
        woven(walk_slots(ctx, node, scope, k, seen).slots, walk_stops(ctx, node, scope, k))
            == walk_view(ctx, node, scope, k, seen).found,
        walk_slots(ctx, node, scope, k, seen).seen == walk_view(ctx, node, scope, k, seen).seen,
        holes(walk_slots(ctx, node, scope, k, seen).slots) == walk_stops(
            ctx,
            node,
            scope,
            k,
        ).len(),
    decreases ctx.parse.nodes@.len() - node, ctx.parse.nodes@[node].elements@.len() - k,
{
    let no_slots = Seq::<Option<Seq<DiagnosticView>>>::empty();
    let no_stops = Seq::<Seq<DiagnosticView>>::empty();
    assert(woven(no_slots, no_stops) == nothing() && holes(no_slots) == 0);
    if 0 <= k < ctx.parse.nodes@[node].elements@.len() {
        let mut slots = no_slots;
        let mut stops = no_stops;
        let mut found = nothing();
        let mut after = seen;
        match ctx.parse.nodes@[node].elements@[k] {
            Element::Node(c) => if node < c < ctx.parse.nodes@.len() {
                match ctx.parse.nodes@[c as int].kind {
                    SyntaxKind::Field => {
                        found = field_diags(ctx, scope, node, ctx.parse.nodes@[c as int]);
                        let slot = if field_asks(scope, ctx.parse.nodes@[c as int]) {
                            None
                        } else {
                            Some(found)
                        };
                        lemma_one_slot(slot, found);
                        slots = seq![slot];
                        stops = if slot is None {
                            seq![found]
                        } else {
                            no_stops
                        };
                    },
                    SyntaxKind::Module => {
                        let head = head_view(ctx, c as int, scope, seen);
                        let inner = head.inner;
                        assert(inner == inner_scope(ctx, c as int, scope));
                        let sub = sub_block_diags(ctx, c as int, inner);
                        let body = walk_slots(ctx, c as int, inner, 0, head.seen);
                        let inside = walk_stops(ctx, c as int, inner, 0);
                        law_slots_and_stops_give_the_walk(ctx, c as int, inner, 0, head.seen);
                        let first = Some(head.found);
                        let second = if sub_block_asks(inner) {
                            None
                        } else {
                            Some(sub)
                        };
                        let asked = if second is None {
                            seq![sub]
                        } else {
                            no_stops
                        };
                        lemma_one_slot(first, head.found);
                        lemma_one_slot(second, sub);
                        lemma_woven_add(seq![first], seq![second], no_stops, asked);
                        assert(no_stops + asked =~= asked);
                        assert(seq![first] + seq![second] =~= seq![first, second]);
                        lemma_woven_add(seq![first, second], body.slots, asked, inside);
                        slots = seq![first, second] + body.slots;
                        stops = asked + inside;
                        found =
                        head.found + sub + walk_view(ctx, c as int, inner, 0, head.seen).found;
                        after = body.seen;
                    },
                    SyntaxKind::Block => {
                        let inner = scope_of(ctx.analyzer, ctx.parse, c as int);
                        law_slots_and_stops_give_the_walk(ctx, c as int, inner, 0, seen);
                        slots = walk_slots(ctx, c as int, inner, 0, seen).slots;
                        stops = walk_stops(ctx, c as int, inner, 0);
                        found = walk_view(ctx, c as int, inner, 0, seen).found;
                        after = walk_slots(ctx, c as int, inner, 0, seen).seen;
                    },
                    SyntaxKind::Root => {},
                }
            },
            Element::Token(_) => {},
        }
        assert(woven(slots, stops) == found && holes(slots) == stops.len());
        law_slots_and_stops_give_the_walk(ctx, node, scope, k + 1, after);
        let rest = walk_slots(ctx, node, scope, k + 1, after);
        let more = walk_stops(ctx, node, scope, k + 1);
        lemma_woven_add(slots, rest.slots, stops, more);
        assert(walk_slots(ctx, node, scope, k, seen).slots == slots + rest.slots);
        assert(walk_stops(ctx, node, scope, k) == stops + more);
    }
}

/// The models of a list of slots.
pub open spec fn slot_views(slots: Seq<Option<Vec<Diagnostic>>>) -> Seq<
    Option<Seq<DiagnosticView>>,
> {
    slots.map_values(
        |slot: Option<Vec<Diagnostic>>|
            match slot {
                Some(found) => Some(diags(found@)),
                None => None,
            },
    )
}

/// The models of a list of lists of diagnostics.
pub open spec fn stop_views(stops: Seq<Vec<Diagnostic>>) -> Seq<Seq<DiagnosticView>> {
    stops.map_values(|found: Vec<Diagnostic>| diags(found@))
}

fn push_slot(out: &mut Vec<Option<Vec<Diagnostic>>>, slot: Option<Vec<Diagnostic>>)
    ensures
        slot_views(final(out)@) == slot_views(old(out)@) + slot_views(seq![slot]),
{
    let ghost before = out@;
    out.push(slot);
    assert(slot_views(out@) =~= slot_views(before) + slot_views(seq![slot]));
}

/// Fills the slots of a block.
pub fn steady_walk<'a>(
    ctx: Ctx<'a>,
    node: usize,
    scope: ScopeSchema<'a>,
    seen: &mut Vec<String>,
    out: &mut Vec<Option<Vec<Diagnostic>>>,
)
    requires
        ctx.parse.wf(),
        node < ctx.parse.nodes.len(),
    ensures
        texts(final(seen)@) == walk_slots(ctx, node as int, scope, 0, texts(old(seen)@)).seen,
        slot_views(final(out)@) == slot_views(old(out)@) + walk_slots(
            ctx,
            node as int,
            scope,
            0,
            texts(old(seen)@),
        ).slots,
    decreases ctx.parse.nodes.len() - node,
{
    let ghost start = slot_views(out@);
    let ghost whole = walk_slots(ctx, node as int, scope, 0, texts(seen@));
    let mut k: usize = 0;
    while k < ctx.parse.nodes[node].elements.len()
        invariant
            ctx.parse.wf(),
            node < ctx.parse.nodes.len(),
            k <= ctx.parse.nodes@[node as int].elements.len(),
            walk_slots(ctx, node as int, scope, k as int, texts(seen@)).seen == whole.seen,
            slot_views(out@) + walk_slots(ctx, node as int, scope, k as int, texts(seen@)).slots
                == start + whole.slots,
        decreases ctx.parse.nodes@[node as int].elements.len() - k,
    {
        let ghost d0 = slot_views(out@);
        let ghost s0 = texts(seen@);
        if let Element::Node(c) = &ctx.parse.nodes[node].elements[k] {
            let c: usize = *c;
            match ctx.parse.nodes[c].kind {
                SyntaxKind::Field => {
                    let slot = if does_field_ask(scope, &ctx.parse.nodes[c]) {
                        None
                    } else {
                        let mut found: Vec<Diagnostic> = Vec::new();
                        assert(diags(found@) =~= nothing());
                        check_field(ctx, scope, node, &ctx.parse.nodes[c], &mut found);
                        assert(diags(found@) =~= field_diags(
                            ctx,
                            scope,
                            node as int,
                            ctx.parse.nodes@[c as int],
                        ));
                        Some(found)
                    };
                    push_slot(out, slot);
                },
                SyntaxKind::Module => {
                    let mut found: Vec<Diagnostic> = Vec::new();
                    assert(diags(found@) =~= nothing());
                    let inner = check_head(ctx, c, scope, seen, &mut found);
                    assert(diags(found@) =~= head_view(ctx, c as int, scope, s0).found);
                    push_slot(out, Some(found));
                    let slot = if does_sub_block_ask(inner) {
                        None
                    } else {
                        let mut found: Vec<Diagnostic> = Vec::new();
                        assert(diags(found@) =~= nothing());
                        check_sub_block(ctx, c, inner, &mut found);
                        assert(diags(found@) =~= sub_block_diags(ctx, c as int, inner));
                        Some(found)
                    };
                    push_slot(out, slot);
                    steady_walk(ctx, c, inner, seen, out);
                },
                SyntaxKind::Block => {
                    let inner = scope_schema(ctx.analyzer, ctx.parse, c);
                    steady_walk(ctx, c, inner, seen, out);
                },
                SyntaxKind::Root => {},
            }
        }
        assert(slot_views(out@) + walk_slots(ctx, node as int, scope, k + 1, texts(seen@)).slots
            =~= d0 + walk_slots(ctx, node as int, scope, k as int, s0).slots);
        k += 1;
    }
}

fn scope_inside<'a>(ctx: Ctx<'a>, node: usize, parent: ScopeSchema<'a>) -> (r: ScopeSchema<'a>)
    requires
        ctx.parse.wf(),
        node < ctx.parse.nodes.len(),
    ensures
        r == inner_scope(ctx, node as int, parent),
{
    if let Some(slot) = &ctx.parse.nodes[node].head {
        let slots = parent.module_slots();
        let k: usize = find_slot(slots, slot.text.as_str());
        if k < slots.len() {
            match &ctx.parse.nodes[node].name {
                None => {
                    return ScopeSchema::Unknown;
                },
                Some(name) => {
                    if ctx.analyzer.module(name.text.as_str()).is_none() {
                        return ScopeSchema::Unknown;
                    }
                },
            }
        }
    }
    scope_schema(ctx.analyzer, ctx.parse, node)
}

fn push_stop(out: &mut Vec<Vec<Diagnostic>>, stop: Vec<Diagnostic>)
    ensures
        stop_views(final(out)@) == stop_views(old(out)@) + seq![diags(stop@)],
{
    let ghost before = out@;
    out.push(stop);
    assert(stop_views(out@) =~= stop_views(before) + seq![diags(stop@)]);
}

/// Collects what goes into the holes of a block.
pub fn stop_walk<'a>(
    ctx: Ctx<'a>,
    node: usize,
    scope: ScopeSchema<'a>,
    out: &mut Vec<Vec<Diagnostic>>,
)
    requires
        ctx.parse.wf(),
        node < ctx.parse.nodes.len(),
    ensures
        stop_views(final(out)@) == stop_views(old(out)@) + walk_stops(ctx, node as int, scope, 0),
    decreases ctx.parse.nodes.len() - node,
{
    let ghost start = stop_views(out@);
    let ghost whole = walk_stops(ctx, node as int, scope, 0);
    let mut k: usize = 0;
    while k < ctx.parse.nodes[node].elements.len()
        invariant
            ctx.parse.wf(),
            node < ctx.parse.nodes.len(),
            k <= ctx.parse.nodes@[node as int].elements.len(),
            stop_views(out@) + walk_stops(ctx, node as int, scope, k as int) == start + whole,
        decreases ctx.parse.nodes@[node as int].elements.len() - k,
    {
        let ghost d0 = stop_views(out@);
        if let Element::Node(c) = &ctx.parse.nodes[node].elements[k] {
            let c: usize = *c;
            match ctx.parse.nodes[c].kind {
                SyntaxKind::Field => {
                    if does_field_ask(scope, &ctx.parse.nodes[c]) {
                        let mut found: Vec<Diagnostic> = Vec::new();
                        assert(diags(found@) =~= nothing());
                        check_field(ctx, scope, node, &ctx.parse.nodes[c], &mut found);
                        assert(diags(found@) =~= field_diags(
                            ctx,
                            scope,
                            node as int,
                            ctx.parse.nodes@[c as int],
                        ));
                        push_stop(out, found);
                    }
                },
                SyntaxKind::Module => {
                    let inner = scope_inside(ctx, c, scope);
                    if does_sub_block_ask(inner) {
                        let mut found: Vec<Diagnostic> = Vec::new();
                        assert(diags(found@) =~= nothing());
                        check_sub_block(ctx, c, inner, &mut found);
                        assert(diags(found@) =~= sub_block_diags(ctx, c as int, inner));
                        push_stop(out, found);
                    }
                    stop_walk(ctx, c, inner, out);
                },
                SyntaxKind::Block => {
                    let inner = scope_schema(ctx.analyzer, ctx.parse, c);
                    stop_walk(ctx, c, inner, out);
                },
                SyntaxKind::Root => {},
            }
        }
        assert(stop_views(out@) + walk_stops(ctx, node as int, scope, k + 1) =~= d0 + walk_stops(
            ctx,
            node as int,
            scope,
            k as int,
        ));
        k += 1;
    }
}

/// What only the subtree of a child of the root fixes: the finding about its
/// opening word, the sets of an object that nothing reaches, and the slots of
/// its walk.
#[verifier::ext_equal]
pub struct PartsView {
    pub opening: Seq<DiagnosticView>,
    pub unreached: Seq<DiagnosticView>,
    pub slots: Seq<Option<Seq<DiagnosticView>>>,
}

/// What the subtree of a child of the root fixes.
pub open spec fn parts_of(ctx: Ctx<'_>, node: int) -> PartsView {
    let n = ctx.parse.nodes@[node];
    match n.kind {
        SyntaxKind::Block => PartsView {
            opening: keyword_diags(ctx, node),
            unreached: if n.head matches Some(keyword) && keyword.text@ == "Object"@ {
                reachability_diags(ctx.parse, node)
            } else {
                nothing()
            },
            slots: walk_slots(
                ctx,
                node,
                scope_of(ctx.analyzer, ctx.parse, node),
                0,
                Seq::empty(),
            ).slots,
        },
        SyntaxKind::Field => PartsView {
            opening: stray_diags(ctx, node),
            unreached: nothing(),
            slots: Seq::empty(),
        },
        _ => PartsView { opening: nothing(), unreached: nothing(), slots: Seq::empty() },
    }
}

/// The findings of a child of the root, made of fixed parts and of what the
/// index and the position add to them now.
pub open spec fn assembled(ctx: Ctx<'_>, node: int, parts: PartsView) -> Seq<DiagnosticView> {
    let n = ctx.parse.nodes@[node];
    match n.kind {
        SyntaxKind::Block => parts.opening + (match n.head {
            None => nothing(),
            Some(keyword) => redefinition(ctx, n).found + (if same_ci(keyword.text@, "Object"@) {
                default_module_diags(ctx, node)
            } else {
                nothing()
            }) + (if keyword.text@ == "Object"@ && !redefinition(ctx, n).overrides {
                parts.unreached
            } else {
                nothing()
            }),
        }) + woven(
            parts.slots,
            walk_stops(ctx, node, scope_of(ctx.analyzer, ctx.parse, node), 0),
        ),
        SyntaxKind::Field => parts.opening,
        _ => nothing(),
    }
}

/// A child's own parts, put together, give its findings.
pub proof fn law_parts_give_the_findings(ctx: Ctx<'_>, node: int)
    ensures
        assembled(ctx, node, parts_of(ctx, node)) == root_child_diags(ctx, node),
{
    if ctx.parse.nodes@[node].kind is Block {
        law_slots_and_stops_give_the_walk(
            ctx,
            node,
            scope_of(ctx.analyzer, ctx.parse, node),
            0,
            Seq::empty(),
        );
        assert(assembled(ctx, node, parts_of(ctx, node)) =~= block_diags(ctx, node));
    }
}

/// Slots relative to an offset.
pub open spec fn relative_slots(slots: Seq<Option<Seq<DiagnosticView>>>, offset: u32) -> Seq<
    Option<Seq<DiagnosticView>>,
> {
    slots.map_values(
        |slot: Option<Seq<DiagnosticView>>|
            match slot {
                Some(found) => Some(relative(found, offset)),
                None => None,
            },
    )
}

/// Relative slots at an offset.
pub open spec fn absolute_slots(slots: Seq<Option<Seq<DiagnosticView>>>, offset: u32) -> Seq<
    Option<Seq<DiagnosticView>>,
> {
    slots.map_values(
        |slot: Option<Seq<DiagnosticView>>|
            match slot {
                Some(found) => Some(absolute(found, offset)),
                None => None,
            },
    )
}

/// Parts relative to an offset.
pub open spec fn relative_parts(parts: PartsView, offset: u32) -> PartsView {
    PartsView {
        opening: relative(parts.opening, offset),
        unreached: relative(parts.unreached, offset),
        slots: relative_slots(parts.slots, offset),
    }
}

/// Relative parts at an offset.
pub open spec fn absolute_parts(parts: PartsView, offset: u32) -> PartsView {
    PartsView {
        opening: absolute(parts.opening, offset),
        unreached: absolute(parts.unreached, offset),
        slots: absolute_slots(parts.slots, offset),
    }
}

/// Moving parts down by an offset and up again changes nothing.
pub proof fn law_parts_round_trip(parts: PartsView, offset: u32)
    ensures
        absolute_parts(relative_parts(parts, offset), offset) == parts,
{
    law_rebase_round_trip(parts.opening, offset);
    law_rebase_round_trip(parts.unreached, offset);
    let back = absolute_slots(relative_slots(parts.slots, offset), offset);
    assert forall|i: int| 0 <= i < parts.slots.len() implies #[trigger] back[i]
        == parts.slots[i] by {
        match parts.slots[i] {
            Some(found) => law_rebase_round_trip(found, offset),
            None => {},
        }
    }
    assert(back =~= parts.slots);
}

/// What only the subtree of a child of the root fixes.
pub struct Parts {
    pub opening: Vec<Diagnostic>,
    pub unreached: Vec<Diagnostic>,
    pub slots: Vec<Option<Vec<Diagnostic>>>,
}

impl View for Parts {
    type V = PartsView;

    open spec fn view(&self) -> PartsView {
        PartsView {
            opening: diags(self.opening@),
            unreached: diags(self.unreached@),
            slots: slot_views(self.slots@),
        }
    }
}

/// Computes [`parts_of`].
pub fn steady_parts(ctx: Ctx<'_>, node: usize) -> (r: Parts)
    requires
        ctx.parse.wf(),
        node < ctx.parse.nodes.len(),
    ensures
        r@ == parts_of(ctx, node as int),
{
    let n = &ctx.parse.nodes[node];
    let mut opening: Vec<Diagnostic> = Vec::new();
    let mut unreached: Vec<Diagnostic> = Vec::new();
    let mut slots: Vec<Option<Vec<Diagnostic>>> = Vec::new();
    assert(diags(opening@) =~= nothing());
    assert(diags(unreached@) =~= nothing());
    assert(slot_views(slots@) =~= Seq::empty());
    match n.kind {
        SyntaxKind::Block => {
            check_keyword(ctx, node, &mut opening);
            let object = match &n.head {
                Some(keyword) => same(keyword.text.as_str(), "Object"),
                None => false,
            };
            if object {
                check_set_reachability(ctx.parse, node, &mut unreached);
            }
            let scope = scope_schema(ctx.analyzer, ctx.parse, node);
            let mut seen: Vec<String> = Vec::new();
            assert(texts(seen@) =~= Seq::<Seq<char>>::empty());
            steady_walk(ctx, node, scope, &mut seen, &mut slots);
        },
        SyntaxKind::Field => check_stray(ctx, node, &mut opening),
        _ => {},
    }
    let r = Parts { opening, unreached, slots };
    assert(r@ =~= parts_of(ctx, node as int));
    r
}

fn weave(slots: &Vec<Option<Vec<Diagnostic>>>, stops: Vec<Vec<Diagnostic>>, out: &mut Vec<
    Diagnostic,
>)
    ensures
        diags(final(out)@) == diags(old(out)@) + woven(slot_views(slots@), stop_views(stops@)),
{
    let ghost start = diags(out@);
    let ghost all = slot_views(slots@);
    let ghost full = stop_views(stops@);
    let mut i: usize = 0;
    let mut j: usize = 0;
    assert(all.skip(0) =~= all);
    assert(full.skip(0) =~= full);
    while i < slots.len()
        invariant
            i <= slots.len(),
            j <= stops.len(),
            all == slot_views(slots@),
            full == stop_views(stops@),
            diags(out@) + woven(all.skip(i as int), full.skip(j as int)) == start + woven(
                all,
                full,
            ),
        decreases slots.len() - i,
    {
        let ghost d0 = diags(out@);
        assert(all.skip(i as int).skip(1) =~= all.skip(i + 1));
        assert(all.skip(i as int)[0] == all[i as int]);
        match &slots[i] {
            Some(found) => {
                let mut here = copy_diags(found);
                let ghost more = diags(here@);
                out.append(&mut here);
                assert(diags(out@) =~= d0 + more);
                assert(diags(out@) + woven(all.skip(i + 1), full.skip(j as int)) =~= d0 + woven(
                    all.skip(i as int),
                    full.skip(j as int),
                ));
            },
            None => {
                if j < stops.len() {
                    assert(full.skip(j as int).skip(1) =~= full.skip(j + 1));
                    assert(full.skip(j as int)[0] == full[j as int]);
                    let mut here = copy_diags(&stops[j]);
                    let ghost more = diags(here@);
                    out.append(&mut here);
                    assert(diags(out@) =~= d0 + more);
                    assert(diags(out@) + woven(all.skip(i + 1), full.skip(j + 1)) =~= d0 + woven(
                        all.skip(i as int),
                        full.skip(j as int),
                    ));
                    j += 1;
                } else {
                    assert(full.skip(j as int).len() == 0);
                }
            },
        }
        i += 1;
    }
    assert(all.skip(i as int).len() == 0);
    assert(diags(out@) =~= start + woven(all, full));
}

/// Computes [`assembled`].
pub fn assemble(ctx: Ctx<'_>, node: usize, parts: &Parts, out: &mut Vec<Diagnostic>)
    requires
        ctx.parse.wf(),
        node < ctx.parse.nodes.len(),
    ensures
        diags(final(out)@) == diags(old(out)@) + assembled(ctx, node as int, parts@),
{
    let ghost d0 = diags(out@);
    let n = &ctx.parse.nodes[node];
    match n.kind {
        SyntaxKind::Block => {
            append_copy(out, &parts.opening);
            let ghost d1 = diags(out@);
            let ghost mut now = nothing();
            if let Some(keyword) = &n.head {
                let text = keyword.text.as_str();
                let overrides = check_redefinition(ctx, n, out);
                if eq_ci(text, "Object") {
                    check_default_module_removals(ctx, node, out);
                }
                if same(text, "Object") && !overrides {
                    append_copy(out, &parts.unreached);
                }
                proof {
                    now = redefinition(ctx, *n).found + (if same_ci(keyword.text@, "Object"@) {
                        default_module_diags(ctx, node as int)
                    } else {
                        nothing()
                    }) + (if keyword.text@ == "Object"@ && !redefinition(ctx, *n).overrides {
                        parts@.unreached
                    } else {
                        nothing()
                    });
                }
            }
            assert(diags(out@) =~= d1 + now);
            let scope = scope_schema(ctx.analyzer, ctx.parse, node);
            let mut stops: Vec<Vec<Diagnostic>> = Vec::new();
            assert(stop_views(stops@) =~= Seq::empty());
            stop_walk(ctx, node, scope, &mut stops);
            assert(stop_views(stops@) =~= walk_stops(ctx, node as int, scope, 0));
            weave(&parts.slots, stops, out);
        },
        SyntaxKind::Field => append_copy(out, &parts.opening),
        _ => {},
    }
    assert(diags(out@) =~= d0 + assembled(ctx, node as int, parts@));
}

fn copy_diags(list: &Vec<Diagnostic>) -> (r: Vec<Diagnostic>)
    ensures
        diags(r@) == diags(list@),
{
    let mut out: Vec<Diagnostic> = Vec::new();
    let mut i: usize = 0;
    while i < list.len()
        invariant
            i <= list.len(),
            out.len() == i,
            forall|k: int| 0 <= k < i ==> (#[trigger] out@[k])@ == list@[k]@,
        decreases list.len() - i,
    {
        out.push(list[i].copy());
        i += 1;
    }
    assert(diags(out@) =~= diags(list@));
    out
}

fn append_copy(out: &mut Vec<Diagnostic>, list: &Vec<Diagnostic>)
    ensures
        diags(final(out)@) == diags(old(out)@) + diags(list@),
{
    let ghost d0 = diags(out@);
    let mut here = copy_diags(list);
    out.append(&mut here);
    assert(diags(out@) =~= d0 + diags(list@));
}

fn shift_slots(slots: &Vec<Option<Vec<Diagnostic>>>, offset: u32, up: bool) -> (r: Vec<
    Option<Vec<Diagnostic>>,
>)
    ensures
        slot_views(r@) == if up {
            absolute_slots(slot_views(slots@), offset)
        } else {
            relative_slots(slot_views(slots@), offset)
        },
{
    let ghost goal = if up {
        absolute_slots(slot_views(slots@), offset)
    } else {
        relative_slots(slot_views(slots@), offset)
    };
    let mut out: Vec<Option<Vec<Diagnostic>>> = Vec::new();
    let mut i: usize = 0;
    while i < slots.len()
        invariant
            i <= slots.len(),
            out.len() == i,
            goal == (if up {
                absolute_slots(slot_views(slots@), offset)
            } else {
                relative_slots(slot_views(slots@), offset)
            }),
            slot_views(out@) == goal.take(i as int),
        decreases slots.len() - i,
    {
        let ghost before = slot_views(out@);
        let slot = match &slots[i] {
            Some(found) => if up {
                Some(shift_up(found, offset))
            } else {
                Some(shift_down(found, offset))
            },
            None => None,
        };
        assert(slot_views(slots@)[i as int] == match slots@[i as int] {
            Some(found) => Some(diags(found@)),
            None => None,
        });
        assert(slot_views(seq![slot])[0] == goal[i as int]);
        push_slot(&mut out, slot);
        assert(slot_views(out@) =~= goal.take(i + 1));
        i += 1;
    }
    assert(slot_views(out@) =~= goal);
    out
}

fn copy_slots(slots: &Vec<Option<Vec<Diagnostic>>>) -> (r: Vec<Option<Vec<Diagnostic>>>)
    ensures
        slot_views(r@) == slot_views(slots@),
{
    let mut out: Vec<Option<Vec<Diagnostic>>> = Vec::new();
    let mut i: usize = 0;
    while i < slots.len()
        invariant
            i <= slots.len(),
            out.len() == i,
            slot_views(out@) == slot_views(slots@).take(i as int),
        decreases slots.len() - i,
    {
        let slot = match &slots[i] {
            Some(found) => Some(copy_diags(found)),
            None => None,
        };
        assert(slot_views(seq![slot])[0] == slot_views(slots@)[i as int]);
        push_slot(&mut out, slot);
        assert(slot_views(out@) =~= slot_views(slots@).take(i + 1));
        i += 1;
    }
    assert(slot_views(out@) =~= slot_views(slots@));
    out
}

/// Copies parts.
pub fn copy_parts(parts: &Parts) -> (r: Parts)
    ensures
        r@ == parts@,
{
    Parts {
        opening: copy_diags(&parts.opening),
        unreached: copy_diags(&parts.unreached),
        slots: copy_slots(&parts.slots),
    }
}

/// Moves parts down by an offset.
pub fn lower_parts(parts: &Parts, offset: u32) -> (r: Parts)
    ensures
        r@ == relative_parts(parts@, offset),
{
    Parts {
        opening: shift_down(&parts.opening, offset),
        unreached: shift_down(&parts.unreached, offset),
        slots: shift_slots(&parts.slots, offset, false),
    }
}

/// Moves parts up by an offset.
pub fn raise_parts(parts: &Parts, offset: u32) -> (r: Parts)
    ensures
        r@ == absolute_parts(parts@, offset),
{
    Parts {
        opening: shift_up(&parts.opening, offset),
        unreached: shift_up(&parts.unreached, offset),
        slots: shift_slots(&parts.slots, offset, true),
    }
}

} // verus!
