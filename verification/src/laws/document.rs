//! Which findings a document has.

use vstd::prelude::*;

use crate::diagnostics::{children_diags, document_diags, kept, raw_diags, suppressions_from, syntax_diags};
use crate::laws::definitions::lemma_child;
use crate::laws::lists::{lemma_behind, lemma_front};
use crate::laws::schema::{law_module_types_are_found, last_module};
use crate::laws::values::tells;
use crate::maplayer::map_layer_diags;
use crate::model::{fits, scope_of, ScopeSchema};
use crate::objects::{block_head_diags, keyword_diags, root_child_diags, stray_diags};
use crate::reader::reads;
use crate::schema::{Field, ModuleSlot};
use crate::scopes::{
    field_diags, head_view, module_head, seen_after, slot_at, sub_block_diags, walk_view,
};
use crate::syntax::{Element, Parse, Span, SyntaxKind, SyntaxToken};
use crate::text::texts;
use crate::values::{value_diags, Ctx, DiagnosticView, Severity};

verus! {

/// A code that the document turns off.
pub open spec fn silenced(ctx: Ctx<'_>, code: Seq<char>) -> bool {
    suppressions_from(ctx.parse, 0).codes.contains(code)
}

/// A finding of that severity and code at that range.
pub open spec fn is_at(
    d: DiagnosticView,
    severity: Severity,
    code: Seq<char>,
    span: Span,
) -> bool {
    d.severity == severity && d.code == code && d.span == span
}

/// The document has a finding of that severity and code at that range, unless it
/// turns the code off.
pub open spec fn told(ctx: Ctx<'_>, severity: Severity, code: Seq<char>, span: Span) -> bool {
    silenced(ctx, code) || exists|d: DiagnosticView| #[trigger]
        document_diags(ctx).contains(d) && is_at(d, severity, code, span)
}

/// Of a list of findings exactly those stay whose code is not turned off.
pub proof fn law_silenced_codes_are_left_out(
    list: Seq<DiagnosticView>,
    codes: Seq<Seq<char>>,
    d: DiagnosticView,
)
    ensures
        kept(list, codes).contains(d) <==> list.contains(d) && !codes.contains(d.code),
    decreases list.len(),
{
    if list.len() > 0 {
        let front = list.drop_last();
        let last = list.last();
        let rest = kept(front, codes);
        law_silenced_codes_are_left_out(front, codes, d);
        if list.contains(d) {
            let i = choose|i: int| 0 <= i < list.len() && list[i] == d;
            if i < front.len() {
                assert(front[i] == d);
            }
        }
        if front.contains(d) {
            let i = choose|i: int| 0 <= i < front.len() && front[i] == d;
            assert(list[i] == d);
        }
        assert(list[list.len() - 1] == last);
        let all = rest.push(last);
        assert(all =~= rest + seq![last]);
        if rest.contains(d) {
            lemma_front(rest, seq![last], d);
        }
        assert(all[rest.len() as int] == last);
        if all.contains(d) {
            crate::laws::lists::lemma_either(rest, seq![last], d);
        }
    }
}

/// A finding of the document is one that it has before codes are turned off, or one
/// about the turning off itself; and no finding has a code that is turned off.
pub proof fn law_findings_are_not_silenced(ctx: Ctx<'_>, d: DiagnosticView)
    ensures
        document_diags(ctx).contains(d) ==> !silenced(ctx, d.code),
        raw_diags(ctx).contains(d) && !silenced(ctx, d.code) ==> document_diags(ctx).contains(d),
{
    let s = suppressions_from(ctx.parse, 0);
    law_silenced_codes_are_left_out(raw_diags(ctx) + s.hints, s.codes, d);
    if raw_diags(ctx).contains(d) {
        lemma_front(raw_diags(ctx), s.hints, d);
    }
}

proof fn lemma_told(ctx: Ctx<'_>, d: DiagnosticView)
    requires
        children_diags(ctx, 0).contains(d),
    ensures
        told(ctx, d.severity, d.code, d.span),
{
    let syntax = syntax_diags(ctx.parse.errors@, 0);
    lemma_behind(syntax, children_diags(ctx, 0), d);
    lemma_front(syntax + children_diags(ctx, 0), map_layer_diags(ctx), d);
    law_findings_are_not_silenced(ctx, d);
    if !silenced(ctx, d.code) {
        assert(document_diags(ctx).contains(d) && is_at(d, d.severity, d.code, d.span));
    }
}

proof fn lemma_child_told(ctx: Ctx<'_>, j: int, k: int, c: int, d: DiagnosticView)
    requires
        0 <= j <= k < ctx.parse.nodes@[0].elements@.len(),
        ctx.parse.nodes@[0].elements@[k] matches Element::Node(x) && x == c,
        root_child_diags(ctx, c).contains(d),
    ensures
        children_diags(ctx, j).contains(d),
    decreases k - j,
{
    let here = match ctx.parse.nodes@[0].elements@[j] {
        Element::Node(x) => root_child_diags(ctx, x as int),
        Element::Token(_) => Seq::empty(),
    };
    let rest = children_diags(ctx, j + 1);
    assert(children_diags(ctx, j) == here + rest);
    if j < k {
        lemma_child_told(ctx, j + 1, k, c, d);
        lemma_behind(here, rest, d);
    } else {
        lemma_front(here, rest, d);
    }
}

proof fn lemma_syntax(ctx: Ctx<'_>, i: int, from: int) -> (d: DiagnosticView)
    requires
        0 <= from <= i < ctx.parse.errors@.len(),
    ensures
        syntax_diags(ctx.parse.errors@, from).contains(d),
        is_at(
            d,
            Severity::Error,
            "syntax"@,
            Span { start: ctx.parse.errors@[i].start, end: ctx.parse.errors@[i].end },
        ),
    decreases i - from,
{
    let e = ctx.parse.errors@[from];
    let here = crate::values::error_at(
        Span { start: e.start, end: e.end },
        "syntax"@,
        e.message@,
    );
    let rest = syntax_diags(ctx.parse.errors@, from + 1);
    if from < i {
        let d = lemma_syntax(ctx, i, from + 1);
        lemma_behind(here, rest, d);
        d
    } else {
        assert(here.contains(here[0]));
        lemma_front(here, rest, here[0]);
        here[0]
    }
}

/// Every error of the reader is an error of the document.
pub proof fn law_syntax_errors_are_told(ctx: Ctx<'_>, i: int)
    requires
        0 <= i < ctx.parse.errors@.len(),
    ensures
        told(
            ctx,
            Severity::Error,
            "syntax"@,
            Span { start: ctx.parse.errors@[i].start, end: ctx.parse.errors@[i].end },
        ),
{
    let d = lemma_syntax(ctx, i, 0);
    let syntax = syntax_diags(ctx.parse.errors@, 0);
    lemma_front(syntax, children_diags(ctx, 0), d);
    lemma_front(syntax + children_diags(ctx, 0), map_layer_diags(ctx), d);
    law_findings_are_not_silenced(ctx, d);
    if !silenced(ctx, d.code) {
        assert(document_diags(ctx).contains(d));
    }
}

/// A block at the top whose keyword names no block type is an error at the keyword.
pub proof fn law_unknown_blocks_are_told(
    ctx: Ctx<'_>,
    text: Seq<char>,
    tokens: Seq<SyntaxToken>,
    c: int,
)
    requires
        reads(ctx.analyzer, text, tokens, ctx.parse),
        0 < c < ctx.parse.nodes@.len(),
        ctx.parse.nodes@[c].kind is Block,
        ctx.parse.nodes@[c].parent == Some(0usize),
        ctx.parse.nodes@[c].head matches Some(kw) && forall|j: int|
            0 <= j < ctx.analyzer.schema.blocks@.len() ==> (
            #[trigger] ctx.analyzer.schema.blocks@[j]).name@ != kw.text@,
    ensures
        ctx.parse.nodes@[c].head matches Some(kw) && told(
            ctx,
            Severity::Error,
            "unknown-block"@,
            kw.span,
        ),
{
    let n = ctx.parse.nodes@[c];
    let kw = n.head->Some_0;
    let k = lemma_child(ctx.analyzer, text, tokens, ctx.parse, 0, c);
    crate::laws::schema::law_block_types_are_found(ctx.analyzer.schema.blocks@, kw.text@, 0);
    let own = keyword_diags(ctx, c);
    let d = own[0];
    assert(own.contains(d));
    let head = block_head_diags(ctx, c);
    let walk = walk_view(ctx, c, scope_of(ctx.analyzer, ctx.parse, c), 0, Seq::empty()).found;
    assert(head[0] == d);
    assert(head.contains(d));
    lemma_front(head, walk, d);
    lemma_child_told(ctx, 0, k, c, d);
    lemma_told(ctx, d);
}

/// A block of a known type has no such error.
pub proof fn law_known_blocks_are_not_told(ctx: Ctx<'_>, c: int, b: int)
    requires
        ctx.parse.nodes@[c].head matches Some(kw) && crate::laws::schema::last_block(
            ctx.analyzer.schema.blocks@,
            kw.text@,
            b,
        ),
    ensures
        keyword_diags(ctx, c).len() == 0,
{
    let kw = ctx.parse.nodes@[c].head->Some_0;
    crate::laws::schema::law_block_types_are_found(ctx.analyzer.schema.blocks@, kw.text@, b);
}

/// A field outside every block is an error at its key.
pub proof fn law_stray_fields_are_told(
    ctx: Ctx<'_>,
    text: Seq<char>,
    tokens: Seq<SyntaxToken>,
    c: int,
)
    requires
        reads(ctx.analyzer, text, tokens, ctx.parse),
        0 < c < ctx.parse.nodes@.len(),
        ctx.parse.nodes@[c].kind is Field,
        ctx.parse.nodes@[c].parent == Some(0usize),
        ctx.parse.nodes@[c].head matches Some(key) && forall|j: int|
            0 <= j < ctx.analyzer.schema.blocks@.len() ==> (
            #[trigger] ctx.analyzer.schema.blocks@[j]).name@ != key.text@,
    ensures
        ctx.parse.nodes@[c].head matches Some(key) && told(
            ctx,
            Severity::Error,
            "stray-field"@,
            key.span,
        ),
{
    let key = ctx.parse.nodes@[c].head->Some_0;
    let k = lemma_child(ctx.analyzer, text, tokens, ctx.parse, 0, c);
    crate::laws::schema::law_block_types_are_found(ctx.analyzer.schema.blocks@, key.text@, 0);
    let d = stray_diags(ctx, c)[0];
    assert(stray_diags(ctx, c).contains(d));
    lemma_child_told(ctx, 0, k, c, d);
    lemma_told(ctx, d);
}

/// A block type that is a single line may stand outside every block.
pub proof fn law_single_lines_are_not_stray(ctx: Ctx<'_>, c: int, b: int)
    requires
        ctx.parse.nodes@[c].kind is Field,
        ctx.parse.nodes@[c].head matches Some(key) && crate::laws::schema::last_block(
            ctx.analyzer.schema.blocks@,
            key.text@,
            b,
        ),
    ensures
        if ctx.analyzer.schema.blocks@[b].terminated {
            tells(
                root_child_diags(ctx, c),
                Severity::Error,
                "stray-field"@,
                ctx.parse.nodes@[c].head->Some_0.span,
            )
        } else {
            root_child_diags(ctx, c).len() == 0
        },
{
    let key = ctx.parse.nodes@[c].head->Some_0;
    crate::laws::schema::law_block_types_are_found(ctx.analyzer.schema.blocks@, key.text@, b);
}

/// A slot of a scope that a word names: the first of that keyword.
pub open spec fn first_slot(slots: Seq<ModuleSlot>, keyword: Seq<char>, i: int) -> bool {
    &&& 0 <= i < slots.len()
    &&& slots[i].keyword@ == keyword
    &&& forall|j: int| 0 <= j < i ==> (#[trigger] slots[j]).keyword@ != keyword
}

/// No slot of the keyword.
pub open spec fn no_slot(slots: Seq<ModuleSlot>, keyword: Seq<char>) -> bool {
    forall|j: int| 0 <= j < slots.len() ==> (#[trigger] slots[j]).keyword@ != keyword
}

proof fn lemma_slot(slots: Seq<ModuleSlot>, keyword: Seq<char>, from: int, i: int)
    requires
        0 <= from,
    ensures
        first_slot(slots, keyword, i) && from <= i ==> slot_at(slots, keyword, from) == i,
        no_slot(slots, keyword) ==> slot_at(slots, keyword, from) == slots.len(),
    decreases slots.len() - from,
{
    if from < slots.len() {
        if from < i || no_slot(slots, keyword) {
            lemma_slot(slots, keyword, from + 1, i);
        }
        if first_slot(slots, keyword, i) && from < i {
            assert(slots[from].keyword@ != keyword);
        }
        if no_slot(slots, keyword) {
            assert(slots[from].keyword@ != keyword);
        }
    }
}

/// A scope that the checks go into by its own schema: a block at the top, or what
/// stands in such a scope and is no module of an unknown name.
pub open spec fn checked(ctx: Ctx<'_>, p: int) -> bool
    decreases p,
{
    let n = ctx.parse.nodes@[p];
    match n.parent {
        Some(q) => if q == 0 {
            n.kind is Block
        } else {
            &&& q < p
            &&& n.kind is Module
            &&& checked(ctx, q as int)
            &&& n.head matches Some(head) && (no_slot(
                scope_of(ctx.analyzer, ctx.parse, q as int).slot_list(),
                head.text@,
            ) || (n.name matches Some(name) && ctx.analyzer.module_of(name.text@) is Some))
        },
        None => false,
    }
}

/// A finding that a scope has, whatever was seen before it.
spec fn always(ctx: Ctx<'_>, p: int, d: DiagnosticView) -> bool {
    forall|seen: Seq<Seq<char>>| #[trigger]
        walk_view(ctx, p, scope_of(ctx.analyzer, ctx.parse, p), 0, seen).found.contains(d)
}

/// What element `k` of a scope yields.
spec fn element_view<'a>(
    ctx: Ctx<'a>,
    node: int,
    scope: ScopeSchema<'a>,
    k: int,
    seen: Seq<Seq<char>>,
) -> crate::scopes::WalkView {
    match ctx.parse.nodes@[node].elements@[k] {
        Element::Node(c) => if node < c < ctx.parse.nodes@.len() {
            match ctx.parse.nodes@[c as int].kind {
                SyntaxKind::Field => crate::scopes::WalkView {
                    found: field_diags(ctx, scope, node, ctx.parse.nodes@[c as int]),
                    seen,
                },
                SyntaxKind::Module => {
                    let head = head_view(ctx, c as int, scope, seen);
                    let body = walk_view(ctx, c as int, head.inner, 0, head.seen);
                    crate::scopes::WalkView {
                        found: head.found + sub_block_diags(ctx, c as int, head.inner)
                            + body.found,
                        seen: body.seen,
                    }
                },
                SyntaxKind::Block => walk_view(
                    ctx,
                    c as int,
                    scope_of(ctx.analyzer, ctx.parse, c as int),
                    0,
                    seen,
                ),
                SyntaxKind::Root => crate::scopes::WalkView { found: Seq::empty(), seen },
            }
        } else {
            crate::scopes::WalkView { found: Seq::empty(), seen }
        },
        Element::Token(_) => crate::scopes::WalkView { found: Seq::empty(), seen },
    }
}

proof fn lemma_walk_finds(
    ctx: Ctx<'_>,
    node: int,
    scope: ScopeSchema<'_>,
    j: int,
    k: int,
    seen: Seq<Seq<char>>,
    d: DiagnosticView,
)
    requires
        0 <= node < ctx.parse.nodes@.len(),
        0 <= j <= k < ctx.parse.nodes@[node].elements@.len(),
        forall|s: Seq<Seq<char>>| #[trigger]
            element_view(ctx, node, scope, k, s).found.contains(d),
    ensures
        walk_view(ctx, node, scope, j, seen).found.contains(d),
    decreases k - j,
{
    let here = element_view(ctx, node, scope, j, seen);
    let rest = walk_view(ctx, node, scope, j + 1, here.seen);
    assert(walk_view(ctx, node, scope, j, seen).found == here.found + rest.found);
    if j < k {
        lemma_walk_finds(ctx, node, scope, j + 1, k, here.seen, d);
        lemma_behind(here.found, rest.found, d);
    } else {
        lemma_front(here.found, rest.found, d);
    }
}

proof fn lemma_always(ctx: Ctx<'_>, p: int, k: int, d: DiagnosticView)
    requires
        0 <= p < ctx.parse.nodes@.len(),
        0 <= k < ctx.parse.nodes@[p].elements@.len(),
        forall|s: Seq<Seq<char>>| #[trigger]
            element_view(
                ctx,
                p,
                scope_of(ctx.analyzer, ctx.parse, p),
                k,
                s,
            ).found.contains(d),
    ensures
        always(ctx, p, d),
{
    let scope = scope_of(ctx.analyzer, ctx.parse, p);
    assert forall|seen: Seq<Seq<char>>| #[trigger]
        walk_view(ctx, p, scope, 0, seen).found.contains(d) by {
        lemma_walk_finds(ctx, p, scope, 0, k, seen, d);
    }
}

proof fn lemma_head_inner(ctx: Ctx<'_>, p: int, q: int, seen: Seq<Seq<char>>)
    requires
        checked(ctx, p),
        ctx.parse.nodes@[p].parent matches Some(x) && x == q,
        q > 0,
    ensures
        head_view(ctx, p, scope_of(ctx.analyzer, ctx.parse, q), seen).inner == scope_of(
            ctx.analyzer,
            ctx.parse,
            p,
        ),
{
    let slots = scope_of(ctx.analyzer, ctx.parse, q).slot_list();
    let head = ctx.parse.nodes@[p].head->Some_0;
    lemma_slot(slots, head.text@, 0, 0);
}

proof fn lemma_scope_told(
    ctx: Ctx<'_>,
    text: Seq<char>,
    tokens: Seq<SyntaxToken>,
    p: int,
    d: DiagnosticView,
)
    requires
        reads(ctx.analyzer, text, tokens, ctx.parse),
        0 < p < ctx.parse.nodes@.len(),
        checked(ctx, p),
        always(ctx, p, d),
    ensures
        children_diags(ctx, 0).contains(d),
    decreases p,
{
    let q = ctx.parse.nodes@[p].parent->Some_0 as int;
    let k = lemma_child(ctx.analyzer, text, tokens, ctx.parse, q, p);
    let scope = scope_of(ctx.analyzer, ctx.parse, p);
    if q == 0 {
        let none = Seq::<Seq<char>>::empty();
        assert(walk_view(ctx, p, scope, 0, none).found.contains(d));
        lemma_behind(block_head_diags(ctx, p), walk_view(ctx, p, scope, 0, none).found, d);
        lemma_child_told(ctx, 0, k, p, d);
    } else {
        let outer = scope_of(ctx.analyzer, ctx.parse, q);
        assert forall|s: Seq<Seq<char>>| #[trigger]
            element_view(ctx, q, outer, k, s).found.contains(d) by {
            let head = head_view(ctx, p, outer, s);
            lemma_head_inner(ctx, p, q, s);
            let body = walk_view(ctx, p, scope, 0, head.seen);
            assert(body.found.contains(d));
            lemma_behind(head.found + sub_block_diags(ctx, p, head.inner), body.found, d);
        }
        lemma_always(ctx, q, k, d);
        lemma_scope_told(ctx, text, tokens, q, d);
    }
}

/// A line of a field in a scope that is checked.
pub open spec fn checked_line(
    ctx: Ctx<'_>,
    text: Seq<char>,
    tokens: Seq<SyntaxToken>,
    p: int,
    c: int,
) -> bool {
    &&& reads(ctx.analyzer, text, tokens, ctx.parse)
    &&& 0 < p < c < ctx.parse.nodes@.len()
    &&& checked(ctx, p)
    &&& ctx.parse.nodes@[c].kind is Field
    &&& ctx.parse.nodes@[c].parent matches Some(q) && q == p
    &&& ctx.parse.nodes@[c].head is Some
}

pub proof fn lemma_line_told(
    ctx: Ctx<'_>,
    text: Seq<char>,
    tokens: Seq<SyntaxToken>,
    p: int,
    c: int,
    d: DiagnosticView,
)
    requires
        checked_line(ctx, text, tokens, p, c),
        field_diags(
            ctx,
            scope_of(ctx.analyzer, ctx.parse, p),
            p,
            ctx.parse.nodes@[c],
        ).contains(d),
    ensures
        told(ctx, d.severity, d.code, d.span),
{
    let scope = scope_of(ctx.analyzer, ctx.parse, p);
    let k = lemma_child(ctx.analyzer, text, tokens, ctx.parse, p, c);
    assert forall|s: Seq<Seq<char>>| #[trigger]
        element_view(ctx, p, scope, k, s).found.contains(d) by {}
    lemma_always(ctx, p, k, d);
    lemma_scope_told(ctx, text, tokens, p, d);
    lemma_told(ctx, d);
}

/// Every finding about the values of a declared field is one of the document.
pub proof fn law_findings_about_values_are_told(
    ctx: Ctx<'_>,
    text: Seq<char>,
    tokens: Seq<SyntaxToken>,
    p: int,
    c: int,
    field: Field,
    d: DiagnosticView,
)
    requires
        checked_line(ctx, text, tokens, p, c),
        scope_of(ctx.analyzer, ctx.parse, p).field_of(ctx.parse.nodes@[c].head->Some_0.text@)
            == Some(field),
        value_diags(
            ctx,
            ctx.parse.nodes@[c].head,
            ctx.parse.nodes@[c].values@,
            field.value_type,
        ).contains(d),
    ensures
        told(ctx, d.severity, d.code, d.span),
{
    let node = ctx.parse.nodes@[c];
    let own = value_diags(ctx, node.head, node.values@, field.value_type);
    let scope = scope_of(ctx.analyzer, ctx.parse, p);
    let all = field_diags(ctx, scope, p, node);
    let i = choose|i: int| 0 <= i < own.len() && own[i] == d;
    assert(all[i] == d);
    lemma_line_told(ctx, text, tokens, p, c, d);
}

/// A key that a scope with declared fields does not declare, and that opens no slot
/// of it, is warned of at the key.
pub proof fn law_unknown_fields_are_told(
    ctx: Ctx<'_>,
    text: Seq<char>,
    tokens: Seq<SyntaxToken>,
    p: int,
    c: int,
)
    requires
        checked_line(ctx, text, tokens, p, c),
        scope_of(ctx.analyzer, ctx.parse, p).field_list().len() > 0,
        forall|j: int|
            0 <= j < scope_of(ctx.analyzer, ctx.parse, p).field_list().len() ==> (
            #[trigger] scope_of(ctx.analyzer, ctx.parse, p).field_list()[j]).name@
                != ctx.parse.nodes@[c].head->Some_0.text@,
        no_slot(
            scope_of(ctx.analyzer, ctx.parse, p).slot_list(),
            ctx.parse.nodes@[c].head->Some_0.text@,
        ),
    ensures
        told(ctx, Severity::Warning, "unknown-field"@, ctx.parse.nodes@[c].head->Some_0.span),
{
    let scope = scope_of(ctx.analyzer, ctx.parse, p);
    let node = ctx.parse.nodes@[c];
    let key = node.head->Some_0;
    crate::laws::schema::lemma_field_missing(scope.field_list(), key.text@, 0);
    lemma_slot(scope.slot_list(), key.text@, 0, 0);
    let own = field_diags(ctx, scope, p, node);
    assert(own.contains(own[0]));
    lemma_line_told(ctx, text, tokens, p, c, own[0]);
}

/// In a scope without a schema, or one that declares no field, no key is unknown;
/// and a word that opens a slot of the scope is no unknown key.
pub proof fn law_lenient_scopes_take_any_field(
    ctx: Ctx<'_>,
    scope: ScopeSchema<'_>,
    p: int,
    node: crate::syntax::SyntaxNode,
    slot: int,
)
    requires
        scope is Unknown || scope.field_list().len() == 0 || (node.head matches Some(key)
            && first_slot(scope.slot_list(), key.text@, slot) && scope.field_of(key.text@)
            is None),
    ensures
        field_diags(ctx, scope, p, node).len() == 0,
{
    if let Some(key) = node.head {
        lemma_slot(scope.slot_list(), key.text@, 0, slot);
    }
}

/// The header of a module in a slot is told of once where the module is of no known
/// type, where it is not one of those that the slot accepts, and where it lacks a
/// tag.
pub proof fn law_module_headers_are_checked(
    ctx: Ctx<'_>,
    node: int,
    slot: ModuleSlot,
    seen: Seq<Seq<char>>,
    m: int,
)
    requires
        ctx.parse.nodes@[node].name is Some,
    ensures
        ({
            let name = ctx.parse.nodes@[node].name->Some_0;
            let found = module_head(ctx, node, slot, seen).found;
            let modules = ctx.analyzer.schema.modules@;
            &&& (forall|j: int|
                0 <= j < modules.len() ==> (#[trigger] modules[j]).name@ != name.text@) ==> tells(
                found,
                Severity::Warning,
                "unknown-module"@,
                name.span,
            )
            &&& last_module(modules, name.text@, m) && ctx.parse.nodes@[node].tag is None && fits(
                modules[m],
                slot,
            ) ==> tells(found, Severity::Warning, "missing-module-tag"@, name.span)
            &&& last_module(modules, name.text@, m) && !fits(modules[m], slot) ==> found.len() > 0
                && is_at(found[0], Severity::Error, "module-wrong-slot"@, name.span)
            &&& last_module(modules, name.text@, m) && fits(modules[m], slot)
                && ctx.parse.nodes@[node].tag is Some ==> {
                let tag = ctx.parse.nodes@[node].tag->Some_0;
                if seen.contains(tag.text@) {
                    found.len() > 0 && is_at(
                        found[0],
                        Severity::Warning,
                        "duplicate-module-tag"@,
                        tag.span,
                    )
                } else {
                    found.len() == 0 || tells(
                        found,
                        Severity::Hint,
                        "editor-default-module"@,
                        tag.span,
                    )
                }
            }
        }),
{
    let name = ctx.parse.nodes@[node].name->Some_0;
    law_module_types_are_found(ctx.analyzer.schema.modules@, name.text@, m);
}

/// A module in a checked scope, in the slot that its first word names.
pub open spec fn slotted(
    ctx: Ctx<'_>,
    text: Seq<char>,
    tokens: Seq<SyntaxToken>,
    p: int,
    c: int,
    i: int,
) -> bool {
    &&& reads(ctx.analyzer, text, tokens, ctx.parse)
    &&& 0 < p < c < ctx.parse.nodes@.len()
    &&& checked(ctx, p)
    &&& ctx.parse.nodes@[c].kind is Module
    &&& ctx.parse.nodes@[c].parent matches Some(q) && q == p
    &&& ctx.parse.nodes@[c].name is Some
    &&& ctx.parse.nodes@[c].head matches Some(head) && first_slot(
        scope_of(ctx.analyzer, ctx.parse, p).slot_list(),
        head.text@,
        i,
    )
}

proof fn lemma_module_told(
    ctx: Ctx<'_>,
    text: Seq<char>,
    tokens: Seq<SyntaxToken>,
    p: int,
    c: int,
    i: int,
    d: DiagnosticView,
)
    requires
        slotted(ctx, text, tokens, p, c, i),
        forall|seen: Seq<Seq<char>>| #[trigger]
            module_head(
                ctx,
                c,
                scope_of(ctx.analyzer, ctx.parse, p).slot_list()[i],
                seen,
            ).found.contains(d),
    ensures
        told(ctx, d.severity, d.code, d.span),
{
    let scope = scope_of(ctx.analyzer, ctx.parse, p);
    let slots = scope.slot_list();
    let k = lemma_child(ctx.analyzer, text, tokens, ctx.parse, p, c);
    lemma_slot(slots, ctx.parse.nodes@[c].head->Some_0.text@, 0, i);
    assert forall|s: Seq<Seq<char>>| #[trigger]
        element_view(ctx, p, scope, k, s).found.contains(d) by {
        let head = head_view(ctx, c, scope, s);
        assert(head == module_head(ctx, c, slots[i], s));
        let body = walk_view(ctx, c, head.inner, 0, head.seen);
        lemma_front(head.found, sub_block_diags(ctx, c, head.inner), d);
        lemma_front(head.found + sub_block_diags(ctx, c, head.inner), body.found, d);
    }
    lemma_always(ctx, p, k, d);
    lemma_scope_told(ctx, text, tokens, p, d);
    lemma_told(ctx, d);
}

/// A module of no known type in a slot is warned of, and one that the slot does not
/// accept is an error, both at the module's name.
pub proof fn law_misplaced_modules_are_told(
    ctx: Ctx<'_>,
    text: Seq<char>,
    tokens: Seq<SyntaxToken>,
    p: int,
    c: int,
    i: int,
    m: int,
)
    requires
        slotted(ctx, text, tokens, p, c, i),
    ensures
        ({
            let name = ctx.parse.nodes@[c].name->Some_0;
            let modules = ctx.analyzer.schema.modules@;
            let slot = scope_of(ctx.analyzer, ctx.parse, p).slot_list()[i];
            &&& (forall|j: int|
                0 <= j < modules.len() ==> (#[trigger] modules[j]).name@ != name.text@) ==> told(
                ctx,
                Severity::Warning,
                "unknown-module"@,
                name.span,
            )
            &&& last_module(modules, name.text@, m) && !crate::laws::completion::implements(
                modules[m],
                texts(slot.accepts@),
            ) ==> told(ctx, Severity::Error, "module-wrong-slot"@, name.span)
            &&& last_module(modules, name.text@, m) && ctx.parse.nodes@[c].tag is None ==> told(
                ctx,
                Severity::Warning,
                "missing-module-tag"@,
                name.span,
            )
        }),
{
    let name = ctx.parse.nodes@[c].name->Some_0;
    let modules = ctx.analyzer.schema.modules@;
    let slot = scope_of(ctx.analyzer, ctx.parse, p).slot_list()[i];
    law_module_types_are_found(modules, name.text@, m);
    let none = Seq::<Seq<char>>::empty();
    if forall|j: int| 0 <= j < modules.len() ==> (#[trigger] modules[j]).name@ != name.text@ {
        let d = module_head(ctx, c, slot, none).found[0];
        assert forall|seen: Seq<Seq<char>>| #[trigger]
            module_head(ctx, c, slot, seen).found.contains(d) by {
            assert(module_head(ctx, c, slot, seen).found[0] == d);
        }
        lemma_module_told(ctx, text, tokens, p, c, i, d);
    }
    if last_module(modules, name.text@, m) {
        if !crate::laws::completion::implements(modules[m], texts(slot.accepts@)) {
            crate::laws::completion::law_offered_modules_fit_their_slot(modules[m], slot);
            let d = module_head(ctx, c, slot, none).found[0];
            assert forall|seen: Seq<Seq<char>>| #[trigger]
                module_head(ctx, c, slot, seen).found.contains(d) by {
                assert(module_head(ctx, c, slot, seen).found[0] == d);
            }
            lemma_module_told(ctx, text, tokens, p, c, i, d);
        }
        if ctx.parse.nodes@[c].tag is None {
            let d = module_head(ctx, c, slot, none).found.last();
            assert forall|seen: Seq<Seq<char>>| #[trigger]
                module_head(ctx, c, slot, seen).found.contains(d) by {
                let all = module_head(ctx, c, slot, seen).found;
                assert(all[all.len() - 1] == d);
            }
            lemma_module_told(ctx, text, tokens, p, c, i, d);
        }
    }
}

proof fn lemma_seen_grows(
    ctx: Ctx<'_>,
    node: int,
    scope: ScopeSchema<'_>,
    k: int,
    seen: Seq<Seq<char>>,
    t: Seq<char>,
)
    requires
        0 <= node < ctx.parse.nodes@.len(),
        seen.contains(t),
    ensures
        walk_view(ctx, node, scope, k, seen).seen.contains(t),
    decreases ctx.parse.nodes@.len() - node, ctx.parse.nodes@[node].elements@.len() - k, 1int,
{
    let elements = ctx.parse.nodes@[node].elements@;
    if 0 <= k < elements.len() {
        lemma_element_seen(ctx, node, scope, k, seen, t);
        let here = element_view(ctx, node, scope, k, seen);
        lemma_seen_grows(ctx, node, scope, k + 1, here.seen, t);
    }
}

proof fn lemma_element_seen(
    ctx: Ctx<'_>,
    node: int,
    scope: ScopeSchema<'_>,
    k: int,
    seen: Seq<Seq<char>>,
    t: Seq<char>,
)
    requires
        0 <= node < ctx.parse.nodes@.len(),
        0 <= k < ctx.parse.nodes@[node].elements@.len(),
        seen.contains(t),
    ensures
        element_view(ctx, node, scope, k, seen).seen.contains(t),
    decreases ctx.parse.nodes@.len() - node, ctx.parse.nodes@[node].elements@.len() - k, 0int,
{
    if let Element::Node(c) = ctx.parse.nodes@[node].elements@[k] {
        if node < c < ctx.parse.nodes@.len() {
            if ctx.parse.nodes@[c as int].kind is Module {
                let head = head_view(ctx, c as int, scope, seen);
                lemma_head_seen(ctx, c as int, scope, seen, t);
                lemma_seen_grows(ctx, c as int, head.inner, 0, head.seen, t);
            } else if ctx.parse.nodes@[c as int].kind is Block {
                lemma_seen_grows(
                    ctx,
                    c as int,
                    scope_of(ctx.analyzer, ctx.parse, c as int),
                    0,
                    seen,
                    t,
                );
            }
        }
    }
}

proof fn lemma_head_seen(
    ctx: Ctx<'_>,
    c: int,
    scope: ScopeSchema<'_>,
    seen: Seq<Seq<char>>,
    t: Seq<char>,
)
    requires
        seen.contains(t),
    ensures
        head_view(ctx, c, scope, seen).seen.contains(t),
{
    if let Some(tag) = ctx.parse.nodes@[c].tag {
        let more = seen.push(tag.text@);
        assert(more =~= seen + seq![tag.text@]);
        lemma_front(seen, seq![tag.text@], t);
    }
}

proof fn lemma_second_tag(
    ctx: Ctx<'_>,
    p: int,
    scope: ScopeSchema<'_>,
    j: int,
    k: int,
    c: int,
    i: int,
    seen: Seq<Seq<char>>,
) -> (d: DiagnosticView)
    requires
        0 <= p < c < ctx.parse.nodes@.len(),
        0 <= j <= k < ctx.parse.nodes@[p].elements@.len(),
        ctx.parse.nodes@[p].elements@[k] matches Element::Node(x) && x == c,
        ctx.parse.nodes@[c].kind is Module,
        ctx.parse.nodes@[c].name matches Some(name) && ctx.analyzer.module_of(name.text@) is Some,
        ctx.parse.nodes@[c].tag is Some,
        ctx.parse.nodes@[c].head matches Some(head) && first_slot(
            scope.slot_list(),
            head.text@,
            i,
        ),
        seen.contains(ctx.parse.nodes@[c].tag->Some_0.text@),
    ensures
        walk_view(ctx, p, scope, j, seen).found.contains(d),
        d == repeated_tag(ctx.parse.nodes@[c].tag->Some_0),
    decreases k - j,
{
    let tag = ctx.parse.nodes@[c].tag->Some_0;
    let here = element_view(ctx, p, scope, j, seen);
    let rest = walk_view(ctx, p, scope, j + 1, here.seen);
    assert(walk_view(ctx, p, scope, j, seen).found == here.found + rest.found);
    let d = repeated_tag(tag);
    if j < k {
        lemma_element_seen(ctx, p, scope, j, seen, tag.text@);
        lemma_second_tag(ctx, p, scope, j + 1, k, c, i, here.seen);
        lemma_behind(here.found, rest.found, d);
    } else {
        lemma_slot(scope.slot_list(), ctx.parse.nodes@[c].head->Some_0.text@, 0, i);
        let slot = scope.slot_list()[i];
        let head = head_view(ctx, c, scope, seen);
        assert(head == module_head(ctx, c, slot, seen));
        let told = crate::scopes::tag_diags(ctx, tag, seen);
        assert(told[0] == d);
        assert(told.contains(d));
        let name = ctx.parse.nodes@[c].name->Some_0;
        let module = ctx.analyzer.module_of(name.text@)->Some_0;
        lemma_behind(crate::scopes::slot_diags(name, module, slot), told, d);
        let body = walk_view(ctx, c, head.inner, 0, head.seen);
        lemma_front(head.found, sub_block_diags(ctx, c, head.inner), d);
        lemma_front(head.found + sub_block_diags(ctx, c, head.inner), body.found, d);
        lemma_front(here.found, rest.found, d);
    }
    d
}

/// The warning about a tag that is used again.
pub open spec fn repeated_tag(tag: SyntaxToken) -> DiagnosticView {
    DiagnosticView {
        span: tag.span,
        severity: Severity::Warning,
        code: "duplicate-module-tag"@,
        message: "module tag `"@ + tag.text@
            + "` is used more than once; tags must be unique within an object (the engine cannot remove a module by tag if duplicates exist)"@,
    }
}

proof fn lemma_first_tag(
    ctx: Ctx<'_>,
    p: int,
    scope: ScopeSchema<'_>,
    j: int,
    k1: int,
    c1: int,
    i1: int,
    k2: int,
    c2: int,
    i2: int,
    seen: Seq<Seq<char>>,
)
    requires
        0 <= p < c1 < ctx.parse.nodes@.len(),
        p < c2 < ctx.parse.nodes@.len(),
        0 <= j <= k1 < k2 < ctx.parse.nodes@[p].elements@.len(),
        ctx.parse.nodes@[p].elements@[k1] matches Element::Node(x) && x == c1,
        ctx.parse.nodes@[p].elements@[k2] matches Element::Node(x) && x == c2,
        tagged_module(ctx, scope, c1, i1),
        tagged_module(ctx, scope, c2, i2),
        ctx.parse.nodes@[c1].tag->Some_0.text@ == ctx.parse.nodes@[c2].tag->Some_0.text@,
    ensures
        walk_view(ctx, p, scope, j, seen).found.contains(
            repeated_tag(ctx.parse.nodes@[c2].tag->Some_0),
        ),
    decreases k1 - j,
{
    let d = repeated_tag(ctx.parse.nodes@[c2].tag->Some_0);
    let here = element_view(ctx, p, scope, j, seen);
    let rest = walk_view(ctx, p, scope, j + 1, here.seen);
    assert(walk_view(ctx, p, scope, j, seen).found == here.found + rest.found);
    if j < k1 {
        lemma_first_tag(ctx, p, scope, j + 1, k1, c1, i1, k2, c2, i2, here.seen);
    } else {
        let tag = ctx.parse.nodes@[c1].tag->Some_0;
        lemma_slot(scope.slot_list(), ctx.parse.nodes@[c1].head->Some_0.text@, 0, i1);
        let head = head_view(ctx, c1, scope, seen);
        assert(head == module_head(ctx, c1, scope.slot_list()[i1], seen));
        assert(head.seen == seen_after(ctx.parse.nodes@[c1].tag, seen));
        assert(head.seen.contains(tag.text@)) by {
            if !seen.contains(tag.text@) {
                assert(seen.push(tag.text@)[seen.len() as int] == tag.text@);
            }
        }
        lemma_seen_grows(ctx, c1, head.inner, 0, head.seen, tag.text@);
        lemma_second_tag(ctx, p, scope, j + 1, k2, c2, i2, here.seen);
    }
    lemma_behind(here.found, rest.found, d);
}

/// A module of a known type, in a slot of its scope, with a tag.
pub open spec fn tagged_module(ctx: Ctx<'_>, scope: ScopeSchema<'_>, c: int, i: int) -> bool {
    &&& ctx.parse.nodes@[c].kind is Module
    &&& ctx.parse.nodes@[c].name matches Some(name) && ctx.analyzer.module_of(name.text@) is Some
    &&& ctx.parse.nodes@[c].tag is Some
    &&& ctx.parse.nodes@[c].head matches Some(head) && first_slot(
        scope.slot_list(),
        head.text@,
        i,
    )
}

/// Of two modules of a block with the same tag the later one is warned of at its tag.
pub proof fn law_repeated_tags_are_told(
    ctx: Ctx<'_>,
    text: Seq<char>,
    tokens: Seq<SyntaxToken>,
    p: int,
    k1: int,
    c1: int,
    i1: int,
    k2: int,
    c2: int,
    i2: int,
)
    requires
        reads(ctx.analyzer, text, tokens, ctx.parse),
        0 < p < c1 < ctx.parse.nodes@.len(),
        p < c2 < ctx.parse.nodes@.len(),
        checked(ctx, p),
        0 <= k1 < k2 < ctx.parse.nodes@[p].elements@.len(),
        ctx.parse.nodes@[p].elements@[k1] matches Element::Node(x) && x == c1,
        ctx.parse.nodes@[p].elements@[k2] matches Element::Node(x) && x == c2,
        tagged_module(ctx, scope_of(ctx.analyzer, ctx.parse, p), c1, i1),
        tagged_module(ctx, scope_of(ctx.analyzer, ctx.parse, p), c2, i2),
        ctx.parse.nodes@[c1].tag->Some_0.text@ == ctx.parse.nodes@[c2].tag->Some_0.text@,
    ensures
        told(
            ctx,
            Severity::Warning,
            "duplicate-module-tag"@,
            ctx.parse.nodes@[c2].tag->Some_0.span,
        ),
{
    let scope = scope_of(ctx.analyzer, ctx.parse, p);
    let d = repeated_tag(ctx.parse.nodes@[c2].tag->Some_0);
    assert forall|seen: Seq<Seq<char>>| #[trigger]
        walk_view(ctx, p, scope, 0, seen).found.contains(d) by {
        lemma_first_tag(ctx, p, scope, 0, k1, c1, i1, k2, c2, i2, seen);
    }
    assert(always(ctx, p, d));
    lemma_scope_told(ctx, text, tokens, p, d);
    lemma_told(ctx, d);
}

/// A weapon set without conditions is warned of at its first word; one with a field
/// of that name is not.
pub proof fn law_weapon_sets_need_conditions(ctx: Ctx<'_>, node: int, sb: &crate::schema::SubBlock)
    requires
        sb.keyword@ == "WeaponSet"@,
        sb.argument_type is None,
        ctx.parse.nodes@[node].head is Some,
    ensures
        ({
            let found = sub_block_diags(ctx, node, ScopeSchema::SubBlock(sb));
            let has = exists|k: int|
                0 <= k < ctx.parse.nodes@[node].elements@.len() && (
                #[trigger] ctx.parse.nodes@[node].elements@[k] matches Element::Node(c)
                    && ctx.parse.nodes@[c as int].kind is Field && (
                ctx.parse.nodes@[c as int].head matches Some(h) && h.text@ == "Conditions"@));
            if has {
                found.len() == 0
            } else {
                tells(
                    found,
                    Severity::Warning,
                    "missing-condition"@,
                    ctx.parse.nodes@[node].head->Some_0.span,
                )
            }
        }),
{
    lemma_direct(ctx.parse, node, "Conditions"@, 0);
}

proof fn lemma_direct(parse: &Parse, o: int, key: Seq<char>, from: int)
    requires
        0 <= from,
    ensures
        crate::scopes::direct_field(parse, o, key, from) == exists|k: int|
            from <= k < parse.nodes@[o].elements@.len() && (
            #[trigger] parse.nodes@[o].elements@[k] matches Element::Node(c)
                && parse.nodes@[c as int].kind is Field && (
            parse.nodes@[c as int].head matches Some(h) && h.text@ == key)),
    decreases parse.nodes@[o].elements@.len() - from,
{
    if from < parse.nodes@[o].elements@.len() {
        lemma_direct(parse, o, key, from + 1);
    }
}

} // verus!
