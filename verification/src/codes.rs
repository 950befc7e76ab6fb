//! The codes of diagnostics: what any rule reports has a known one, so that
//! every finding can be suppressed by name.

use vstd::prelude::*;

use crate::diagnostics::{
    children_diags, document_diags, kept, known_codes, suppressions_from, syntax_diags,
    token_effects, word_effects,
};
use crate::maplayer::{
    forward_field, forward_refs, forward_subtree, map_block_diags, map_blocks_from, map_layer_diags,
    projectile_fields, reskin_diags, MapDefView, MapRefView, MapView,
};
use crate::model::ScopeSchema;
use crate::objects::{
    block_diags, block_head_diags, default_module_diags, locomotor_diags, reachability_diags,
    redefinition, root_child_diags, set_facts, unreached_sets, upgrade_diags,
};
use crate::schema::{Field, ValueType};
use crate::scopes::{
    field_diags, head_view, model_field_diags, raw_asset_diags, stem_diags, sub_block_diags,
    walk_view,
};
use crate::syntax::{Element, Parse, Span, SyntaxError, SyntaxKind, SyntaxNode, SyntaxToken};
use crate::values::{
    argument_diags, argument_list_diags, argument_variant, axes_from, axis_form, axis_step,
    each_token_diags, first_stripped, list_diags, logical_diags, token_diags, value_diags,
    value_width, Ctx, DiagnosticView, Piece,
};

verus! {

/// Whether a code is one of the known ones.
#[verifier::opaque]
pub open spec fn known(code: Seq<char>) -> bool {
    known_codes().contains(code)
}

/// Whether every finding has a known code.
pub open spec fn all_known(list: Seq<DiagnosticView>) -> bool {
    forall|i: int| 0 <= i < list.len() ==> known((#[trigger] list[i]).code)
}

proof fn lemma_at(i: int)
    requires
        0 <= i < known_codes().len(),
    ensures
        known(known_codes()[i]),
{
    reveal(known);
}

proof fn lemma_literals()
    ensures
        known("syntax"@),
        known("stray-field"@),
        known("unknown-block"@),
        known("overrides"@),
        known("duplicate-definition"@),
        known("map-forward-reference"@),
        known("map-projectile-object"@),
        known("unreachable-set"@),
        known("unknown-field"@),
        known("missing-module-tag"@),
        known("unknown-module"@),
        known("unknown-module-tag"@),
        known("missing-condition"@),
        known("missing-value"@),
        known("bad-bool"@),
        known("non-positive"@),
        known("bad-percent"@),
        known("bad-color"@),
        known("bad-coord"@),
        known("bad-number"@),
        known("bad-enum"@),
        known("bad-flag"@),
        known("bad-prefixed"@),
        known("unresolved-reference"@),
        known("unknown-model"@),
        known("unknown-model-member"@),
        known("unknown-audio-file"@),
        known("unknown-texture"@),
        known("unknown-suppression"@),
        known("module-wrong-slot"@),
        known("duplicate-module-tag"@),
        known("editor-default-module"@),
        known("default-modules-not-removed"@),
{
    assert forall|i: int| 0 <= i < known_codes().len() implies known(
        #[trigger] known_codes()[i],
    ) by {
        lemma_at(i);
    }
    assert(known_codes()[0] == "syntax"@);
    assert(known_codes()[1] == "stray-field"@);
    assert(known_codes()[2] == "unknown-block"@);
    assert(known_codes()[3] == "overrides"@);
    assert(known_codes()[4] == "duplicate-definition"@);
    assert(known_codes()[5] == "map-forward-reference"@);
    assert(known_codes()[6] == "map-projectile-object"@);
    assert(known_codes()[7] == "unreachable-set"@);
    assert(known_codes()[8] == "unknown-field"@);
    assert(known_codes()[9] == "missing-module-tag"@);
    assert(known_codes()[10] == "unknown-module"@);
    assert(known_codes()[11] == "unknown-module-tag"@);
    assert(known_codes()[12] == "missing-condition"@);
    assert(known_codes()[13] == "missing-value"@);
    assert(known_codes()[14] == "bad-bool"@);
    assert(known_codes()[15] == "non-positive"@);
    assert(known_codes()[16] == "bad-percent"@);
    assert(known_codes()[17] == "bad-color"@);
    assert(known_codes()[18] == "bad-coord"@);
    assert(known_codes()[19] == "bad-number"@);
    assert(known_codes()[20] == "bad-enum"@);
    assert(known_codes()[21] == "bad-flag"@);
    assert(known_codes()[22] == "bad-prefixed"@);
    assert(known_codes()[23] == "unresolved-reference"@);
    assert(known_codes()[24] == "unknown-model"@);
    assert(known_codes()[25] == "unknown-model-member"@);
    assert(known_codes()[26] == "unknown-audio-file"@);
    assert(known_codes()[27] == "unknown-texture"@);
    assert(known_codes()[28] == "unknown-suppression"@);
    assert(known_codes()[29] == "module-wrong-slot"@);
    assert(known_codes()[30] == "duplicate-module-tag"@);
    assert(known_codes()[31] == "editor-default-module"@);
    assert(known_codes()[32] == "default-modules-not-removed"@);
}

proof fn lemma_token(ctx: Ctx<'_>, tok: SyntaxToken, ty: ValueType)
    ensures
        all_known(token_diags(ctx, tok, ty)),
{
    lemma_literals();
}

proof fn lemma_logical(ctx: Ctx<'_>, tokens: Seq<SyntaxToken>, i: int, ty: ValueType)
    ensures
        all_known(logical_diags(ctx, tokens, i, ty)),
{
    lemma_literals();
    lemma_token(ctx, tokens[i], ty);
    lemma_token(
        ctx,
        tokens[i + 1],
        ty.split_prefix(crate::values::stripped(tokens[i].text@))->Some_0,
    );
}

proof fn lemma_step(
    parts: Seq<Piece>,
    i: int,
    axis: Seq<char>,
    required: bool,
    color: bool,
    key: Option<SyntaxToken>,
    form: Seq<char>,
)
    ensures
        all_known(axis_step(parts, i, axis, required, color, key, form).0),
{
    lemma_literals();
}

proof fn lemma_axes(
    parts: Seq<Piece>,
    axes: Seq<Seq<char>>,
    optional: Option<Seq<char>>,
    k: int,
    color: bool,
    key: Option<SyntaxToken>,
)
    ensures
        all_known(axes_from(parts, axes, optional, k, color, key)),
    decreases axes.len() - k,
{
    let form = axis_form(axes, axes.len() as int);
    if k < 0 || k >= axes.len() {
        if let Some(axis) = optional {
            lemma_step(parts, 2 * k, axis, false, color, key, form);
        }
    } else {
        lemma_step(parts, 2 * k, axes[k], true, color, key, form);
        lemma_axes(parts, axes, optional, k + 1, color, key);
    }
}

proof fn lemma_each(ctx: Ctx<'_>, tokens: Seq<SyntaxToken>, from: int, to: int, ty: ValueType)
    ensures
        all_known(each_token_diags(ctx, tokens, from, to, ty)),
    decreases to - from,
{
    if 0 <= from < to {
        lemma_token(ctx, tokens[from], ty);
        lemma_each(ctx, tokens, from + 1, to, ty);
    }
}

proof fn lemma_list(
    ctx: Ctx<'_>,
    key: Option<SyntaxToken>,
    tokens: Seq<SyntaxToken>,
    specs: Seq<ValueType>,
    s: int,
    i: int,
)
    ensures
        all_known(list_diags(ctx, key, tokens, specs, s, i)),
    decreases specs.len() - s,
{
    lemma_literals();
    if s < 0 || s >= specs.len() {
        lemma_each(ctx, tokens, i, tokens.len() as int, specs.last());
    } else if i < tokens.len() {
        lemma_logical(ctx, tokens, i, specs[s]);
        lemma_list(ctx, key, tokens, specs, s + 1, i + value_width(tokens, i, specs[s]));
    }
}

proof fn lemma_value(
    ctx: Ctx<'_>,
    key: Option<SyntaxToken>,
    tokens: Seq<SyntaxToken>,
    ty: ValueType,
)
    ensures
        all_known(value_diags(ctx, key, tokens, ty)),
    decreases ty,
{
    lemma_literals();
    if tokens.len() > 0 {
        let n = tokens.len() as int;
        match ty {
            ValueType::OneOf { variants } => {
                let k = crate::schema::active_variant(variants@, first_stripped(tokens));
                if 0 <= k < variants@.len() {
                    lemma_value(ctx, key, tokens, variants@[k]);
                }
            },
            ValueType::RandomVariable { .. } => {
                lemma_each(
                    ctx,
                    tokens,
                    0,
                    if n < 2 {
                        n
                    } else {
                        2
                    },
                    ValueType::Real,
                );
            },
            ValueType::RandomKeyframe => {
                lemma_each(
                    ctx,
                    tokens,
                    0,
                    if n < 2 {
                        n
                    } else {
                        2
                    },
                    ValueType::Real,
                );
            },
            ValueType::ColorKeyframe => {
                lemma_axes(
                    crate::values::token_pieces(tokens, 0, n - 1),
                    crate::values::rgb(),
                    None,
                    0,
                    true,
                    key,
                );
            },
            ValueType::TokenList { tokens: specs } => {
                lemma_list(ctx, key, tokens, specs@, 0, 0);
            },
            ValueType::Color => {
                lemma_axes(
                    crate::values::token_pieces(tokens, 0, n),
                    crate::values::rgb(),
                    Some("A"@),
                    0,
                    true,
                    key,
                );
            },
            ValueType::Coord2D => {
                lemma_axes(
                    crate::values::token_pieces(tokens, 0, n),
                    seq!["X"@, "Y"@],
                    None,
                    0,
                    false,
                    key,
                );
            },
            ValueType::Coord3D => {
                lemma_axes(
                    crate::values::token_pieces(tokens, 0, n),
                    seq!["X"@, "Y"@, "Z"@],
                    None,
                    0,
                    false,
                    key,
                );
            },
            _ => {
                lemma_each(ctx, tokens, 0, n, ty);
                lemma_logical(ctx, tokens, 0, ty);
            },
        }
    }
}

proof fn lemma_argument_list(
    ctx: Ctx<'_>,
    tokens: Seq<SyntaxToken>,
    specs: Seq<ValueType>,
    s: int,
    i: int,
)
    ensures
        all_known(argument_list_diags(ctx, tokens, specs, s, i)),
    decreases specs.len() - s,
{
    if 0 <= s < specs.len() && i < tokens.len() {
        lemma_logical(ctx, tokens, i, specs[s]);
        lemma_argument_list(ctx, tokens, specs, s + 1, i + value_width(tokens, i, specs[s]));
    }
}

proof fn lemma_argument(ctx: Ctx<'_>, tokens: Seq<SyntaxToken>, ty: ValueType)
    ensures
        all_known(argument_diags(ctx, tokens, ty)),
{
    let variant = argument_variant(ty, tokens);
    lemma_each(ctx, tokens, 0, tokens.len() as int, variant);
    lemma_logical(ctx, tokens, 0, variant);
    if let ValueType::TokenList { tokens: specs } = variant {
        lemma_argument_list(ctx, tokens, specs@, 0, 0);
    }
}

proof fn lemma_stems(index: &crate::index::WorkspaceIndex, tokens: Seq<SyntaxToken>, i: int)
    ensures
        all_known(stem_diags(index, tokens, i)),
    decreases tokens.len() - i,
{
    lemma_literals();
    if 0 <= i < tokens.len() {
        lemma_stems(index, tokens, i + 1);
    }
}

proof fn lemma_raw_asset(ctx: Ctx<'_>, tokens: Seq<SyntaxToken>, ty: ValueType)
    ensures
        all_known(raw_asset_diags(ctx, tokens, ty)),
{
    lemma_literals();
    if let Some(index) = ctx.index {
        lemma_stems(index, tokens, 0);
    }
}

proof fn lemma_model_fields(
    ctx: Ctx<'_>,
    scope_node: int,
    field: Field,
    tokens: Seq<SyntaxToken>,
    i: int,
)
    ensures
        all_known(model_field_diags(ctx, scope_node, field, tokens, i)),
    decreases tokens.len() - i,
{
    lemma_literals();
    if 0 <= i < tokens.len() {
        lemma_model_fields(ctx, scope_node, field, tokens, i + 1);
    }
}

proof fn lemma_field(ctx: Ctx<'_>, scope: ScopeSchema<'_>, scope_node: int, node: SyntaxNode)
    ensures
        all_known(field_diags(ctx, scope, scope_node, node)),
{
    lemma_literals();
    if let Some(key) = node.head {
        if let Some(f) = scope.field_of(key.text@) {
            lemma_value(ctx, node.head, node.values@, f.value_type);
            lemma_model_fields(ctx, scope_node, f, node.values@, 0);
            lemma_raw_asset(ctx, node.values@, f.value_type);
        }
    }
}

proof fn lemma_head<'a>(ctx: Ctx<'a>, node: int, parent: ScopeSchema<'a>, seen: Seq<Seq<char>>)
    ensures
        all_known(head_view(ctx, node, parent, seen).found),
{
    lemma_literals();
}

proof fn lemma_sub_block(ctx: Ctx<'_>, node: int, inner: ScopeSchema<'_>)
    ensures
        all_known(sub_block_diags(ctx, node, inner)),
{
    lemma_literals();
    if let ScopeSchema::SubBlock(sb) = inner {
        if let Some(ty) = sb.argument_type {
            lemma_argument(ctx, ctx.parse.nodes@[node].values@, ty);
        }
    }
}

proof fn lemma_walk<'a>(
    ctx: Ctx<'a>,
    node: int,
    scope: ScopeSchema<'a>,
    k: int,
    seen: Seq<Seq<char>>,
)
    ensures
        all_known(walk_view(ctx, node, scope, k, seen).found),
    decreases ctx.parse.nodes@.len() - node, ctx.parse.nodes@[node].elements@.len() - k,
{
    if 0 <= k < ctx.parse.nodes@[node].elements@.len() {
        let mut after = seen;
        if let Element::Node(c) = ctx.parse.nodes@[node].elements@[k] {
            if node < c < ctx.parse.nodes@.len() {
                match ctx.parse.nodes@[c as int].kind {
                    SyntaxKind::Field => {
                        lemma_field(ctx, scope, node, ctx.parse.nodes@[c as int]);
                    },
                    SyntaxKind::Module => {
                        let head = head_view(ctx, c as int, scope, seen);
                        lemma_head(ctx, c as int, scope, seen);
                        lemma_sub_block(ctx, c as int, head.inner);
                        lemma_walk(ctx, c as int, head.inner, 0, head.seen);
                        after = walk_view(ctx, c as int, head.inner, 0, head.seen).seen;
                    },
                    SyntaxKind::Block => {
                        let inner = crate::model::scope_of(ctx.analyzer, ctx.parse, c as int);
                        lemma_walk(ctx, c as int, inner, 0, seen);
                        after = walk_view(ctx, c as int, inner, 0, seen).seen;
                    },
                    SyntaxKind::Root => {},
                }
            }
        }
        lemma_walk(ctx, node, scope, k + 1, after);
    }
}

proof fn lemma_locomotors(parse: &Parse, node: int, k: int)
    ensures
        all_known(locomotor_diags(parse, node, k)),
    decreases parse.nodes@[node].elements@.len() - k,
{
    lemma_literals();
    if 0 <= k < parse.nodes@[node].elements@.len() {
        lemma_locomotors(parse, node, k + 1);
    }
}

proof fn lemma_upgrades(upgrades: Seq<Span>, i: int)
    ensures
        all_known(upgrade_diags(upgrades, i)),
    decreases upgrades.len() - i,
{
    lemma_literals();
    if 0 <= i < upgrades.len() {
        lemma_upgrades(upgrades, i + 1);
    }
}

proof fn lemma_sets(sets: Seq<(bool, Span)>, names: Seq<Seq<char>>, i: int)
    ensures
        all_known(unreached_sets(sets, names, i)),
    decreases sets.len() - i,
{
    lemma_literals();
    if 0 <= i < sets.len() {
        lemma_sets(sets, names, i + 1);
    }
}

proof fn lemma_block(ctx: Ctx<'_>, node: int)
    ensures
        all_known(block_diags(ctx, node)),
{
    lemma_literals();
    let facts = set_facts(ctx.parse, node);
    lemma_locomotors(ctx.parse, node, 0);
    lemma_upgrades(facts.upgrades, 0);
    lemma_sets(facts.sets, facts.names, 0);
    assert(all_known(reachability_diags(ctx.parse, node)));
    assert(all_known(default_module_diags(ctx, node)));
    assert(all_known(redefinition(ctx, ctx.parse.nodes@[node]).found));
    assert(all_known(block_head_diags(ctx, node)));
    lemma_walk(
        ctx,
        node,
        crate::model::scope_of(ctx.analyzer, ctx.parse, node),
        0,
        Seq::empty(),
    );
}

proof fn lemma_children(ctx: Ctx<'_>, k: int)
    ensures
        all_known(children_diags(ctx, k)),
    decreases ctx.parse.nodes@[0].elements@.len() - k,
{
    lemma_literals();
    if 0 <= k < ctx.parse.nodes@[0].elements@.len() {
        if let Element::Node(c) = ctx.parse.nodes@[0].elements@[k] {
            lemma_block(ctx, c as int);
            assert(all_known(root_child_diags(ctx, c as int)));
        }
        lemma_children(ctx, k + 1);
    }
}

proof fn lemma_syntax(errors: Seq<SyntaxError>, i: int)
    ensures
        all_known(syntax_diags(errors, i)),
    decreases errors.len() - i,
{
    lemma_literals();
    if 0 <= i < errors.len() {
        lemma_syntax(errors, i + 1);
    }
}

proof fn lemma_forward_refs(
    m: MapView<'_>,
    scope: ScopeSchema<'_>,
    field: Field,
    key: SyntaxToken,
    refs: Seq<MapRefView>,
    i: int,
)
    ensures
        all_known(forward_refs(m, scope, field, key, refs, i)),
    decreases refs.len() - i,
{
    lemma_literals();
    if 0 <= i < refs.len() {
        lemma_forward_refs(m, scope, field, key, refs, i + 1);
    }
}

proof fn lemma_forward_field(m: MapView<'_>, scope: ScopeSchema<'_>, node: SyntaxNode)
    ensures
        all_known(forward_field(m, scope, node)),
{
    if let Some(key) = node.head {
        if let Some(f) = scope.field_of(key.text@) {
            lemma_forward_refs(
                m,
                scope,
                f,
                key,
                crate::maplayer::value_refs(f.value_type, node.values@),
                0,
            );
        }
    }
}

proof fn lemma_forward(m: MapView<'_>, node: int, k: int)
    ensures
        all_known(forward_subtree(m, node, k)),
    decreases m.parse.nodes@.len() - node, m.parse.nodes@[node].elements@.len() - k,
{
    if 0 <= k < m.parse.nodes@[node].elements@.len() {
        if let Element::Node(c) = m.parse.nodes@[node].elements@[k] {
            if node < c < m.parse.nodes@.len() {
                lemma_forward_field(
                    m,
                    crate::model::scope_of(m.analyzer, m.parse, node),
                    m.parse.nodes@[c as int],
                );
                lemma_forward(m, c as int, 0);
            }
        }
        lemma_forward(m, node, k + 1);
    }
}

proof fn lemma_projectiles(m: MapView<'_>, node: int, k: int)
    ensures
        all_known(projectile_fields(m, node, k)),
    decreases m.parse.nodes@[node].elements@.len() - k,
{
    lemma_literals();
    if 0 <= k < m.parse.nodes@[node].elements@.len() {
        lemma_projectiles(m, node, k + 1);
    }
}

proof fn lemma_map_block(m: MapView<'_>, node: int)
    ensures
        all_known(map_block_diags(m, node)),
{
    lemma_literals();
    lemma_forward(m, node, 0);
    assert(all_known(reskin_diags(m, m.parse.nodes@[node])));
    lemma_projectiles(m, node, 0);
}

proof fn lemma_map_blocks(
    ctx: Ctx<'_>,
    defs: Seq<MapDefView>,
    file: Seq<char>,
    k: int,
    order: int,
)
    ensures
        all_known(map_blocks_from(ctx, defs, file, k, order)),
    decreases ctx.parse.nodes@[0].elements@.len() - k,
{
    if 0 <= k < ctx.parse.nodes@[0].elements@.len() {
        if let Element::Node(c) = ctx.parse.nodes@[0].elements@[k] {
            let m = MapView {
                analyzer: ctx.analyzer,
                parse: ctx.parse,
                index: ctx.index,
                defs,
                order,
                consumer: crate::maplayer::header_text(ctx.parse.nodes@[c as int]),
                file,
            };
            lemma_map_block(m, c as int);
        }
        lemma_map_blocks(ctx, defs, file, k + 1, order + 1);
        lemma_map_blocks(ctx, defs, file, k + 1, order);
    }
}

proof fn lemma_words(list: Seq<char>, spans: Seq<(int, int)>, base: int, w: int)
    ensures
        all_known(word_effects(list, spans, base, w).hints),
    decreases spans.len() - w,
{
    lemma_literals();
    if 0 <= w < spans.len() {
        lemma_words(list, spans, base, w + 1);
    }
}

proof fn lemma_token_effects(tok: SyntaxToken)
    ensures
        all_known(token_effects(tok).hints),
{
    if let Some(list) = crate::diagnostics::pragma_list(tok.text@) {
        lemma_words(
            list,
            crate::diagnostics::words_from(list, 0),
            crate::diagnostics::pragma_base(tok, list),
            0,
        );
    }
}

proof fn lemma_hints(parse: &Parse, k: int)
    ensures
        all_known(suppressions_from(parse, k).hints),
    decreases parse.nodes@[0].elements@.len() - k,
{
    if 0 <= k < parse.nodes@[0].elements@.len() {
        lemma_hints(parse, k + 1);
        if let Element::Token(tok) = parse.nodes@[0].elements@[k] {
            lemma_token_effects(tok);
        }
    }
}

proof fn lemma_kept(list: Seq<DiagnosticView>, codes: Seq<Seq<char>>)
    requires
        all_known(list),
    ensures
        all_known(kept(list, codes)),
    decreases list.len(),
{
    if list.len() > 0 {
        assert(all_known(list.drop_last()));
        lemma_kept(list.drop_last(), codes);
    }
}

/// Every finding of a document has one of the known codes: a code that a
/// finding shows can be written in a suppression, and is no typing error
/// there.
pub proof fn law_every_code_is_known(ctx: Ctx<'_>)
    ensures
        forall|i: int|
            0 <= i < document_diags(ctx).len() ==> known_codes().contains(
                (#[trigger] document_diags(ctx)[i]).code,
            ),
{
    lemma_syntax(ctx.parse.errors@, 0);
    lemma_children(ctx, 0);
    if let Some(file) = ctx.file {
        lemma_map_blocks(
            ctx,
            crate::maplayer::map_defs_from(ctx.analyzer, ctx.parse, 0, 0),
            crate::text::last_part(file@, '/', '\\'),
            0,
            0,
        );
    }
    assert(all_known(map_layer_diags(ctx)));
    lemma_hints(ctx.parse, 0);
    let suppression = suppressions_from(ctx.parse, 0);
    lemma_kept(crate::diagnostics::raw_diags(ctx) + suppression.hints, suppression.codes);
    reveal(known);
}

} // verus!
