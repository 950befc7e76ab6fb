//! Which models a part of a model may belong to, and what is said of unknown ones.

use vstd::prelude::*;

use crate::analyzer::Analyzer;
use crate::laws::assets::{known_model, law_models_are_known_by_name};
use crate::laws::definitions::{lemma_child, lies_in};
use crate::laws::document::{checked_line, lemma_line_told, told};
use crate::laws::lists::{lemma_behind, lemma_front};
use crate::laws::references::{declared_line, lemma_unquoted, writes};
use crate::laws::tree::law_nodes_lie_in_scopes;
use crate::laws::values::bare;
use crate::model::{
    bare_texts, child_value, enclosing_object, field_models, scope_models, scope_of, source_models,
    subtree_models, value_models,
};
use crate::reader::reads;
use crate::schema::{Field, ModelSource};
use crate::scopes::{field_diags, model_asset_diags, model_field_diags, raw_asset_diags};
use crate::syntax::{Element, Parse, SyntaxKind, SyntaxToken};
use crate::text::same_ci;
use crate::values::{value_diags, Ctx, DiagnosticView, Severity};

verus! {

proof fn lemma_named_under(
    analyzer: &Analyzer,
    parse: &Parse,
    node: int,
    j: int,
    k: int,
    c: int,
    name: Seq<char>,
)
    requires
        parse.wf(),
        0 <= node < parse.nodes@.len(),
        0 <= j <= k < parse.nodes@[node].elements@.len(),
        parse.nodes@[node].elements@[k] matches Element::Node(x) && x == c,
        if parse.nodes@[c].kind is Field {
            field_models(
                scope_of(analyzer, parse, node),
                parse.nodes@[c].head,
                parse.nodes@[c].values@,
            ).contains(name)
        } else {
            !(parse.nodes@[c].kind is Root) && subtree_models(analyzer, parse, c, 0).contains(name)
        },
    ensures
        subtree_models(analyzer, parse, node, j).contains(name),
    decreases k - j,
{
    let here = match parse.nodes@[node].elements@[j] {
        Element::Node(x) => match parse.nodes@[x as int].kind {
            SyntaxKind::Field => field_models(
                scope_of(analyzer, parse, node),
                parse.nodes@[x as int].head,
                parse.nodes@[x as int].values@,
            ),
            SyntaxKind::Root => Seq::empty(),
            _ => subtree_models(analyzer, parse, x as int, 0),
        },
        Element::Token(_) => Seq::empty(),
    };
    let rest = subtree_models(analyzer, parse, node, j + 1);
    assert(subtree_models(analyzer, parse, node, j) == here + rest);
    if j < k {
        lemma_named_under(analyzer, parse, node, j + 1, k, c, name);
        lemma_behind(here, rest, name);
    } else {
        lemma_front(here, rest, name);
    }
}

proof fn lemma_named_in(
    analyzer: &Analyzer,
    text: Seq<char>,
    tokens: Seq<SyntaxToken>,
    parse: &Parse,
    o: int,
    c: int,
    name: Seq<char>,
)
    requires
        reads(analyzer, text, tokens, parse),
        0 < o < c < parse.nodes@.len(),
        lies_in(parse, c, o),
        parse.nodes@[c].parent matches Some(q) && if parse.nodes@[c].kind is Field {
            field_models(
                scope_of(analyzer, parse, q as int),
                parse.nodes@[c].head,
                parse.nodes@[c].values@,
            ).contains(name)
        } else {
            !(parse.nodes@[c].kind is Root) && subtree_models(analyzer, parse, c, 0).contains(name)
        },
    ensures
        subtree_models(analyzer, parse, o, 0).contains(name),
    decreases c,
{
    let q = parse.nodes@[c].parent->Some_0 as int;
    let k = lemma_child(analyzer, text, tokens, parse, q, c);
    lemma_named_under(analyzer, parse, q, 0, k, c, name);
    if q != o {
        law_nodes_lie_in_scopes(analyzer, text, tokens, parse, c);
        law_nodes_lie_in_scopes(analyzer, text, tokens, parse, q);
        lemma_named_in(analyzer, text, tokens, parse, o, q, name);
    }
}

/// A part may belong to every model that a field in its own scope names, at any depth;
/// a scope that names none takes the models of the scope around it.
pub proof fn law_parts_belong_to_models_around(
    analyzer: &Analyzer,
    text: Seq<char>,
    tokens: Seq<SyntaxToken>,
    parse: &Parse,
    node: int,
    p: int,
    c: int,
    field: Field,
    i: int,
    name: Seq<char>,
    index: &crate::index::WorkspaceIndex,
)
    requires
        declared_line(analyzer, text, tokens, parse, p, c, field),
        0 < node < c,
        lies_in(parse, c, node),
        0 <= i < parse.nodes@[c].values@.len(),
        field.value_type is W3dModel && i == 0 || field.value_type is W3dModelList,
        name.len() > 0,
        writes(parse.nodes@[c].values@[i].text@, name),
    ensures
        scope_models(analyzer, parse, node).contains(name),
        source_models(analyzer, parse, node, None, index).contains(name),
{
    let n = parse.nodes@[c];
    lemma_unquoted(n.values@[i].text@, name);
    let found = value_models(field.value_type, bare_texts(n.values@));
    assert(found[i] == name);
    assert(found.contains(name));
    lemma_named_in(analyzer, text, tokens, parse, node, c, name);
}

/// A scope that names no model takes those of the scope around it.
pub proof fn law_scopes_without_models_look_around(
    analyzer: &Analyzer,
    parse: &Parse,
    node: int,
    p: int,
)
    requires
        0 <= p < node,
        parse.nodes@[node].parent matches Some(q) && q == p,
        parse.nodes@[p].kind is Block || parse.nodes@[p].kind is Module,
        subtree_models(analyzer, parse, node, 0).len() == 0,
    ensures
        scope_models(analyzer, parse, node) == scope_models(analyzer, parse, p),
{
}

/// Where nothing around names a model, the models are those of the object around, by
/// the index; and where the field looks at an object that another field names, those of
/// that object.
pub proof fn law_models_of_objects_are_taken(
    analyzer: &Analyzer,
    parse: &Parse,
    node: int,
    c: int,
    k: int,
    field: String,
    object: Seq<char>,
    index: &crate::index::WorkspaceIndex,
)
    requires
        0 <= k < parse.nodes@[node].elements@.len(),
        parse.nodes@[node].elements@[k] matches Element::Node(x) && x == c,
        parse.nodes@[c].head matches Some(head) && same_ci(head.text@, field@),
        parse.nodes@[c].values@.len() > 0,
        object.len() > 0,
        writes(parse.nodes@[c].values@[0].text@, object),
        forall|j: int|
            0 <= j < k ==> ((#[trigger] parse.nodes@[node].elements@[j]) matches Element::Node(x) ==> (
            parse.nodes@[x as int].head matches Some(h) ==> !same_ci(h.text@, field@))),
    ensures
        source_models(
            analyzer,
            parse,
            node,
            Some(ModelSource::ObjectReferenceField { field }),
            index,
        ) == crate::model::indexed_models(index, object),
{
    lemma_unquoted(parse.nodes@[c].values@[0].text@, object);
    lemma_child_value(parse, node, field@, 0, k, c);
}

proof fn lemma_child_value(parse: &Parse, node: int, key: Seq<char>, from: int, k: int, c: int)
    requires
        0 <= from <= k < parse.nodes@[node].elements@.len(),
        parse.nodes@[node].elements@[k] matches Element::Node(x) && x == c,
        parse.nodes@[c].head matches Some(head) && same_ci(head.text@, key),
        parse.nodes@[c].values@.len() > 0,
        forall|j: int|
            0 <= j < k ==> ((#[trigger] parse.nodes@[node].elements@[j]) matches Element::Node(x) ==> (
            parse.nodes@[x as int].head matches Some(h) ==> !same_ci(h.text@, key))),
    ensures
        child_value(parse, node, key, from) == Some(
            crate::text::unquoted(parse.nodes@[c].values@[0].text@),
        ),
    decreases k - from,
{
    if from < k {
        lemma_child_value(parse, node, key, from + 1, k, c);
        assert(parse.nodes@[node].elements@[from] matches Element::Node(x) ==> (
        parse.nodes@[x as int].head matches Some(h) ==> !same_ci(h.text@, key)));
    }
}

/// Inside an object, at any depth, the object around is that one.
pub proof fn law_objects_lie_around(parse: &Parse, o: int, c: int)
    requires
        0 <= o < c,
        lies_in(parse, c, o),
        parse.nodes@[o].head matches Some(kw) && same_ci(kw.text@, "Object"@),
        parse.nodes@[o].name is Some,
        parse.nodes@[c].head matches Some(kw) ==> !same_ci(kw.text@, "Object"@),
        parse.nodes@[c].parent matches Some(q) && (q == o || (enclosing_object(parse, q as int)
            == Some(parse.nodes@[o].name->Some_0.text@))),
    ensures
        enclosing_object(parse, c) == Some(parse.nodes@[o].name->Some_0.text@),
{
}

/// A model that no indexed file holds is warned of at its place, once some model is
/// indexed.
pub proof fn law_unknown_models_are_told(
    ctx: Ctx<'_>,
    text: Seq<char>,
    tokens: Seq<SyntaxToken>,
    p: int,
    c: int,
    field: Field,
)
    requires
        checked_line(ctx, text, tokens, p, c),
        scope_of(ctx.analyzer, ctx.parse, p).field_of(ctx.parse.nodes@[c].head->Some_0.text@)
            == Some(field),
        field.value_type is W3dModel,
        ctx.parse.nodes@[c].values@.len() > 0,
        bare(ctx.parse.nodes@[c].values@[0].text@),
        ctx.parse.nodes@[c].values@[0].text@.len() > 0,
        !same_ci(ctx.parse.nodes@[c].values@[0].text@, "None"@),
        ctx.index matches Some(index) && index.model_rows().len() > 0 && !known_model(
            index,
            ctx.parse.nodes@[c].values@[0].text@,
        ),
    ensures
        told(ctx, Severity::Warning, "unknown-model"@, ctx.parse.nodes@[c].values@[0].span),
{
    let node = ctx.parse.nodes@[c];
    let values = node.values@;
    let name = values[0].text@;
    let index = ctx.index->Some_0;
    crate::laws::values::law_quotes_are_taken_off(name);
    law_models_are_known_by_name(index, name);
    let own = model_asset_diags(ctx, p, field, values);
    assert(own == model_field_diags(ctx, p, field, values, 0));
    assert(crate::scopes::model_type_at(field.value_type, values, 0) == Some(field.value_type));
    let d = own[0];
    assert(own.contains(d));
    lemma_assets_told(ctx, text, tokens, p, c, field, d);
}

/// What is said of the files and models that a field's values name is said of the
/// document.
pub proof fn lemma_assets_told(
    ctx: Ctx<'_>,
    text: Seq<char>,
    tokens: Seq<SyntaxToken>,
    p: int,
    c: int,
    field: Field,
    d: DiagnosticView,
)
    requires
        checked_line(ctx, text, tokens, p, c),
        scope_of(ctx.analyzer, ctx.parse, p).field_of(ctx.parse.nodes@[c].head->Some_0.text@)
            == Some(field),
        model_asset_diags(ctx, p, field, ctx.parse.nodes@[c].values@).contains(d)
            || raw_asset_diags(ctx, ctx.parse.nodes@[c].values@, field.value_type).contains(d),
    ensures
        told(ctx, d.severity, d.code, d.span),
{
    let node = ctx.parse.nodes@[c];
    let key = node.head->Some_0;
    let scope = scope_of(ctx.analyzer, ctx.parse, p);
    let first = value_diags(ctx, node.head, node.values@, field.value_type);
    let second = if same_ci(key.text@, "RemoveModule"@) {
        crate::scopes::remove_module_diags(ctx, node.values@, ctx.parse.nodes@[p].name)
    } else {
        Seq::empty()
    };
    let third = model_asset_diags(ctx, p, field, node.values@);
    let fourth = raw_asset_diags(ctx, node.values@, field.value_type);
    assert(field_diags(ctx, scope, p, node) =~= first + second + third + fourth);
    if third.contains(d) {
        lemma_behind(first + second, third, d);
        lemma_front(first + second + third, fourth, d);
    } else {
        lemma_behind(first + second + third, fourth, d);
    }
    lemma_line_told(ctx, text, tokens, p, c, d);
}

/// Every finding about the game files that a field's values name is one of the
/// document.
pub proof fn law_unknown_files_are_told(
    ctx: Ctx<'_>,
    text: Seq<char>,
    tokens: Seq<SyntaxToken>,
    p: int,
    c: int,
    field: Field,
    i: int,
)
    requires
        checked_line(ctx, text, tokens, p, c),
        scope_of(ctx.analyzer, ctx.parse, p).field_of(ctx.parse.nodes@[c].head->Some_0.text@)
            == Some(field),
        0 <= i < raw_asset_diags(ctx, ctx.parse.nodes@[c].values@, field.value_type).len(),
    ensures
        ({
            let d = raw_asset_diags(ctx, ctx.parse.nodes@[c].values@, field.value_type)[i];
            told(ctx, d.severity, d.code, d.span)
        }),
{
    let all = raw_asset_diags(ctx, ctx.parse.nodes@[c].values@, field.value_type);
    assert(all.contains(all[i]));
    lemma_assets_told(ctx, text, tokens, p, c, field, all[i]);
}

} // verus!
