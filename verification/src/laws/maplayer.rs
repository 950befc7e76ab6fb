//! What is said of the order of blocks in files that are merged over others.

use vstd::prelude::*;

use crate::diagnostics::{children_diags, document_diags, syntax_diags};
use crate::extract::is_field_named;
use crate::index::override_layer;
use crate::laws::definitions::{lemma_child, lies_in};
use crate::laws::document::{is_at, law_findings_are_not_silenced, silenced, told};
use crate::laws::lists::{lemma_behind, lemma_front};
use crate::laws::schema::{last_block, law_block_types_are_found};
use crate::laws::tree::law_nodes_lie_in_scopes;
use crate::laws::values::bare;
use crate::maplayer::{
    based, eager, file_defines, forward_field, forward_refs, forward_subtree, header_text,
    later_def, map_block_diags, map_blocks_from, map_def_of, map_defs_from, map_layer_diags,
    projectile_diags, projectile_fields, reskin_diags, value_refs, MapDefView, MapRefView, MapView,
};
use crate::model::scope_of;
use crate::reader::reads;
use crate::schema::{Field, RefKind, ValueType};
use crate::syntax::{Element, Parse, SyntaxKind, SyntaxToken};
use crate::text::{last_part, lower, same_ci};
use crate::values::{stripped, Ctx, DiagnosticView, Severity};

verus! {

proof fn lemma_map_told(ctx: Ctx<'_>, d: DiagnosticView)
    requires
        map_layer_diags(ctx).contains(d),
    ensures
        told(ctx, d.severity, d.code, d.span),
{
    let front = syntax_diags(ctx.parse.errors@, 0) + children_diags(ctx, 0);
    lemma_behind(front, map_layer_diags(ctx), d);
    law_findings_are_not_silenced(ctx, d);
    if !silenced(ctx, d.code) {
        assert(document_diags(ctx).contains(d) && is_at(d, d.severity, d.code, d.span));
    }
}

/// The number of blocks at the top before element `k`.
pub open spec fn blocks_before(parse: &Parse, k: int) -> int
    decreases k,
{
    if k <= 0 {
        0
    } else {
        blocks_before(parse, k - 1) + match parse.nodes@[0].elements@[k - 1] {
            Element::Node(c) => if parse.nodes@[c as int].kind is Block {
                1int
            } else {
                0int
            },
            Element::Token(_) => 0int,
        }
    }
}

proof fn lemma_before(parse: &Parse, a: int, b: int)
    requires
        0 <= a < b,
        parse.nodes@[0].elements@[a] matches Element::Node(c) && parse.nodes@[c as int].kind is Block,
    ensures
        blocks_before(parse, a) < blocks_before(parse, b),
    decreases b - a,
{
    if b > a + 1 {
        lemma_before(parse, a, b - 1);
    }
}

proof fn lemma_def_listed(ctx: Ctx<'_>, k: int, j: int, c: int, d: MapDefView)
    requires
        0 <= j <= k < ctx.parse.nodes@[0].elements@.len(),
        ctx.parse.nodes@[0].elements@[k] matches Element::Node(x) && x == c,
        ctx.parse.nodes@[c].kind is Block,
        map_def_of(ctx.analyzer, ctx.parse.nodes@[c], blocks_before(ctx.parse, k)).contains(d),
    ensures
        map_defs_from(ctx.analyzer, ctx.parse, j, blocks_before(ctx.parse, j)).contains(d),
    decreases k - j,
{
    let order = blocks_before(ctx.parse, j);
    let next = blocks_before(ctx.parse, j + 1);
    if j < k {
        lemma_def_listed(ctx, k, j + 1, c, d);
        if let Element::Node(x) = ctx.parse.nodes@[0].elements@[j] {
            if ctx.parse.nodes@[x as int].kind is Block {
                lemma_behind(
                    map_def_of(ctx.analyzer, ctx.parse.nodes@[x as int], order),
                    map_defs_from(ctx.analyzer, ctx.parse, j + 1, next),
                    d,
                );
            }
        }
    } else {
        lemma_front(
            map_def_of(ctx.analyzer, ctx.parse.nodes@[c], order),
            map_defs_from(ctx.analyzer, ctx.parse, j + 1, next),
            d,
        );
    }
}

/// What the checks of a block at the top of the file know.
pub open spec fn map_view<'a>(ctx: Ctx<'a>, k: int, c: int) -> MapView<'a> {
    MapView {
        analyzer: ctx.analyzer,
        parse: ctx.parse,
        index: ctx.index,
        defs: map_defs_from(ctx.analyzer, ctx.parse, 0, 0),
        order: blocks_before(ctx.parse, k),
        consumer: header_text(ctx.parse.nodes@[c]),
        file: last_part(ctx.file->Some_0@, '/', '\\'),
    }
}

proof fn lemma_block_told(ctx: Ctx<'_>, k: int, j: int, c: int, d: DiagnosticView)
    requires
        ctx.file matches Some(file) && override_layer(file@),
        0 <= j <= k < ctx.parse.nodes@[0].elements@.len(),
        ctx.parse.nodes@[0].elements@[k] matches Element::Node(x) && x == c,
        ctx.parse.nodes@[c].kind is Block,
        map_block_diags(map_view(ctx, k, c), c).contains(d),
    ensures
        map_blocks_from(
            ctx,
            map_defs_from(ctx.analyzer, ctx.parse, 0, 0),
            last_part(ctx.file->Some_0@, '/', '\\'),
            j,
            blocks_before(ctx.parse, j),
        ).contains(d),
    decreases k - j,
{
    let defs = map_defs_from(ctx.analyzer, ctx.parse, 0, 0);
    let file = last_part(ctx.file->Some_0@, '/', '\\');
    let rest = map_blocks_from(ctx, defs, file, j + 1, blocks_before(ctx.parse, j + 1));
    if j < k {
        lemma_block_told(ctx, k, j + 1, c, d);
        if let Element::Node(x) = ctx.parse.nodes@[0].elements@[j] {
            if ctx.parse.nodes@[x as int].kind is Block {
                lemma_behind(map_block_diags(map_view(ctx, j, x as int), x as int), rest, d);
            }
        }
    } else {
        lemma_front(map_block_diags(map_view(ctx, k, c), c), rest, d);
    }
}

/// Block `b` at the top, element `k` of the root, defines that kind under the name.
pub open spec fn defines_at(
    ctx: Ctx<'_>,
    k: int,
    b: int,
    t: int,
    kind: RefKind,
    name: Seq<char>,
) -> bool {
    &&& 0 <= k < ctx.parse.nodes@[0].elements@.len()
    &&& ctx.parse.nodes@[0].elements@[k] matches Element::Node(x) && x == b
    &&& ctx.parse.nodes@[b].kind is Block
    &&& ctx.parse.nodes@[b].head matches Some(kw) && last_block(
        ctx.analyzer.schema.blocks@,
        kw.text@,
        t,
    )
    &&& ctx.analyzer.schema.blocks@[t].defines == Some(kind)
    &&& ctx.parse.nodes@[b].name matches Some(n) && same_ci(n.text@, name)
}

proof fn lemma_defined(
    ctx: Ctx<'_>,
    k: int,
    b: int,
    t: int,
    kind: RefKind,
    name: Seq<char>,
) -> (i: int)
    requires
        defines_at(ctx, k, b, t, kind, name),
    ensures
        ({
            let defs = map_defs_from(ctx.analyzer, ctx.parse, 0, 0);
            &&& 0 <= i < defs.len()
            &&& defs[i].kind == kind
            &&& defs[i].key == lower(name)
            &&& defs[i].order == blocks_before(ctx.parse, k)
        }),
{
    let defs = map_defs_from(ctx.analyzer, ctx.parse, 0, 0);
    law_block_types_are_found(
        ctx.analyzer.schema.blocks@,
        ctx.parse.nodes@[b].head->Some_0.text@,
        t,
    );
    let own = map_def_of(ctx.analyzer, ctx.parse.nodes@[b], blocks_before(ctx.parse, k));
    assert(own.contains(own[0]));
    lemma_def_listed(ctx, k, 0, b, own[0]);
    let i = choose|i: int| 0 <= i < defs.len() && defs[i] == own[0];
    i
}

proof fn lemma_later(
    defs: Seq<MapDefView>,
    kind: RefKind,
    key: Seq<char>,
    order: int,
    from: int,
    i: int,
)
    requires
        0 <= from <= i < defs.len(),
        defs[i].kind == kind && defs[i].key == key && defs[i].order > order,
    ensures
        later_def(defs, kind, key, order, from) is Some,
    decreases i - from,
{
    if from < i {
        lemma_later(defs, kind, key, order, from + 1, i);
    }
}

proof fn lemma_not_later(
    defs: Seq<MapDefView>,
    kind: RefKind,
    key: Seq<char>,
    order: int,
    from: int,
)
    requires
        0 <= from,
        forall|i: int|
            0 <= i < defs.len() && (#[trigger] defs[i]).kind == kind && defs[i].key == key
                ==> defs[i].order <= order,
    ensures
        later_def(defs, kind, key, order, from) is None,
    decreases defs.len() - from,
{
    if from < defs.len() {
        lemma_not_later(defs, kind, key, order, from + 1);
    }
}

proof fn lemma_forward_under(
    m: MapView<'_>,
    node: int,
    j: int,
    k: int,
    c: int,
    d: DiagnosticView,
)
    requires
        m.parse.wf(),
        0 <= node < m.parse.nodes@.len(),
        0 <= j <= k < m.parse.nodes@[node].elements@.len(),
        m.parse.nodes@[node].elements@[k] matches Element::Node(x) && x == c,
        if m.parse.nodes@[c].kind is Field {
            forward_field(m, scope_of(m.analyzer, m.parse, node), m.parse.nodes@[c]).contains(d)
        } else {
            !(m.parse.nodes@[c].kind is Root) && forward_subtree(m, c, 0).contains(d)
        },
    ensures
        forward_subtree(m, node, j).contains(d),
    decreases k - j,
{
    let here = match m.parse.nodes@[node].elements@[j] {
        Element::Node(x) => match m.parse.nodes@[x as int].kind {
            SyntaxKind::Field => forward_field(
                m,
                scope_of(m.analyzer, m.parse, node),
                m.parse.nodes@[x as int],
            ),
            SyntaxKind::Root => Seq::empty(),
            _ => forward_subtree(m, x as int, 0),
        },
        Element::Token(_) => Seq::empty(),
    };
    let rest = forward_subtree(m, node, j + 1);
    assert(forward_subtree(m, node, j) == here + rest);
    if j < k {
        lemma_forward_under(m, node, j + 1, k, c, d);
        lemma_behind(here, rest, d);
    } else {
        lemma_front(here, rest, d);
    }
}

proof fn lemma_forward_in(
    m: MapView<'_>,
    text: Seq<char>,
    tokens: Seq<SyntaxToken>,
    o: int,
    c: int,
    d: DiagnosticView,
)
    requires
        reads(m.analyzer, text, tokens, m.parse),
        0 < o < c < m.parse.nodes@.len(),
        lies_in(m.parse, c, o),
        m.parse.nodes@[c].parent matches Some(q) && if m.parse.nodes@[c].kind is Field {
            forward_field(
                m,
                scope_of(m.analyzer, m.parse, q as int),
                m.parse.nodes@[c],
            ).contains(d)
        } else {
            !(m.parse.nodes@[c].kind is Root) && forward_subtree(m, c, 0).contains(d)
        },
    ensures
        forward_subtree(m, o, 0).contains(d),
    decreases c,
{
    let q = m.parse.nodes@[c].parent->Some_0 as int;
    let k = lemma_child(m.analyzer, text, tokens, m.parse, q, c);
    lemma_forward_under(m, q, 0, k, c, d);
    if q != o {
        law_nodes_lie_in_scopes(m.analyzer, text, tokens, m.parse, c);
        law_nodes_lie_in_scopes(m.analyzer, text, tokens, m.parse, q);
        lemma_forward_in(m, text, tokens, o, q, d);
    }
}

/// In a file that is merged over others, a reference that the game resolves at once
/// is warned of, at its place, where what it names is defined by a later block of the
/// file and by no file below.
pub proof fn law_forward_references_are_told(
    ctx: Ctx<'_>,
    text: Seq<char>,
    tokens: Seq<SyntaxToken>,
    a: int,
    p: int,
    c: int,
    field: Field,
    kind: RefKind,
    ka: int,
    kb: int,
    b: int,
    t: int,
)
    requires
        reads(ctx.analyzer, text, tokens, ctx.parse),
        ctx.file matches Some(file) && override_layer(file@),
        0 < a < c < ctx.parse.nodes@.len(),
        lies_in(ctx.parse, c, a),
        ctx.parse.nodes@[c].kind is Field,
        ctx.parse.nodes@[c].parent matches Some(q) && q == p,
        ctx.parse.nodes@[c].head matches Some(key) && scope_of(
            ctx.analyzer,
            ctx.parse,
            p,
        ).field_of(key.text@) == Some(field),
        field.value_type == (ValueType::Reference { ref_kind: kind }),
        eager(scope_of(ctx.analyzer, ctx.parse, p), field, kind),
        ctx.parse.nodes@[c].values@.len() > 0,
        bare(ctx.parse.nodes@[c].values@[0].text@),
        !same_ci(ctx.parse.nodes@[c].values@[0].text@, "None"@),
        !based(ctx.index, kind, ctx.parse.nodes@[c].values@[0].text@),
        0 <= ka < kb,
        ctx.parse.nodes@[0].elements@[ka] matches Element::Node(x) && x == a,
        ctx.parse.nodes@[a].kind is Block,
        defines_at(ctx, kb, b, t, kind, ctx.parse.nodes@[c].values@[0].text@),
    ensures
        told(
            ctx,
            Severity::Warning,
            "map-forward-reference"@,
            ctx.parse.nodes@[c].values@[0].span,
        ),
{
    let node = ctx.parse.nodes@[c];
    let value = node.values@[0];
    let name = value.text@;
    let m = map_view(ctx, ka, a);
    crate::laws::values::law_quotes_are_taken_off(name);
    let refs = value_refs(field.value_type, node.values@);
    assert(refs =~= seq![MapRefView { kind, span: value.span, name }]);
    let i = lemma_defined(ctx, kb, b, t, kind, name);
    lemma_before(ctx.parse, ka, kb);
    lemma_later(m.defs, kind, lower(name), m.order, 0, i);
    let scope = scope_of(ctx.analyzer, ctx.parse, p);
    let found = forward_refs(m, scope, field, node.head->Some_0, refs, 0);
    let d = found[0];
    assert(found.contains(d));
    lemma_forward_in(m, text, tokens, a, c, d);
    let tail = reskin_diags(m, ctx.parse.nodes@[a]);
    lemma_front(forward_subtree(m, a, 0), tail, d);
    lemma_front(forward_subtree(m, a, 0) + tail, projectile_diags(m, a), d);
    lemma_block_told(ctx, ka, 0, a, d);
    lemma_map_told(ctx, d);
}

/// A reference is not told of where every definition of it in the file stands in the
/// same block or before it, nor where a file below defines it.
pub proof fn law_backward_references_are_fine(
    m: MapView<'_>,
    scope: crate::model::ScopeSchema<'_>,
    field: Field,
    key: SyntaxToken,
    r: MapRefView,
)
    requires
        based(m.index, r.kind, r.name) || same_ci(r.name, "None"@) || forall|i: int|
            0 <= i < m.defs.len() && (#[trigger] m.defs[i]).kind == r.kind && m.defs[i].key
                == lower(r.name) ==> m.defs[i].order <= m.order,
    ensures
        forward_refs(m, scope, field, key, seq![r], 0).len() == 0,
{
    reveal_with_fuel(forward_refs, 2);
    assert(seq![r][0] == r);
    if !(based(m.index, r.kind, r.name) || same_ci(r.name, "None"@)) {
        lemma_not_later(m.defs, r.kind, lower(r.name), m.order, 0);
    }
}

/// The order of blocks is only looked at in files that are merged over others.
pub proof fn law_other_files_have_no_order(ctx: Ctx<'_>)
    requires
        ctx.file matches Some(file) ==> !override_layer(file@),
    ensures
        map_layer_diags(ctx).len() == 0,
{
}

/// An object that takes the look of one which only a later block of the file
/// defines is warned of at that one's name.
pub proof fn law_early_reskins_are_told(
    ctx: Ctx<'_>,
    a: int,
    ka: int,
    kb: int,
    b: int,
    t: int,
)
    requires
        ctx.file matches Some(file) && override_layer(file@),
        0 <= ka < kb,
        ctx.parse.nodes@[0].elements@[ka] matches Element::Node(x) && x == a,
        ctx.parse.nodes@[a].kind is Block,
        ctx.parse.nodes@[a].head matches Some(kw) && same_ci(kw.text@, "ObjectReskin"@),
        ctx.parse.nodes@[a].tag matches Some(parent) && bare(parent.text@) && !based(
            ctx.index,
            RefKind::Object,
            parent.text@,
        ) && defines_at(ctx, kb, b, t, RefKind::Object, parent.text@),
    ensures
        told(
            ctx,
            Severity::Warning,
            "map-forward-reference"@,
            ctx.parse.nodes@[a].tag->Some_0.span,
        ),
{
    let parent = ctx.parse.nodes@[a].tag->Some_0;
    let name = parent.text@;
    let m = map_view(ctx, ka, a);
    crate::laws::values::law_quotes_are_taken_off(name);
    let i = lemma_defined(ctx, kb, b, t, RefKind::Object, name);
    lemma_before(ctx.parse, ka, kb);
    lemma_later(m.defs, RefKind::Object, lower(name), m.order, 0, i);
    let found = reskin_diags(m, ctx.parse.nodes@[a]);
    let d = found[0];
    assert(found.contains(d));
    lemma_behind(forward_subtree(m, a, 0), found, d);
    lemma_front(forward_subtree(m, a, 0) + found, projectile_diags(m, a), d);
    lemma_block_told(ctx, ka, 0, a, d);
    lemma_map_told(ctx, d);
}

proof fn lemma_projectile_at(m: MapView<'_>, node: int, j: int, k: int, c: int) -> (d:
    DiagnosticView)
    requires
        0 <= j <= k < m.parse.nodes@[node].elements@.len(),
        m.parse.nodes@[node].elements@[k] matches Element::Node(x) && x == c,
        is_field_named(m.parse.nodes@[c], "ProjectileObject"@),
        m.parse.nodes@[c].values@.len() > 0,
        !same_ci(stripped(m.parse.nodes@[c].values@[0].text@), "None"@),
        file_defines(
            m.defs,
            RefKind::Object,
            lower(stripped(m.parse.nodes@[c].values@[0].text@)),
        ),
    ensures
        projectile_fields(m, node, j).contains(d),
        is_at(
            d,
            Severity::Warning,
            "map-projectile-object"@,
            m.parse.nodes@[c].values@[0].span,
        ),
    decreases k - j,
{
    let all = projectile_fields(m, node, j);
    let rest = projectile_fields(m, node, j + 1);
    if j < k {
        let d = lemma_projectile_at(m, node, j + 1, k, c);
        let n = all.len() - rest.len();
        let i = choose|i: int| 0 <= i < rest.len() && rest[i] == d;
        assert(all[n + i] == d);
        d
    } else {
        assert(all.contains(all[0]));
        all[0]
    }
}

/// A weapon in such a file whose projectile is an object of the same file is warned
/// of at the object's name, wherever in the file the object stands.
pub proof fn law_map_projectiles_are_told(
    ctx: Ctx<'_>,
    a: int,
    ka: int,
    kc: int,
    c: int,
    kb: int,
    b: int,
    t: int,
)
    requires
        ctx.file matches Some(file) && override_layer(file@),
        0 <= ka < ctx.parse.nodes@[0].elements@.len(),
        ctx.parse.nodes@[0].elements@[ka] matches Element::Node(x) && x == a,
        ctx.parse.nodes@[a].kind is Block,
        ctx.parse.nodes@[a].head matches Some(kw) && same_ci(kw.text@, "Weapon"@),
        0 <= kc < ctx.parse.nodes@[a].elements@.len(),
        ctx.parse.nodes@[a].elements@[kc] matches Element::Node(x) && x == c,
        ctx.parse.nodes@[c].kind is Field,
        ctx.parse.nodes@[c].head matches Some(key) && same_ci(key.text@, "ProjectileObject"@),
        ctx.parse.nodes@[c].values@.len() > 0,
        bare(ctx.parse.nodes@[c].values@[0].text@),
        !same_ci(ctx.parse.nodes@[c].values@[0].text@, "None"@),
        defines_at(ctx, kb, b, t, RefKind::Object, ctx.parse.nodes@[c].values@[0].text@),
    ensures
        told(
            ctx,
            Severity::Warning,
            "map-projectile-object"@,
            ctx.parse.nodes@[c].values@[0].span,
        ),
{
    let value = ctx.parse.nodes@[c].values@[0];
    let m = map_view(ctx, ka, a);
    crate::laws::values::law_quotes_are_taken_off(value.text@);
    let i = lemma_defined(ctx, kb, b, t, RefKind::Object, value.text@);
    assert(m.defs[i].kind == RefKind::Object);
    assert(file_defines(m.defs, RefKind::Object, lower(value.text@)));
    let d = lemma_projectile_at(m, a, 0, kc, c);
    let front = forward_subtree(m, a, 0) + reskin_diags(m, ctx.parse.nodes@[a]);
    lemma_behind(front, projectile_diags(m, a), d);
    lemma_block_told(ctx, ka, 0, a, d);
    lemma_map_told(ctx, d);
}

/// A definition in a file below counts: one of that kind and name, in any ASCII
/// case, in a file that is not merged over others.
pub proof fn law_base_definitions(
    index: &crate::index::WorkspaceIndex,
    kind: RefKind,
    name: Seq<char>,
)
    ensures
        based(Some(index), kind, name) == exists|i: int|
            0 <= i < index.def_rows().len() && (
            #[trigger] index.def_rows()[i]).item.kind == kind && index.def_rows()[i].item.key
                == lower(name) && !override_layer(index.def_rows()[i].file),
        !based(None, kind, name),
{
}

} // verus!
