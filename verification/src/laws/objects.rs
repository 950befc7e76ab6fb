//! What is said of blocks that define something twice, and of the conditional sets of
//! objects.

use vstd::prelude::*;

use crate::index::{
    def_location, default_object, override_layer, picked, visible_tag, DefView, LocationView,
    WorkspaceIndex,
};
use crate::laws::document::is_at;
use crate::laws::lists::{lemma_behind, lemma_either, lemma_front};
use crate::laws::schema::{last_block, law_block_types_are_found};
use crate::laws::text::{around, lacks, law_last_parts};
use crate::laws::values::tells;
use crate::laws::w3d::lemma_dedup;
use crate::model::any_ci;
use crate::objects::{
    base_site, condition_in, condition_span, default_module_diags, facts_from, kept_tags,
    removed_names, facts_step, has_weapon_set,
    is_field_exactly, no_plus, other_sites, reachability_diags, redefinition, set_facts,
    set_triggered, unreached_sets, SetFacts,
};
use crate::schema::RefKind;
use crate::scopes::direct_field;
use crate::syntax::{Element, Parse, Span, SyntaxNode, SyntaxToken};
use crate::table::EntryView;
use crate::text::{lower, same_ci};
use crate::values::{stripped, Ctx, DiagnosticView, Severity};

verus! {

/// What is picked from a table is what a row gives.
pub proof fn lemma_picked<A, B>(rows: Seq<A>, f: spec_fn(A) -> Option<B>, b: B) -> (i: int)
    requires
        picked(rows, f).contains(b),
    ensures
        0 <= i < rows.len(),
        f(rows[i]) == Some(b),
    decreases rows.len(),
{
    assert(rows.len() > 0);
    let front = rows.drop_last();
    let rest = picked(front, f);
    if rest.contains(b) {
        let i = lemma_picked(front, f, b);
        assert(front[i] == rows[i]);
        i
    } else {
        assert(picked(rows, f) =~= rest + seq![b]) by {
            let all = picked(rows, f);
            if let Some(last) = f(rows.last()) {
                assert(all =~= rest + seq![last]);
                lemma_either(rest, seq![last], b);
            }
        }
        rows.len() - 1
    }
}

/// What a row gives is picked.
pub proof fn lemma_picks<A, B>(rows: Seq<A>, f: spec_fn(A) -> Option<B>, i: int, b: B)
    requires
        0 <= i < rows.len(),
        f(rows[i]) == Some(b),
    ensures
        picked(rows, f).contains(b),
    decreases rows.len(),
{
    let front = rows.drop_last();
    let rest = picked(front, f);
    if i < front.len() {
        assert(front[i] == rows[i]);
        lemma_picks(front, f, i, b);
        if let Some(last) = f(rows.last()) {
            assert(rest.push(last) =~= rest + seq![last]);
            lemma_front(rest, seq![last], b);
        }
    } else {
        assert(rest.push(b)[rest.len() as int] == b);
    }
}

/// The files that are merged over others are those named `map.ini` or `solo.ini`, in
/// any directory and in any ASCII case.
pub proof fn law_override_layers(dir: Seq<char>, c: char, name: Seq<char>)
    requires
        c == '/' || c == '\\',
        lacks(name, '/'),
        lacks(name, '\\'),
    ensures
        override_layer(around(dir, c, name)) == (same_ci(name, "map.ini"@) || same_ci(
            name,
            "solo.ini"@,
        )),
        override_layer(name) == (same_ci(name, "map.ini"@) || same_ci(name, "solo.ini"@)),
{
    law_last_parts(dir, c, name, '/', '\\');
}

/// A row that defines the name, in any ASCII case, at another place.
pub open spec fn defines_too(
    row: EntryView<DefView>,
    kind: RefKind,
    name: Seq<char>,
    file: Seq<char>,
    span: Span,
) -> bool {
    &&& row.item.kind == kind
    &&& row.item.key == lower(name)
    &&& row.file != file || row.item.span != span
}

/// The name is defined at another place.
pub open spec fn defined_too(
    index: &WorkspaceIndex,
    kind: RefKind,
    name: Seq<char>,
    file: Seq<char>,
    span: Span,
) -> bool {
    exists|i: int|
        0 <= i < index.def_rows().len() && defines_too(
            #[trigger] index.def_rows()[i],
            kind,
            name,
            file,
            span,
        )
}

/// The name is defined at another place, and not in a file that is merged over
/// others.
pub open spec fn defined_below(
    index: &WorkspaceIndex,
    kind: RefKind,
    name: Seq<char>,
    file: Seq<char>,
    span: Span,
) -> bool {
    exists|i: int|
        0 <= i < index.def_rows().len() && defines_too(
            #[trigger] index.def_rows()[i],
            kind,
            name,
            file,
            span,
        ) && !override_layer(index.def_rows()[i].file)
}

proof fn lemma_others(locs: Seq<LocationView>, file: Seq<char>, span: Span, l: LocationView)
    ensures
        other_sites(locs, file, span).contains(l) <==> locs.contains(l) && !(l.file == file
            && l.span == span),
    decreases locs.len(),
{
    if locs.len() > 0 {
        let front = locs.drop_last();
        let last = locs.last();
        let rest = other_sites(front, file, span);
        lemma_others(front, file, span, l);
        assert(locs =~= front + seq![last]);
        if front.contains(l) {
            lemma_front(front, seq![last], l);
        }
        if locs.contains(l) {
            lemma_either(front, seq![last], l);
        }
        assert(locs[locs.len() - 1] == last);
        assert(rest.push(last) =~= rest + seq![last]);
        assert((rest + seq![last])[rest.len() as int] == last);
        if rest.contains(l) {
            lemma_front(rest, seq![last], l);
        }
        if rest.push(last).contains(l) {
            lemma_either(rest, seq![last], l);
        }
    }
}

proof fn lemma_base(locs: Seq<LocationView>, from: int, i: int)
    requires
        0 <= from,
    ensures
        from <= i < locs.len() && !override_layer(locs[i].file) ==> base_site(locs, from) is Some,
        base_site(locs, from) matches Some(l) ==> locs.contains(l) && !override_layer(l.file),
    decreases locs.len() - from,
{
    if from < locs.len() {
        lemma_base(locs, from + 1, i);
        assert(locs.contains(locs[from]));
    }
}

proof fn lemma_sites(
    index: &WorkspaceIndex,
    kind: RefKind,
    name: Seq<char>,
    file: Seq<char>,
    span: Span,
)
    ensures
        ({
            let sites = other_sites(
                picked(index.def_rows(), def_location(kind, lower(name))),
                file,
                span,
            );
            &&& (sites.len() > 0) == defined_too(index, kind, name, file, span)
            &&& (base_site(sites, 0) is Some) == defined_below(index, kind, name, file, span)
        }),
{
    let rows = index.def_rows();
    let f = def_location(kind, lower(name));
    let all = picked(rows, f);
    let sites = other_sites(all, file, span);
    if sites.len() > 0 {
        let l = sites[0];
        assert(sites.contains(l));
        lemma_others(all, file, span, l);
        let i = lemma_picked(rows, f, l);
        assert(defines_too(rows[i], kind, name, file, span));
    }
    if defined_too(index, kind, name, file, span) {
        let i = choose|i: int|
            0 <= i < rows.len() && defines_too(#[trigger] rows[i], kind, name, file, span);
        let l = LocationView { file: rows[i].file, span: rows[i].item.span };
        lemma_picks(rows, f, i, l);
        lemma_others(all, file, span, l);
        assert(sites.len() > 0);
    }
    if base_site(sites, 0) is Some {
        lemma_base(sites, 0, 0);
        let l = base_site(sites, 0)->Some_0;
        lemma_others(all, file, span, l);
        let i = lemma_picked(rows, f, l);
        assert(defines_too(rows[i], kind, name, file, span) && !override_layer(rows[i].file));
    }
    if defined_below(index, kind, name, file, span) {
        let i = choose|i: int|
            0 <= i < rows.len() && defines_too(#[trigger] rows[i], kind, name, file, span)
                && !override_layer(rows[i].file);
        let l = LocationView { file: rows[i].file, span: rows[i].item.span };
        lemma_picks(rows, f, i, l);
        lemma_others(all, file, span, l);
        let j = choose|j: int| 0 <= j < sites.len() && sites[j] == l;
        lemma_base(sites, 0, j);
    }
}

/// A named block of a kind that is defined at another place too overrides it, with a
/// hint, in a file that is merged over others; elsewhere an object that is also
/// defined outside such files is warned of; nothing else is said.
pub proof fn law_redefinitions(
    ctx: Ctx<'_>,
    node: SyntaxNode,
    b: int,
    kind: RefKind,
)
    requires
        ctx.index is Some,
        ctx.file is Some,
        node.name is Some,
        node.head matches Some(kw) && last_block(ctx.analyzer.schema.blocks@, kw.text@, b),
        ctx.analyzer.schema.blocks@[b].defines == Some(kind),
    ensures
        ({
            let index = ctx.index->Some_0;
            let file = ctx.file->Some_0@;
            let name = node.name->Some_0;
            let r = redefinition(ctx, node);
            let too = defined_too(index, kind, name.text@, file, name.span);
            let below = defined_below(index, kind, name.text@, file, name.span);
            &&& r.overrides == (too && override_layer(file))
            &&& if too && override_layer(file) {
                tells(r.found, Severity::Hint, "overrides"@, name.span)
            } else if below && kind == RefKind::Object {
                tells(r.found, Severity::Warning, "duplicate-definition"@, name.span)
            } else {
                r.found.len() == 0
            }
        }),
{
    let index = ctx.index->Some_0;
    let name = node.name->Some_0;
    law_block_types_are_found(ctx.analyzer.schema.blocks@, node.head->Some_0.text@, b);
    lemma_sites(index, kind, name.text@, ctx.file->Some_0@, name.span);
    if defined_below(index, kind, name.text@, ctx.file->Some_0@, name.span) {
        let rows = index.def_rows();
        let i = choose|i: int|
            0 <= i < rows.len() && defines_too(
                #[trigger] rows[i],
                kind,
                name.text@,
                ctx.file->Some_0@,
                name.span,
            ) && !override_layer(rows[i].file);
        assert(defines_too(rows[i], kind, name.text@, ctx.file->Some_0@, name.span));
    }
}

/// Node `c` stands directly in node `o`.
pub open spec fn directly_in(parse: &Parse, o: int, c: int) -> bool {
    exists|k: int|
        0 <= k < parse.nodes@[o].elements@.len() && (
        #[trigger] parse.nodes@[o].elements@[k] matches Element::Node(x) && x == c)
}

/// A module in an ordinary slot: not one that patches another definition, nor a
/// conditional set.
pub open spec fn ordinary(node: SyntaxNode) -> bool {
    &&& node.kind is Module
    &&& node.head matches Some(h) && h.text@ != "AddModule"@ && h.text@ != "ReplaceModule"@
        && h.text@ != "WeaponSet"@ && h.text@ != "ArmorSet"@
    &&& node.name is Some
}

/// A block that patches another definition: it adds, replaces or removes modules.
pub open spec fn patches(node: SyntaxNode) -> bool {
    ||| node.kind is Module && (node.head matches Some(h) && (h.text@ == "AddModule"@ || h.text@
        == "ReplaceModule"@))
    ||| node.kind is Field && (node.head matches Some(h) && h.text@ == "RemoveModule"@)
}

/// The token that puts a set under the player's upgrade.
pub open spec fn upgraded(parse: &Parse, w: int, token: SyntaxToken) -> bool {
    exists|f: int, i: int|
        directly_in(parse, w, f) && #[trigger] conditions(parse, f, i) && token
            == parse.nodes@[f].values@[i]
}

/// Value `i` of the conditions `f` is the player's upgrade.
pub open spec fn conditions(parse: &Parse, f: int, i: int) -> bool {
    &&& parse.nodes@[f].kind is Field
    &&& parse.nodes@[f].head matches Some(h) && h.text@ == "Conditions"@
    &&& 0 <= i < parse.nodes@[f].values@.len()
    &&& same_ci(no_plus(parse.nodes@[f].values@[i].text@), "PLAYER_UPGRADE"@)
}

proof fn lemma_condition_in(tokens: Seq<SyntaxToken>, cond: Seq<char>, from: int, i: int)
    requires
        0 <= from,
    ensures
        from <= i < tokens.len() && same_ci(no_plus(tokens[i].text@), cond) ==> condition_in(
            tokens,
            cond,
            from,
        ) is Some,
        condition_in(tokens, cond, from) matches Some(span) ==> exists|j: int|
            from <= j < tokens.len() && same_ci(no_plus((#[trigger] tokens[j]).text@), cond)
                && tokens[j].span == span,
    decreases tokens.len() - from,
{
    if from < tokens.len() {
        lemma_condition_in(tokens, cond, from + 1, i);
    }
}

proof fn lemma_condition_found(parse: &Parse, w: int, from: int, k: int, f: int, i: int)
    requires
        0 <= from <= k < parse.nodes@[w].elements@.len(),
        parse.nodes@[w].elements@[k] matches Element::Node(x) && x == f,
        conditions(parse, f, i),
    ensures
        condition_span(parse, w, "PLAYER_UPGRADE"@, from) is Some,
    decreases k - from,
{
    if from < k {
        lemma_condition_found(parse, w, from + 1, k, f, i);
    } else {
        lemma_condition_in(parse.nodes@[f].values@, "PLAYER_UPGRADE"@, 0, i);
    }
}

proof fn lemma_condition_from(parse: &Parse, w: int, from: int, span: Span) -> (token: SyntaxToken)
    requires
        0 <= from,
        condition_span(parse, w, "PLAYER_UPGRADE"@, from) == Some(span),
    ensures
        upgraded(parse, w, token),
        token.span == span,
    decreases parse.nodes@[w].elements@.len() - from,
{
    let elements = parse.nodes@[w].elements@;
    assert(from < elements.len());
    let here = match elements[from] {
        Element::Node(c) => if is_field_exactly(parse.nodes@[c as int], "Conditions"@) {
            condition_in(parse.nodes@[c as int].values@, "PLAYER_UPGRADE"@, 0)
        } else {
            None
        },
        Element::Token(_) => None,
    };
    if here is Some {
        let f = elements[from]->Node_0 as int;
        let values = parse.nodes@[f].values@;
        lemma_condition_in(values, "PLAYER_UPGRADE"@, 0, 0);
        let j = choose|j: int|
            0 <= j < values.len() && same_ci(
                no_plus((#[trigger] values[j]).text@),
                "PLAYER_UPGRADE"@,
            ) && values[j].span == span;
        assert(directly_in(parse, w, f)) by {
            assert(parse.nodes@[w].elements@[from] == Element::Node(f as usize));
        }
        assert(conditions(parse, f, j));
        values[j]
    } else {
        lemma_condition_from(parse, w, from + 1, span)
    }
}

/// What the facts of an object say of what stands in it.
proof fn lemma_facts(parse: &Parse, o: int, k: int, facts: SetFacts)
    requires
        0 <= k,
    ensures
        ({
            let all = facts_from(parse, o, k, facts);
            &&& facts.patch ==> all.patch
            &&& all.patch ==> facts.patch || exists|j: int|
                k <= j < parse.nodes@[o].elements@.len() && (
                #[trigger] parse.nodes@[o].elements@[j] matches Element::Node(c) && patches(
                    parse.nodes@[c as int],
                ))
            &&& forall|n: Seq<char>| #[trigger]
                all.names.contains(n) ==> facts.names.contains(n) || exists|j: int|
                    k <= j < parse.nodes@[o].elements@.len() && (
                    #[trigger] parse.nodes@[o].elements@[j] matches Element::Node(c) && ordinary(
                        parse.nodes@[c as int],
                    ) && parse.nodes@[c as int].name->Some_0.text@ == n)
            &&& forall|n: Seq<char>| #[trigger] facts.names.contains(n) ==> all.names.contains(n)
            &&& forall|s: (bool, Span)| #[trigger]
                facts.sets.contains(s) ==> all.sets.contains(s)
        }),
    decreases parse.nodes@[o].elements@.len() - k,
{
    let elements = parse.nodes@[o].elements@;
    if k < elements.len() {
        let next = match elements[k] {
            Element::Node(c) => facts_step(parse, c as int, facts),
            Element::Token(_) => facts,
        };
        lemma_facts(parse, o, k + 1, next);
        assert(next.patch && !facts.patch ==> (elements[k] matches Element::Node(c) && patches(
            parse.nodes@[c as int],
        )));
        if let Element::Node(c) = elements[k] {
            let n = parse.nodes@[c as int];
            if ordinary(n) {
                let name = n.name->Some_0.text@;
                assert(next.names =~= facts.names + seq![name]);
                assert forall|x: Seq<char>| #[trigger] next.names.contains(x) implies x == name
                    || facts.names.contains(x) by {
                    lemma_either(facts.names, seq![name], x);
                }
                assert forall|x: Seq<char>| #[trigger]
                    facts.names.contains(x) implies next.names.contains(x) by {
                    lemma_front(facts.names, seq![name], x);
                }
            } else {
                assert(next.names == facts.names);
            }
            assert forall|s: (bool, Span)| #[trigger]
                facts.sets.contains(s) implies next.sets.contains(s) by {
                if next.sets != facts.sets {
                    let added = next.sets.last();
                    assert(next.sets =~= facts.sets + seq![added]);
                    lemma_front(facts.sets, seq![added], s);
                }
            }
        }
    }
}

proof fn lemma_set_fact(parse: &Parse, o: int, from: int, k: int, w: int, facts: SetFacts)
    requires
        0 <= from <= k < parse.nodes@[o].elements@.len(),
        parse.nodes@[o].elements@[k] matches Element::Node(x) && x == w,
        parse.nodes@[w].kind is Module,
        parse.nodes@[w].head matches Some(h) && (h.text@ == "WeaponSet"@ || h.text@
            == "ArmorSet"@) && h.text@ != "AddModule"@ && h.text@ != "ReplaceModule"@,
        condition_span(parse, w, "PLAYER_UPGRADE"@, 0) is Some,
    ensures
        facts_from(parse, o, from, facts).sets.contains(
            (
                parse.nodes@[w].head->Some_0.text@ == "WeaponSet"@,
                condition_span(parse, w, "PLAYER_UPGRADE"@, 0)->Some_0,
            ),
        ),
    decreases k - from,
{
    let next = match parse.nodes@[o].elements@[from] {
        Element::Node(c) => facts_step(parse, c as int, facts),
        Element::Token(_) => facts,
    };
    if from < k {
        lemma_set_fact(parse, o, from + 1, k, w, next);
    } else {
        let s = (
            parse.nodes@[w].head->Some_0.text@ == "WeaponSet"@,
            condition_span(parse, w, "PLAYER_UPGRADE"@, 0)->Some_0,
        );
        assert(next.sets.last() == s);
        assert(next.sets[next.sets.len() - 1] == s);
        assert(next.sets.contains(s));
        lemma_facts(parse, o, from + 1, next);
    }
}

proof fn lemma_unreached(
    sets: Seq<(bool, Span)>,
    names: Seq<Seq<char>>,
    from: int,
    i: int,
) -> (d: DiagnosticView)
    requires
        0 <= from <= i < sets.len(),
        !set_triggered(sets[i].0, names),
    ensures
        unreached_sets(sets, names, from).contains(d),
        is_at(d, Severity::Warning, "unreachable-set"@, sets[i].1),
    decreases i - from,
{
    let here = if set_triggered(sets[from].0, names) {
        Seq::empty()
    } else {
        crate::values::warning_at(
            sets[from].1,
            "unreachable-set"@,
            crate::objects::set_message(sets[from].0),
        )
    };
    let rest = unreached_sets(sets, names, from + 1);
    assert(unreached_sets(sets, names, from) == here + rest);
    if from < i {
        let d = lemma_unreached(sets, names, from + 1, i);
        lemma_behind(here, rest, d);
        d
    } else {
        assert(here.contains(here[0]));
        lemma_front(here, rest, here[0]);
        here[0]
    }
}

/// A module that puts weapons under the player's upgrade.
pub open spec fn upgrades_weapons(name: Seq<char>) -> bool {
    name == "WeaponSetUpgrade"@ || name == "TransportContain"@ || name == "HelixContain"@ || name
        == "InternetHackContain"@ || name == "OverlordContain"@ || name
        == "RailedTransportContain"@ || name == "RiderChangeContain"@
}

/// The object holds an ordinary module of such a name.
pub open spec fn holds_upgrade(parse: &Parse, o: int, weapon: bool) -> bool {
    exists|k: int|
        0 <= k < parse.nodes@[o].elements@.len() && (
        #[trigger] parse.nodes@[o].elements@[k] matches Element::Node(c) && ordinary(
            parse.nodes@[c as int],
        ) && if weapon {
            upgrades_weapons(parse.nodes@[c as int].name->Some_0.text@)
        } else {
            parse.nodes@[c as int].name->Some_0.text@ == "ArmorUpgrade"@
        })
}

/// The object patches another definition.
pub open spec fn patched(parse: &Parse, o: int) -> bool {
    exists|k: int|
        0 <= k < parse.nodes@[o].elements@.len() && (
        #[trigger] parse.nodes@[o].elements@[k] matches Element::Node(c) && patches(
            parse.nodes@[c as int],
        ))
}

proof fn lemma_direct(parse: &Parse, o: int, key: Seq<char>, from: int)
    requires
        0 <= from,
    ensures
        direct_field(parse, o, key, from) ==> exists|k: int|
            from <= k < parse.nodes@[o].elements@.len() && (
            #[trigger] parse.nodes@[o].elements@[k] matches Element::Node(c)
                && parse.nodes@[c as int].kind is Field && (
            parse.nodes@[c as int].head matches Some(h) && h.text@ == key)),
    decreases parse.nodes@[o].elements@.len() - from,
{
    if from < parse.nodes@[o].elements@.len() {
        lemma_direct(parse, o, key, from + 1);
    }
}

/// A weapon or armor set of an object that is under the player's upgrade is warned of,
/// at the condition, where no module of the object can bring the upgrade, unless the
/// object patches another definition.
pub proof fn law_unreachable_sets_are_told(parse: &Parse, o: int, w: int, f: int, i: int)
    requires
        directly_in(parse, o, w),
        parse.nodes@[w].kind is Module,
        parse.nodes@[w].head matches Some(h) && (h.text@ == "WeaponSet"@ || h.text@
            == "ArmorSet"@),
        directly_in(parse, w, f),
        conditions(parse, f, i),
        !patched(parse, o),
        !holds_upgrade(parse, o, parse.nodes@[w].head->Some_0.text@ == "WeaponSet"@),
    ensures
        exists|d: DiagnosticView, t: SyntaxToken| #[trigger]
            reachability_diags(parse, o).contains(d) && #[trigger] upgraded(parse, w, t) && is_at(
                d,
                Severity::Warning,
                "unreachable-set"@,
                t.span,
            ),
{
    reveal_strlit("WeaponSet");
    reveal_strlit("ArmorSet");
    reveal_strlit("AddModule");
    reveal_strlit("ReplaceModule");
    let text = parse.nodes@[w].head->Some_0.text@;
    let weapon = text == "WeaponSet"@;
    assert("WeaponSet"@[0] == 'W' && "ArmorSet"@[1] == 'r' && "AddModule"@[0] == 'A'
        && "AddModule"@[1] == 'd' && "ReplaceModule"@[0] == 'R' && "ArmorSet"@[0] == 'A');
    let k = choose|k: int|
        0 <= k < parse.nodes@[o].elements@.len() && (
        #[trigger] parse.nodes@[o].elements@[k] matches Element::Node(x) && x == w);
    let kf = choose|k: int|
        0 <= k < parse.nodes@[w].elements@.len() && (
        #[trigger] parse.nodes@[w].elements@[k] matches Element::Node(x) && x == f);
    lemma_condition_found(parse, w, 0, kf, f, i);
    let span = condition_span(parse, w, "PLAYER_UPGRADE"@, 0)->Some_0;
    let t = lemma_condition_from(parse, w, 0, span);
    let start = SetFacts {
        names: Seq::empty(),
        upgrades: Seq::empty(),
        sets: Seq::empty(),
        patch: direct_field(parse, o, "RemoveModule"@, 0),
    };
    let facts = set_facts(parse, o);
    assert(facts == facts_from(parse, o, 0, start));
    lemma_direct(parse, o, "RemoveModule"@, 0);
    lemma_facts(parse, o, 0, start);
    assert(!facts.patch);
    lemma_set_fact(parse, o, 0, k, w, start);
    assert(!set_triggered(weapon, facts.names)) by {
        if set_triggered(weapon, facts.names) {
            let names = facts.names;
            let triggers = if weapon {
                crate::objects::weapon_triggers()
            } else {
                crate::objects::armor_triggers()
            };
            let n = choose|n: int| 0 <= n < names.len() && triggers.contains(#[trigger] names[n]);
            assert(names.contains(names[n]));
        }
    }
    let s = choose|s: int| 0 <= s < facts.sets.len() && facts.sets[s] == (weapon, span);
    let d = lemma_unreached(facts.sets, facts.names, 0, s);
    let all = reachability_diags(parse, o);
    let last = unreached_sets(facts.sets, facts.names, 0);
    let front = (if facts.names.contains("LocomotorSetUpgrade"@) {
        Seq::empty()
    } else {
        crate::objects::locomotor_diags(parse, o, 0)
    }) + (if has_weapon_set(facts.sets) {
        Seq::empty()
    } else {
        crate::objects::upgrade_diags(facts.upgrades, 0)
    });
    assert(all =~= front + last);
    lemma_behind(front, last, d);
    assert(all.contains(d) && upgraded(parse, w, t));
}

/// Nothing is said of the sets of an object that adds or replaces a module, or removes
/// one.
pub proof fn law_patches_are_not_judged(parse: &Parse, o: int, k: int)
    requires
        0 <= k < parse.nodes@[o].elements@.len(),
        parse.nodes@[o].elements@[k] matches Element::Node(c) && patches(parse.nodes@[c as int]),
    ensures
        reachability_diags(parse, o).len() == 0,
{
    let start = SetFacts {
        names: Seq::empty(),
        upgrades: Seq::empty(),
        sets: Seq::empty(),
        patch: direct_field(parse, o, "RemoveModule"@, 0),
    };
    let c = parse.nodes@[o].elements@[k]->Node_0 as int;
    if parse.nodes@[c].kind is Field {
        lemma_direct_field(parse, o, "RemoveModule"@, 0, k);
        lemma_facts(parse, o, 0, start);
    } else {
        lemma_patch_fact(parse, o, 0, k, start);
    }
}

proof fn lemma_direct_field(parse: &Parse, o: int, key: Seq<char>, from: int, k: int)
    requires
        0 <= from <= k < parse.nodes@[o].elements@.len(),
        parse.nodes@[o].elements@[k] matches Element::Node(c) && parse.nodes@[c as int].kind
            is Field && (parse.nodes@[c as int].head matches Some(h) && h.text@ == key),
    ensures
        direct_field(parse, o, key, from),
    decreases k - from,
{
    if from < k {
        lemma_direct_field(parse, o, key, from + 1, k);
    }
}

proof fn lemma_patch_fact(parse: &Parse, o: int, from: int, k: int, facts: SetFacts)
    requires
        0 <= from <= k < parse.nodes@[o].elements@.len(),
        parse.nodes@[o].elements@[k] matches Element::Node(c) && patches(parse.nodes@[c as int])
            && parse.nodes@[c as int].kind is Module,
    ensures
        facts_from(parse, o, from, facts).patch,
    decreases k - from,
{
    let next = match parse.nodes@[o].elements@[from] {
        Element::Node(c) => facts_step(parse, c as int, facts),
        Element::Token(_) => facts,
    };
    if from < k {
        lemma_patch_fact(parse, o, from + 1, k, next);
    } else {
        lemma_facts(parse, o, from + 1, next);
    }
}

/// An element of a block that removes a module by its tag.
pub open spec fn removes(parse: &Parse, node: int, k: int, tag: Seq<char>) -> bool {
    parse.nodes@[node].elements@[k] matches Element::Node(c) && {
        let n = parse.nodes@[c as int];
        &&& n.kind is Field
        &&& n.head matches Some(head) && same_ci(head.text@, "RemoveModule"@)
        &&& n.values@.len() > 0
        &&& same_ci(stripped(n.values@[0].text@), tag)
    }
}

proof fn lemma_removed(parse: &Parse, node: int, from: int, tag: Seq<char>)
    requires
        0 <= from,
    ensures
        any_ci(removed_names(parse, node, from), tag) <==> exists|k: int|
            from <= k < parse.nodes@[node].elements@.len() && #[trigger] removes(
                parse,
                node,
                k,
                tag,
            ),
    decreases parse.nodes@[node].elements@.len() - from,
{
    let all = removed_names(parse, node, from);
    if from < parse.nodes@[node].elements@.len() {
        lemma_removed(parse, node, from + 1, tag);
        let rest = removed_names(parse, node, from + 1);
        let n = all.len() - rest.len();
        if any_ci(rest, tag) {
            let i = choose|i: int| 0 <= i < rest.len() && same_ci(#[trigger] rest[i], tag);
            assert(all[i + n] == rest[i]);
        }
        if removes(parse, node, from, tag) {
            assert(same_ci(all[0], tag));
        }
        if any_ci(all, tag) {
            let i = choose|i: int| 0 <= i < all.len() && same_ci(#[trigger] all[i], tag);
            if i >= n {
                assert(rest[i - n] == all[i]);
            } else {
                assert(removes(parse, node, from, tag));
            }
        }
    }
}

proof fn lemma_kept(tags: Seq<crate::index::TagView>, removed: Seq<Seq<char>>, i: int)
    requires
        0 <= i < tags.len(),
        !any_ci(removed, tags[i].name),
    ensures
        kept_tags(tags, removed).contains(tags[i].name),
    decreases tags.len(),
{
    let front = tags.drop_last();
    let rest = kept_tags(front, removed);
    let all = kept_tags(tags, removed);
    if i < front.len() {
        assert(front[i] == tags[i]);
        lemma_kept(front, removed, i);
        let j = choose|j: int| 0 <= j < rest.len() && rest[j] == tags[i].name;
        assert(all[j] == rest[j]);
    } else {
        assert(all[rest.len() as int] == tags[i].name);
    }
}

proof fn lemma_none_kept(tags: Seq<crate::index::TagView>, removed: Seq<Seq<char>>)
    requires
        forall|i: int| 0 <= i < tags.len() ==> any_ci(removed, (#[trigger] tags[i]).name),
    ensures
        kept_tags(tags, removed).len() == 0,
    decreases tags.len(),
{
    if tags.len() > 0 {
        let front = tags.drop_last();
        assert forall|i: int| 0 <= i < front.len() implies any_ci(
            removed,
            (#[trigger] front[i]).name,
        ) by {
            assert(front[i] == tags[i]);
        }
        assert(any_ci(removed, tags[tags.len() - 1].name));
        lemma_none_kept(front, removed);
    }
}

/// A module that every new object of a map starts with.
pub open spec fn starts_with(row: EntryView<crate::index::TagView>) -> bool {
    !row.item.is_reference && row.item.object == lower("DefaultThingTemplate"@)
}

/// A new object of a map that keeps a default module is told of it at its name. One
/// that removes them all is not, nor an object that a base file defines, nor one
/// outside the maps.
pub proof fn law_kept_default_modules_are_told(
    ctx: Ctx<'_>,
    index: &WorkspaceIndex,
    node: int,
    row: int,
)
    requires
        ctx.index == Some(index),
        ctx.file is Some,
        ctx.parse.nodes@[node].name is Some,
        !same_ci(ctx.parse.nodes@[node].name->Some_0.text@, "DefaultThingTemplate"@),
        0 <= row < index.tag_rows().len(),
    ensures
        ({
            let found = default_module_diags(ctx, node);
            let name = ctx.parse.nodes@[node].name->Some_0;
            let based = exists|i: int|
                0 <= i < index.def_rows().len() && (#[trigger] index.def_rows()[i]).item.kind
                    is Object && index.def_rows()[i].item.key == lower(name.text@)
                    && !override_layer(index.def_rows()[i].file);
            &&& !override_layer(ctx.file->Some_0@) || based ==> found.len() == 0
            &&& override_layer(ctx.file->Some_0@) && !based && starts_with(
                index.tag_rows()[row],
            ) && (forall|k: int|
                0 <= k < ctx.parse.nodes@[node].elements@.len() ==> !#[trigger] removes(
                    ctx.parse,
                    node,
                    k,
                    index.tag_rows()[row].item.name,
                )) ==> tells(
                found,
                Severity::Hint,
                "default-modules-not-removed"@,
                name.span,
            )
            &&& (forall|r: int|
                0 <= r < index.tag_rows().len() && starts_with(#[trigger] index.tag_rows()[r])
                    ==> exists|k: int|
                    0 <= k < ctx.parse.nodes@[node].elements@.len() && #[trigger] removes(
                        ctx.parse,
                        node,
                        k,
                        index.tag_rows()[r].item.name,
                    )) ==> found.len() == 0
        }),
{
    let rows = index.tag_rows();
    let f = visible_tag(default_object(), None, None);
    let tags = picked(rows, f);
    let removed = removed_names(ctx.parse, node, 0);
    let kept = kept_tags(tags, removed);
    let item = rows[row].item;
    lemma_removed(ctx.parse, node, 0, item.name);
    if starts_with(rows[row]) && !any_ci(removed, item.name) {
        lemma_picks(rows, f, row, item);
        let i = choose|i: int| 0 <= i < tags.len() && tags[i] == item;
        lemma_kept(tags, removed, i);
        lemma_dedup(kept, item.name);
    }
    if forall|r: int|
        0 <= r < rows.len() && starts_with(#[trigger] rows[r]) ==> exists|k: int|
            0 <= k < ctx.parse.nodes@[node].elements@.len() && #[trigger] removes(
                ctx.parse,
                node,
                k,
                rows[r].item.name,
            ) {
        assert forall|i: int| 0 <= i < tags.len() implies any_ci(
            removed,
            (#[trigger] tags[i]).name,
        ) by {
            assert(tags.contains(tags[i]));
            let r = lemma_picked(rows, f, tags[i]);
            assert(starts_with(rows[r]));
            lemma_removed(ctx.parse, node, 0, tags[i].name);
        }
        lemma_none_kept(tags, removed);
        assert(crate::index::dedup_ci(kept).len() == 0);
    }
}

} // verus!
