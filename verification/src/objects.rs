//! Whole-block diagnostics: redefinitions across files, inherited default
//! modules, and conditional sets that nothing selects.

use vstd::prelude::*;

use crate::extract::{defined_kind, field_is, is_field_named, kind_defined};
use crate::index::{
    dedup_case_insensitive, dedup_ci, def_location, default_object, holds_ci, is_override_layer,
    new_override, override_layer, picked, visible_tag, Location, LocationView, ModuleTagDefinition,
    TagView, WorkspaceIndex,
};
use crate::model::{any_ci, contains_text, scope_of, scope_schema};
use crate::order::views;
use crate::schema::RefKind;
use crate::scopes::{direct_field, has_direct_field, join_texts, joined, walk_scope, walk_view};
use crate::syntax::{Element, Parse, Span, SyntaxKind, SyntaxNode, SyntaxToken};
use crate::text::{eq_ci, join3, join5, last_part, last_part_of, lower, same, same_ci, texts};
use crate::values::{
    diags, error, error_at, hint, hint_at, nothing, stripped, unquote, warning, warning_at, Ctx,
    Diagnostic, DiagnosticView,
};

verus! {

/// The trailing path segment, for readable messages.
pub fn short_file(file: &str) -> (r: &str)
    ensures
        r@ == last_part(file@, '/', '\\'),
{
    last_part_of(file, '/', '\\')
}

/// A flag without its leading plus signs.
pub open spec fn no_plus(s: Seq<char>) -> Seq<char>
    decreases s.len(),
{
    if s.len() > 0 && s[0] == '+' {
        no_plus(s.skip(1))
    } else {
        s
    }
}

fn without_plus(text: &str) -> (r: &str)
    ensures
        r@ == no_plus(text@),
{
    let chars = crate::text::chars_of(text);
    let mut i: usize = 0;
    assert(text@.skip(0) =~= text@);
    while i < chars.len() && chars[i] == '+'
        invariant
            i <= chars.len(),
            chars@ == text@,
            no_plus(text@) == no_plus(text@.skip(i as int)),
        decreases chars.len() - i,
    {
        assert(text@.skip(i as int).skip(1) =~= text@.skip(i + 1));
        i += 1;
    }
    assert(text@.skip(i as int) =~= text@.subrange(i as int, text@.len() as int));
    vstd::string::StrSliceExecFns::substring_char(text, i, chars.len())
}

/// The first token from `i` on that is the condition.
pub open spec fn condition_in(tokens: Seq<SyntaxToken>, cond: Seq<char>, i: int) -> Option<Span>
    decreases tokens.len() - i,
{
    if i < 0 || i >= tokens.len() {
        None
    } else if same_ci(no_plus(tokens[i].text@), cond) {
        Some(tokens[i].span)
    } else {
        condition_in(tokens, cond, i + 1)
    }
}

/// Whether a node is a field of exactly that key.
pub open spec fn is_field_exactly(node: SyntaxNode, key: Seq<char>) -> bool {
    node.kind is Field && match node.head {
        Some(h) => h.text@ == key,
        None => false,
    }
}

fn field_exactly(node: &SyntaxNode, key: &str) -> (r: bool)
    ensures
        r == is_field_exactly(*node, key@),
{
    if node.kind != SyntaxKind::Field {
        return false;
    }
    match &node.head {
        Some(h) => same(h.text.as_str(), key),
        None => false,
    }
}

/// The condition token in the direct `Conditions` fields of `node`, from
/// element `k` on.
pub open spec fn condition_span(parse: &Parse, node: int, cond: Seq<char>, k: int) -> Option<Span>
    decreases parse.nodes@[node].elements@.len() - k,
{
    if k < 0 || k >= parse.nodes@[node].elements@.len() {
        None
    } else {
        let here = match parse.nodes@[node].elements@[k] {
            Element::Node(c) => if is_field_exactly(parse.nodes@[c as int], "Conditions"@) {
                condition_in(parse.nodes@[c as int].values@, cond, 0)
            } else {
                None
            },
            Element::Token(_) => None,
        };
        if here is Some {
            here
        } else {
            condition_span(parse, node, cond, k + 1)
        }
    }
}

fn find_condition(tokens: &Vec<SyntaxToken>, cond: &str) -> (r: Option<Span>)
    ensures
        r == condition_in(tokens@, cond@, 0),
{
    let mut i: usize = 0;
    while i < tokens.len()
        invariant
            i <= tokens.len(),
            condition_in(tokens@, cond@, 0) == condition_in(tokens@, cond@, i as int),
        decreases tokens.len() - i,
    {
        if eq_ci(without_plus(tokens[i].text.as_str()), cond) {
            return Some(tokens[i].span);
        }
        i += 1;
    }
    None
}

/// The value token of the direct `Conditions` field that is `cond`.
pub fn direct_condition_token(parse: &Parse, node: usize, cond: &str) -> (r: Option<Span>)
    requires
        parse.wf(),
        node < parse.nodes.len(),
    ensures
        r == condition_span(parse, node as int, cond@, 0),
{
    let mut k: usize = 0;
    while k < parse.nodes[node].elements.len()
        invariant
            parse.wf(),
            node < parse.nodes.len(),
            k <= parse.nodes@[node as int].elements.len(),
            condition_span(parse, node as int, cond@, 0) == condition_span(
                parse,
                node as int,
                cond@,
                k as int,
            ),
        decreases parse.nodes@[node as int].elements.len() - k,
    {
        if let Element::Node(c) = &parse.nodes[node].elements[k] {
            let child = &parse.nodes[*c];
            if field_exactly(child, "Conditions") {
                let found = find_condition(&child.values, cond);
                if found.is_some() {
                    return found;
                }
            }
        }
        k += 1;
    }
    None
}

/// What the modules of an Object say about its conditional sets.
pub struct SetFacts {
    /// Names of the modules in ordinary slots.
    pub names: Seq<Seq<char>>,
    /// Where a `WeaponSetUpgrade` module stands.
    pub upgrades: Seq<Span>,
    /// The `PLAYER_UPGRADE` condition of each weapon set (true) or armor set.
    pub sets: Seq<(bool, Span)>,
    /// The block patches another definition.
    pub patch: bool,
}

/// The facts after one child.
pub open spec fn facts_step(parse: &Parse, c: int, facts: SetFacts) -> SetFacts {
    let n = parse.nodes@[c];
    if n.kind is Module && n.head is Some {
        let slot = n.head->Some_0.text@;
        if slot == "AddModule"@ || slot == "ReplaceModule"@ {
            SetFacts { patch: true, ..facts }
        } else if slot == "WeaponSet"@ || slot == "ArmorSet"@ {
            match condition_span(parse, c, "PLAYER_UPGRADE"@, 0) {
                Some(span) => SetFacts {
                    sets: facts.sets.push((slot == "WeaponSet"@, span)),
                    ..facts
                },
                None => facts,
            }
        } else {
            match n.name {
                Some(name) => SetFacts {
                    names: facts.names.push(name.text@),
                    upgrades: if name.text@ == "WeaponSetUpgrade"@ {
                        facts.upgrades.push(name.span)
                    } else {
                        facts.upgrades
                    },
                    ..facts
                },
                None => facts,
            }
        }
    } else {
        facts
    }
}

/// The facts of the children from element `k` on, added to `facts`.
pub open spec fn facts_from(parse: &Parse, node: int, k: int, facts: SetFacts) -> SetFacts
    decreases parse.nodes@[node].elements@.len() - k,
{
    if k < 0 || k >= parse.nodes@[node].elements@.len() {
        facts
    } else {
        let next = match parse.nodes@[node].elements@[k] {
            Element::Node(c) => facts_step(parse, c as int, facts),
            Element::Token(_) => facts,
        };
        facts_from(parse, node, k + 1, next)
    }
}

/// The set facts of an Object block.
pub open spec fn set_facts(parse: &Parse, node: int) -> SetFacts {
    facts_from(
        parse,
        node,
        0,
        SetFacts {
            names: Seq::empty(),
            upgrades: Seq::empty(),
            sets: Seq::empty(),
            patch: direct_field(parse, node, "RemoveModule"@, 0),
        },
    )
}

struct Facts {
    names: Vec<String>,
    upgrades: Vec<Span>,
    sets: Vec<(bool, Span)>,
    patch: bool,
}

impl Facts {
    spec fn model(&self) -> SetFacts {
        SetFacts {
            names: texts(self.names@),
            upgrades: self.upgrades@,
            sets: self.sets@,
            patch: self.patch,
        }
    }
}

fn add_facts(parse: &Parse, c: usize, facts: &mut Facts)
    requires
        parse.wf(),
        c < parse.nodes.len(),
    ensures
        final(facts).model() == facts_step(parse, c as int, old(facts).model()),
{
    let ghost f0 = facts.model();
    let n = &parse.nodes[c];
    if n.kind != SyntaxKind::Module {
        return;
    }
    if let Some(slot) = &n.head {
        let slot = slot.text.as_str();
        if same(slot, "AddModule") || same(slot, "ReplaceModule") {
            facts.patch = true;
        } else if same(slot, "WeaponSet") || same(slot, "ArmorSet") {
            if let Some(span) = direct_condition_token(parse, c, "PLAYER_UPGRADE") {
                facts.sets.push((same(slot, "WeaponSet"), span));
            }
        } else if let Some(name) = &n.name {
            if same(name.text.as_str(), "WeaponSetUpgrade") {
                facts.upgrades.push(name.span);
            }
            facts.names.push(name.text.clone());
            assert(texts(facts.names@) =~= f0.names.push(name.text@));
        }
    }
}

/// Modules that can set the player-upgrade condition of a weapon set.
pub open spec fn weapon_triggers() -> Seq<Seq<char>> {
    seq![
        "WeaponSetUpgrade"@,
        "TransportContain"@,
        "HelixContain"@,
        "InternetHackContain"@,
        "OverlordContain"@,
        "RailedTransportContain"@,
        "RiderChangeContain"@,
    ]
}

/// Modules that can set the player-upgrade condition of an armor set.
pub open spec fn armor_triggers() -> Seq<Seq<char>> {
    seq!["ArmorUpgrade"@]
}

/// Whether a module on the object can select the set.
pub open spec fn set_triggered(weapon: bool, names: Seq<Seq<char>>) -> bool {
    exists|i: int|
        0 <= i < names.len() && (if weapon {
            weapon_triggers()
        } else {
            armor_triggers()
        }).contains(#[trigger] names[i])
}

fn is_trigger(weapon: bool, name: &str) -> (r: bool)
    ensures
        r == (if weapon {
            weapon_triggers()
        } else {
            armor_triggers()
        }).contains(name@),
{
    if weapon {
        let r = same(name, "WeaponSetUpgrade") || same(name, "TransportContain") || same(
            name,
            "HelixContain",
        ) || same(name, "InternetHackContain") || same(name, "OverlordContain") || same(
            name,
            "RailedTransportContain",
        ) || same(name, "RiderChangeContain");
        proof {
            let list = weapon_triggers();
            assert(list[0] == "WeaponSetUpgrade"@ && list[1] == "TransportContain"@ && list[2]
                == "HelixContain"@ && list[3] == "InternetHackContain"@ && list[4]
                == "OverlordContain"@ && list[5] == "RailedTransportContain"@ && list[6]
                == "RiderChangeContain"@);
        }
        r
    } else {
        let r = same(name, "ArmorUpgrade");
        proof {
            assert(armor_triggers()[0] == "ArmorUpgrade"@);
        }
        r
    }
}

fn is_triggered(weapon: bool, names: &Vec<String>) -> (r: bool)
    ensures
        r == set_triggered(weapon, texts(names@)),
{
    let ghost list = texts(names@);
    let mut i: usize = 0;
    while i < names.len()
        invariant
            i <= names.len(),
            list == texts(names@),
            forall|k: int|
                0 <= k < i ==> !(if weapon {
                    weapon_triggers()
                } else {
                    armor_triggers()
                }).contains(#[trigger] list[k]),
        decreases names.len() - i,
    {
        assert(list[i as int] == names@[i as int]@);
        if is_trigger(weapon, names[i].as_str()) {
            return true;
        }
        i += 1;
    }
    false
}

pub open spec fn locomotor_message() -> Seq<char> {
    "this locomotor set requires `LocomotorSetUpgrade` — the set can never be selected"@
}

pub open spec fn upgrade_message() -> Seq<char> {
    "this `WeaponSetUpgrade` module sets `PLAYER_UPGRADE`, but this object has no `WeaponSet` with that condition"@
}

pub open spec fn set_message(weapon: bool) -> Seq<char> {
    "this `"@ + if weapon {
        "WeaponSet"@
    } else {
        "ArmorSet"@
    } + "` requires the `PLAYER_UPGRADE` condition, but no module on this object can set it (e.g. `"@
        + if weapon {
        "WeaponSetUpgrade"@
    } else {
        "ArmorUpgrade"@
    } + "`) — the set can never be selected"@
}

/// Upgraded locomotor sets from element `k` on.
pub open spec fn locomotor_diags(parse: &Parse, node: int, k: int) -> Seq<DiagnosticView>
    decreases parse.nodes@[node].elements@.len() - k,
{
    if k < 0 || k >= parse.nodes@[node].elements@.len() {
        nothing()
    } else {
        let here = match parse.nodes@[node].elements@[k] {
            Element::Node(c) => {
                let n = parse.nodes@[c as int];
                if is_field_exactly(n, "Locomotor"@) && n.values@.len() > 0 && same_ci(
                    n.values@[0].text@,
                    "SET_NORMAL_UPGRADED"@,
                ) {
                    warning_at(n.values@[0].span, "unreachable-set"@, locomotor_message())
                } else {
                    nothing()
                }
            },
            Element::Token(_) => nothing(),
        };
        here + locomotor_diags(parse, node, k + 1)
    }
}

/// Weapon-set upgrades from `i` on that select nothing.
pub open spec fn upgrade_diags(upgrades: Seq<Span>, i: int) -> Seq<DiagnosticView>
    decreases upgrades.len() - i,
{
    if i < 0 || i >= upgrades.len() {
        nothing()
    } else {
        warning_at(upgrades[i], "unreachable-set"@, upgrade_message()) + upgrade_diags(
            upgrades,
            i + 1,
        )
    }
}

/// Sets from `i` on that no module selects.
pub open spec fn unreached_sets(sets: Seq<(bool, Span)>, names: Seq<Seq<char>>, i: int) -> Seq<
    DiagnosticView,
>
    decreases sets.len() - i,
{
    if i < 0 || i >= sets.len() {
        nothing()
    } else {
        let here = if set_triggered(sets[i].0, names) {
            nothing()
        } else {
            warning_at(sets[i].1, "unreachable-set"@, set_message(sets[i].0))
        };
        here + unreached_sets(sets, names, i + 1)
    }
}

pub open spec fn has_weapon_set(sets: Seq<(bool, Span)>) -> bool {
    exists|i: int| 0 <= i < sets.len() && (#[trigger] sets[i]).0
}

/// Conditional sets of an Object and the modules that select them must pair
/// up. Blocks that patch another definition are not judged.
pub open spec fn reachability_diags(parse: &Parse, node: int) -> Seq<DiagnosticView> {
    let facts = set_facts(parse, node);
    if facts.patch {
        nothing()
    } else {
        (if facts.names.contains("LocomotorSetUpgrade"@) {
            nothing()
        } else {
            locomotor_diags(parse, node, 0)
        }) + (if has_weapon_set(facts.sets) {
            nothing()
        } else {
            upgrade_diags(facts.upgrades, 0)
        }) + unreached_sets(facts.sets, facts.names, 0)
    }
}

/// Block-local check of conditional weapon, armor and locomotor sets.
pub fn check_set_reachability(parse: &Parse, node: usize, out: &mut Vec<Diagnostic>)
    requires
        parse.wf(),
        node < parse.nodes.len(),
    ensures
        diags(final(out)@) == diags(old(out)@) + reachability_diags(parse, node as int),
{
    let ghost start = diags(out@);
    let mut facts = Facts {
        names: Vec::new(),
        upgrades: Vec::new(),
        sets: Vec::new(),
        patch: has_direct_field(parse, node, "RemoveModule"),
    };
    proof {
        assert(facts.model().names =~= Seq::<Seq<char>>::empty());
        assert(facts.model().upgrades =~= Seq::<Span>::empty());
        assert(facts.model().sets =~= Seq::<(bool, Span)>::empty());
    }
    let mut k: usize = 0;
    while k < parse.nodes[node].elements.len()
        invariant
            parse.wf(),
            node < parse.nodes.len(),
            k <= parse.nodes@[node as int].elements.len(),
            facts_from(parse, node as int, k as int, facts.model()) == set_facts(
                parse,
                node as int,
            ),
        decreases parse.nodes@[node as int].elements.len() - k,
    {
        if let Element::Node(c) = &parse.nodes[node].elements[k] {
            add_facts(parse, *c, &mut facts);
        }
        k += 1;
    }
    if facts.patch {
        return;
    }
    if !contains_text(&facts.names, "LocomotorSetUpgrade") {
        let mut k: usize = 0;
        while k < parse.nodes[node].elements.len()
            invariant
                parse.wf(),
                node < parse.nodes.len(),
                k <= parse.nodes@[node as int].elements.len(),
                diags(out@) + locomotor_diags(parse, node as int, k as int) == start
                    + locomotor_diags(parse, node as int, 0),
            decreases parse.nodes@[node as int].elements.len() - k,
        {
            let ghost d0 = diags(out@);
            if let Element::Node(c) = &parse.nodes[node].elements[k] {
                let n = &parse.nodes[*c];
                if field_exactly(n, "Locomotor") && n.values.len() > 0 && eq_ci(
                    n.values[0].text.as_str(),
                    "SET_NORMAL_UPGRADED",
                ) {
                    warning(
                        out,
                        n.values[0].span,
                        "unreachable-set",
                        "this locomotor set requires `LocomotorSetUpgrade` — the set can never be selected".to_owned(),
                    );
                }
            }
            assert(diags(out@) + locomotor_diags(parse, node as int, k + 1) =~= d0
                + locomotor_diags(parse, node as int, k as int));
            k += 1;
        }
    }
    let ghost middle = diags(out@);
    let mut weapon: bool = false;
    let mut i: usize = 0;
    while i < facts.sets.len()
        invariant
            i <= facts.sets.len(),
            weapon == exists|n: int| 0 <= n < i && (#[trigger] facts.sets@[n]).0,
        decreases facts.sets.len() - i,
    {
        assert(facts.sets@[i as int].0 == facts.sets@[i as int].0);
        if facts.sets[i].0 {
            weapon = true;
        }
        i += 1;
    }
    if !weapon {
        let mut i: usize = 0;
        while i < facts.upgrades.len()
            invariant
                i <= facts.upgrades.len(),
                diags(out@) + upgrade_diags(facts.upgrades@, i as int) == middle + upgrade_diags(
                    facts.upgrades@,
                    0,
                ),
            decreases facts.upgrades.len() - i,
        {
            let ghost d0 = diags(out@);
            warning(
                out,
                facts.upgrades[i],
                "unreachable-set",
                "this `WeaponSetUpgrade` module sets `PLAYER_UPGRADE`, but this object has no `WeaponSet` with that condition".to_owned(),
            );
            assert(diags(out@) + upgrade_diags(facts.upgrades@, i + 1) =~= d0 + upgrade_diags(
                facts.upgrades@,
                i as int,
            ));
            i += 1;
        }
    }
    let ghost third = diags(out@);
    let mut i: usize = 0;
    while i < facts.sets.len()
        invariant
            i <= facts.sets.len(),
            diags(out@) + unreached_sets(facts.sets@, texts(facts.names@), i as int) == third
                + unreached_sets(facts.sets@, texts(facts.names@), 0),
        decreases facts.sets.len() - i,
    {
        let ghost d0 = diags(out@);
        let (weapon, span) = facts.sets[i];
        if !is_triggered(weapon, &facts.names) {
            let message = join5(
                "this `",
                if weapon {
                    "WeaponSet"
                } else {
                    "ArmorSet"
                },
                "` requires the `PLAYER_UPGRADE` condition, but no module on this object can set it (e.g. `",
                if weapon {
                    "WeaponSetUpgrade"
                } else {
                    "ArmorUpgrade"
                },
                "`) — the set can never be selected",
            );
            warning(out, span, "unreachable-set", message);
        }
        assert(diags(out@) + unreached_sets(facts.sets@, texts(facts.names@), i + 1) =~= d0
            + unreached_sets(facts.sets@, texts(facts.names@), i as int));
        i += 1;
    }
    assert(diags(out@) =~= start + reachability_diags(parse, node as int));
}

/// The locations other than the one at `span` of `file`.
pub open spec fn other_sites(locs: Seq<LocationView>, file: Seq<char>, span: Span) -> Seq<
    LocationView,
>
    decreases locs.len(),
{
    if locs.len() == 0 {
        locs
    } else {
        let rest = other_sites(locs.drop_last(), file, span);
        if locs.last().file == file && locs.last().span == span {
            rest
        } else {
            rest.push(locs.last())
        }
    }
}

/// The first location from `i` on outside the override layers.
pub open spec fn base_site(locs: Seq<LocationView>, i: int) -> Option<LocationView>
    decreases locs.len() - i,
{
    if i < 0 || i >= locs.len() {
        None
    } else if !override_layer(locs[i].file) {
        Some(locs[i])
    } else {
        base_site(locs, i + 1)
    }
}

/// What a redefinition check finds, and whether the block overrides.
pub struct RedefinitionView {
    pub found: Seq<DiagnosticView>,
    pub overrides: bool,
}

/// A named block whose name is defined elsewhere: an override where the file
/// is merged over others, else a duplicate Object.
pub open spec fn redefinition(ctx: Ctx<'_>, node: SyntaxNode) -> RedefinitionView {
    let none = RedefinitionView { found: nothing(), overrides: false };
    match (ctx.index, ctx.file, defined_kind(ctx.analyzer, node), node.name) {
        (Some(index), Some(file), Some(kind), Some(name)) => {
            let sites = other_sites(
                picked(index.def_rows(), def_location(kind, lower(name.text@))),
                file@,
                name.span,
            );
            if sites.len() == 0 {
                none
            } else if override_layer(file@) {
                let site = match base_site(sites, 0) {
                    Some(s) => s,
                    None => sites[0],
                };
                RedefinitionView {
                    found: hint_at(
                        name.span,
                        "overrides"@,
                        "overrides `"@ + name.text@ + "` defined in "@ + last_part(
                            site.file,
                            '/',
                            '\\',
                        ) + " (map override: merged over the existing definition)"@,
                    ),
                    overrides: true,
                }
            } else if kind == RefKind::Object && base_site(sites, 0) is Some {
                RedefinitionView {
                    found: warning_at(
                        name.span,
                        "duplicate-definition"@,
                        "`"@ + name.text@ + "` is already defined in "@ + last_part(
                            base_site(sites, 0)->Some_0.file,
                            '/',
                            '\\',
                        )
                            + " — the engine rejects duplicate object definitions outside map overrides"@,
                    ),
                    overrides: false,
                }
            } else {
                none
            }
        },
        _ => none,
    }
}

fn find_base_site(sites: &Vec<&Location>) -> (r: Option<usize>)
    ensures
        match r {
            Some(i) => i < sites.len() && base_site(
                sites@.map_values(|l: &Location| l@),
                0,
            ) == Some(sites@[i as int]@),
            None => base_site(sites@.map_values(|l: &Location| l@), 0) is None,
        },
{
    let ghost list = sites@.map_values(|l: &Location| l@);
    let mut i: usize = 0;
    while i < sites.len()
        invariant
            i <= sites.len(),
            list == sites@.map_values(|l: &Location| l@),
            base_site(list, 0) == base_site(list, i as int),
        decreases sites.len() - i,
    {
        if !is_override_layer(sites[i].file.as_str()) {
            return Some(i);
        }
        i += 1;
    }
    None
}

/// Cross-file redefinitions of a named block. Returns true when the block is
/// an override of a name defined elsewhere: the engine merges it over a copy
/// of the existing definition, so it need not be complete by itself.
pub fn check_redefinition(ctx: Ctx<'_>, node: &SyntaxNode, out: &mut Vec<Diagnostic>) -> (r: bool)
    ensures
        r == redefinition(ctx, *node).overrides,
        diags(final(out)@) == diags(old(out)@) + redefinition(ctx, *node).found,
{
    let index = match ctx.index {
        Some(index) => index,
        None => {
            return false;
        },
    };
    let file = match ctx.file {
        Some(file) => file,
        None => {
            return false;
        },
    };
    let kind = match kind_defined(ctx.analyzer, node) {
        Some(kind) => kind,
        None => {
            return false;
        },
    };
    let name = match &node.name {
        Some(name) => name,
        None => {
            return false;
        },
    };
    let all = index.locations(kind, name.text.as_str());
    let ghost locs = views(all@);
    let mut sites: Vec<&Location> = Vec::new();
    let mut i: usize = 0;
    while i < all.len()
        invariant
            i <= all.len(),
            locs == views(all@),
            sites@.map_values(|l: &Location| l@) == other_sites(
                locs.take(i as int),
                file@,
                name.span,
            ),
        decreases all.len() - i,
    {
        let ghost s0 = sites@.map_values(|l: &Location| l@);
        assert(locs.take(i + 1).drop_last() =~= locs.take(i as int));
        if !(same(all[i].file.as_str(), file) && all[i].span == name.span) {
            sites.push(&all[i]);
            assert(sites@.map_values(|l: &Location| l@) =~= s0.push(locs[i as int]));
        }
        i += 1;
    }
    assert(locs.take(i as int) =~= locs);
    let ghost list = sites@.map_values(|l: &Location| l@);
    if sites.len() == 0 {
        return false;
    }
    let base = find_base_site(&sites);
    if is_override_layer(file) {
        let at: usize = match base {
            Some(i) => i,
            None => 0,
        };
        assert(list[at as int] == sites@[at as int]@);
        hint(
            out,
            name.span,
            "overrides",
            join5(
                "overrides `",
                name.text.as_str(),
                "` defined in ",
                short_file(sites[at].file.as_str()),
                " (map override: merged over the existing definition)",
            ),
        );
        return true;
    }
    if kind == RefKind::Object {
        if let Some(at) = base {
            warning(
                out,
                name.span,
                "duplicate-definition",
                join5(
                    "`",
                    name.text.as_str(),
                    "` is already defined in ",
                    short_file(sites[at].file.as_str()),
                    " — the engine rejects duplicate object definitions outside map overrides",
                ),
            );
        }
    }
    false
}

/// The tags that `RemoveModule` fields of a block name, from element `k` on.
pub open spec fn removed_names(parse: &Parse, node: int, k: int) -> Seq<Seq<char>>
    decreases parse.nodes@[node].elements@.len() - k,
{
    if k < 0 || k >= parse.nodes@[node].elements@.len() {
        Seq::empty()
    } else {
        let rest = removed_names(parse, node, k + 1);
        match parse.nodes@[node].elements@[k] {
            Element::Node(c) => {
                let n = parse.nodes@[c as int];
                if is_field_named(n, "RemoveModule"@) && n.values@.len() > 0 {
                    seq![stripped(n.values@[0].text@)] + rest
                } else {
                    rest
                }
            },
            Element::Token(_) => rest,
        }
    }
}

fn collect_removed(parse: &Parse, node: usize) -> (r: Vec<String>)
    requires
        parse.wf(),
        node < parse.nodes.len(),
    ensures
        texts(r@) == removed_names(parse, node as int, 0),
{
    let mut out: Vec<String> = Vec::new();
    let ghost whole = removed_names(parse, node as int, 0);
    assert(texts(out@) + whole =~= whole);
    let mut k: usize = 0;
    while k < parse.nodes[node].elements.len()
        invariant
            parse.wf(),
            node < parse.nodes.len(),
            k <= parse.nodes@[node as int].elements.len(),
            texts(out@) + removed_names(parse, node as int, k as int) == whole,
        decreases parse.nodes@[node as int].elements.len() - k,
    {
        let ghost o0 = texts(out@);
        if let Element::Node(c) = &parse.nodes[node].elements[k] {
            let n = &parse.nodes[*c];
            if field_is(n, "RemoveModule") && n.values.len() > 0 {
                out.push(unquote(n.values[0].text.as_str()).to_owned());
                assert(texts(out@) =~= o0.push(stripped(n.values@[0].text@)));
            }
        }
        assert(texts(out@) + removed_names(parse, node as int, k + 1) =~= o0 + removed_names(
            parse,
            node as int,
            k as int,
        ));
        k += 1;
    }
    assert(texts(out@) =~= whole);
    out
}

/// The names of the tags that were not removed.
pub open spec fn kept_tags(tags: Seq<TagView>, removed: Seq<Seq<char>>) -> Seq<Seq<char>>
    decreases tags.len(),
{
    if tags.len() == 0 {
        Seq::empty()
    } else {
        let rest = kept_tags(tags.drop_last(), removed);
        if any_ci(removed, tags.last().name) {
            rest
        } else {
            rest.push(tags.last().name)
        }
    }
}

/// The default modules that a new map object still inherits.
pub open spec fn inherited_defaults(index: &WorkspaceIndex, parse: &Parse, node: int) -> Seq<
    Seq<char>,
> {
    dedup_ci(
        kept_tags(
            picked(index.tag_rows(), visible_tag(default_object(), None, None)),
            removed_names(parse, node, 0),
        ),
    )
}

/// A new object of an override layer should remove the default modules.
pub open spec fn default_module_diags(ctx: Ctx<'_>, node: int) -> Seq<DiagnosticView> {
    match (ctx.index, ctx.file, ctx.parse.nodes@[node].name) {
        (Some(index), Some(file), Some(name)) => if same_ci(
            name.text@,
            "DefaultThingTemplate"@,
        ) || !new_override(index.def_rows(), name.text@, file@) || inherited_defaults(
            index,
            ctx.parse,
            node,
        ).len() == 0 {
            nothing()
        } else {
            hint_at(
                name.span,
                "default-modules-not-removed"@,
                "new map object inherits default modules "@ + joined(
                    inherited_defaults(index, ctx.parse, node),
                    ", "@,
                ) + "; remove them with `RemoveModule <tag>`"@,
            )
        },
        _ => nothing(),
    }
}

/// Hints at default modules that a new map object inherits.
pub fn check_default_module_removals(ctx: Ctx<'_>, node: usize, out: &mut Vec<Diagnostic>)
    requires
        ctx.parse.wf(),
        node < ctx.parse.nodes.len(),
    ensures
        diags(final(out)@) == diags(old(out)@) + default_module_diags(ctx, node as int),
{
    let index = match ctx.index {
        Some(index) => index,
        None => {
            return;
        },
    };
    let file = match ctx.file {
        Some(file) => file,
        None => {
            return;
        },
    };
    let name = match &ctx.parse.nodes[node].name {
        Some(name) => name,
        None => {
            return;
        },
    };
    if eq_ci(name.text.as_str(), "DefaultThingTemplate") || !index.is_new_override_object(
        name.text.as_str(),
        file,
    ) {
        return;
    }
    let removed = collect_removed(ctx.parse, node);
    let tags = index.module_tags_for_object("DefaultThingTemplate");
    let ghost list = tags@.map_values(|t: &ModuleTagDefinition| t@);
    let mut kept: Vec<String> = Vec::new();
    let mut i: usize = 0;
    while i < tags.len()
        invariant
            i <= tags.len(),
            list == tags@.map_values(|t: &ModuleTagDefinition| t@),
            texts(kept@) == kept_tags(list.take(i as int), texts(removed@)),
        decreases tags.len() - i,
    {
        let ghost k0 = texts(kept@);
        assert(list.take(i + 1).drop_last() =~= list.take(i as int));
        if !holds_ci(&removed, tags[i].name.as_str()) {
            kept.push(tags[i].name.clone());
            assert(texts(kept@) =~= k0.push(list[i as int].name));
        }
        i += 1;
    }
    assert(list.take(i as int) =~= list);
    let remaining = dedup_case_insensitive(kept);
    assert(texts(remaining@).len() == remaining@.len());
    if remaining.len() > 0 {
        let names = join_texts(&remaining, ", ");
        hint(
            out,
            name.span,
            "default-modules-not-removed",
            join3(
                "new map object inherits default modules ",
                names.as_str(),
                "; remove them with `RemoveModule <tag>`",
            ),
        );
    }
}

/// The check of a block's keyword against the schema.
pub open spec fn keyword_diags(ctx: Ctx<'_>, node: int) -> Seq<DiagnosticView> {
    match ctx.parse.nodes@[node].head {
        None => nothing(),
        Some(keyword) => if ctx.analyzer.block_of(keyword.text@) is None {
            error_at(
                keyword.span,
                "unknown-block"@,
                "unknown block type `"@ + keyword.text@ + "`"@,
            )
        } else {
            nothing()
        },
    }
}

/// Reports a block whose keyword the schema does not know.
pub fn check_keyword(ctx: Ctx<'_>, node: usize, out: &mut Vec<Diagnostic>)
    requires
        ctx.parse.wf(),
        node < ctx.parse.nodes.len(),
    ensures
        diags(final(out)@) == diags(old(out)@) + keyword_diags(ctx, node as int),
{
    if let Some(keyword) = &ctx.parse.nodes[node].head {
        let text = keyword.text.as_str();
        if ctx.analyzer.block(text).is_none() {
            error(
                out,
                keyword.span,
                "unknown-block",
                join3("unknown block type `", text, "`"),
            );
        }
    }
}

/// The checks of a block's header.
pub open spec fn block_head_diags(ctx: Ctx<'_>, node: int) -> Seq<DiagnosticView> {
    let n = ctx.parse.nodes@[node];
    match n.head {
        None => nothing(),
        Some(keyword) => keyword_diags(ctx, node) + redefinition(ctx, n).found + (if same_ci(keyword.text@, "Object"@) {
            default_module_diags(ctx, node)
        } else {
            nothing()
        }) + (if keyword.text@ == "Object"@ && !redefinition(ctx, n).overrides {
            reachability_diags(ctx.parse, node)
        } else {
            nothing()
        }),
    }
}

/// A top-level block: its header, then everything inside.
pub open spec fn block_diags(ctx: Ctx<'_>, node: int) -> Seq<DiagnosticView> {
    block_head_diags(ctx, node) + walk_view(
        ctx,
        node,
        scope_of(ctx.analyzer, ctx.parse, node),
        0,
        Seq::empty(),
    ).found
}

fn check_block_head(ctx: Ctx<'_>, node: usize, out: &mut Vec<Diagnostic>)
    requires
        ctx.parse.wf(),
        node < ctx.parse.nodes.len(),
    ensures
        diags(final(out)@) == diags(old(out)@) + block_head_diags(ctx, node as int),
{
    let ghost d0 = diags(out@);
    if let Some(keyword) = &ctx.parse.nodes[node].head {
        let text = keyword.text.as_str();
        check_keyword(ctx, node, out);
        let overrides = check_redefinition(ctx, &ctx.parse.nodes[node], out);
        if eq_ci(text, "Object") {
            check_default_module_removals(ctx, node, out);
        }
        if same(text, "Object") && !overrides {
            check_set_reachability(ctx.parse, node, out);
        }
    }
    assert(diags(out@) =~= d0 + block_head_diags(ctx, node as int));
}

/// Validate a top-level block.
pub fn check_block(ctx: Ctx<'_>, node: usize, out: &mut Vec<Diagnostic>)
    requires
        ctx.parse.wf(),
        node < ctx.parse.nodes.len(),
    ensures
        diags(final(out)@) == diags(old(out)@) + block_diags(ctx, node as int),
{
    let ghost d0 = diags(out@);
    let scope = scope_schema(ctx.analyzer, ctx.parse, node);
    check_block_head(ctx, node, out);
    let mut seen: Vec<String> = Vec::new();
    assert(texts(seen@) =~= Seq::<Seq<char>>::empty());
    walk_scope(ctx, node, scope, &mut seen, out);
    assert(diags(out@) =~= d0 + block_diags(ctx, node as int));
}

/// A field outside every block, unless it is a single-line directive.
pub open spec fn stray_diags(ctx: Ctx<'_>, node: int) -> Seq<DiagnosticView> {
    match ctx.parse.nodes@[node].head {
        Some(key) => if (ctx.analyzer.block_of(key.text@) matches Some(b) && !b.terminated) {
            nothing()
        } else {
            error_at(
                key.span,
                "stray-field"@,
                "`"@ + key.text@ + "` is not inside a block"@,
            )
        },
        None => nothing(),
    }
}

/// Reports a field outside every block that is no single-line directive.
pub fn check_stray(ctx: Ctx<'_>, node: usize, out: &mut Vec<Diagnostic>)
    requires
        ctx.parse.wf(),
        node < ctx.parse.nodes.len(),
    ensures
        diags(final(out)@) == diags(old(out)@) + stray_diags(ctx, node as int),
{
    if let Some(key) = &ctx.parse.nodes[node].head {
        let inline = match ctx.analyzer.block(key.text.as_str()) {
            Some(b) => !b.terminated,
            None => false,
        };
        if !inline {
            error(
                out,
                key.span,
                "stray-field",
                join3("`", key.text.as_str(), "` is not inside a block"),
            );
        }
    }
}

/// A direct child of the root: a block, or a stray field that is no
/// single-line directive.
pub open spec fn root_child_diags(ctx: Ctx<'_>, node: int) -> Seq<DiagnosticView> {
    match ctx.parse.nodes@[node].kind {
        SyntaxKind::Block => block_diags(ctx, node),
        SyntaxKind::Field => stray_diags(ctx, node),
        _ => nothing(),
    }
}

/// All schema diagnostics for one direct child of the root.
pub fn diagnose_root_child(ctx: Ctx<'_>, node: usize) -> (r: Vec<Diagnostic>)
    requires
        ctx.parse.wf(),
        node < ctx.parse.nodes.len(),
    ensures
        diags(r@) == root_child_diags(ctx, node as int),
{
    let mut out: Vec<Diagnostic> = Vec::new();
    assert(diags(out@) =~= nothing());
    match ctx.parse.nodes[node].kind {
        SyntaxKind::Block => check_block(ctx, node, &mut out),
        SyntaxKind::Field => check_stray(ctx, node, &mut out),
        _ => {},
    }
    assert(diags(out@) =~= root_child_diags(ctx, node as int));
    out
}

} // verus!
