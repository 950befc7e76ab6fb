//! Diagnostics for map-shipped files: references that the engine resolves at
//! once must not point at definitions that come later in the file.

use vstd::prelude::*;

use crate::analyzer::Analyzer;
use crate::extract::{defined_kind, field_is, is_field_named, kind_defined, pointed_kind};
use crate::index::{
    def_in_base, is_override_layer, override_layer, WorkspaceIndex,
};
use crate::model::{scope_of, scope_schema, ScopeSchema};
use crate::objects::short_file;
use crate::schema::{Field, RefKind, ValueType};
use crate::scopes::{join_texts, joined};
use crate::syntax::{Element, Parse, Span, SyntaxKind, SyntaxNode, SyntaxToken};
use crate::text::{
    eq_ci, is_digit, join3, join5, last_part, lower, same, same_ci, split_at_first, split_once,
    texts, to_lower,
};
use crate::values::{
    diags, first_stripped, nothing, stripped, unquote, warning, warning_at, Ctx, Diagnostic,
    DiagnosticView,
};

verus! {

/// A definition of the file itself, with its place among the blocks.
pub struct MapDef {
    pub kind: RefKind,
    pub key: String,
    pub order: usize,
    pub header: String,
}

/// The model of a [`MapDef`].
pub struct MapDefView {
    pub kind: RefKind,
    pub key: Seq<char>,
    pub order: int,
    pub header: Seq<char>,
}

impl View for MapDef {
    type V = MapDefView;

    open spec fn view(&self) -> MapDefView {
        MapDefView {
            kind: self.kind,
            key: self.key@,
            order: self.order as int,
            header: self.header@,
        }
    }
}

pub open spec fn map_defs(list: Seq<MapDef>) -> Seq<MapDefView> {
    list.map_values(|d: MapDef| d@)
}

pub open spec fn opt_token(token: Option<SyntaxToken>) -> Seq<Seq<char>> {
    match token {
        Some(t) => seq![t.text@],
        None => Seq::empty(),
    }
}

/// A block's header words.
pub open spec fn header_text(node: SyntaxNode) -> Seq<char> {
    joined(opt_token(node.head) + opt_token(node.name) + opt_token(node.tag), " "@)
}

/// The header of a block as one line.
pub fn block_header(node: &SyntaxNode) -> (r: String)
    ensures
        r@ == header_text(*node),
{
    let mut words: Vec<String> = Vec::new();
    if let Some(t) = &node.head {
        words.push(t.text.clone());
    }
    if let Some(t) = &node.name {
        words.push(t.text.clone());
    }
    if let Some(t) = &node.tag {
        words.push(t.text.clone());
    }
    assert(texts(words@) =~= opt_token(node.head) + opt_token(node.name) + opt_token(node.tag));
    join_texts(&words, " ")
}

/// The definition that a block makes at that place.
pub open spec fn map_def_of(analyzer: &Analyzer, node: SyntaxNode, order: int) -> Seq<MapDefView> {
    match (defined_kind(analyzer, node), node.name) {
        (Some(kind), Some(name)) => seq![
            MapDefView { kind, key: lower(name.text@), order, header: header_text(node) },
        ],
        _ => Seq::empty(),
    }
}

/// The definitions of the blocks from element `k` on, the next block being
/// number `order`.
pub open spec fn map_defs_from(analyzer: &Analyzer, parse: &Parse, k: int, order: int) -> Seq<
    MapDefView,
>
    decreases parse.nodes@[0].elements@.len() - k,
{
    if k < 0 || k >= parse.nodes@[0].elements@.len() {
        Seq::empty()
    } else {
        match parse.nodes@[0].elements@[k] {
            Element::Node(c) => if parse.nodes@[c as int].kind is Block {
                map_def_of(analyzer, parse.nodes@[c as int], order) + map_defs_from(
                    analyzer,
                    parse,
                    k + 1,
                    order + 1,
                )
            } else {
                map_defs_from(analyzer, parse, k + 1, order)
            },
            Element::Token(_) => map_defs_from(analyzer, parse, k + 1, order),
        }
    }
}

/// The definitions that a file makes, in order.
pub fn map_top_level_defs(analyzer: &Analyzer, parse: &Parse) -> (r: Vec<MapDef>)
    requires
        parse.wf(),
    ensures
        map_defs(r@) == map_defs_from(analyzer, parse, 0, 0),
{
    let mut out: Vec<MapDef> = Vec::new();
    let ghost whole = map_defs_from(analyzer, parse, 0, 0);
    assert(map_defs(out@) + whole =~= whole);
    let mut order: usize = 0;
    let mut k: usize = 0;
    while k < parse.nodes[0].elements.len()
        invariant
            parse.wf(),
            order <= k <= parse.nodes@[0].elements.len(),
            map_defs(out@) + map_defs_from(analyzer, parse, k as int, order as int) == whole,
        decreases parse.nodes@[0].elements.len() - k,
    {
        let ghost o0 = map_defs(out@);
        let ghost n0 = order as int;
        if let Element::Node(c) = &parse.nodes[0].elements[k] {
            let node = &parse.nodes[*c];
            if node.kind == SyntaxKind::Block {
                if let Some(kind) = kind_defined(analyzer, node) {
                    if let Some(name) = &node.name {
                        let item = MapDef {
                            kind,
                            key: to_lower(name.text.as_str()),
                            order,
                            header: block_header(node),
                        };
                        out.push(item);
                        assert(map_defs(out@) =~= o0.push(item@));
                    }
                }
                order += 1;
            }
        }
        assert(map_defs(out@) + map_defs_from(analyzer, parse, k + 1, order as int) =~= o0
            + map_defs_from(analyzer, parse, k as int, n0));
        k += 1;
    }
    assert(map_defs(out@) =~= whole);
    out
}

/// The first definition from `i` on of that kind and key that comes after
/// block `order`.
pub open spec fn later_def(
    defs: Seq<MapDefView>,
    kind: RefKind,
    key: Seq<char>,
    order: int,
    i: int,
) -> Option<MapDefView>
    decreases defs.len() - i,
{
    if i < 0 || i >= defs.len() {
        None
    } else if defs[i].kind == kind && defs[i].key == key && defs[i].order > order {
        Some(defs[i])
    } else {
        later_def(defs, kind, key, order, i + 1)
    }
}

/// Decides [`later_def`].
pub fn later_map_definition<'a>(
    defs: &'a Vec<MapDef>,
    kind: RefKind,
    name: &str,
    order: usize,
) -> (r: Option<&'a MapDef>)
    ensures
        match r {
            Some(d) => later_def(map_defs(defs@), kind, lower(name@), order as int, 0) == Some(d@),
            None => later_def(map_defs(defs@), kind, lower(name@), order as int, 0) is None,
        },
{
    let key = to_lower(name);
    let ghost list = map_defs(defs@);
    let mut i: usize = 0;
    while i < defs.len()
        invariant
            i <= defs.len(),
            list == map_defs(defs@),
            key@ == lower(name@),
            later_def(list, kind, key@, order as int, 0) == later_def(
                list,
                kind,
                key@,
                order as int,
                i as int,
            ),
        decreases defs.len() - i,
    {
        if defs[i].kind == kind && same(defs[i].key.as_str(), key.as_str()) && defs[i].order
            > order {
            return Some(&defs[i]);
        }
        i += 1;
    }
    None
}

/// A reference inside a value.
pub struct MapReference {
    pub kind: RefKind,
    pub span: Span,
    pub name: String,
}

/// The model of a [`MapReference`].
pub struct MapRefView {
    pub kind: RefKind,
    pub span: Span,
    pub name: Seq<char>,
}

pub open spec fn map_refs(list: Seq<MapReference>) -> Seq<MapRefView> {
    list.map_values(
        |r: MapReference| MapRefView { kind: r.kind, span: r.span, name: r.name@ },
    )
}

pub open spec fn map_ref(kind: RefKind, span: Span, name: Seq<char>) -> Seq<MapRefView> {
    seq![MapRefView { kind, span, name }]
}

/// The reference that one token makes under a type.
pub open spec fn token_ref(ty: ValueType, tok: SyntaxToken) -> Seq<MapRefView>
    decreases ty,
{
    let raw = stripped(tok.text@);
    match ty {
        ValueType::Reference { ref_kind } => map_ref(ref_kind, tok.span, raw),
        ValueType::ReferenceList { ref_kind } => map_ref(ref_kind, tok.span, raw),
        ValueType::Prefixed { prefix, value_type } => match (
            split_once(raw, ':'),
            pointed_kind(*value_type),
        ) {
            (Some((actual, name)), Some(kind)) => if same_ci(actual, prefix@) {
                map_ref(kind, tok.span, name)
            } else {
                Seq::empty()
            },
            _ => Seq::empty(),
        },
        ValueType::OneOf { variants } => {
            let k = crate::schema::active_variant(variants@, Some(raw));
            if 0 <= k < variants@.len() {
                token_ref(variants@[k], tok)
            } else {
                Seq::empty()
            }
        },
        _ => Seq::empty(),
    }
}

fn push_ref(kind: RefKind, span: Span, name: &str, out: &mut Vec<MapReference>)
    ensures
        map_refs(final(out)@) == map_refs(old(out)@) + map_ref(kind, span, name@),
{
    let ghost o0 = map_refs(out@);
    out.push(MapReference { kind, span, name: name.to_owned() });
    assert(map_refs(out@) =~= o0 + map_ref(kind, span, name@));
}

fn reference_token(ty: &ValueType, tok: &SyntaxToken, out: &mut Vec<MapReference>)
    ensures
        map_refs(final(out)@) == map_refs(old(out)@) + token_ref(*ty, *tok),
    decreases ty,
{
    let raw = unquote(tok.text.as_str());
    match ty {
        ValueType::Reference { ref_kind } => push_ref(*ref_kind, tok.span, raw, out),
        ValueType::ReferenceList { ref_kind } => push_ref(*ref_kind, tok.span, raw, out),
        ValueType::Prefixed { prefix, value_type } => {
            if let Some((actual, name)) = split_at_first(raw, ':') {
                if eq_ci(actual, prefix.as_str()) {
                    if let Some(kind) = crate::extract::kind_pointed_at(value_type) {
                        push_ref(kind, tok.span, name, out);
                    }
                }
            }
        },
        ValueType::OneOf { variants } => {
            if variants.len() > 0 {
                let k: usize = crate::schema::variant_index(variants, Some(raw));
                reference_token(&variants[k], tok, out);
            }
        },
        _ => {},
    }
}

/// How many tokens a logical value at `i` takes: none past the end.
pub open spec fn ref_width(ty: ValueType, tokens: Seq<SyntaxToken>, i: int) -> int {
    if i >= tokens.len() {
        0
    } else if ty.split_prefix(stripped(tokens[i].text@)) is Some && i + 1 < tokens.len() {
        2
    } else {
        1
    }
}

/// The reference that a logical value at `i` makes.
pub open spec fn logical_ref(ty: ValueType, tokens: Seq<SyntaxToken>, i: int) -> Seq<MapRefView> {
    if i >= tokens.len() {
        Seq::empty()
    } else {
        match ty.split_prefix(stripped(tokens[i].text@)) {
            Some(value_type) => if i + 1 < tokens.len() {
                token_ref(value_type, tokens[i + 1])
            } else {
                token_ref(ty, tokens[i])
            },
            None => token_ref(ty, tokens[i]),
        }
    }
}

fn reference_value_tokens(
    ty: &ValueType,
    tokens: &Vec<SyntaxToken>,
    i: usize,
    out: &mut Vec<MapReference>,
) -> (width: usize)
    requires
        i <= tokens.len(),
    ensures
        width == ref_width(*ty, tokens@, i as int),
        i + width <= tokens.len(),
        map_refs(final(out)@) == map_refs(old(out)@) + logical_ref(*ty, tokens@, i as int),
{
    if i >= tokens.len() {
        return 0;
    }
    if let Some(value_type) = ty.split_prefix_value_type(unquote(tokens[i].text.as_str())) {
        if i + 1 < tokens.len() {
            reference_token(value_type, &tokens[i + 1], out);
            return 2;
        }
    }
    reference_token(ty, &tokens[i], out);
    1
}

/// Plain references from token `i` on.
pub open spec fn plain_refs(kind: RefKind, tokens: Seq<SyntaxToken>, i: int) -> Seq<MapRefView>
    decreases tokens.len() - i,
{
    if i < 0 || i >= tokens.len() {
        Seq::empty()
    } else {
        map_ref(kind, tokens[i].span, stripped(tokens[i].text@)) + plain_refs(kind, tokens, i + 1)
    }
}

fn push_plain_refs(
    kind: RefKind,
    tokens: &Vec<SyntaxToken>,
    from: usize,
    out: &mut Vec<MapReference>,
)
    requires
        from <= tokens.len(),
    ensures
        map_refs(final(out)@) == map_refs(old(out)@) + plain_refs(kind, tokens@, from as int),
{
    let ghost start = map_refs(out@);
    let mut i: usize = from;
    while i < tokens.len()
        invariant
            from <= i <= tokens.len(),
            map_refs(out@) + plain_refs(kind, tokens@, i as int) == start + plain_refs(
                kind,
                tokens@,
                from as int,
            ),
        decreases tokens.len() - i,
    {
        let ghost o0 = map_refs(out@);
        push_ref(kind, tokens[i].span, unquote(tokens[i].text.as_str()), out);
        assert(map_refs(out@) + plain_refs(kind, tokens@, i + 1) =~= o0 + plain_refs(
            kind,
            tokens@,
            i as int,
        ));
        i += 1;
    }
}

/// References of a token list from element `s` on, where token `raw` is next.
/// A reference list at the end takes all that is left.
pub open spec fn list_refs(
    specs: Seq<ValueType>,
    tokens: Seq<SyntaxToken>,
    s: int,
    raw: int,
) -> Seq<MapRefView>
    decreases specs.len() - s,
{
    if s < 0 || s >= specs.len() || raw >= tokens.len() {
        Seq::empty()
    } else {
        match specs[s] {
            ValueType::ReferenceList { ref_kind } => if s + 1 == specs.len() {
                plain_refs(ref_kind, tokens, raw)
            } else {
                logical_ref(specs[s], tokens, raw) + list_refs(
                    specs,
                    tokens,
                    s + 1,
                    raw + ref_width(specs[s], tokens, raw),
                )
            },
            _ => logical_ref(specs[s], tokens, raw) + list_refs(
                specs,
                tokens,
                s + 1,
                raw + ref_width(specs[s], tokens, raw),
            ),
        }
    }
}

/// The references in a value of this type.
pub open spec fn value_refs(ty: ValueType, tokens: Seq<SyntaxToken>) -> Seq<MapRefView>
    decreases ty,
{
    match ty {
        ValueType::OneOf { variants } => {
            let k = crate::schema::active_variant(variants@, first_stripped(tokens));
            if 0 <= k < variants@.len() {
                value_refs(variants@[k], tokens)
            } else {
                Seq::empty()
            }
        },
        ValueType::Reference { ref_kind } => if tokens.len() > 0 {
            map_ref(ref_kind, tokens[0].span, stripped(tokens[0].text@))
        } else {
            Seq::empty()
        },
        ValueType::ReferenceList { ref_kind } => plain_refs(ref_kind, tokens, 0),
        ValueType::Prefixed { .. } => logical_ref(ty, tokens, 0),
        ValueType::TokenList { tokens: specs } => list_refs(specs@, tokens, 0, 0),
        _ => Seq::empty(),
    }
}

/// Collects the references in a value.
pub fn reference_tokens(ty: &ValueType, tokens: &Vec<SyntaxToken>, out: &mut Vec<MapReference>)
    ensures
        map_refs(final(out)@) == map_refs(old(out)@) + value_refs(*ty, tokens@),
    decreases ty,
{
    match ty {
        ValueType::OneOf { variants } => {
            let first: Option<&str> = if tokens.len() > 0 {
                Some(unquote(tokens[0].text.as_str()))
            } else {
                None
            };
            assert(crate::schema::text_of(first) == first_stripped(tokens@));
            if variants.len() > 0 {
                let k: usize = crate::schema::variant_index(variants, first);
                reference_tokens(&variants[k], tokens, out);
            }
        },
        ValueType::Reference { ref_kind } => {
            if tokens.len() > 0 {
                push_ref(*ref_kind, tokens[0].span, unquote(tokens[0].text.as_str()), out);
            }
        },
        ValueType::ReferenceList { ref_kind } => push_plain_refs(*ref_kind, tokens, 0, out),
        ValueType::Prefixed { .. } => {
            let _width = reference_value_tokens(ty, tokens, 0, out);
        },
        ValueType::TokenList { tokens: specs } => {
            let ghost start = map_refs(out@);
            let ghost whole = list_refs(specs@, tokens@, 0, 0);
            let mut raw: usize = 0;
            let mut s: usize = 0;
            while s < specs.len() && raw < tokens.len()
                invariant
                    s <= specs.len(),
                    raw <= tokens.len(),
                    start == map_refs(old(out)@),
                    whole == value_refs(*ty, tokens@),
                    map_refs(out@) + list_refs(specs@, tokens@, s as int, raw as int) == start
                        + whole,
                decreases specs.len() - s,
            {
                let ghost o0 = map_refs(out@);
                if s + 1 == specs.len() {
                    if let ValueType::ReferenceList { ref_kind } = &specs[s] {
                        push_plain_refs(*ref_kind, tokens, raw, out);
                        assert(map_refs(out@) =~= start + whole);
                        return;
                    }
                }
                let width: usize = reference_value_tokens(&specs[s], tokens, raw, out);
                assert(map_refs(out@) + list_refs(specs@, tokens@, s + 1, raw + width) =~= o0
                    + list_refs(specs@, tokens@, s as int, raw as int));
                raw += width;
                s += 1;
            }
        },
        _ => {},
    }
}

/// The engine parse functions that resolve a reference while they read it.
pub open spec fn eager_functions() -> Seq<Seq<char>> {
    seq![
        "AI::parseScience"@,
        "AIUpdateModuleData::parseLocomotorSet"@,
        "ArmorStore::parseArmorTemplate"@,
        "BoneFXUpdateModuleData::parseFXList"@,
        "BoneFXUpdateModuleData::parseObjectCreationList"@,
        "BoneFXUpdateModuleData::parseParticleSystem"@,
        "CommandSet::parseCommandButton"@,
        "DamageFX::parseMajorFXList"@,
        "DamageFX::parseMinorFXList"@,
        "DamageFXStore::parseDamageFX"@,
        "INI::parseFXList"@,
        "INI::parseMappedImage"@,
        "INI::parseObjectCreationList"@,
        "INI::parseParticleSystemTemplate"@,
        "INI::parseScience"@,
        "INI::parseScienceVector"@,
        "INI::parseSpecialPowerTemplate"@,
        "INI::parseThingTemplate"@,
        "INI::parseUpgradeTemplate"@,
        "INI::parseWeaponTemplate"@,
        "ProductionPrerequisite::parsePrerequisiteScience"@,
        "ProductionPrerequisite::parsePrerequisiteUnit"@,
        "TransitionDamageFXModuleData::parseFXList"@,
        "TransitionDamageFXModuleData::parseObjectCreationList"@,
        "TransitionDamageFXModuleData::parseParticleSystem"@,
        "WeaponTemplateSet::parseWeapon"@,
        "parseAllVetLevelsFXList"@,
        "parseAllVetLevelsPSys"@,
        "parseAngleFX"@,
        "parseBountyUpgradePair"@,
        "parseCashHackUpgradePair"@,
        "parseFX"@,
        "parseOCL"@,
        "parseOCLUpgradePair"@,
        "parseParticleSysBone"@,
        "parsePerVetLevelFXList"@,
        "parsePerVetLevelPSys"@,
        "parseWeapon"@,
    ]
}

/// Whether a text is one of a list.
pub fn listed(list: &[&'static str], name: &str) -> (r: bool)
    ensures
        r == crate::text::slices(list@).contains(name@),
{
    let ghost all = crate::text::slices(list@);
    let mut i: usize = 0;
    while i < list.len()
        invariant
            i <= list.len(),
            all == crate::text::slices(list@),
            forall|k: int| 0 <= k < i ==> all[k] != name@,
        decreases list.len() - i,
    {
        if same(list[i], name) {
            assert(all[i as int] == name@);
            return true;
        }
        i += 1;
    }
    false
}

fn is_eager_function(name: &str) -> (r: bool)
    ensures
        r == eager_functions().contains(name@),
{
    let list: [&'static str; 38] = [
        "AI::parseScience",
        "AIUpdateModuleData::parseLocomotorSet",
        "ArmorStore::parseArmorTemplate",
        "BoneFXUpdateModuleData::parseFXList",
        "BoneFXUpdateModuleData::parseObjectCreationList",
        "BoneFXUpdateModuleData::parseParticleSystem",
        "CommandSet::parseCommandButton",
        "DamageFX::parseMajorFXList",
        "DamageFX::parseMinorFXList",
        "DamageFXStore::parseDamageFX",
        "INI::parseFXList",
        "INI::parseMappedImage",
        "INI::parseObjectCreationList",
        "INI::parseParticleSystemTemplate",
        "INI::parseScience",
        "INI::parseScienceVector",
        "INI::parseSpecialPowerTemplate",
        "INI::parseThingTemplate",
        "INI::parseUpgradeTemplate",
        "INI::parseWeaponTemplate",
        "ProductionPrerequisite::parsePrerequisiteScience",
        "ProductionPrerequisite::parsePrerequisiteUnit",
        "TransitionDamageFXModuleData::parseFXList",
        "TransitionDamageFXModuleData::parseObjectCreationList",
        "TransitionDamageFXModuleData::parseParticleSystem",
        "WeaponTemplateSet::parseWeapon",
        "parseAllVetLevelsFXList",
        "parseAllVetLevelsPSys",
        "parseAngleFX",
        "parseBountyUpgradePair",
        "parseCashHackUpgradePair",
        "parseFX",
        "parseOCL",
        "parseOCLUpgradePair",
        "parseParticleSysBone",
        "parsePerVetLevelFXList",
        "parsePerVetLevelPSys",
        "parseWeapon",
    ];
    assert(crate::text::slices(list@) =~= eager_functions());
    listed(list.as_slice(), name)
}

/// Whether the engine resolves a reference of this field while it reads it.
pub open spec fn eager(scope: ScopeSchema<'_>, field: Field, kind: RefKind) -> bool {
    let portrait = (scope matches ScopeSchema::Block(b) && b.name@ == "Object"@) && (field.name@
        == "SelectPortrait"@ || field.name@ == "ButtonImage"@);
    if portrait {
        true
    } else if field.parse_fn@ == "parseFactionObjectCreationList"@ {
        kind == RefKind::ObjectCreationList
    } else {
        eager_functions().contains(field.parse_fn@)
    }
}

/// Decides [`eager`].
pub fn eager_map_reference(scope: ScopeSchema<'_>, field: &Field, kind: RefKind) -> (r: bool)
    ensures
        r == eager(scope, *field, kind),
{
    if let ScopeSchema::Block(b) = scope {
        if same(b.name.as_str(), "Object") && (same(field.name.as_str(), "SelectPortrait") || same(
            field.name.as_str(),
            "ButtonImage",
        )) {
            return true;
        }
    }
    if same(field.parse_fn.as_str(), "parseFactionObjectCreationList") {
        return kind == RefKind::ObjectCreationList;
    }
    is_eager_function(field.parse_fn.as_str())
}

/// Whether a base definition exists.
pub open spec fn based(index: Option<&WorkspaceIndex>, kind: RefKind, name: Seq<char>) -> bool {
    match index {
        Some(idx) => def_in_base(idx.def_rows(), kind, lower(name)),
        None => false,
    }
}

fn has_base(index: Option<&WorkspaceIndex>, kind: RefKind, name: &str) -> (r: bool)
    ensures
        r == based(index, kind, name@),
{
    match index {
        Some(idx) => idx.has_base_definition(kind, name),
        None => false,
    }
}

/// What the checks of one block of a map file read.
pub struct MapCtx<'a> {
    pub analyzer: &'a Analyzer,
    pub parse: &'a Parse,
    pub index: Option<&'a WorkspaceIndex>,
    pub defs: &'a Vec<MapDef>,
    /// The block's place among the blocks.
    pub order: usize,
    /// The block's header.
    pub consumer: &'a str,
    /// The file's short name.
    pub file: &'a str,
}

/// The model of a [`MapCtx`].
pub struct MapView<'a> {
    pub analyzer: &'a Analyzer,
    pub parse: &'a Parse,
    pub index: Option<&'a WorkspaceIndex>,
    pub defs: Seq<MapDefView>,
    pub order: int,
    pub consumer: Seq<char>,
    pub file: Seq<char>,
}

impl<'a> MapCtx<'a> {
    pub open spec fn model(&self) -> MapView<'a> {
        MapView {
            analyzer: self.analyzer,
            parse: self.parse,
            index: self.index,
            defs: map_defs(self.defs@),
            order: self.order as int,
            consumer: self.consumer@,
            file: self.file@,
        }
    }
}

pub open spec fn key_is_number(key: Seq<char>) -> bool {
    forall|i: int| 0 <= i < key.len() ==> is_digit(#[trigger] key[i])
}

fn is_number_key(key: &str) -> (r: bool)
    ensures
        r == key_is_number(key@),
{
    let chars = crate::text::chars_of(key);
    let mut i: usize = 0;
    while i < chars.len()
        invariant
            i <= chars.len(),
            chars@ == key@,
            forall|k: int| 0 <= k < i ==> is_digit(#[trigger] key@[k]),
        decreases chars.len() - i,
    {
        if !('0' <= chars[i] && chars[i] <= '9') {
            assert(!is_digit(key@[i as int]));
            return false;
        }
        i += 1;
    }
    true
}

pub open spec fn forward_message(
    header: Seq<char>,
    consumer: Seq<char>,
    key: Seq<char>,
    file: Seq<char>,
) -> Seq<char> {
    "`"@ + header + "` is declared after `"@ + consumer + "`, but "@ + if key_is_number(key) {
        "slot"@
    } else {
        "field"@
    } + " `"@ + key + "` is resolved immediately while `"@ + file + "` loads. Move `"@ + header
        + "` above `"@ + consumer + "`."@
}

fn forward_text(header: &str, consumer: &str, key: &str, file: &str) -> (r: String)
    ensures
        r@ == forward_message(header@, consumer@, key@, file@),
{
    let word = if is_number_key(key) {
        "slot"
    } else {
        "field"
    };
    let a = join5("`", header, "` is declared after `", consumer, "`, but ");
    let b = join5(a.as_str(), word, " `", key, "` is resolved immediately while `");
    let c = join5(b.as_str(), file, "` loads. Move `", header, "` above `");
    join3(c.as_str(), consumer, "`.")
}

/// The references of one field from `i` on that point forward.
pub open spec fn forward_refs(
    m: MapView<'_>,
    scope: ScopeSchema<'_>,
    field: Field,
    key: SyntaxToken,
    refs: Seq<MapRefView>,
    i: int,
) -> Seq<DiagnosticView>
    decreases refs.len() - i,
{
    if i < 0 || i >= refs.len() {
        nothing()
    } else {
        let r = refs[i];
        let here = if !eager(scope, field, r.kind) || same_ci(r.name, "None"@) || based(
            m.index,
            r.kind,
            r.name,
        ) {
            nothing()
        } else {
            match later_def(m.defs, r.kind, lower(r.name), m.order, 0) {
                Some(site) => warning_at(
                    r.span,
                    "map-forward-reference"@,
                    forward_message(site.header, m.consumer, key.text@, m.file),
                ),
                None => nothing(),
            }
        };
        here + forward_refs(m, scope, field, key, refs, i + 1)
    }
}

/// The forward references of a field.
pub open spec fn forward_field(m: MapView<'_>, scope: ScopeSchema<'_>, node: SyntaxNode) -> Seq<
    DiagnosticView,
> {
    match node.head {
        Some(key) => match scope.field_of(key.text@) {
            Some(f) => forward_refs(m, scope, f, key, value_refs(f.value_type, node.values@), 0),
            None => nothing(),
        },
        None => nothing(),
    }
}

fn check_forward_field(
    m: &MapCtx<'_>,
    scope: ScopeSchema<'_>,
    node: &SyntaxNode,
    out: &mut Vec<Diagnostic>,
)
    ensures
        diags(final(out)@) == diags(old(out)@) + forward_field(m.model(), scope, *node),
{
    if let Some(key) = &node.head {
        if let Some(field) = scope.field(key.text.as_str()) {
            let mut refs: Vec<MapReference> = Vec::new();
            assert(map_refs(refs@) =~= Seq::<MapRefView>::empty());
            reference_tokens(&field.value_type, &node.values, &mut refs);
            let ghost list = map_refs(refs@);
            assert(list =~= value_refs(field.value_type, node.values@));
            let ghost start = diags(out@);
            let mut i: usize = 0;
            while i < refs.len()
                invariant
                    i <= refs.len(),
                    list == map_refs(refs@),
                    diags(out@) + forward_refs(m.model(), scope, *field, *key, list, i as int) == start
                        + forward_refs(m.model(), scope, *field, *key, list, 0),
                decreases refs.len() - i,
            {
                let ghost d0 = diags(out@);
                let kind = refs[i].kind;
                let name = refs[i].name.as_str();
                if eager_map_reference(scope, field, kind) && !eq_ci(name, "None") && !has_base(
                    m.index,
                    kind,
                    name,
                ) {
                    if let Some(site) = later_map_definition(m.defs, kind, name, m.order) {
                        let message = forward_text(
                            site.header.as_str(),
                            m.consumer,
                            key.text.as_str(),
                            m.file,
                        );
                        warning(out, refs[i].span, "map-forward-reference", message);
                    }
                }
                assert(diags(out@) + forward_refs(m.model(), scope, *field, *key, list, i + 1) =~= d0
                    + forward_refs(m.model(), scope, *field, *key, list, i as int));
                i += 1;
            }
        }
    }
}

/// The forward references in the subtree of `node`, from element `k` on.
pub open spec fn forward_subtree(m: MapView<'_>, node: int, k: int) -> Seq<DiagnosticView>
    decreases m.parse.nodes@.len() - node, m.parse.nodes@[node].elements@.len() - k,
{
    if k < 0 || k >= m.parse.nodes@[node].elements@.len() {
        nothing()
    } else {
        let here = match m.parse.nodes@[node].elements@[k] {
            Element::Node(c) => if node < c < m.parse.nodes@.len() {
                match m.parse.nodes@[c as int].kind {
                    SyntaxKind::Field => forward_field(
                        m,
                        scope_of(m.analyzer, m.parse, node),
                        m.parse.nodes@[c as int],
                    ),
                    SyntaxKind::Root => nothing(),
                    _ => forward_subtree(m, c as int, 0),
                }
            } else {
                nothing()
            },
            Element::Token(_) => nothing(),
        };
        here + forward_subtree(m, node, k + 1)
    }
}

fn collect_map_reference_diags(m: &MapCtx<'_>, node: usize, out: &mut Vec<Diagnostic>)
    requires
        m.parse.wf(),
        node < m.parse.nodes.len(),
    ensures
        diags(final(out)@) == diags(old(out)@) + forward_subtree(m.model(), node as int, 0),
    decreases m.parse.nodes.len() - node,
{
    let scope = scope_schema(m.analyzer, m.parse, node);
    let ghost start = diags(out@);
    let mut k: usize = 0;
    while k < m.parse.nodes[node].elements.len()
        invariant
            m.parse.wf(),
            node < m.parse.nodes.len(),
            k <= m.parse.nodes@[node as int].elements.len(),
            scope == scope_of(m.analyzer, m.parse, node as int),
            diags(out@) + forward_subtree(m.model(), node as int, k as int) == start + forward_subtree(
                m.model(),
                node as int,
                0,
            ),
        decreases m.parse.nodes@[node as int].elements.len() - k,
    {
        let ghost d0 = diags(out@);
        if let Element::Node(c) = &m.parse.nodes[node].elements[k] {
            let c: usize = *c;
            match m.parse.nodes[c].kind {
                SyntaxKind::Field => check_forward_field(m, scope, &m.parse.nodes[c], out),
                SyntaxKind::Root => {},
                _ => collect_map_reference_diags(m, c, out),
            }
        }
        assert(diags(out@) + forward_subtree(m.model(), node as int, k + 1) =~= d0 + forward_subtree(
            m.model(),
            node as int,
            k as int,
        ));
        k += 1;
    }
}

/// A reskin whose parent comes later.
pub open spec fn reskin_diags(m: MapView<'_>, node: SyntaxNode) -> Seq<DiagnosticView> {
    match (node.head, node.tag) {
        (Some(keyword), Some(parent)) => {
            let name = stripped(parent.text@);
            if same_ci(keyword.text@, "ObjectReskin"@) && !based(m.index, RefKind::Object, name) {
                match later_def(m.defs, RefKind::Object, lower(name), m.order, 0)
                {
                    Some(site) => warning_at(
                        parent.span,
                        "map-forward-reference"@,
                        "`"@ + site.header + "` is declared after `"@ + m.consumer
                            + "`; `ObjectReskin` requires its parent to exist when parsed while `"@
                            + m.file + "` loads. Move `"@ + site.header + "` above `"@
                            + m.consumer + "`."@,
                    ),
                    None => nothing(),
                }
            } else {
                nothing()
            }
        },
        _ => nothing(),
    }
}

fn collect_map_reskin_diag(m: &MapCtx<'_>, node: &SyntaxNode, out: &mut Vec<Diagnostic>)
    ensures
        diags(final(out)@) == diags(old(out)@) + reskin_diags(m.model(), *node),
{
    if let Some(keyword) = &node.head {
        if let Some(parent) = &node.tag {
            let name = unquote(parent.text.as_str());
            if eq_ci(keyword.text.as_str(), "ObjectReskin") && !has_base(
                m.index,
                RefKind::Object,
                name,
            ) {
                if let Some(site) = later_map_definition(m.defs, RefKind::Object, name, m.order) {
                    let header = site.header.as_str();
                    let a = join5(
                        "`",
                        header,
                        "` is declared after `",
                        m.consumer,
                        "`; `ObjectReskin` requires its parent to exist when parsed while `",
                    );
                    let b = join5(a.as_str(), m.file, "` loads. Move `", header, "` above `");
                    warning(
                        out,
                        parent.span,
                        "map-forward-reference",
                        join3(b.as_str(), m.consumer, "`."),
                    );
                }
            }
        }
    }
}

/// Whether the file defines that kind and key.
pub open spec fn file_defines(defs: Seq<MapDefView>, kind: RefKind, key: Seq<char>) -> bool {
    exists|i: int|
        0 <= i < defs.len() && (#[trigger] defs[i]).kind == kind && defs[i].key == key
}

fn defines(defs: &Vec<MapDef>, kind: RefKind, name: &str) -> (r: bool)
    ensures
        r == file_defines(map_defs(defs@), kind, lower(name@)),
{
    let key = to_lower(name);
    let ghost list = map_defs(defs@);
    let mut i: usize = 0;
    while i < defs.len()
        invariant
            i <= defs.len(),
            list == map_defs(defs@),
            key@ == lower(name@),
            forall|k: int|
                0 <= k < i ==> !((#[trigger] list[k]).kind == kind && list[k].key == key@),
        decreases defs.len() - i,
    {
        if defs[i].kind == kind && same(defs[i].key.as_str(), key.as_str()) {
            assert(list[i as int].kind == kind);
            return true;
        }
        i += 1;
    }
    false
}

pub open spec fn projectile_message(name: Seq<char>) -> Seq<char> {
    "`ProjectileObject` uses map-defined object `"@ + name
        + "`; weapon projectile templates are cached before map.ini/solo.ini loads, so new map projectile objects do not resolve reliably in game"@
}

/// Projectile fields of a weapon from element `k` on that name objects of the
/// file.
pub open spec fn projectile_fields(m: MapView<'_>, node: int, k: int) -> Seq<DiagnosticView>
    decreases m.parse.nodes@[node].elements@.len() - k,
{
    if k < 0 || k >= m.parse.nodes@[node].elements@.len() {
        nothing()
    } else {
        let here = match m.parse.nodes@[node].elements@[k] {
            Element::Node(c) => {
                let n = m.parse.nodes@[c as int];
                if is_field_named(n, "ProjectileObject"@) && n.values@.len() > 0 {
                    let name = stripped(n.values@[0].text@);
                    if same_ci(name, "None"@) || !file_defines(
                        m.defs,
                        RefKind::Object,
                        lower(name),
                    ) {
                        nothing()
                    } else {
                        warning_at(
                            n.values@[0].span,
                            "map-projectile-object"@,
                            projectile_message(name),
                        )
                    }
                } else {
                    nothing()
                }
            },
            Element::Token(_) => nothing(),
        };
        here + projectile_fields(m, node, k + 1)
    }
}

/// A weapon's projectiles.
pub open spec fn projectile_diags(m: MapView<'_>, node: int) -> Seq<DiagnosticView> {
    match m.parse.nodes@[node].head {
        Some(keyword) => if same_ci(keyword.text@, "Weapon"@) {
            projectile_fields(m, node, 0)
        } else {
            nothing()
        },
        None => nothing(),
    }
}

fn collect_map_projectile_diags(m: &MapCtx<'_>, node: usize, out: &mut Vec<Diagnostic>)
    requires
        m.parse.wf(),
        node < m.parse.nodes.len(),
    ensures
        diags(final(out)@) == diags(old(out)@) + projectile_diags(m.model(), node as int),
{
    let is_weapon = match &m.parse.nodes[node].head {
        Some(keyword) => eq_ci(keyword.text.as_str(), "Weapon"),
        None => false,
    };
    if !is_weapon {
        return;
    }
    let ghost start = diags(out@);
    let mut k: usize = 0;
    while k < m.parse.nodes[node].elements.len()
        invariant
            m.parse.wf(),
            node < m.parse.nodes.len(),
            k <= m.parse.nodes@[node as int].elements.len(),
            diags(out@) + projectile_fields(m.model(), node as int, k as int) == start
                + projectile_fields(m.model(), node as int, 0),
        decreases m.parse.nodes@[node as int].elements.len() - k,
    {
        let ghost d0 = diags(out@);
        if let Element::Node(c) = &m.parse.nodes[node].elements[k] {
            let n = &m.parse.nodes[*c];
            if field_is(n, "ProjectileObject") && n.values.len() > 0 {
                let name = unquote(n.values[0].text.as_str());
                if !eq_ci(name, "None") && defines(m.defs, RefKind::Object, name) {
                    warning(
                        out,
                        n.values[0].span,
                        "map-projectile-object",
                        join3(
                            "`ProjectileObject` uses map-defined object `",
                            name,
                            "`; weapon projectile templates are cached before map.ini/solo.ini loads, so new map projectile objects do not resolve reliably in game",
                        ),
                    );
                }
            }
        }
        assert(diags(out@) + projectile_fields(m.model(), node as int, k + 1) =~= d0 + projectile_fields(
            m.model(),
            node as int,
            k as int,
        ));
        k += 1;
    }
}

/// The map checks of one block.
pub open spec fn map_block_diags(m: MapView<'_>, node: int) -> Seq<DiagnosticView> {
    forward_subtree(m, node, 0) + reskin_diags(m, m.parse.nodes@[node]) + projectile_diags(m, node)
}

/// The map checks of the blocks from element `k` on, the next block being
/// number `order`.
pub open spec fn map_blocks_from(
    ctx: Ctx<'_>,
    defs: Seq<MapDefView>,
    file: Seq<char>,
    k: int,
    order: int,
) -> Seq<DiagnosticView>
    decreases ctx.parse.nodes@[0].elements@.len() - k,
{
    if k < 0 || k >= ctx.parse.nodes@[0].elements@.len() {
        nothing()
    } else {
        match ctx.parse.nodes@[0].elements@[k] {
            Element::Node(c) => if ctx.parse.nodes@[c as int].kind is Block {
                map_block_diags(
                    MapView {
                        analyzer: ctx.analyzer,
                        parse: ctx.parse,
                        index: ctx.index,
                        defs,
                        order,
                        consumer: header_text(ctx.parse.nodes@[c as int]),
                        file,
                    },
                    c as int,
                ) + map_blocks_from(ctx, defs, file, k + 1, order + 1)
            } else {
                map_blocks_from(ctx, defs, file, k + 1, order)
            },
            Element::Token(_) => map_blocks_from(ctx, defs, file, k + 1, order),
        }
    }
}

/// The diagnostics of a map-shipped file. Other files have none.
pub open spec fn map_layer_diags(ctx: Ctx<'_>) -> Seq<DiagnosticView> {
    match ctx.file {
        Some(file) => if override_layer(file@) {
            map_blocks_from(
                ctx,
                map_defs_from(ctx.analyzer, ctx.parse, 0, 0),
                last_part(file@, '/', '\\'),
                0,
                0,
            )
        } else {
            nothing()
        },
        None => nothing(),
    }
}

/// Appends the diagnostics of a map-shipped file.
pub fn map_layer_diagnostics(ctx: Ctx<'_>, out: &mut Vec<Diagnostic>)
    requires
        ctx.parse.wf(),
    ensures
        diags(final(out)@) == diags(old(out)@) + map_layer_diags(ctx),
{
    let file = match ctx.file {
        Some(file) => file,
        None => {
            return;
        },
    };
    if !is_override_layer(file) {
        return;
    }
    let short = short_file(file);
    let defs = map_top_level_defs(ctx.analyzer, ctx.parse);
    let ghost list = map_defs(defs@);
    let ghost start = diags(out@);
    let ghost whole = map_blocks_from(ctx, list, short@, 0, 0);
    let mut order: usize = 0;
    let mut k: usize = 0;
    while k < ctx.parse.nodes[0].elements.len()
        invariant
            ctx.parse.wf(),
            order <= k <= ctx.parse.nodes@[0].elements.len(),
            list == map_defs(defs@),
            diags(out@) + map_blocks_from(ctx, list, short@, k as int, order as int) == start
                + whole,
        decreases ctx.parse.nodes@[0].elements.len() - k,
    {
        let ghost d0 = diags(out@);
        let ghost n0 = order as int;
        if let Element::Node(c) = &ctx.parse.nodes[0].elements[k] {
            let c: usize = *c;
            if ctx.parse.nodes[c].kind == SyntaxKind::Block {
                let consumer = block_header(&ctx.parse.nodes[c]);
                let m = MapCtx {
                    analyzer: ctx.analyzer,
                    parse: ctx.parse,
                    index: ctx.index,
                    defs: &defs,
                    order,
                    consumer: consumer.as_str(),
                    file: short,
                };
                collect_map_reference_diags(&m, c, out);
                collect_map_reskin_diag(&m, &ctx.parse.nodes[c], out);
                collect_map_projectile_diags(&m, c, out);
                order += 1;
            }
        }
        assert(diags(out@) + map_blocks_from(ctx, list, short@, k + 1, order as int) =~= d0
            + map_blocks_from(ctx, list, short@, k as int, n0));
        k += 1;
    }
}

} // verus!
