//! Context-aware completions.
//!
//! At file scope the top-level block keywords are offered; at the start of a
//! line inside a block or module its fields, module slots and sub-blocks; after
//! `=` the members of a value set, `Yes`/`No`, module names, or the names that
//! the workspace index knows.

use vstd::prelude::*;

use crate::analyzer::{builtin_list, Analyzer};
use crate::index::{
    asset_names_of, base_names_of, copy_opt, keys_of, members_of, model_names_from, names_of,
    opt_text, AssetKind, TagView, WorkspaceIndex,
};
use crate::model::{
    any_ci, child_value, contains_text, is_model_asset_type, is_model_member_type, member_mode,
    member_names, model_member_mode, model_member_names, models_for_source, names_model, scope_of,
    scope_schema, short_member, source_models, value_of_child,
};
use crate::numbers::{all_digits, digits_value, int_literal, is_u64, parse_u64, unsigned_text};
use crate::order::views;
use crate::position::{classify_position, position_of, PosContext, PosView};
use crate::schema::{
    active_variant, text_of, variant_index, AudioExtension, BlockType, Field, ModuleSlot,
    ModuleType, RefKind, SubBlock, ValueMember, ValueType,
};
use crate::scopes::{extension_is, has_extension};
use crate::syntax::{token_text, token_texts, Element, Parse, SyntaxKind, SyntaxToken};
use crate::text::{
    chars_of, decimal, digit_char, eq_ci, is_digit, join2, join3, join5, last_part_of, lower,
    number, rsplit_once, same, same_ci, slices, split_at_first, split_at_last, split_once,
    strip_suffix, texts, without_suffix,
};

verus! {

/// The role of a completion item.
#[derive(Debug, Clone, Copy, PartialEq, Eq, Structural)]
pub enum CompletionKind {
    Block,
    Field,
    Module,
    EnumMember,
    Value,
    Reference,
    W3dModel,
    W3dAnimation,
}

/// A single completion candidate.
#[derive(Debug, PartialEq, Eq)]
pub struct Completion {
    pub label: String,
    pub kind: CompletionKind,
    pub detail: Option<String>,
    /// Markdown shown alongside the selected item.
    pub documentation: Option<String>,
    /// A snippet to insert in place of the label. `$0` marks the final cursor
    /// position; `${N:placeholder}` marks tab stops.
    pub insert: Option<String>,
}

/// The model of a [`Completion`].
pub struct CompletionView {
    pub label: Seq<char>,
    pub kind: CompletionKind,
    pub detail: Option<Seq<char>>,
    pub documentation: Option<Seq<char>>,
    pub insert: Option<Seq<char>>,
}

impl View for Completion {
    type V = CompletionView;

    open spec fn view(&self) -> CompletionView {
        CompletionView {
            label: self.label@,
            kind: self.kind,
            detail: opt_text(self.detail),
            documentation: opt_text(self.documentation),
            insert: opt_text(self.insert),
        }
    }
}

/// An item that inserts its own label.
pub open spec fn plain(
    label: Seq<char>,
    kind: CompletionKind,
    detail: Option<Seq<char>>,
) -> CompletionView {
    CompletionView { label, kind, detail, documentation: None, insert: None }
}

fn plain_item(label: &str, kind: CompletionKind, detail: &str) -> (r: Completion)
    ensures
        r@ == plain(label@, kind, Some(detail@)),
{
    Completion {
        label: label.to_owned(),
        kind,
        detail: Some(detail.to_owned()),
        documentation: None,
        insert: None,
    }
}

/// An item that inserts a snippet.
pub open spec fn snippet_item(
    label: Seq<char>,
    kind: CompletionKind,
    detail: Seq<char>,
    insert: Option<Seq<char>>,
) -> CompletionView {
    CompletionView { label, kind, detail: Some(detail), documentation: None, insert }
}

fn inserting(label: &str, kind: CompletionKind, detail: String, insert: Option<String>) -> (r:
    Completion)
    ensures
        r@ == snippet_item(label@, kind, detail@, opt_text(insert)),
{
    Completion { label: label.to_owned(), kind, detail: Some(detail), documentation: None, insert }
}

/// The name of a kind of definition.
pub open spec fn kind_name(kind: RefKind) -> Seq<char> {
    match kind {
        RefKind::Object => "Object"@,
        RefKind::Weapon => "Weapon"@,
        RefKind::Armor => "Armor"@,
        RefKind::DamageFx => "DamageFx"@,
        RefKind::FxList => "FxList"@,
        RefKind::ObjectCreationList => "ObjectCreationList"@,
        RefKind::ParticleSystem => "ParticleSystem"@,
        RefKind::Locomotor => "Locomotor"@,
        RefKind::Upgrade => "Upgrade"@,
        RefKind::Science => "Science"@,
        RefKind::CommandButton => "CommandButton"@,
        RefKind::CommandSet => "CommandSet"@,
        RefKind::SpecialPower => "SpecialPower"@,
        RefKind::MappedImage => "MappedImage"@,
        RefKind::Anim2D => "Anim2D"@,
        RefKind::PlayerTemplate => "PlayerTemplate"@,
        RefKind::EvaEvent => "EvaEvent"@,
        RefKind::CrateData => "CrateData"@,
        RefKind::AudioEvent => "AudioEvent"@,
    }
}

/// The name of a kind of definition.
pub fn ref_kind_name(kind: RefKind) -> (r: &'static str)
    ensures
        r@ == kind_name(kind),
{
    match kind {
        RefKind::Object => "Object",
        RefKind::Weapon => "Weapon",
        RefKind::Armor => "Armor",
        RefKind::DamageFx => "DamageFx",
        RefKind::FxList => "FxList",
        RefKind::ObjectCreationList => "ObjectCreationList",
        RefKind::ParticleSystem => "ParticleSystem",
        RefKind::Locomotor => "Locomotor",
        RefKind::Upgrade => "Upgrade",
        RefKind::Science => "Science",
        RefKind::CommandButton => "CommandButton",
        RefKind::CommandSet => "CommandSet",
        RefKind::SpecialPower => "SpecialPower",
        RefKind::MappedImage => "MappedImage",
        RefKind::Anim2D => "Anim2D",
        RefKind::PlayerTemplate => "PlayerTemplate",
        RefKind::EvaEvent => "EvaEvent",
        RefKind::CrateData => "CrateData",
        RefKind::AudioEvent => "AudioEvent",
    }
}

/// A tab stop with a placeholder.
pub open spec fn tab_stop(n: nat, text: Seq<char>) -> Seq<char> {
    "${"@ + decimal(n) + ":"@ + text + "}"@
}

fn tab_stop_text(n: usize, text: &str) -> (r: String)
    ensures
        r@ == tab_stop(n as nat, text@),
{
    join5("${", number(n).as_str(), ":", text, "}")
}

/// The placeholder of one token of that shape.
pub open spec fn placeholder_of(ty: ValueType, n: nat) -> Seq<char>
    decreases ty,
{
    match ty {
        ValueType::Prefixed { prefix, value_type } => {
            let named = *value_type is AsciiString || *value_type is QuotedString
                || *value_type is W3dModelMember;
            if same_ci(prefix@, "Bone"@) && named {
                prefix@ + ":"@ + tab_stop(n, "NONE"@)
            } else if same_ci(prefix@, "RandomBone"@) && *value_type is Bool {
                prefix@ + ":"@ + tab_stop(n, "No"@)
            } else if same_ci(prefix@, "Loc"@) && *value_type is AsciiString {
                prefix@ + ":X:"@ + tab_stop(n, "0"@)
            } else {
                prefix@ + ":"@ + placeholder_of(*value_type, n)
            }
        },
        ValueType::OneOf { variants } => if variants@.len() > 0 {
            placeholder_of(variants@[0], n)
        } else {
            tab_stop(n, "?"@)
        },
        ValueType::Bool => tab_stop(n, "Yes"@),
        ValueType::Int => tab_stop(n, "0"@),
        ValueType::UInt => tab_stop(n, "0"@),
        ValueType::Real => tab_stop(n, "0"@),
        ValueType::PositiveReal => tab_stop(n, "0"@),
        ValueType::AngleReal => tab_stop(n, "0"@),
        ValueType::Velocity => tab_stop(n, "0"@),
        ValueType::Acceleration => tab_stop(n, "0"@),
        ValueType::Percent => tab_stop(n, "100%"@),
        ValueType::Duration => tab_stop(n, "1000"@),
        ValueType::Enum { .. } => tab_stop(n, "NONE"@),
        ValueType::BitFlags { .. } => tab_stop(n, "NONE"@),
        ValueType::Reference { ref_kind } => tab_stop(n, kind_name(ref_kind)),
        ValueType::ReferenceList { ref_kind } => tab_stop(n, kind_name(ref_kind)),
        ValueType::AsciiString => tab_stop(n, "Value"@),
        ValueType::AsciiStringList => tab_stop(n, "Value"@),
        ValueType::QuotedString => tab_stop(n, "Value"@),
        ValueType::AudioFile { .. } => tab_stop(n, "Sound.wav"@),
        ValueType::AudioStemList => tab_stop(n, "Sound"@),
        ValueType::TextureFile => tab_stop(n, "Texture.tga"@),
        ValueType::TextureStem => tab_stop(n, "Texture"@),
        ValueType::TextureSequenceStem => tab_stop(n, "Texture"@),
        ValueType::W3dModel => tab_stop(n, "Model"@),
        ValueType::W3dModelList => tab_stop(n, "Model"@),
        ValueType::W3dModelMember => tab_stop(n, "Bone"@),
        _ => tab_stop(n, "?"@),
    }
}

/// The placeholder for one token of a full-sequence snippet. `n` is the
/// tab-stop number.
pub fn type_snippet_placeholder(ty: &ValueType, n: usize) -> (r: String)
    ensures
        r@ == placeholder_of(*ty, n as nat),
    decreases ty,
{
    match ty {
        ValueType::Prefixed { prefix, value_type } => {
            let named = match &**value_type {
                ValueType::AsciiString => true,
                ValueType::QuotedString => true,
                ValueType::W3dModelMember => true,
                _ => false,
            };
            let is_bool = match &**value_type {
                ValueType::Bool => true,
                _ => false,
            };
            let bare = match &**value_type {
                ValueType::AsciiString => true,
                _ => false,
            };
            if eq_ci(prefix.as_str(), "Bone") && named {
                join3(prefix.as_str(), ":", tab_stop_text(n, "NONE").as_str())
            } else if eq_ci(prefix.as_str(), "RandomBone") && is_bool {
                join3(prefix.as_str(), ":", tab_stop_text(n, "No").as_str())
            } else if eq_ci(prefix.as_str(), "Loc") && bare {
                join3(prefix.as_str(), ":X:", tab_stop_text(n, "0").as_str())
            } else {
                let rest = type_snippet_placeholder(&**value_type, n);
                join3(prefix.as_str(), ":", rest.as_str())
            }
        },
        ValueType::OneOf { variants } => {
            if variants.len() > 0 {
                type_snippet_placeholder(&variants[0], n)
            } else {
                tab_stop_text(n, "?")
            }
        },
        ValueType::Bool => tab_stop_text(n, "Yes"),
        ValueType::Int => tab_stop_text(n, "0"),
        ValueType::UInt => tab_stop_text(n, "0"),
        ValueType::Real => tab_stop_text(n, "0"),
        ValueType::PositiveReal => tab_stop_text(n, "0"),
        ValueType::AngleReal => tab_stop_text(n, "0"),
        ValueType::Velocity => tab_stop_text(n, "0"),
        ValueType::Acceleration => tab_stop_text(n, "0"),
        ValueType::Percent => tab_stop_text(n, "100%"),
        ValueType::Duration => tab_stop_text(n, "1000"),
        ValueType::Enum { .. } => tab_stop_text(n, "NONE"),
        ValueType::BitFlags { .. } => tab_stop_text(n, "NONE"),
        ValueType::Reference { ref_kind } => tab_stop_text(n, ref_kind_name(*ref_kind)),
        ValueType::ReferenceList { ref_kind } => tab_stop_text(n, ref_kind_name(*ref_kind)),
        ValueType::AsciiString => tab_stop_text(n, "Value"),
        ValueType::AsciiStringList => tab_stop_text(n, "Value"),
        ValueType::QuotedString => tab_stop_text(n, "Value"),
        ValueType::AudioFile { .. } => tab_stop_text(n, "Sound.wav"),
        ValueType::AudioStemList => tab_stop_text(n, "Sound"),
        ValueType::TextureFile => tab_stop_text(n, "Texture.tga"),
        ValueType::TextureStem => tab_stop_text(n, "Texture"),
        ValueType::TextureSequenceStem => tab_stop_text(n, "Texture"),
        ValueType::W3dModel => tab_stop_text(n, "Model"),
        ValueType::W3dModelList => tab_stop_text(n, "Model"),
        ValueType::W3dModelMember => tab_stop_text(n, "Bone"),
        _ => tab_stop_text(n, "?"),
    }
}

/// The placeholders of the first `k` tokens, with spaces between them.
pub open spec fn sequence_of(tokens: Seq<ValueType>, k: int) -> Seq<char>
    decreases k,
{
    if k <= 0 {
        Seq::empty()
    } else if k == 1 {
        placeholder_of(tokens[0], 1)
    } else {
        sequence_of(tokens, k - 1) + " "@ + placeholder_of(tokens[k - 1], k as nat)
    }
}

/// The snippet that fills in a whole value.
pub open spec fn snippet_of(ty: ValueType) -> Option<Seq<char>>
    decreases ty,
{
    match ty {
        ValueType::RandomVariable { .. } => Some("${1:0} ${2:0}$0"@),
        ValueType::RandomKeyframe => Some("${1:0} ${2:0} ${3:0}$0"@),
        ValueType::ColorKeyframe => Some("R:${1:0} G:${2:0} B:${3:0} ${4:0}$0"@),
        ValueType::TokenList { tokens } => if tokens@.len() > 1 {
            Some(sequence_of(tokens@, tokens@.len() as int) + "$0"@)
        } else {
            None
        },
        ValueType::OneOf { variants } => if variants@.len() > 0 {
            snippet_of(variants@[0])
        } else {
            None
        },
        _ => None,
    }
}

/// The snippet that fills in a whole value, for shapes of several tokens.
pub fn value_snippet(ty: &ValueType) -> (r: Option<String>)
    ensures
        opt_text(r) == snippet_of(*ty),
    decreases ty,
{
    match ty {
        ValueType::RandomVariable { .. } => Some("${1:0} ${2:0}$0".to_owned()),
        ValueType::RandomKeyframe => Some("${1:0} ${2:0} ${3:0}$0".to_owned()),
        ValueType::ColorKeyframe => Some("R:${1:0} G:${2:0} B:${3:0} ${4:0}$0".to_owned()),
        ValueType::TokenList { tokens } => {
            if tokens.len() > 1 {
                let mut out = type_snippet_placeholder(&tokens[0], 1);
                let mut k: usize = 1;
                while k < tokens.len()
                    invariant
                        1 <= k <= tokens.len(),
                        out@ == sequence_of(tokens@, k as int),
                    decreases tokens.len() - k,
                {
                    let part = type_snippet_placeholder(&tokens[k], k + 1);
                    out.append(" ");
                    out.append(part.as_str());
                    k += 1;
                }
                out.append("$0");
                Some(out)
            } else {
                None
            }
        },
        ValueType::OneOf { variants } => {
            if variants.len() > 0 {
                value_snippet(&variants[0])
            } else {
                None
            }
        },
        _ => None,
    }
}

/// The label of a shape.
pub open spec fn label_of(ty: ValueType) -> Seq<char>
    decreases ty, 0int,
{
    match ty {
        ValueType::Bool => "Yes/No"@,
        ValueType::Enum { value_set } => "enum "@ + value_set@,
        ValueType::BitFlags { value_set } => "flags "@ + value_set@,
        ValueType::Reference { ref_kind } => "ref "@ + kind_name(ref_kind),
        ValueType::W3dModel => "w3d model"@,
        ValueType::W3dModelList => "w3d models"@,
        ValueType::W3dModelMember => "w3d model member"@,
        ValueType::RandomVariable { .. } => "real real [distribution]"@,
        ValueType::RandomKeyframe => "real real frame"@,
        ValueType::ColorKeyframe => "R: G: B: frame"@,
        ValueType::Prefixed { prefix, value_type } => prefix@ + ":"@ + label_of(*value_type),
        ValueType::OneOf { variants } => labels_of(variants@, variants@.len() as int),
        ValueType::Int => "int"@,
        ValueType::UInt => "uint"@,
        ValueType::Real => "real"@,
        ValueType::PositiveReal => "positivereal"@,
        ValueType::AngleReal => "anglereal"@,
        ValueType::Percent => "percent"@,
        ValueType::Duration => "duration"@,
        ValueType::Velocity => "velocity"@,
        ValueType::Acceleration => "acceleration"@,
        ValueType::AsciiString => "asciistring"@,
        ValueType::QuotedString => "quotedstring"@,
        ValueType::AsciiStringList => "asciistringlist"@,
        ValueType::AudioFile { .. } => "audiofile"@,
        ValueType::AudioStemList => "audiostemlist"@,
        ValueType::TextureFile => "texturefile"@,
        ValueType::TextureStem => "texturestem"@,
        ValueType::TextureSequenceStem => "texturesequencestem"@,
        ValueType::Color => "color"@,
        ValueType::Coord2D => "coord2d"@,
        ValueType::Coord3D => "coord3d"@,
        ValueType::ReferenceList { .. } => "referencelist"@,
        ValueType::TokenList { .. } => "tokenlist"@,
        ValueType::Unknown { .. } => "unknown"@,
    }
}

/// The labels of the first `k` variants, with bars between them.
pub open spec fn labels_of(variants: Seq<ValueType>, k: int) -> Seq<char>
    decreases variants, k,
{
    if k <= 0 || k > variants.len() {
        Seq::empty()
    } else if k == 1 {
        label_of(variants[0])
    } else {
        labels_of(variants, k - 1) + " | "@ + label_of(variants[k - 1])
    }
}

/// The label of a shape, shown as the detail of a field.
pub fn type_label(ty: &ValueType) -> (r: String)
    ensures
        r@ == label_of(*ty),
    decreases ty,
{
    match ty {
        ValueType::Bool => "Yes/No".to_owned(),
        ValueType::Enum { value_set } => join2("enum ", value_set.as_str()),
        ValueType::BitFlags { value_set } => join2("flags ", value_set.as_str()),
        ValueType::Reference { ref_kind } => join2("ref ", ref_kind_name(*ref_kind)),
        ValueType::W3dModel => "w3d model".to_owned(),
        ValueType::W3dModelList => "w3d models".to_owned(),
        ValueType::W3dModelMember => "w3d model member".to_owned(),
        ValueType::RandomVariable { .. } => "real real [distribution]".to_owned(),
        ValueType::RandomKeyframe => "real real frame".to_owned(),
        ValueType::ColorKeyframe => "R: G: B: frame".to_owned(),
        ValueType::Prefixed { prefix, value_type } => {
            let rest = type_label(&**value_type);
            join3(prefix.as_str(), ":", rest.as_str())
        },
        ValueType::OneOf { variants } => {
            let mut out = String::new();
            assert(out@ =~= Seq::<char>::empty());
            let mut k: usize = 0;
            while k < variants.len()
                invariant
                    *ty == (ValueType::OneOf { variants: *variants }),
                    k <= variants.len(),
                    out@ == labels_of(variants@, k as int),
                decreases variants.len() - k,
            {
                assert(decreases_to!(*ty => ty->variants@[k as int]));
                let part = type_label(&variants[k]);
                if k > 0 {
                    out.append(" | ");
                    out.append(part.as_str());
                } else {
                    out = part;
                }
                k += 1;
            }
            out
        },
        ValueType::Int => "int".to_owned(),
        ValueType::UInt => "uint".to_owned(),
        ValueType::Real => "real".to_owned(),
        ValueType::PositiveReal => "positivereal".to_owned(),
        ValueType::AngleReal => "anglereal".to_owned(),
        ValueType::Percent => "percent".to_owned(),
        ValueType::Duration => "duration".to_owned(),
        ValueType::Velocity => "velocity".to_owned(),
        ValueType::Acceleration => "acceleration".to_owned(),
        ValueType::AsciiString => "asciistring".to_owned(),
        ValueType::QuotedString => "quotedstring".to_owned(),
        ValueType::AsciiStringList => "asciistringlist".to_owned(),
        ValueType::AudioFile { .. } => "audiofile".to_owned(),
        ValueType::AudioStemList => "audiostemlist".to_owned(),
        ValueType::TextureFile => "texturefile".to_owned(),
        ValueType::TextureStem => "texturestem".to_owned(),
        ValueType::TextureSequenceStem => "texturesequencestem".to_owned(),
        ValueType::Color => "color".to_owned(),
        ValueType::Coord2D => "coord2d".to_owned(),
        ValueType::Coord3D => "coord3d".to_owned(),
        ValueType::ReferenceList { .. } => "referencelist".to_owned(),
        ValueType::TokenList { .. } => "tokenlist".to_owned(),
        ValueType::Unknown { .. } => "unknown".to_owned(),
    }
}

/// The members of a value set, as items.
pub open spec fn member_items(members: Seq<ValueMember>, set: Seq<char>, k: int) -> Seq<
    CompletionView,
>
    decreases members.len() - k,
{
    if k < 0 || k >= members.len() {
        Seq::empty()
    } else {
        seq![plain(members[k].name@, CompletionKind::EnumMember, Some(set))] + member_items(
            members,
            set,
            k + 1,
        )
    }
}

/// The members of the value set of that id, as items.
pub open spec fn set_items(analyzer: &Analyzer, set: Seq<char>) -> Seq<CompletionView> {
    match analyzer.value_set_of(set) {
        Some(v) => member_items(v.members@, set, 0),
        None => Seq::empty(),
    }
}

fn value_set_completions(analyzer: &Analyzer, set: &str) -> (r: Vec<Completion>)
    ensures
        views(r@) == set_items(analyzer, set@),
{
    let mut out: Vec<Completion> = Vec::new();
    assert(views(out@) =~= Seq::<CompletionView>::empty());
    if let Some(v) = analyzer.value_set(set) {
        let ghost whole = member_items(v.members@, set@, 0);
        assert(views(out@) + whole =~= whole);
        let mut k: usize = 0;
        while k < v.members.len()
            invariant
                k <= v.members.len(),
                views(out@) + member_items(v.members@, set@, k as int) == whole,
            decreases v.members.len() - k,
        {
            let ghost before = views(out@);
            out.push(plain_item(v.members[k].name.as_str(), CompletionKind::EnumMember, set));
            assert(views(out@) + member_items(v.members@, set@, k + 1) =~= before + member_items(
                v.members@,
                set@,
                k as int,
            ));
            k += 1;
        }
        assert(views(out@) + member_items(v.members@, set@, k as int) =~= views(out@));
    }
    out
}

/// Names with one kind and detail, as items.
pub open spec fn named_items(
    names: Seq<Seq<char>>,
    kind: CompletionKind,
    detail: Seq<char>,
) -> Seq<CompletionView> {
    names.map_values(|name: Seq<char>| plain(name, kind, Some(detail)))
}

fn push_named(out: &mut Vec<Completion>, names: &Vec<String>, kind: CompletionKind, detail: &str)
    ensures
        views(final(out)@) == views(old(out)@) + named_items(texts(names@), kind, detail@),
{
    let ghost items = named_items(texts(names@), kind, detail@);
    let mut k: usize = 0;
    while k < names.len()
        invariant
            k <= names.len(),
            items == named_items(texts(names@), kind, detail@),
            views(out@) == views(old(out)@) + items.take(k as int),
        decreases names.len() - k,
    {
        let ghost before = views(out@);
        out.push(plain_item(names[k].as_str(), kind, detail));
        assert(views(out@) =~= before.push(items[k as int]));
        assert(items.take(k + 1) =~= items.take(k as int).push(items[k as int]));
        k += 1;
    }
    assert(items.take(k as int) =~= items);
}

/// The definitions of a kind, as items: those of the index, then those that
/// the engine makes.
pub open spec fn reference_items(
    analyzer: &Analyzer,
    kind: RefKind,
    index: Option<&WorkspaceIndex>,
) -> Seq<CompletionView> {
    let known = match index {
        Some(idx) => named_items(
            names_of(idx.def_rows(), kind),
            CompletionKind::Reference,
            kind_name(kind),
        ),
        None => Seq::empty(),
    };
    known + named_items(
        builtin_list(analyzer.schema.builtins@, kind),
        CompletionKind::Reference,
        kind_name(kind) + " (engine builtin)"@,
    )
}

fn reference_completions(
    analyzer: &Analyzer,
    kind: RefKind,
    index: Option<&WorkspaceIndex>,
) -> (r: Vec<Completion>)
    ensures
        views(r@) == reference_items(analyzer, kind, index),
{
    let mut out: Vec<Completion> = Vec::new();
    assert(views(out@) =~= Seq::<CompletionView>::empty());
    if let Some(idx) = index {
        let names = idx.names(kind);
        push_named(&mut out, &names, CompletionKind::Reference, ref_kind_name(kind));
        assert(views(out@) =~= named_items(
            texts(names@),
            CompletionKind::Reference,
            kind_name(kind),
        ));
    }
    let builtins = analyzer.builtin_names(kind);
    let detail = join2(ref_kind_name(kind), " (engine builtin)");
    push_named(&mut out, &builtins, CompletionKind::Reference, detail.as_str());
    out
}

/// How the name of an asset file becomes a label.
#[derive(Debug, Clone, Copy, PartialEq, Eq, Structural)]
pub enum AssetLabel {
    /// An audio file with that extension.
    Audio(AudioExtension),
    /// The stem of a WAV file.
    WavStem,
    /// The stem with the extension of a TGA file.
    TextureFile,
    TextureStem,
    /// The stem without the number of a first frame; other frames have none.
    SequenceStem,
}

/// The name before the last dot.
pub open spec fn stem(name: Seq<char>) -> Seq<char> {
    match rsplit_once(name, '.') {
        Some((front, _)) => front,
        None => name,
    }
}

/// The name before the last dot.
pub fn file_stem(name: &str) -> (r: &str)
    ensures
        r@ == stem(name@),
{
    match split_at_last(name, '.') {
        Some((front, _extension)) => front,
        None => name,
    }
}

/// Whether a text ends in four digits.
pub open spec fn frame_numbered(s: Seq<char>) -> bool {
    s.len() >= 4 && is_digit(s[s.len() - 1]) && is_digit(s[s.len() - 2]) && is_digit(
        s[s.len() - 3],
    ) && is_digit(s[s.len() - 4])
}

fn ends_in_frame(text: &str) -> (r: bool)
    ensures
        r == frame_numbered(text@),
{
    let chars = chars_of(text);
    let n: usize = chars.len();
    if n < 4 {
        return false;
    }
    let a: char = chars[n - 1];
    let b: char = chars[n - 2];
    let c: char = chars[n - 3];
    let d: char = chars[n - 4];
    '0' <= a && a <= '9' && '0' <= b && b <= '9' && '0' <= c && c <= '9' && '0' <= d && d <= '9'
}

/// The label of an asset file.
pub open spec fn asset_label(label: AssetLabel, name: Seq<char>) -> Option<Seq<char>> {
    match label {
        AssetLabel::Audio(extension) => {
            let fits = match extension {
                AudioExtension::Any => true,
                AudioExtension::Wav => extension_is(name, "wav"@),
                AudioExtension::Mp3 => extension_is(name, "mp3"@),
            };
            if fits {
                Some(name)
            } else {
                None
            }
        },
        AssetLabel::WavStem => if extension_is(name, "wav"@) {
            Some(stem(name))
        } else {
            None
        },
        AssetLabel::TextureFile => Some(stem(name) + ".tga"@),
        AssetLabel::TextureStem => Some(stem(name)),
        AssetLabel::SequenceStem => match strip_suffix(stem(name), "0000"@) {
            Some(base) => Some(base),
            None => if frame_numbered(stem(name)) {
                None
            } else {
                Some(stem(name))
            },
        },
    }
}

fn label_asset(label: AssetLabel, name: &str) -> (r: Option<String>)
    ensures
        opt_text(r) == asset_label(label, name@),
{
    match label {
        AssetLabel::Audio(extension) => {
            let fits = match extension {
                AudioExtension::Any => true,
                AudioExtension::Wav => has_extension(name, "wav"),
                AudioExtension::Mp3 => has_extension(name, "mp3"),
            };
            if fits {
                Some(name.to_owned())
            } else {
                None
            }
        },
        AssetLabel::WavStem => {
            if has_extension(name, "wav") {
                Some(file_stem(name).to_owned())
            } else {
                None
            }
        },
        AssetLabel::TextureFile => Some(join2(file_stem(name), ".tga")),
        AssetLabel::TextureStem => Some(file_stem(name).to_owned()),
        AssetLabel::SequenceStem => {
            let front = file_stem(name);
            match without_suffix(front, "0000") {
                Some(base) => Some(base.to_owned()),
                None => {
                    if ends_in_frame(front) {
                        None
                    } else {
                        Some(front.to_owned())
                    }
                },
            }
        },
    }
}

/// The labels of the first `k` names, each spelling once.
pub open spec fn asset_labels(names: Seq<Seq<char>>, label: AssetLabel, k: int) -> Seq<Seq<char>>
    decreases k,
{
    if k <= 0 || k > names.len() {
        Seq::empty()
    } else {
        let before = asset_labels(names, label, k - 1);
        match asset_label(label, names[k - 1]) {
            Some(text) => if any_ci(before, text) {
                before
            } else {
                before.push(text)
            },
            None => before,
        }
    }
}

/// The assets of a kind, as items.
pub open spec fn asset_items(
    index: Option<&WorkspaceIndex>,
    kind: AssetKind,
    detail: Seq<char>,
    label: AssetLabel,
) -> Seq<CompletionView> {
    match index {
        Some(idx) => {
            let names = asset_names_of(idx.asset_rows(), kind);
            named_items(
                asset_labels(names, label, names.len() as int),
                CompletionKind::Reference,
                detail,
            )
        },
        None => Seq::empty(),
    }
}

fn asset_completions(
    index: Option<&WorkspaceIndex>,
    kind: AssetKind,
    detail: &str,
    label: AssetLabel,
) -> (r: Vec<Completion>)
    ensures
        views(r@) == asset_items(index, kind, detail@, label),
{
    let mut out: Vec<Completion> = Vec::new();
    assert(views(out@) =~= Seq::<CompletionView>::empty());
    if let Some(idx) = index {
        let names = idx.asset_names(kind);
        let ghost ns = texts(names@);
        let mut labels: Vec<String> = Vec::new();
        assert(texts(labels@) =~= asset_labels(ns, label, 0));
        let mut k: usize = 0;
        while k < names.len()
            invariant
                k <= names.len(),
                ns == texts(names@),
                texts(labels@) == asset_labels(ns, label, k as int),
            decreases names.len() - k,
        {
            let ghost before = texts(labels@);
            assert(ns[k as int] == names@[k as int]@);
            if let Some(text) = label_asset(label, names[k].as_str()) {
                if !crate::index::holds_ci(&labels, text.as_str()) {
                    let ghost t = text@;
                    labels.push(text);
                    assert(texts(labels@) =~= before.push(t));
                }
            }
            k += 1;
        }
        push_named(&mut out, &labels, CompletionKind::Reference, detail);
        assert(views(out@) =~= named_items(texts(labels@), CompletionKind::Reference, detail@));
    }
    out
}

/// An item with a prefix before what it inserts.
pub open spec fn prefixed_item(item: CompletionView, prefix: Seq<char>) -> CompletionView {
    let inserted = match item.insert {
        Some(text) => text,
        None => item.label,
    };
    CompletionView { insert: Some(prefix + ":"@ + inserted), ..item }
}

pub open spec fn prefixed_items(items: Seq<CompletionView>, prefix: Seq<char>) -> Seq<
    CompletionView,
> {
    items.map_values(|item: CompletionView| prefixed_item(item, prefix))
}

fn with_prefix(items: &Vec<Completion>, prefix: &str) -> (r: Vec<Completion>)
    ensures
        views(r@) == prefixed_items(views(items@), prefix@),
{
    let mut out: Vec<Completion> = Vec::new();
    let mut k: usize = 0;
    while k < items.len()
        invariant
            k <= items.len(),
            out.len() == k,
            forall|j: int|
                0 <= j < k ==> (#[trigger] out@[j])@ == prefixed_item(items@[j]@, prefix@),
        decreases items.len() - k,
    {
        let item = &items[k];
        let inserted = match &item.insert {
            Some(text) => text.as_str(),
            None => item.label.as_str(),
        };
        out.push(
            Completion {
                label: item.label.clone(),
                kind: item.kind,
                detail: copy_opt(&item.detail),
                documentation: copy_opt(&item.documentation),
                insert: Some(join3(prefix, ":", inserted)),
            },
        );
        k += 1;
    }
    assert(views(out@) =~= prefixed_items(views(items@), prefix@));
    out
}

/// Whether the token being written already has the prefix.
pub open spec fn prefix_typed(current: Option<Seq<char>>, prefix: Seq<char>) -> bool {
    match current {
        Some(t) => match split_once(t, ':') {
            Some((actual, _)) => same_ci(actual, prefix),
            None => false,
        },
        None => false,
    }
}

fn is_prefix_typed(current: Option<&str>, prefix: &str) -> (r: bool)
    ensures
        r == prefix_typed(text_of(current), prefix@),
{
    match current {
        Some(t) => match split_at_first(t, ':') {
            Some((actual, _rest)) => eq_ci(actual, prefix),
            None => false,
        },
        None => false,
    }
}

/// The item that fills in a whole token list.
pub open spec fn sequence_item(tokens: nat, snippet: Seq<char>) -> CompletionView {
    snippet_item(
        "<full sequence>"@,
        CompletionKind::Value,
        decimal(tokens) + " tokens"@,
        Some(snippet),
    )
}

/// The candidates for a value of that shape, at a schema position of it.
pub open spec fn type_items(
    analyzer: &Analyzer,
    ty: ValueType,
    value_index: int,
    current: Option<Seq<char>>,
    first: Option<Seq<char>>,
    index: Option<&WorkspaceIndex>,
) -> Seq<CompletionView>
    decreases ty, 0int,
{
    match ty {
        ValueType::RandomVariable { value_set } => if value_index == 2 {
            set_items(analyzer, value_set@)
        } else {
            Seq::empty()
        },
        ValueType::OneOf { variants } => if current is Some || value_index > 0 {
            let selector = if first is Some {
                first
            } else {
                current
            };
            let k = active_variant(variants@, selector);
            if 0 <= k < variants@.len() {
                type_items(analyzer, variants@[k], value_index, current, first, index)
            } else {
                Seq::empty()
            }
        } else {
            variant_items(analyzer, variants@, 0, first, index)
        },
        ValueType::Prefixed { prefix, value_type } => {
            let inner = type_items(analyzer, *value_type, value_index, current, first, index);
            if prefix_typed(current, prefix@) {
                inner
            } else {
                prefixed_items(inner, prefix@)
            }
        },
        ValueType::TokenList { tokens } => {
            let inner = if 0 <= value_index < tokens@.len() {
                type_items(analyzer, tokens@[value_index], 0, current, first, index)
            } else if tokens@.len() > 0 && tokens@.last().is_flags() {
                type_items(analyzer, tokens@[tokens@.len() - 1], 0, current, first, index)
            } else {
                Seq::empty()
            };
            match snippet_of(ty) {
                Some(snippet) => if value_index == 0 {
                    seq![sequence_item(tokens@.len(), snippet)] + inner
                } else {
                    inner
                },
                None => inner,
            }
        },
        ValueType::Color => seq![
            snippet_item(
                "R: G: B:"@,
                CompletionKind::Value,
                "color"@,
                Some("R:${1:255} G:${2:255} B:${3:255}"@),
            ),
        ],
        ValueType::Coord2D => seq![
            snippet_item(
                "X: Y:"@,
                CompletionKind::Value,
                "2D coordinate"@,
                Some("X:${1:0} Y:${2:0}"@),
            ),
        ],
        ValueType::Coord3D => seq![
            snippet_item(
                "X: Y: Z:"@,
                CompletionKind::Value,
                "3D coordinate"@,
                Some("X:${1:0} Y:${2:0} Z:${3:0}"@),
            ),
        ],
        ValueType::Bool => seq![
            plain("Yes"@, CompletionKind::Value, None),
            plain("No"@, CompletionKind::Value, None),
        ],
        ValueType::Enum { value_set } => set_items(analyzer, value_set@),
        ValueType::BitFlags { value_set } => set_items(analyzer, value_set@),
        ValueType::Reference { ref_kind } => reference_items(analyzer, ref_kind, index),
        ValueType::ReferenceList { ref_kind } => reference_items(analyzer, ref_kind, index),
        ValueType::AudioFile { extension } => asset_items(
            index,
            AssetKind::Audio,
            "audio file"@,
            AssetLabel::Audio(extension),
        ),
        ValueType::AudioStemList => asset_items(
            index,
            AssetKind::Audio,
            "sound stem"@,
            AssetLabel::WavStem,
        ),
        ValueType::TextureFile => asset_items(
            index,
            AssetKind::Texture,
            "texture"@,
            AssetLabel::TextureFile,
        ),
        ValueType::TextureStem => asset_items(
            index,
            AssetKind::Texture,
            "texture"@,
            AssetLabel::TextureStem,
        ),
        ValueType::TextureSequenceStem => asset_items(
            index,
            AssetKind::Texture,
            "texture"@,
            AssetLabel::SequenceStem,
        ),
        _ => Seq::empty(),
    }
}

/// The candidates of the variants from `k` on, before anything is written.
pub open spec fn variant_items(
    analyzer: &Analyzer,
    variants: Seq<ValueType>,
    k: int,
    first: Option<Seq<char>>,
    index: Option<&WorkspaceIndex>,
) -> Seq<CompletionView>
    decreases variants, variants.len() - k,
{
    if k < 0 || k >= variants.len() {
        Seq::empty()
    } else {
        type_items(analyzer, variants[k], 0, None, first, index) + variant_items(
            analyzer,
            variants,
            k + 1,
            first,
            index,
        )
    }
}

fn structured(label: &str, detail: &str, insert: &str) -> (r: Vec<Completion>)
    ensures
        views(r@) == seq![snippet_item(label@, CompletionKind::Value, detail@, Some(insert@))],
{
    let mut out: Vec<Completion> = Vec::new();
    out.push(
        inserting(label, CompletionKind::Value, detail.to_owned(), Some(insert.to_owned())),
    );
    assert(views(out@) =~= seq![
        snippet_item(label@, CompletionKind::Value, detail@, Some(insert@)),
    ]);
    out
}

fn bool_completions() -> (r: Vec<Completion>)
    ensures
        views(r@) == seq![
            plain("Yes"@, CompletionKind::Value, None),
            plain("No"@, CompletionKind::Value, None),
        ],
{
    let mut out: Vec<Completion> = Vec::new();
    out.push(
        Completion {
            label: "Yes".to_owned(),
            kind: CompletionKind::Value,
            detail: None,
            documentation: None,
            insert: None,
        },
    );
    out.push(
        Completion {
            label: "No".to_owned(),
            kind: CompletionKind::Value,
            detail: None,
            documentation: None,
            insert: None,
        },
    );
    assert(views(out@) =~= seq![
        plain("Yes"@, CompletionKind::Value, None),
        plain("No"@, CompletionKind::Value, None),
    ]);
    out
}

/// The candidates for a value of that shape: `value_index` is the schema
/// position, `current_token` the token being written, `first_token` the first
/// value token.
#[verifier::rlimit(40)]
pub fn completions_for_type(
    analyzer: &Analyzer,
    ty: &ValueType,
    value_index: usize,
    current_token: Option<&str>,
    first_token: Option<&str>,
    index: Option<&WorkspaceIndex>,
) -> (r: Vec<Completion>)
    ensures
        views(r@) == type_items(
            analyzer,
            *ty,
            value_index as int,
            text_of(current_token),
            text_of(first_token),
            index,
        ),
    decreases ty,
{
    match ty {
        ValueType::RandomVariable { value_set } => {
            if value_index == 2 {
                value_set_completions(analyzer, value_set.as_str())
            } else {
                no_completions()
            }
        },
        ValueType::OneOf { variants } => {
            if current_token.is_some() || value_index > 0 {
                let selector = if first_token.is_some() {
                    first_token
                } else {
                    current_token
                };
                if variants.len() == 0 {
                    return no_completions();
                }
                let k: usize = variant_index(variants, selector);
                return completions_for_type(
                    analyzer,
                    &variants[k],
                    value_index,
                    current_token,
                    first_token,
                    index,
                );
            }
            let ghost first = text_of(first_token);
            let ghost whole = variant_items(analyzer, variants@, 0, first, index);
            let mut out: Vec<Completion> = Vec::new();
            assert(views(out@) + whole =~= whole);
            let mut k: usize = 0;
            while k < variants.len()
                invariant
                    *ty == (ValueType::OneOf { variants: *variants }),
                    k <= variants.len(),
                    first == text_of(first_token),
                    views(out@) + variant_items(analyzer, variants@, k as int, first, index)
                        == whole,
                decreases variants.len() - k,
            {
                assert(decreases_to!(*ty => ty->variants@[k as int]));
                let ghost before = views(out@);
                let mut more = completions_for_type(
                    analyzer,
                    &variants[k],
                    0,
                    None,
                    first_token,
                    index,
                );
                let ghost here = views(more@);
                out.append(&mut more);
                assert(views(out@) =~= before + here);
                assert(views(out@) + variant_items(analyzer, variants@, k + 1, first, index)
                    =~= before + variant_items(analyzer, variants@, k as int, first, index));
                k += 1;
            }
            assert(views(out@) + variant_items(analyzer, variants@, k as int, first, index)
                =~= views(out@));
            out
        },
        ValueType::Prefixed { prefix, value_type } => {
            let inner = completions_for_type(
                analyzer,
                &**value_type,
                value_index,
                current_token,
                first_token,
                index,
            );
            if is_prefix_typed(current_token, prefix.as_str()) {
                inner
            } else {
                with_prefix(&inner, prefix.as_str())
            }
        },
        ValueType::TokenList { tokens } => {
            let mut inner = if value_index < tokens.len() {
                completions_for_type(
                    analyzer,
                    &tokens[value_index],
                    0,
                    current_token,
                    first_token,
                    index,
                )
            } else if tokens.len() > 0 && is_mask(&tokens[tokens.len() - 1]) {
                completions_for_type(
                    analyzer,
                    &tokens[tokens.len() - 1],
                    0,
                    current_token,
                    first_token,
                    index,
                )
            } else {
                no_completions()
            };
            if value_index == 0 {
                if let Some(snippet) = value_snippet(ty) {
                    let ghost text = snippet@;
                    let ghost rest = views(inner@);
                    let detail = join2(number(tokens.len()).as_str(), " tokens");
                    let mut out: Vec<Completion> = Vec::new();
                    out.push(
                        inserting(
                            "<full sequence>",
                            CompletionKind::Value,
                            detail,
                            Some(snippet),
                        ),
                    );
                    out.append(&mut inner);
                    assert(views(out@) =~= seq![sequence_item(tokens@.len(), text)] + rest);
                    return out;
                }
            }
            inner
        },
        ValueType::Color => structured("R: G: B:", "color", "R:${1:255} G:${2:255} B:${3:255}"),
        ValueType::Coord2D => structured("X: Y:", "2D coordinate", "X:${1:0} Y:${2:0}"),
        ValueType::Coord3D => structured("X: Y: Z:", "3D coordinate", "X:${1:0} Y:${2:0} Z:${3:0}"),
        ValueType::Bool => bool_completions(),
        ValueType::Enum { value_set } => value_set_completions(analyzer, value_set.as_str()),
        ValueType::BitFlags { value_set } => value_set_completions(analyzer, value_set.as_str()),
        ValueType::Reference { ref_kind } => reference_completions(analyzer, *ref_kind, index),
        ValueType::ReferenceList { ref_kind } => reference_completions(analyzer, *ref_kind, index),
        ValueType::AudioFile { extension } => asset_completions(
            index,
            AssetKind::Audio,
            "audio file",
            AssetLabel::Audio(*extension),
        ),
        ValueType::AudioStemList => asset_completions(
            index,
            AssetKind::Audio,
            "sound stem",
            AssetLabel::WavStem,
        ),
        ValueType::TextureFile => asset_completions(
            index,
            AssetKind::Texture,
            "texture",
            AssetLabel::TextureFile,
        ),
        ValueType::TextureStem => asset_completions(
            index,
            AssetKind::Texture,
            "texture",
            AssetLabel::TextureStem,
        ),
        ValueType::TextureSequenceStem => asset_completions(
            index,
            AssetKind::Texture,
            "texture",
            AssetLabel::SequenceStem,
        ),
        _ => no_completions(),
    }
}

fn no_completions() -> (r: Vec<Completion>)
    ensures
        views(r@) == Seq::<CompletionView>::empty(),
{
    let out: Vec<Completion> = Vec::new();
    assert(views(out@) =~= Seq::<CompletionView>::empty());
    out
}

fn is_mask(ty: &ValueType) -> (r: bool)
    ensures
        r == ty.is_flags(),
{
    match ty {
        ValueType::BitFlags { .. } => true,
        _ => false,
    }
}

/// The shape inside a prefix, and the prefix.
pub open spec fn bare_shape(ty: ValueType) -> (ValueType, Option<Seq<char>>) {
    match ty {
        ValueType::Prefixed { prefix, value_type } => (*value_type, Some(prefix@)),
        _ => (ty, None),
    }
}

/// A member's name as it is offered, and whether it stands for a numbered
/// family of bones.
pub open spec fn offered(
    names: Seq<Seq<char>>,
    short: Seq<char>,
    typed: bool,
) -> Seq<(Seq<char>, bool)> {
    names.map_values(|name: Seq<char>| (name, typed && name != short))
}

/// The names offered for the members from `k` on.
pub open spec fn offered_members(
    members: Seq<Seq<char>>,
    mode: Option<crate::schema::ModelMemberMode>,
    k: int,
) -> Seq<(Seq<char>, bool)>
    decreases members.len() - k,
{
    if k < 0 || k >= members.len() {
        Seq::empty()
    } else {
        offered(member_names(members[k], mode), short_member(members[k]), mode is Some)
            + offered_members(members, mode, k + 1)
    }
}

/// The names offered for the members of the models from `k` on.
pub open spec fn offered_models(
    models: Seq<Seq<char>>,
    index: &WorkspaceIndex,
    mode: Option<crate::schema::ModelMemberMode>,
    k: int,
) -> Seq<(Seq<char>, bool)>
    decreases models.len() - k,
{
    if k < 0 || k >= models.len() {
        Seq::empty()
    } else {
        offered_members(members_of(index.model_rows(), lower(models[k])), mode, 0)
            + offered_models(models, index, mode, k + 1)
    }
}

pub open spec fn any_offer(offers: Seq<(Seq<char>, bool)>, name: Seq<char>) -> bool {
    exists|i: int| 0 <= i < offers.len() && same_ci((#[trigger] offers[i]).0, name)
}

/// The first offer of each spelling among the first `k`.
pub open spec fn distinct(offers: Seq<(Seq<char>, bool)>, k: int) -> Seq<(Seq<char>, bool)>
    decreases k,
{
    if k <= 0 || k > offers.len() {
        Seq::empty()
    } else {
        let before = distinct(offers, k - 1);
        if any_offer(before, offers[k - 1].0) {
            before
        } else {
            before.push(offers[k - 1])
        }
    }
}

/// A model member as an item.
pub open spec fn member_item(
    offer: (Seq<char>, bool),
    prefix: Option<Seq<char>>,
    current: Option<Seq<char>>,
) -> CompletionView {
    CompletionView {
        label: offer.0,
        kind: CompletionKind::Reference,
        detail: Some(
            if offer.1 {
                "W3D numbered bone family (01, 02, ...)"@
            } else {
                "W3D model member"@
            },
        ),
        documentation: None,
        insert: match prefix {
            Some(p) => if prefix_typed(current, p) {
                None
            } else {
                Some(p + ":"@ + offer.0)
            },
            None => None,
        },
    }
}

pub open spec fn offer_items(
    offers: Seq<(Seq<char>, bool)>,
    prefix: Option<Seq<char>>,
    current: Option<Seq<char>>,
) -> Seq<CompletionView> {
    offers.map_values(|offer: (Seq<char>, bool)| member_item(offer, prefix, current))
}

/// The first field line of a scope, from element `k` on, that the offset
/// touches: its value tokens.
pub open spec fn line_values(parse: &Parse, scope: int, offset: u32, k: int) -> Seq<SyntaxToken>
    decreases parse.nodes@[scope].elements@.len() - k,
{
    let elements = parse.nodes@[scope].elements@;
    if k < 0 || k >= elements.len() {
        Seq::empty()
    } else {
        match elements[k] {
            Element::Node(c) => {
                let n = parse.nodes@[c as int];
                if n.kind is Field && n.span.start <= offset <= n.span.end {
                    n.values@
                } else {
                    line_values(parse, scope, offset, k + 1)
                }
            },
            Element::Token(_) => line_values(parse, scope, offset, k + 1),
        }
    }
}

fn line_at(parse: &Parse, scope: usize, offset: u32) -> (r: Option<usize>)
    requires
        parse.wf(),
        scope < parse.nodes.len(),
    ensures
        match r {
            Some(c) => c < parse.nodes.len() && line_values(parse, scope as int, offset, 0)
                == parse.nodes@[c as int].values@,
            None => line_values(parse, scope as int, offset, 0).len() == 0,
        },
{
    let elements = &parse.nodes[scope].elements;
    let mut k: usize = 0;
    while k < elements.len()
        invariant
            parse.wf(),
            scope < parse.nodes.len(),
            elements@ == parse.nodes@[scope as int].elements@,
            k <= elements.len(),
            line_values(parse, scope as int, offset, 0) == line_values(
                parse,
                scope as int,
                offset,
                k as int,
            ),
        decreases elements.len() - k,
    {
        assert(parse.nodes@[scope as int].elements@[k as int] == elements@[k as int]);
        if let Element::Node(c) = &elements[k] {
            let n = &parse.nodes[*c];
            if n.kind == SyntaxKind::Field && n.span.start <= offset && offset <= n.span.end {
                return Some(*c);
            }
        }
        k += 1;
    }
    None
}

/// The candidates for a value that a W3D model file backs; none when the
/// index has no models or the value is of another shape.
pub open spec fn model_items(
    analyzer: &Analyzer,
    parse: &Parse,
    scope: int,
    field: Field,
    value_index: int,
    current: Option<Seq<char>>,
    first: Option<Seq<char>>,
    index: Option<&WorkspaceIndex>,
    offset: u32,
) -> Option<Seq<CompletionView>> {
    match index {
        Some(idx) => if idx.model_rows().len() == 0 {
            None
        } else {
            match field.value_type.active(first) {
                Some(variant) => match variant.type_at(value_index) {
                    Some(ty) => {
                        let (shape, prefix) = bare_shape(ty);
                        if names_model(shape) {
                            Some(
                                named_items(
                                    model_names_from(idx.model_rows(), 0),
                                    CompletionKind::W3dModel,
                                    "W3D model"@,
                                ),
                            )
                        } else if !(shape is W3dModelMember) {
                            None
                        } else {
                            let mode = member_mode(
                                field.model_member_mode,
                                token_texts(line_values(parse, scope, offset, 0)),
                            );
                            let offers = offered_models(
                                source_models(analyzer, parse, scope, field.model_source, idx),
                                idx,
                                mode,
                                0,
                            );
                            Some(
                                offer_items(distinct(offers, offers.len() as int), prefix, current),
                            )
                        }
                    },
                    None => None,
                },
                None => None,
            }
        },
        None => None,
    }
}

/// The view of a list of offers.
pub open spec fn offer_views(offers: Seq<(String, bool)>) -> Seq<(Seq<char>, bool)> {
    offers.map_values(|o: (String, bool)| (o.0@, o.1))
}

fn push_offers(
    out: &mut Vec<(String, bool)>,
    member: &str,
    mode: Option<crate::schema::ModelMemberMode>,
)
    ensures
        offer_views(final(out)@) == offer_views(old(out)@) + offered(
            member_names(member@, mode),
            short_member(member@),
            mode is Some,
        ),
{
    let names = model_member_names(member, mode);
    let short = last_part_of(member, '.', '.');
    let typed = mode.is_some();
    let ghost ns = slices(names@);
    let ghost offers = offered(ns, short@, typed);
    let mut k: usize = 0;
    while k < names.len()
        invariant
            k <= names.len(),
            ns == slices(names@),
            offers == offered(ns, short@, typed),
            offer_views(out@) == offer_views(old(out)@) + offers.take(k as int),
        decreases names.len() - k,
    {
        let ghost before = offer_views(out@);
        let name: &str = names[k];
        assert(ns[k as int] == name@);
        let family = typed && !same(name, short);
        out.push((name.to_owned(), family));
        assert(offer_views(out@) =~= before.push(offers[k as int]));
        assert(offers.take(k + 1) =~= offers.take(k as int).push(offers[k as int]));
        k += 1;
    }
    assert(offers.take(k as int) =~= offers);
}

fn push_member_offers(
    out: &mut Vec<(String, bool)>,
    members: &Vec<String>,
    mode: Option<crate::schema::ModelMemberMode>,
)
    ensures
        offer_views(final(out)@) == offer_views(old(out)@) + offered_members(
            texts(members@),
            mode,
            0,
        ),
{
    let ghost ms = texts(members@);
    let ghost whole = offer_views(out@) + offered_members(ms, mode, 0);
    let mut k: usize = 0;
    while k < members.len()
        invariant
            k <= members.len(),
            ms == texts(members@),
            offer_views(out@) + offered_members(ms, mode, k as int) == whole,
        decreases members.len() - k,
    {
        let ghost before = offer_views(out@);
        assert(ms[k as int] == members@[k as int]@);
        push_offers(out, members[k].as_str(), mode);
        assert(offer_views(out@) + offered_members(ms, mode, k + 1) =~= before + offered_members(
            ms,
            mode,
            k as int,
        ));
        k += 1;
    }
    assert(offer_views(out@) + offered_members(ms, mode, k as int) =~= offer_views(out@));
}

fn offers_for(
    models: &Vec<String>,
    index: &WorkspaceIndex,
    mode: Option<crate::schema::ModelMemberMode>,
) -> (r: Vec<(String, bool)>)
    ensures
        offer_views(r@) == offered_models(texts(models@), index, mode, 0),
{
    let ghost ms = texts(models@);
    let ghost whole = offered_models(ms, index, mode, 0);
    let mut out: Vec<(String, bool)> = Vec::new();
    assert(offer_views(out@) + whole =~= whole);
    let mut k: usize = 0;
    while k < models.len()
        invariant
            k <= models.len(),
            ms == texts(models@),
            offer_views(out@) + offered_models(ms, index, mode, k as int) == whole,
        decreases models.len() - k,
    {
        let ghost before = offer_views(out@);
        assert(ms[k as int] == models@[k as int]@);
        let members = index.model_members(models[k].as_str());
        push_member_offers(&mut out, &members, mode);
        assert(offer_views(out@) + offered_models(ms, index, mode, k + 1) =~= before
            + offered_models(ms, index, mode, k as int));
        k += 1;
    }
    assert(offer_views(out@) + offered_models(ms, index, mode, k as int) =~= offer_views(out@));
    out
}

fn is_offered(offers: &Vec<(String, bool)>, name: &str) -> (r: bool)
    ensures
        r == any_offer(offer_views(offers@), name@),
{
    let mut k: usize = 0;
    while k < offers.len()
        invariant
            k <= offers.len(),
            forall|j: int| 0 <= j < k ==> !same_ci((#[trigger] offer_views(offers@)[j]).0, name@),
        decreases offers.len() - k,
    {
        if eq_ci(offers[k].0.as_str(), name) {
            assert(same_ci(offer_views(offers@)[k as int].0, name@));
            return true;
        }
        k += 1;
    }
    false
}

fn offer_completions(
    offers: &Vec<(String, bool)>,
    prefix: Option<&str>,
    current_token: Option<&str>,
) -> (r: Vec<Completion>)
    ensures
        views(r@) == offer_items(
            distinct(offer_views(offers@), offers@.len() as int),
            text_of(prefix),
            text_of(current_token),
        ),
{
    let ghost all = offer_views(offers@);
    let mut kept: Vec<(String, bool)> = Vec::new();
    let mut out: Vec<Completion> = Vec::new();
    assert(offer_views(kept@) =~= distinct(all, 0));
    assert(views(out@) =~= offer_items(distinct(all, 0), text_of(prefix), text_of(current_token)));
    let mut k: usize = 0;
    while k < offers.len()
        invariant
            k <= offers.len(),
            all == offer_views(offers@),
            offer_views(kept@) == distinct(all, k as int),
            views(out@) == offer_items(
                distinct(all, k as int),
                text_of(prefix),
                text_of(current_token),
            ),
        decreases offers.len() - k,
    {
        let ghost k0 = offer_views(kept@);
        let ghost o0 = views(out@);
        let name = offers[k].0.as_str();
        assert(all[k as int] == (offers@[k as int].0@, offers@[k as int].1));
        if !is_offered(&kept, name) {
            kept.push((name.to_owned(), offers[k].1));
            assert(offer_views(kept@) =~= k0.push(all[k as int]));
            let insert = match prefix {
                Some(p) => if is_prefix_typed(current_token, p) {
                    None
                } else {
                    Some(join3(p, ":", name))
                },
                None => None,
            };
            let detail = if offers[k].1 {
                "W3D numbered bone family (01, 02, ...)"
            } else {
                "W3D model member"
            };
            out.push(inserting(name, CompletionKind::Reference, detail.to_owned(), insert));
            let ghost item = member_item(all[k as int], text_of(prefix), text_of(current_token));
            assert(views(out@) =~= o0.push(item));
            assert(views(out@) =~= offer_items(
                k0.push(all[k as int]),
                text_of(prefix),
                text_of(current_token),
            ));
        }
        k += 1;
    }
    out
}

/// The candidates for a value that a W3D model file backs.
pub fn model_asset_completions(
    analyzer: &Analyzer,
    parse: &Parse,
    scope: usize,
    field: &Field,
    value_index: usize,
    current_token: Option<&str>,
    first_token: Option<&str>,
    index: Option<&WorkspaceIndex>,
    offset: u32,
) -> (r: Option<Vec<Completion>>)
    requires
        parse.wf(),
        scope < parse.nodes.len(),
    ensures
        match (
            r,
            model_items(
                analyzer,
                parse,
                scope as int,
                *field,
                value_index as int,
                text_of(current_token),
                text_of(first_token),
                index,
                offset,
            ),
        ) {
            (Some(out), Some(items)) => views(out@) == items,
            (None, None) => true,
            _ => false,
        },
{
    let idx = match index {
        Some(idx) => idx,
        None => {
            return None;
        },
    };
    if !idx.has_model_assets() {
        return None;
    }
    let variant = match field.value_type.variant_for_first_token(first_token) {
        Some(variant) => variant,
        None => {
            return None;
        },
    };
    let ty = match variant.token_type_at(value_index) {
        Some(ty) => ty,
        None => {
            return None;
        },
    };
    let (shape, prefix): (&ValueType, Option<&str>) = match ty {
        ValueType::Prefixed { prefix, value_type } => (&**value_type, Some(prefix.as_str())),
        _ => (ty, None),
    };
    if is_model_asset_type(shape) {
        let names = idx.model_names();
        let mut out = no_completions();
        push_named(&mut out, &names, CompletionKind::W3dModel, "W3D model");
        assert(views(out@) =~= named_items(
            texts(names@),
            CompletionKind::W3dModel,
            "W3D model"@,
        ));
        return Some(out);
    }
    if !is_model_member_type(shape) {
        return None;
    }
    let ghost values = line_values(parse, scope as int, offset, 0);
    let mode = match line_at(parse, scope, offset) {
        Some(line) => model_member_mode(field.model_member_mode, &parse.nodes[line].values),
        None => {
            let none: Vec<SyntaxToken> = Vec::new();
            assert(token_texts(none@) =~= token_texts(values));
            model_member_mode(field.model_member_mode, &none)
        },
    };
    let models = models_for_source(analyzer, parse, scope, field.model_source.as_ref(), idx);
    let offers = offers_for(&models, idx, mode);
    assert(offer_views(offers@).len() == offers@.len());
    Some(offer_completions(&offers, prefix, current_token))
}

/// A module tag as an item, with the module that declares it.
pub open spec fn tag_item(tag: TagView) -> CompletionView {
    CompletionView {
        label: tag.name,
        kind: CompletionKind::Reference,
        detail: Some("module tag"@),
        documentation: if tag.snippet.len() > 0 {
            Some("```ini\n"@ + tag.snippet + "\n```"@)
        } else {
            None
        },
        insert: None,
    }
}

pub open spec fn tag_items(tags: Seq<TagView>) -> Seq<CompletionView> {
    tags.map_values(|tag: TagView| tag_item(tag))
}

fn tag_completions(tags: &Vec<&crate::index::ModuleTagDefinition>) -> (r: Vec<Completion>)
    ensures
        views(r@) == tag_items(tags@.map_values(|t: &crate::index::ModuleTagDefinition| t@)),
{
    let mut out: Vec<Completion> = Vec::new();
    let mut k: usize = 0;
    while k < tags.len()
        invariant
            k <= tags.len(),
            out.len() == k,
            forall|j: int| 0 <= j < k ==> (#[trigger] out@[j])@ == tag_item(tags@[j]@),
        decreases tags.len() - k,
    {
        let tag = tags[k];
        let documentation = if tag.snippet.as_str().is_empty() {
            None
        } else {
            Some(join3("```ini\n", tag.snippet.as_str(), "\n```"))
        };
        out.push(
            Completion {
                label: tag.name.clone(),
                kind: CompletionKind::Reference,
                detail: Some("module tag".to_owned()),
                documentation,
                insert: None,
            },
        );
        k += 1;
    }
    assert(views(out@) =~= tag_items(
        tags@.map_values(|t: &crate::index::ModuleTagDefinition| t@),
    ));
    out
}

/// Whether the key takes a module tag of the object.
pub open spec fn takes_tag(key: Seq<char>) -> bool {
    same_ci(key, "RemoveModule"@) || same_ci(key, "ReplaceModule"@)
}

/// The tags that a module removal may name.
pub open spec fn removable(
    parse: &Parse,
    scope: int,
    key: Seq<char>,
    index: Option<&WorkspaceIndex>,
    file: Option<Seq<char>>,
    offset: u32,
) -> Seq<TagView> {
    match (index, parse.nodes@[scope].name) {
        (Some(idx), Some(name)) => if takes_tag(key) && name.text@.len() > 0 {
            idx.effective_tags(name.text@, file, Some(offset))
        } else {
            Seq::empty()
        },
        _ => Seq::empty(),
    }
}

/// The animations of the model that the scope names.
pub open spec fn animation_items(
    parse: &Parse,
    scope: int,
    value_index: int,
    index: Option<&WorkspaceIndex>,
) -> Seq<CompletionView> {
    match (index, child_value(parse, scope, "Model"@, 0)) {
        (Some(idx), Some(model)) => if value_index == 0 {
            named_items(
                idx.animations_for(model),
                CompletionKind::W3dAnimation,
                "W3D animation"@,
            )
        } else {
            Seq::empty()
        },
        _ => Seq::empty(),
    }
}

/// The candidates for a value of a field, by its schema.
pub open spec fn schema_items(
    analyzer: &Analyzer,
    parse: &Parse,
    scope: int,
    key: Seq<char>,
    value_index: int,
    current: Option<Seq<char>>,
    first: Option<Seq<char>>,
    index: Option<&WorkspaceIndex>,
    offset: u32,
) -> Seq<CompletionView> {
    match scope_of(analyzer, parse, scope).field_of(key) {
        Some(field) => match model_items(
            analyzer,
            parse,
            scope,
            field,
            value_index,
            current,
            first,
            index,
            offset,
        ) {
            Some(items) => items,
            None => type_items(analyzer, field.value_type, value_index, current, first, index),
        },
        None => Seq::empty(),
    }
}

/// Whether the key names an animation in this scope.
pub open spec fn animated(analyzer: &Analyzer, parse: &Parse, scope: int, key: Seq<char>) -> bool {
    match scope_of(analyzer, parse, scope).field_of(key) {
        Some(field) => field.parse_fn@ == "parseAnimation"@,
        None => false,
    }
}

/// The string keys that a display name may use.
pub open spec fn key_items(
    key: Seq<char>,
    index: Option<&WorkspaceIndex>,
    file: Option<Seq<char>>,
) -> Seq<CompletionView> {
    match (index, file) {
        (Some(idx), Some(f)) => if same_ci(key, "DisplayName"@) {
            named_items(keys_of(idx.key_rows(), f), CompletionKind::Value, "string key"@)
        } else {
            Seq::empty()
        },
        _ => Seq::empty(),
    }
}

/// The candidates for a value of `key` in a scope.
pub open spec fn value_items(
    analyzer: &Analyzer,
    parse: &Parse,
    scope: int,
    key: Seq<char>,
    value_index: int,
    current: Option<Seq<char>>,
    first: Option<Seq<char>>,
    index: Option<&WorkspaceIndex>,
    file: Option<Seq<char>>,
    offset: u32,
) -> Seq<CompletionView> {
    let tags = removable(parse, scope, key, index, file, offset);
    if tags.len() > 0 {
        tag_items(tags)
    } else if animated(analyzer, parse, scope, key) {
        animation_items(parse, scope, value_index, index)
    } else {
        schema_items(analyzer, parse, scope, key, value_index, current, first, index, offset)
            + key_items(key, index, file)
    }
}

/// The candidates for a value of `key` in a scope.
pub fn field_value_completions(
    analyzer: &Analyzer,
    parse: &Parse,
    scope: usize,
    key: &str,
    value_index: usize,
    current_token: Option<&str>,
    first_token: Option<&str>,
    index: Option<&WorkspaceIndex>,
    file: Option<&str>,
    offset: u32,
) -> (r: Vec<Completion>)
    requires
        parse.wf(),
        scope < parse.nodes.len(),
    ensures
        views(r@) == value_items(
            analyzer,
            parse,
            scope as int,
            key@,
            value_index as int,
            text_of(current_token),
            text_of(first_token),
            index,
            text_of(file),
            offset,
        ),
{
    if eq_ci(key, "RemoveModule") || eq_ci(key, "ReplaceModule") {
        if let Some(idx) = index {
            if let Some(name) = &parse.nodes[scope].name {
                if !name.text.as_str().is_empty() {
                    let tags = idx.effective_module_tags_for_object(
                        name.text.as_str(),
                        file,
                        Some(offset),
                    );
                    if tags.len() > 0 {
                        return tag_completions(&tags);
                    }
                }
            }
        }
    }
    let schema = scope_schema(analyzer, parse, scope);
    let mut base = match schema.field(key) {
        Some(field) => {
            if same(field.parse_fn.as_str(), "parseAnimation") {
                let mut out = no_completions();
                if value_index == 0 {
                    if let Some(idx) = index {
                        if let Some(model) = value_of_child(parse, scope, "Model") {
                            let names = idx.model_animations(model);
                            push_named(
                                &mut out,
                                &names,
                                CompletionKind::W3dAnimation,
                                "W3D animation",
                            );
                            assert(views(out@) =~= named_items(
                                texts(names@),
                                CompletionKind::W3dAnimation,
                                "W3D animation"@,
                            ));
                        }
                    }
                }
                return out;
            }
            match model_asset_completions(
                analyzer,
                parse,
                scope,
                field,
                value_index,
                current_token,
                first_token,
                index,
                offset,
            ) {
                Some(items) => items,
                None => completions_for_type(
                    analyzer,
                    &field.value_type,
                    value_index,
                    current_token,
                    first_token,
                    index,
                ),
            }
        },
        None => no_completions(),
    };
    let ghost items = views(base@);
    if eq_ci(key, "DisplayName") {
        if let Some(idx) = index {
            if let Some(f) = file {
                let keys = idx.string_keys_for_ini(f);
                push_named(&mut base, &keys, CompletionKind::Value, "string key");
            }
        }
    }
    assert(views(base@) =~= items + key_items(key@, index, text_of(file)));
    base
}

/// Whether the argument of a sub-block follows its keyword without `=`.
pub open spec fn spaced_argument(keyword: Seq<char>) -> bool {
    keyword == "SideInfo"@ || keyword == "SkirmishBuildList"@ || keyword == "Structure"@
}

fn space_separated_sub_block_arg(keyword: &str) -> (r: bool)
    ensures
        r == spaced_argument(keyword@),
{
    same(keyword, "SideInfo") || same(keyword, "SkirmishBuildList") || same(keyword, "Structure")
}

/// The placeholder of a sub-block's argument.
pub open spec fn argument_text(ty: ValueType) -> Seq<char> {
    match ty {
        ValueType::Enum { value_set } => if value_set@ == "ai_side"@ {
            "America"@
        } else {
            "NONE"@
        },
        ValueType::Reference { ref_kind } => kind_name(ref_kind),
        _ => "NONE"@,
    }
}

fn argument_placeholder(ty: &ValueType) -> (r: &'static str)
    ensures
        r@ == argument_text(*ty),
{
    match ty {
        ValueType::Enum { value_set } => if same(value_set.as_str(), "ai_side") {
            "America"
        } else {
            "NONE"
        },
        ValueType::Reference { ref_kind } => ref_kind_name(*ref_kind),
        _ => "NONE",
    }
}

/// A field of a scope, as an item.
pub open spec fn field_item(field: Field) -> CompletionView {
    snippet_item(
        field.name@,
        CompletionKind::Field,
        label_of(field.value_type),
        match snippet_of(field.value_type) {
            Some(value) => Some(field.name@ + " = "@ + value),
            None => None,
        },
    )
}

/// A module slot of a scope, as an item.
pub open spec fn slot_item(slot: ModuleSlot) -> CompletionView {
    snippet_item(
        slot.keyword@,
        CompletionKind::Field,
        "module slot"@,
        Some(slot.keyword@ + " = $0"@),
    )
}

/// A sub-block of a scope, as an item.
pub open spec fn sub_item(sub: SubBlock) -> CompletionView {
    let insert = match sub.argument_type {
        Some(ty) => if spaced_argument(sub.keyword@) {
            sub.keyword@ + " ${1:"@ + argument_text(ty) + "}\n\t$0\nEnd"@
        } else {
            sub.keyword@ + " = ${1:"@ + argument_text(ty) + "}\n\t$0\nEnd"@
        },
        None => sub.keyword@ + "\n\t$0\nEnd"@,
    };
    snippet_item(sub.keyword@, CompletionKind::Block, "sub-block"@, Some(insert))
}

/// The keywords that a scope accepts, as items.
pub open spec fn scope_items(
    fields: Seq<Field>,
    slots: Seq<ModuleSlot>,
    subs: Seq<SubBlock>,
) -> Seq<CompletionView> {
    fields.map_values(|f: Field| field_item(f)) + slots.map_values(|s: ModuleSlot| slot_item(s))
        + subs.map_values(|s: SubBlock| sub_item(s))
}

fn push_field_items(out: &mut Vec<Completion>, fields: &[Field])
    ensures
        views(final(out)@) == views(old(out)@) + fields@.map_values(|f: Field| field_item(f)),
{
    let ghost items = fields@.map_values(|f: Field| field_item(f));
    let mut k: usize = 0;
    while k < fields.len()
        invariant
            k <= fields.len(),
            items == fields@.map_values(|f: Field| field_item(f)),
            views(out@) == views(old(out)@) + items.take(k as int),
        decreases fields.len() - k,
    {
        let ghost before = views(out@);
        let field = &fields[k];
        let insert = match value_snippet(&field.value_type) {
            Some(value) => Some(join3(field.name.as_str(), " = ", value.as_str())),
            None => None,
        };
        out.push(
            inserting(
                field.name.as_str(),
                CompletionKind::Field,
                type_label(&field.value_type),
                insert,
            ),
        );
        assert(views(out@) =~= before.push(items[k as int]));
        assert(items.take(k + 1) =~= items.take(k as int).push(items[k as int]));
        k += 1;
    }
    assert(items.take(k as int) =~= items);
}

fn push_slot_items(out: &mut Vec<Completion>, slots: &[ModuleSlot])
    ensures
        views(final(out)@) == views(old(out)@) + slots@.map_values(|s: ModuleSlot| slot_item(s)),
{
    let ghost items = slots@.map_values(|s: ModuleSlot| slot_item(s));
    let mut k: usize = 0;
    while k < slots.len()
        invariant
            k <= slots.len(),
            items == slots@.map_values(|s: ModuleSlot| slot_item(s)),
            views(out@) == views(old(out)@) + items.take(k as int),
        decreases slots.len() - k,
    {
        let ghost before = views(out@);
        let keyword = slots[k].keyword.as_str();
        out.push(
            inserting(
                keyword,
                CompletionKind::Field,
                "module slot".to_owned(),
                Some(join2(keyword, " = $0")),
            ),
        );
        assert(views(out@) =~= before.push(items[k as int]));
        assert(items.take(k + 1) =~= items.take(k as int).push(items[k as int]));
        k += 1;
    }
    assert(items.take(k as int) =~= items);
}

fn sub_completion(sub: &SubBlock) -> (r: Completion)
    ensures
        r@ == sub_item(*sub),
{
    let keyword = sub.keyword.as_str();
    let insert = match &sub.argument_type {
        Some(ty) => {
            let argument = argument_placeholder(ty);
            let opening = if space_separated_sub_block_arg(keyword) {
                join3(keyword, " ${1:", argument)
            } else {
                join3(keyword, " = ${1:", argument)
            };
            join2(opening.as_str(), "}\n\t$0\nEnd")
        },
        None => join2(keyword, "\n\t$0\nEnd"),
    };
    inserting(keyword, CompletionKind::Block, "sub-block".to_owned(), Some(insert))
}

fn push_sub_items(out: &mut Vec<Completion>, subs: &[SubBlock])
    ensures
        views(final(out)@) == views(old(out)@) + subs@.map_values(|s: SubBlock| sub_item(s)),
{
    let ghost items = subs@.map_values(|s: SubBlock| sub_item(s));
    let mut k: usize = 0;
    while k < subs.len()
        invariant
            k <= subs.len(),
            items == subs@.map_values(|s: SubBlock| sub_item(s)),
            views(out@) == views(old(out)@) + items.take(k as int),
        decreases subs.len() - k,
    {
        let ghost before = views(out@);
        out.push(sub_completion(&subs[k]));
        assert(views(out@) =~= before.push(items[k as int]));
        assert(items.take(k + 1) =~= items.take(k as int).push(items[k as int]));
        k += 1;
    }
    assert(items.take(k as int) =~= items);
}

/// The keywords that a scope accepts: fields, module slots and sub-blocks.
pub fn field_key_completions(analyzer: &Analyzer, parse: &Parse, scope: usize) -> (r: Vec<
    Completion,
>)
    requires
        parse.wf(),
        scope < parse.nodes.len(),
    ensures
        ({
            let s = scope_of(analyzer, parse, scope as int);
            views(r@) == scope_items(s.field_list(), s.slot_list(), s.sub_list())
        }),
{
    let schema = scope_schema(analyzer, parse, scope);
    let mut out = no_completions();
    push_field_items(&mut out, schema.fields());
    push_slot_items(&mut out, schema.module_slots());
    push_sub_items(&mut out, schema.sub_blocks());
    assert(views(out@) =~= scope_items(
        schema.field_list(),
        schema.slot_list(),
        schema.sub_list(),
    ));
    out
}

/// A top-level block, as an item.
pub open spec fn block_item(block: BlockType) -> CompletionView {
    let insert = if !block.terminated {
        None
    } else if block.named {
        Some(block.name@ + " ${1:Name}\n\t$0\nEnd"@)
    } else {
        Some(block.name@ + "\n\t$0\nEnd"@)
    };
    snippet_item(block.name@, CompletionKind::Block, "block"@, insert)
}

/// The top-level block keywords.
pub fn top_level_completions(analyzer: &Analyzer) -> (r: Vec<Completion>)
    ensures
        views(r@) == analyzer.schema.blocks@.map_values(|b: BlockType| block_item(b)),
{
    let blocks = &analyzer.schema.blocks;
    let mut out: Vec<Completion> = Vec::new();
    let mut k: usize = 0;
    while k < blocks.len()
        invariant
            k <= blocks.len(),
            out.len() == k,
            forall|j: int| 0 <= j < k ==> (#[trigger] out@[j])@ == block_item(blocks@[j]),
        decreases blocks.len() - k,
    {
        let block = &blocks[k];
        let insert = if !block.terminated {
            None
        } else if block.named {
            Some(join2(block.name.as_str(), " ${1:Name}\n\t$0\nEnd"))
        } else {
            Some(join2(block.name.as_str(), "\n\t$0\nEnd"))
        };
        out.push(
            inserting(block.name.as_str(), CompletionKind::Block, "block".to_owned(), insert),
        );
        k += 1;
    }
    assert(views(out@) =~= blocks@.map_values(|b: BlockType| block_item(b)));
    out
}

/// Whether a module implements one of the interfaces; an empty list accepts
/// every module.
pub open spec fn accepted(module: ModuleType, accepts: Seq<Seq<char>>) -> bool {
    accepts.len() == 0 || exists|i: int|
        0 <= i < module.interfaces@.len() && accepts.contains((#[trigger] module.interfaces@[i])@)
}

fn is_accepted(module: &ModuleType, accepts: &Vec<String>) -> (r: bool)
    ensures
        r == accepted(*module, texts(accepts@)),
{
    if accepts.len() == 0 {
        return true;
    }
    let mut i: usize = 0;
    while i < module.interfaces.len()
        invariant
            i <= module.interfaces.len(),
            forall|k: int|
                0 <= k < i ==> !texts(accepts@).contains((#[trigger] module.interfaces@[k])@),
        decreases module.interfaces.len() - i,
    {
        if contains_text(accepts, module.interfaces[i].as_str()) {
            return true;
        }
        i += 1;
    }
    false
}

/// The number of a tag `ModuleTag_N`.
pub open spec fn tag_number(tag: Seq<char>) -> nat {
    let front = "ModuleTag_"@;
    if tag.len() >= front.len() && same_ci(tag.take(front.len() as int), front) && is_u64(
        tag.skip(front.len() as int),
    ) {
        int_literal(tag.skip(front.len() as int), false)->0 as nat
    } else {
        0
    }
}

fn read_tag_number(tag: &str) -> (r: u64)
    ensures
        r == tag_number(tag@),
{
    let front = "ModuleTag_";
    let n: usize = front.unicode_len();
    let len: usize = tag.unicode_len();
    if len < n {
        return 0;
    }
    let head = vstd::string::StrSliceExecFns::substring_char(tag, 0, n);
    let tail = vstd::string::StrSliceExecFns::substring_char(tag, n, len);
    assert(head@ =~= tag@.take(n as int));
    assert(tail@ =~= tag@.skip(n as int));
    if !eq_ci(head, front) {
        return 0;
    }
    match parse_u64(tail) {
        Some(value) => value,
        None => 0,
    }
}

pub open spec fn larger(a: nat, b: nat) -> nat {
    if a < b {
        b
    } else {
        a
    }
}

/// Whether a scope has a module slot of that keyword.
pub open spec fn has_slot(slots: Seq<ModuleSlot>, keyword: Seq<char>) -> bool {
    exists|i: int| 0 <= i < slots.len() && same_ci((#[trigger] slots[i]).keyword@, keyword)
}

fn is_slot(slots: &[ModuleSlot], keyword: &str) -> (r: bool)
    ensures
        r == has_slot(slots@, keyword@),
{
    let mut i: usize = 0;
    while i < slots.len()
        invariant
            i <= slots.len(),
            forall|k: int| 0 <= k < i ==> !same_ci((#[trigger] slots@[k]).keyword@, keyword@),
        decreases slots.len() - i,
    {
        if eq_ci(slots[i].keyword.as_str(), keyword) {
            return true;
        }
        i += 1;
    }
    false
}

/// The tag number of a module in a slot of its scope.
pub open spec fn own_number(analyzer: &Analyzer, parse: &Parse, node: int) -> nat {
    let n = parse.nodes@[node];
    match (n.kind, n.head, n.tag, parse.outer_scope(node)) {
        (SyntaxKind::Module, Some(slot), Some(tag), Some(scope)) => if has_slot(
            scope_of(analyzer, parse, scope).slot_list(),
            slot.text@,
        ) {
            tag_number(tag.text@)
        } else {
            0
        },
        _ => 0,
    }
}

fn read_own_number(analyzer: &Analyzer, parse: &Parse, node: usize) -> (r: u64)
    requires
        parse.wf(),
        node < parse.nodes.len(),
    ensures
        r == own_number(analyzer, parse, node as int),
{
    if parse.nodes[node].kind != SyntaxKind::Module {
        return 0;
    }
    if let Some(slot) = &parse.nodes[node].head {
        if let Some(tag) = &parse.nodes[node].tag {
            if let Some(scope) = parse.enclosing_scope(node) {
                let schema = scope_schema(analyzer, parse, scope);
                if is_slot(schema.module_slots(), slot.text.as_str()) {
                    return read_tag_number(tag.text.as_str());
                }
            }
        }
    }
    0
}

/// The highest tag number in the subtree of a node.
pub open spec fn highest(analyzer: &Analyzer, parse: &Parse, node: int) -> nat
    decreases parse.nodes@.len() - node, parse.nodes@[node].elements@.len() + 1,
{
    larger(own_number(analyzer, parse, node), highest_among(analyzer, parse, node, 0))
}

/// The highest tag number under the elements from `k` on.
pub open spec fn highest_among(analyzer: &Analyzer, parse: &Parse, node: int, k: int) -> nat
    decreases parse.nodes@.len() - node, parse.nodes@[node].elements@.len() - k,
{
    let elements = parse.nodes@[node].elements@;
    if k < 0 || k >= elements.len() {
        0
    } else {
        let here = match elements[k] {
            Element::Node(c) => if node < c < parse.nodes@.len() {
                highest(analyzer, parse, c as int)
            } else {
                0
            },
            Element::Token(_) => 0,
        };
        larger(here, highest_among(analyzer, parse, node, k + 1))
    }
}

fn highest_number(analyzer: &Analyzer, parse: &Parse, node: usize) -> (r: u64)
    requires
        parse.wf(),
        node < parse.nodes.len(),
    ensures
        r == highest(analyzer, parse, node as int),
    decreases parse.nodes.len() - node,
{
    let mut best: u64 = read_own_number(analyzer, parse, node);
    let ghost whole = highest(analyzer, parse, node as int);
    let elements = &parse.nodes[node].elements;
    let mut k: usize = 0;
    while k < elements.len()
        invariant
            parse.wf(),
            node < parse.nodes.len(),
            elements@ == parse.nodes@[node as int].elements@,
            k <= elements.len(),
            whole == larger(
                best as nat,
                highest_among(analyzer, parse, node as int, k as int),
            ),
        decreases elements.len() - k,
    {
        assert(parse.nodes@[node as int].elements@[k as int] == elements@[k as int]);
        if let Element::Node(c) = &elements[k] {
            let below: u64 = highest_number(analyzer, parse, *c);
            if best < below {
                best = below;
            }
        }
        k += 1;
    }
    best
}

/// The nearest node, from `node` outwards, that an Object keyword heads.
pub open spec fn object_node(parse: &Parse, node: int) -> Option<int>
    decreases node,
{
    let here = match parse.nodes@[node].head {
        Some(kw) => same_ci(kw.text@, "Object"@),
        None => false,
    };
    if here {
        Some(node)
    } else {
        match parse.nodes@[node].parent {
            Some(p) => if 0 <= node && p < node {
                object_node(parse, p as int)
            } else {
                None
            },
            None => None,
        }
    }
}

fn find_object_node(parse: &Parse, node: usize) -> (r: Option<usize>)
    requires
        parse.wf(),
        node < parse.nodes.len(),
    ensures
        match r {
            Some(n) => object_node(parse, node as int) == Some(n as int) && n < parse.nodes.len(),
            None => object_node(parse, node as int) is None,
        },
    decreases node,
{
    if let Some(kw) = &parse.nodes[node].head {
        if eq_ci(kw.text.as_str(), "Object") {
            return Some(node);
        }
    }
    match parse.nodes[node].parent {
        Some(p) => find_object_node(parse, p),
        None => None,
    }
}

/// `n` in decimal, with at least two digits.
pub open spec fn two_digits(n: nat) -> Seq<char> {
    if n < 10 {
        "0"@ + decimal(n)
    } else {
        decimal(n)
    }
}

/// The tag after the highest numbered one of the enclosing Object.
pub open spec fn next_tag(analyzer: &Analyzer, parse: &Parse, scope: int) -> Seq<char> {
    let object = match object_node(parse, scope) {
        Some(o) => o,
        None => scope,
    };
    "ModuleTag_"@ + two_digits(highest(analyzer, parse, object) + 1)
}

/// Suggests the next numeric tag of the module slots in the enclosing Object.
///
/// Descriptive tags (such as `ModuleTag_Draw`) do not affect the sequence.
/// Only genuine module slots count: the arguments of sub-block headers are no
/// tags.
pub fn next_module_tag(analyzer: &Analyzer, parse: &Parse, scope: usize) -> (r: String)
    requires
        parse.wf(),
        scope < parse.nodes.len(),
    ensures
        r@ == next_tag(analyzer, parse, scope as int),
{
    let object: usize = match find_object_node(parse, scope) {
        Some(o) => o,
        None => scope,
    };
    let next: u128 = highest_number(analyzer, parse, object) as u128 + 1;
    let digits = unsigned_text(next);
    if next < 10 {
        let padded = join2("0", digits.as_str());
        join2("ModuleTag_", padded.as_str())
    } else {
        join2("ModuleTag_", digits.as_str())
    }
}

/// A module type, as an item with a tag.
pub open spec fn module_item(module: ModuleType, tag: Seq<char>) -> CompletionView {
    snippet_item(
        module.name@,
        CompletionKind::Module,
        "module"@,
        Some(module.name@ + " ${1:"@ + tag + "}\n\t$0\nEnd"@),
    )
}

/// The module types from `k` on that a slot accepts, as items.
pub open spec fn module_items(
    modules: Seq<ModuleType>,
    accepts: Seq<Seq<char>>,
    tag: Seq<char>,
    k: int,
) -> Seq<CompletionView>
    decreases modules.len() - k,
{
    if k < 0 || k >= modules.len() {
        Seq::empty()
    } else {
        let rest = module_items(modules, accepts, tag, k + 1);
        if accepted(modules[k], accepts) {
            seq![module_item(modules[k], tag)] + rest
        } else {
            rest
        }
    }
}

/// The module types that a slot accepts.
pub fn module_name_completions(
    analyzer: &Analyzer,
    parse: &Parse,
    scope: usize,
    accepts: &Vec<String>,
) -> (r: Vec<Completion>)
    requires
        parse.wf(),
        scope < parse.nodes.len(),
    ensures
        views(r@) == module_items(
            analyzer.schema.modules@,
            texts(accepts@),
            next_tag(analyzer, parse, scope as int),
            0,
        ),
{
    let tag = next_module_tag(analyzer, parse, scope);
    let modules = &analyzer.schema.modules;
    let ghost accepting = texts(accepts@);
    let ghost whole = module_items(modules@, accepting, tag@, 0);
    let mut out = no_completions();
    assert(views(out@) + whole =~= whole);
    let mut k: usize = 0;
    while k < modules.len()
        invariant
            k <= modules.len(),
            accepting == texts(accepts@),
            views(out@) + module_items(modules@, accepting, tag@, k as int) == whole,
        decreases modules.len() - k,
    {
        let ghost before = views(out@);
        if is_accepted(&modules[k], accepts) {
            let name = modules[k].name.as_str();
            let opening = join3(name, " ${1:", tag.as_str());
            let insert = join2(opening.as_str(), "}\n\t$0\nEnd");
            out.push(inserting(name, CompletionKind::Module, "module".to_owned(), Some(insert)));
        }
        assert(views(out@) + module_items(modules@, accepting, tag@, k + 1) =~= before
            + module_items(modules@, accepting, tag@, k as int));
        k += 1;
    }
    assert(views(out@) + module_items(modules@, accepting, tag@, k as int) =~= views(out@));
    out
}

/// The objects that a map may override, as items.
pub open spec fn object_items(index: Option<&WorkspaceIndex>) -> Seq<CompletionView> {
    match index {
        Some(idx) => named_items(
            base_names_of(idx.def_rows(), idx.def_rows(), RefKind::Object),
            CompletionKind::Reference,
            "Object (override target)"@,
        ),
        None => Seq::empty(),
    }
}

fn object_name_completions(index: Option<&WorkspaceIndex>) -> (r: Vec<Completion>)
    ensures
        views(r@) == object_items(index),
{
    let mut out = no_completions();
    if let Some(idx) = index {
        let names = idx.override_target_names(RefKind::Object);
        push_named(&mut out, &names, CompletionKind::Reference, "Object (override target)");
        assert(views(out@) =~= named_items(
            texts(names@),
            CompletionKind::Reference,
            "Object (override target)"@,
        ));
    }
    out
}

/// The candidates at a position.
pub open spec fn items_at(
    analyzer: &Analyzer,
    parse: &Parse,
    position: PosView,
    offset: u32,
    index: Option<&WorkspaceIndex>,
    file: Option<Seq<char>>,
) -> Seq<CompletionView> {
    match position {
        PosView::TopLevel => analyzer.schema.blocks@.map_values(|b: BlockType| block_item(b)),
        PosView::ObjectName => object_items(index),
        PosView::FieldKey(scope) => {
            let s = scope_of(analyzer, parse, scope);
            scope_items(s.field_list(), s.slot_list(), s.sub_list())
        },
        PosView::FieldValue { scope, key, value_index, current_token, first_token } => value_items(
            analyzer,
            parse,
            scope,
            key,
            value_index,
            current_token,
            first_token,
            index,
            file,
            offset,
        ),
        PosView::ModuleName { scope, accepts } => module_items(
            analyzer.schema.modules@,
            accepts,
            next_tag(analyzer, parse, scope),
            0,
        ),
        PosView::SubBlockArg { argument_type } => type_items(
            analyzer,
            argument_type,
            0,
            None,
            None,
            index,
        ),
    }
}

fn as_str(text: &Option<String>) -> (r: Option<&str>)
    ensures
        text_of(r) == opt_text(*text),
{
    match text {
        Some(t) => Some(t.as_str()),
        None => None,
    }
}

/// Computes completions at byte `offset`. `file` is the current document,
/// used for the string keys of a `.str` file next to it and to recognise a map
/// override layer.
pub fn complete(
    analyzer: &Analyzer,
    parse: &Parse,
    offset: u32,
    index: Option<&WorkspaceIndex>,
    file: Option<&str>,
) -> (r: Vec<Completion>)
    requires
        parse.wf(),
    ensures
        views(r@) == items_at(
            analyzer,
            parse,
            position_of(analyzer, parse, offset, text_of(file)),
            offset,
            index,
            text_of(file),
        ),
{
    match classify_position(analyzer, parse, offset, file) {
        PosContext::TopLevel => top_level_completions(analyzer),
        PosContext::ObjectName => object_name_completions(index),
        PosContext::FieldKey(scope) => field_key_completions(analyzer, parse, scope),
        PosContext::FieldValue { scope, key, value_index, current_token, first_token } => {
            field_value_completions(
                analyzer,
                parse,
                scope,
                key.as_str(),
                value_index,
                as_str(&current_token),
                as_str(&first_token),
                index,
                file,
                offset,
            )
        },
        PosContext::ModuleName { scope, accepts } => module_name_completions(
            analyzer,
            parse,
            scope,
            &accepts,
        ),
        PosContext::SubBlockArg { argument_type } => completions_for_type(
            analyzer,
            argument_type,
            0,
            None,
            None,
            index,
        ),
    }
}

proof fn lemma_highest_covers(analyzer: &Analyzer, parse: &Parse, node: int, k: int)
    requires
        parse.wf(),
        0 <= node < parse.nodes@.len(),
        0 <= k <= parse.nodes@[node].elements@.len(),
    ensures
        forall|j: int|
            #![trigger parse.nodes@[node].elements@[j]]
            k <= j < parse.nodes@[node].elements@.len() ==> (parse.nodes@[node].elements@[j] matches
                Element::Node(c) ==> highest(analyzer, parse, c as int) <= highest_among(
                analyzer,
                parse,
                node,
                k,
            )),
    decreases parse.nodes@[node].elements@.len() - k,
{
    if k < parse.nodes@[node].elements@.len() {
        lemma_highest_covers(analyzer, parse, node, k + 1);
    }
}

/// The node that a path of child positions leads to.
pub open spec fn descend(parse: &Parse, node: int, path: Seq<int>) -> Option<int>
    decreases path.len(),
{
    if path.len() == 0 {
        Some(node)
    } else if 0 <= path[0] < parse.nodes@[node].elements@.len() {
        match parse.nodes@[node].elements@[path[0]] {
            Element::Node(c) => descend(parse, c as int, path.skip(1)),
            Element::Token(_) => None,
        }
    } else {
        None
    }
}

proof fn lemma_highest_below(analyzer: &Analyzer, parse: &Parse, node: int, path: Seq<int>)
    requires
        parse.wf(),
        0 <= node < parse.nodes@.len(),
    ensures
        descend(parse, node, path) matches Some(m) ==> own_number(analyzer, parse, m) <= highest(
            analyzer,
            parse,
            node,
        ),
    decreases path.len(),
{
    if path.len() > 0 && 0 <= path[0] < parse.nodes@[node].elements@.len() {
        if let Element::Node(c) = parse.nodes@[node].elements@[path[0]] {
            lemma_highest_below(analyzer, parse, c as int, path.skip(1));
            lemma_highest_covers(analyzer, parse, node, 0);
        }
    }
}

proof fn lemma_decimal_reads_back(n: nat)
    ensures
        all_digits(decimal(n)),
        decimal(n).len() > 0,
        digits_value(decimal(n)) == n,
    decreases n,
{
    let d = n % 10;
    assert(is_digit(digit_char(d)) && digit_char(d) as int - '0' as int == d);
    if n < 10 {
        let s = decimal(n);
        assert(s.drop_last() =~= Seq::<char>::empty());
        reveal_with_fuel(digits_value, 2);
    } else {
        lemma_decimal_reads_back(n / 10);
        assert(decimal(n).drop_last() =~= decimal(n / 10));
    }
}

proof fn lemma_two_digits_read_back(n: nat)
    requires
        n <= u64::MAX,
    ensures
        is_u64(two_digits(n)),
        int_literal(two_digits(n), false) == Some(n as int),
{
    lemma_decimal_reads_back(n);
    let s = two_digits(n);
    if n < 10 {
        reveal_strlit("0");
        assert(s =~= seq!['0'] + decimal(n));
        assert(s.drop_last() =~= seq!['0']);
        assert(seq!['0'].drop_last() =~= Seq::<char>::empty());
        reveal_with_fuel(digits_value, 3);
        assert(decimal(n).last() == s.last());
    }
    assert(all_digits(s));
    assert(is_digit(s[0]));
}

/// The suggested tag is fresh: no module that fills a slot anywhere in the
/// object has it. Past the largest tag number that is read, there is none to
/// suggest.
pub proof fn law_next_tag_is_fresh(
    analyzer: &Analyzer,
    parse: &Parse,
    scope: int,
    object: int,
    path: Seq<int>,
)
    requires
        parse.wf(),
        0 <= scope < parse.nodes@.len(),
        0 <= object < parse.nodes@.len(),
        object == (match object_node(parse, scope) {
            Some(o) => o,
            None => scope,
        }),
        highest(analyzer, parse, object) < u64::MAX,
    ensures
        descend(parse, object, path) matches Some(m) ==> {
            let n = parse.nodes@[m];
            n.kind is Module && (n.head matches Some(slot) && (parse.outer_scope(m) matches Some(
                around,
            ) && has_slot(scope_of(analyzer, parse, around).slot_list(), slot.text@)))
                ==> token_text(n.tag) != Some(next_tag(analyzer, parse, scope))
        },
{
    lemma_highest_below(analyzer, parse, object, path);
    if let Some(m) = descend(parse, object, path) {
        let next = next_tag(analyzer, parse, scope);
        let number = highest(analyzer, parse, object) + 1;
        let front = "ModuleTag_"@;
        reveal_strlit("ModuleTag_");
        lemma_two_digits_read_back(number);
        assert(next.take(front.len() as int) =~= front);
        assert(next.skip(front.len() as int) =~= two_digits(number));
        assert(tag_number(next) == number);
    }
}

} // verus!
