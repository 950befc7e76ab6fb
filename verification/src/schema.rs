//! Data model of the engine's INI schema: blocks, modules, fields and the
//! shapes of their values.
//!
//! The schema is a flat document. Blocks and modules refer to value sets and
//! to each other by string id; [`Schema::index`] gives the lookups by name.

use vstd::prelude::*;

use crate::text::{
    eq_ci, same, same_ci, split_at_first, split_once, strip_suffix, unquote, unquoted,
    without_suffix,
};

verus! {

/// The complete engine schema.
#[derive(Debug)]
pub struct Schema {
    /// Schema format version, bumped on breaking changes.
    pub format_version: u32,
    /// The engine source snapshot this schema mirrors.
    pub engine_revision: String,
    /// Top-level block types (`Object`, `Weapon`, ...).
    pub blocks: Vec<BlockType>,
    /// Nested module types (`W3DModelDraw`, `ActiveBody`, ...).
    pub modules: Vec<ModuleType>,
    /// Named value sets used by enum and bitflag fields.
    pub value_sets: Vec<ValueSet>,
    /// Definitions that the engine makes at run time: valid reference targets
    /// that exist in no file.
    pub builtins: Vec<BuiltinDef>,
}

/// An engine-made definition (see [`Schema::builtins`]).
#[derive(Debug)]
pub struct BuiltinDef {
    pub ref_kind: RefKind,
    pub name: String,
    pub doc: Option<String>,
}

/// A top-level INI block, e.g. `Object GLATankMarauder` ... `End`.
#[derive(Debug)]
pub struct BlockType {
    /// The INI keyword that introduces the block.
    pub name: String,
    /// The engine parse function that this block dispatches to.
    pub parse_fn: String,
    /// Whether the block is named (`Object Foo`) or anonymous (`GameData`).
    pub named: bool,
    /// Whether the block is `End`-terminated or a single-line directive.
    pub terminated: bool,
    /// The kind of symbol that a named block of this type defines.
    pub defines: Option<RefKind>,
    /// Fields legal directly inside this block.
    pub fields: Vec<Field>,
    /// Module slots that this block exposes.
    pub module_slots: Vec<ModuleSlot>,
    /// `End`-terminated scopes legal inside this block.
    pub sub_blocks: Vec<SubBlock>,
    pub doc: Option<String>,
}

/// A structural sub-block scope (see [`BlockType::sub_blocks`]).
#[derive(Debug)]
pub struct SubBlock {
    /// The keyword that opens the scope.
    pub keyword: String,
    /// Fields legal inside (empty: lenient, not modelled).
    pub fields: Vec<Field>,
    /// Sub-blocks nested inside this one.
    pub sub_blocks: Vec<SubBlock>,
    /// The scope re-enters the parent's field table: what is legal in the
    /// parent is legal here.
    pub reenters_parent: bool,
    /// Type of the header argument that follows `=`.
    pub argument_type: Option<ValueType>,
    pub doc: Option<String>,
}

/// A slot inside a block that hosts nested modules.
#[derive(Debug)]
pub struct ModuleSlot {
    /// The field keyword that introduces the slot.
    pub keyword: String,
    /// The module interfaces accepted in this slot.
    pub accepts: Vec<String>,
    pub doc: Option<String>,
}

/// A nested module definition.
#[derive(Debug)]
pub struct ModuleType {
    /// Module name as written in INI.
    pub name: String,
    /// Interfaces that this module implements.
    pub interfaces: Vec<String>,
    /// Fields legal inside this module.
    pub fields: Vec<Field>,
    /// Structural sub-block scopes inside this module.
    pub sub_blocks: Vec<SubBlock>,
    pub doc: Option<String>,
}

/// A single `Key = value [value...]` field within a block or module.
#[derive(Debug)]
pub struct Field {
    /// The field keyword (left-hand side of `=`).
    pub name: String,
    /// The shape of the right-hand side.
    pub value_type: ValueType,
    /// The engine parse function name.
    pub parse_fn: String,
    pub doc: Option<String>,
    pub model_source: Option<ModelSource>,
    /// Engine lookup semantics for the model-member token in this field.
    pub model_member_mode: Option<ModelMemberMode>,
}

#[derive(Debug, Clone, Copy, PartialEq, Eq, Structural)]
pub enum ModelMemberMode {
    Exact,
    /// Enumerates base01, base02, ... starting at 01.
    Indexed,
    /// Enumerates numbered bones, with an unadorned-name fallback.
    ExactOrIndexed,
    /// Selected by the field's RandomBone:Yes/No value.
    RandomBone,
}

/// Selects the Object whose W3D models own a model-member field.
#[derive(Debug, PartialEq, Eq)]
pub enum ModelSource {
    EnclosingObject,
    ObjectReferenceField { field: String },
}

#[derive(Debug, Clone, Copy, PartialEq, Eq, Structural)]
pub enum AudioExtension {
    Any,
    Wav,
    Mp3,
}

/// The type of a field's value, named after its engine parse function.
#[derive(Debug, PartialEq, Eq)]
pub enum ValueType {
    /// `Yes` / `No`.
    Bool,
    /// Signed integer.
    Int,
    /// Unsigned integer.
    UInt,
    /// Floating-point real.
    Real,
    /// Real constrained > 0.
    PositiveReal,
    /// Angle in degrees.
    AngleReal,
    /// Percentage literal (e.g. `50%`).
    Percent,
    /// Duration in milliseconds.
    Duration,
    /// Velocity (dist/sec).
    Velocity,
    /// Acceleration (dist/sec^2).
    Acceleration,
    /// A bare (unquoted, single-token) ASCII string.
    AsciiString,
    /// A quoted ASCII string.
    QuotedString,
    /// A list of ASCII strings (variadic).
    AsciiStringList,
    /// A W3D model asset name, backed by indexed `.w3d` files.
    W3dModel,
    /// One or more W3D model asset names.
    W3dModelList,
    /// A bone, subobject, mesh, or other member of a W3D model asset.
    W3dModelMember,
    /// An indexed audio filename, optionally restricted by extension.
    AudioFile { extension: AudioExtension },
    /// A variadic list of extensionless indexed WAV names.
    AudioStemList,
    /// An indexed texture filename. DDS aliases the same TGA stem.
    TextureFile,
    /// An extensionless indexed TGA/DDS texture name.
    TextureStem,
    /// A texture stem that may be backed by a numbered `0000` first frame.
    TextureSequenceStem,
    /// `R:r G:g B:b [A:a]` color.
    Color,
    /// `X:x Y:y` coordinate.
    Coord2D,
    /// `X:x Y:y Z:z` coordinate.
    Coord3D,
    /// Two real bounds followed by an optional distribution name.
    RandomVariable { value_set: String },
    /// Two real bounds followed by an unsigned frame number.
    RandomKeyframe,
    /// `R:r G:g B:b` followed by an unsigned frame number.
    ColorKeyframe,
    /// One name drawn from a value set (an enum).
    Enum { value_set: String },
    /// One or more flag names from a value set, with optional `+`/`-` modifiers
    /// and the special `NONE` / `ALL` tokens.
    BitFlags { value_set: String },
    /// A reference to a named definition elsewhere.
    Reference { ref_kind: RefKind },
    /// One or more references of the same kind.
    ReferenceList { ref_kind: RefKind },
    /// A fixed sequence of individually-typed tokens. A trailing BitFlags
    /// element consumes all remaining tokens.
    TokenList { tokens: Vec<ValueType> },
    /// A single token with a literal prefix and colon before the typed value
    /// (e.g. `PSys:<ParticleSystem>`).
    Prefixed { prefix: String, value_type: Box<ValueType> },
    /// One of several value shapes accepted by the same parser.
    OneOf { variants: Vec<ValueType> },
    /// Anything not mapped precisely; treated leniently.
    Unknown { parse_fn: String },
}

/// The text at a raw position of the input, empty past its end.
pub open spec fn input_at(input: Seq<Seq<char>>, raw: int) -> Seq<char> {
    if 0 <= raw < input.len() {
        input[raw]
    } else {
        Seq::empty()
    }
}

/// The text before a trailing colon.
pub open spec fn before_colon(token: Seq<char>) -> Option<Seq<char>> {
    strip_suffix(unquoted(token), ":"@)
}

impl ValueType {
    /// The type of the value that follows a split prefix token `Prefix:`.
    pub open spec fn split_prefix(self, token: Seq<char>) -> Option<ValueType> {
        match self {
            ValueType::Prefixed { prefix, value_type } => match before_colon(token) {
                Some(actual) => if same_ci(actual, prefix@) {
                    Some(*value_type)
                } else {
                    None
                },
                None => None,
            },
            _ => None,
        }
    }

    /// The literal prefix that the first token of this shape carries.
    pub open spec fn leading_prefix(self) -> Option<Seq<char>>
        decreases self,
    {
        match self {
            ValueType::Prefixed { prefix, .. } => Some(prefix@),
            ValueType::TokenList { tokens } => if tokens@.len() > 0 {
                tokens@[0].leading_prefix()
            } else {
                None
            },
            _ => None,
        }
    }

    /// Whether the shape ends in a mask that takes any number of tokens.
    pub open spec fn is_flags(self) -> bool {
        self is BitFlags
    }

    /// The variant that the first input token selects: the first one whose
    /// prefix it carries, else the first one.
    pub open spec fn active(self, first: Option<Seq<char>>) -> Option<ValueType> {
        match self {
            ValueType::OneOf { variants } => if variants@.len() == 0 {
                None
            } else {
                Some(variants@[active_variant(variants@, first)])
            },
            _ => Some(self),
        }
    }

    /// The type at a schema position of this shape.
    pub open spec fn type_at(self, index: int) -> Option<ValueType> {
        match self {
            ValueType::TokenList { tokens } => if index < tokens@.len() {
                Some(tokens@[index])
            } else if tokens@.len() > 0 && tokens@.last().is_flags() {
                Some(tokens@.last())
            } else {
                None
            },
            _ => Some(self),
        }
    }

    /// The type at a raw input position, where a split `Prefix: Value` pair
    /// takes two positions.
    pub open spec fn input_type(self, input: Seq<Seq<char>>, index: int) -> Option<ValueType>
        decreases self,
    {
        match self {
            ValueType::OneOf { variants } => if variants@.len() == 0 {
                None
            } else {
                let k = active_variant(variants@, first_of(input));
                if 0 <= k < variants@.len() {
                    variants@[k].input_type(input, index)
                } else {
                    None
                }
            },
            ValueType::TokenList { tokens } => list_type(tokens@, 0, 0, input, index),
            _ => match self.split_prefix(input_at(input, 0)) {
                Some(value_type) => if index == 0 {
                    Some(self)
                } else if index == 1 {
                    Some(value_type)
                } else {
                    None
                },
                None => if index == 0 || self.spans_tokens() {
                    Some(self)
                } else {
                    None
                },
            },
        }
    }

    /// Shapes that type every token of their value.
    pub open spec fn spans_tokens(self) -> bool {
        match self {
            ValueType::BitFlags { .. } => true,
            ValueType::ReferenceList { .. } => true,
            ValueType::RandomVariable { .. } => true,
            ValueType::RandomKeyframe => true,
            ValueType::ColorKeyframe => true,
            _ => false,
        }
    }

    /// The schema position of a raw input position.
    pub open spec fn input_index(self, input: Seq<Seq<char>>, index: int) -> Option<int>
        decreases self,
    {
        match self {
            ValueType::OneOf { variants } => if variants@.len() == 0 {
                None
            } else {
                let k = active_variant(variants@, first_of(input));
                if 0 <= k < variants@.len() {
                    variants@[k].input_index(input, index)
                } else {
                    None
                }
            },
            ValueType::TokenList { tokens } => list_index(tokens@, 0, 0, input, index),
            ValueType::RandomVariable { .. } => Some(index),
            ValueType::RandomKeyframe => Some(index),
            ValueType::ColorKeyframe => Some(index),
            _ => Some(0),
        }
    }

    /// The value type behind the prefix when `token` is that prefix alone.
    pub fn split_prefix_value_type(&self, token: &str) -> (r: Option<&ValueType>)
        ensures
            match r {
                Some(ty) => self.split_prefix(token@) == Some(*ty),
                None => self.split_prefix(token@) is None,
            },
    {
        match self {
            ValueType::Prefixed { prefix, value_type } => {
                match without_suffix(unquote(token), ":") {
                    Some(actual) => if eq_ci(actual, prefix) {
                        Some(&**value_type)
                    } else {
                        None
                    },
                    None => None,
                }
            },
            _ => None,
        }
    }

    /// The literal prefix that a value of this shape starts with.
    pub fn first_prefix(&self) -> (r: Option<&str>)
        ensures
            match r {
                Some(p) => self.leading_prefix() == Some(p@),
                None => self.leading_prefix() is None,
            },
        decreases self,
    {
        match self {
            ValueType::Prefixed { prefix, .. } => Some(prefix.as_str()),
            ValueType::TokenList { tokens } => if tokens.len() > 0 {
                tokens[0].first_prefix()
            } else {
                None
            },
            _ => None,
        }
    }

    /// The variant of a `OneOf` that the first token selects; any other shape
    /// is its own variant.
    pub fn variant_for_first_token(&self, first_token: Option<&str>) -> (r: Option<&ValueType>)
        ensures
            match r {
                Some(ty) => self.active(text_of(first_token)) == Some(*ty),
                None => self.active(text_of(first_token)) is None,
            },
    {
        match self {
            ValueType::OneOf { variants } => {
                if variants.len() == 0 {
                    return None;
                }
                Some(&variants[variant_index(variants, first_token)])
            },
            _ => Some(self),
        }
    }

    /// The value type consumed at a token position. A trailing bitflag type
    /// stands for the variable-length mask at the end of a list.
    pub fn token_type_at(&self, index: usize) -> (r: Option<&ValueType>)
        ensures
            match r {
                Some(ty) => self.type_at(index as int) == Some(*ty),
                None => self.type_at(index as int) is None,
            },
    {
        match self {
            ValueType::TokenList { tokens } => {
                if index < tokens.len() {
                    return Some(&tokens[index]);
                }
                trailing_flags(tokens)
            },
            _ => Some(self),
        }
    }

    /// The value type at a raw syntax-token position, accounting for the
    /// split form `Prefix: Value`.
    pub fn token_type_at_input(&self, input: &[&str], index: usize) -> (r: Option<&ValueType>)
        ensures
            match r {
                Some(ty) => self.input_type(crate::text::slices(input@), index as int) == Some(*ty),
                None => self.input_type(crate::text::slices(input@), index as int) is None,
            },
        decreases self,
    {
        let ghost views = crate::text::slices(input@);
        match self {
            ValueType::OneOf { variants } => {
                if variants.len() == 0 {
                    return None;
                }
                let k: usize = variant_index(variants, first_text(input));
                variants[k].token_type_at_input(input, index)
            },
            ValueType::TokenList { tokens } => {
                let mut raw: usize = 0;
                let mut k: usize = 0;
                while k < tokens.len()
                    invariant
                        k <= tokens.len(),
                        raw <= index,
                        views == crate::text::slices(input@),
                        self.input_type(views, index as int) == list_type(
                            tokens@,
                            k as int,
                            raw as int,
                            views,
                            index as int,
                        ),
                    decreases tokens.len() - k,
                {
                    let ty = &tokens[k];
                    match ty.split_prefix_value_type(raw_text(input, raw)) {
                        Some(value_type) => {
                            if index == raw {
                                return Some(ty);
                            }
                            if index - raw == 1 {
                                return Some(value_type);
                            }
                            raw += 2;
                        },
                        None => {
                            if index == raw {
                                return Some(ty);
                            }
                            raw += 1;
                        },
                    }
                    k += 1;
                }
                trailing_flags(tokens)
            },
            _ => {
                match self.split_prefix_value_type(raw_text(input, 0)) {
                    Some(value_type) => {
                        if index == 0 {
                            Some(self)
                        } else if index == 1 {
                            Some(value_type)
                        } else {
                            None
                        }
                    },
                    None => if index == 0 || self.takes_all_tokens() {
                        Some(self)
                    } else {
                        None
                    },
                }
            },
        }
    }

    fn takes_all_tokens(&self) -> (r: bool)
        ensures
            r == self.spans_tokens(),
    {
        match self {
            ValueType::BitFlags { .. } => true,
            ValueType::ReferenceList { .. } => true,
            ValueType::RandomVariable { .. } => true,
            ValueType::RandomKeyframe => true,
            ValueType::ColorKeyframe => true,
            _ => false,
        }
    }

    /// The schema token position of a raw syntax-token position. A split
    /// `Prefix: Value` pair occupies one schema position.
    pub fn token_index_at_input(&self, input: &[&str], index: usize) -> (r: Option<usize>)
        ensures
            match r {
                Some(k) => self.input_index(crate::text::slices(input@), index as int) == Some(
                    k as int,
                ),
                None => self.input_index(crate::text::slices(input@), index as int) is None,
            },
        decreases self,
    {
        let ghost views = crate::text::slices(input@);
        match self {
            ValueType::OneOf { variants } => {
                if variants.len() == 0 {
                    return None;
                }
                let k: usize = variant_index(variants, first_text(input));
                variants[k].token_index_at_input(input, index)
            },
            ValueType::TokenList { tokens } => {
                let mut raw: usize = 0;
                let mut k: usize = 0;
                while k < tokens.len()
                    invariant
                        k <= tokens.len(),
                        raw <= index,
                        views == crate::text::slices(input@),
                        self.input_index(views, index as int) == list_index(
                            tokens@,
                            k as int,
                            raw as int,
                            views,
                            index as int,
                        ),
                    decreases tokens.len() - k,
                {
                    let width: usize = if tokens[k].split_prefix_value_type(
                        raw_text(input, raw),
                    ).is_some() {
                        2
                    } else {
                        1
                    };
                    if index - raw < width {
                        return Some(k);
                    }
                    raw += width;
                    k += 1;
                }
                if trailing_flags(tokens).is_some() {
                    Some(tokens.len() - 1)
                } else {
                    None
                }
            },
            ValueType::RandomVariable { .. } => Some(index),
            ValueType::RandomKeyframe => Some(index),
            ValueType::ColorKeyframe => Some(index),
            _ => Some(0),
        }
    }
}

/// The view of an optional text.
pub open spec fn text_of(text: Option<&str>) -> Option<Seq<char>> {
    match text {
        Some(t) => Some(t@),
        None => None,
    }
}

/// The first input text, if any.
pub open spec fn first_of(input: Seq<Seq<char>>) -> Option<Seq<char>> {
    if input.len() > 0 {
        Some(input[0])
    } else {
        None
    }
}

/// The prefix that an input token spells before its colon.
pub open spec fn spelled_prefix(first: Option<Seq<char>>) -> Option<Seq<char>> {
    match first {
        Some(t) => match split_once(t, ':') {
            Some((prefix, _)) => Some(prefix),
            None => None,
        },
        None => None,
    }
}

/// Whether a shape's own prefix is the one spelled.
pub open spec fn carries(ty: ValueType, actual: Seq<char>) -> bool {
    match ty.leading_prefix() {
        Some(prefix) => same_ci(prefix, actual),
        None => false,
    }
}

/// The position of the first variant from `k` on that carries the prefix, or
/// the number of variants.
pub open spec fn first_carrier(variants: Seq<ValueType>, actual: Seq<char>, k: int) -> int
    decreases variants.len() - k,
{
    if k < 0 || k >= variants.len() {
        variants.len() as int
    } else if carries(variants[k], actual) {
        k
    } else {
        first_carrier(variants, actual, k + 1)
    }
}

/// The position of the variant that the first token selects.
pub open spec fn active_variant(variants: Seq<ValueType>, first: Option<Seq<char>>) -> int {
    match spelled_prefix(first) {
        Some(actual) => {
            let k = first_carrier(variants, actual, 0);
            if k < variants.len() {
                k
            } else {
                0
            }
        },
        None => 0,
    }
}

/// The type at raw position `index` of a list whose element `k` starts at
/// raw position `raw`.
pub open spec fn list_type(
    tokens: Seq<ValueType>,
    k: int,
    raw: int,
    input: Seq<Seq<char>>,
    index: int,
) -> Option<ValueType>
    decreases tokens.len() - k,
{
    if k < 0 || k >= tokens.len() {
        if tokens.len() > 0 && index >= raw && tokens.last().is_flags() {
            Some(tokens.last())
        } else {
            None
        }
    } else {
        match tokens[k].split_prefix(input_at(input, raw)) {
            Some(value_type) => if index == raw {
                Some(tokens[k])
            } else if index == raw + 1 {
                Some(value_type)
            } else {
                list_type(tokens, k + 1, raw + 2, input, index)
            },
            None => if index == raw {
                Some(tokens[k])
            } else {
                list_type(tokens, k + 1, raw + 1, input, index)
            },
        }
    }
}

/// The schema position that covers raw position `index` of a list whose
/// element `k` starts at raw position `raw`.
pub open spec fn list_index(
    tokens: Seq<ValueType>,
    k: int,
    raw: int,
    input: Seq<Seq<char>>,
    index: int,
) -> Option<int>
    decreases tokens.len() - k,
{
    if k < 0 || k >= tokens.len() {
        if tokens.len() > 0 && index >= raw && tokens.last().is_flags() {
            Some(tokens.len() - 1)
        } else {
            None
        }
    } else {
        let width: int = if tokens[k].split_prefix(input_at(input, raw)) is Some {
            2
        } else {
            1
        };
        if index < raw + width {
            Some(k)
        } else {
            list_index(tokens, k + 1, raw + width, input, index)
        }
    }
}

fn trailing_flags(tokens: &Vec<ValueType>) -> (r: Option<&ValueType>)
    ensures
        match r {
            Some(ty) => tokens@.len() > 0 && tokens@.last() == *ty && ty.is_flags(),
            None => tokens@.len() == 0 || !tokens@.last().is_flags(),
        },
{
    if tokens.len() == 0 {
        return None;
    }
    let ty = &tokens[tokens.len() - 1];
    match ty {
        ValueType::BitFlags { .. } => Some(ty),
        _ => None,
    }
}

fn raw_text<'a>(input: &[&'a str], raw: usize) -> (r: &'a str)
    ensures
        r@ == input_at(crate::text::slices(input@), raw as int),
{
    if raw < input.len() {
        input[raw]
    } else {
        proof {
            reveal_strlit("");
            assert(""@ =~= Seq::<char>::empty());
        }
        ""
    }
}

fn first_text<'a>(input: &[&'a str]) -> (r: Option<&'a str>)
    ensures
        text_of(r) == first_of(crate::text::slices(input@)),
{
    if input.len() > 0 {
        Some(input[0])
    } else {
        None
    }
}

pub fn variant_index(variants: &Vec<ValueType>, first_token: Option<&str>) -> (r: usize)
    requires
        variants.len() > 0,
    ensures
        r == active_variant(variants@, text_of(first_token)),
        r < variants.len(),
{
    match first_token {
        Some(token) => match split_at_first(token, ':') {
            Some((actual, _rest)) => {
                let mut k: usize = 0;
                while k < variants.len()
                    invariant
                        k <= variants.len(),
                        first_carrier(variants@, actual@, 0) == first_carrier(
                            variants@,
                            actual@,
                            k as int,
                        ),
                        variants.len() > 0,
                        text_of(first_token) == Some(token@),
                        spelled_prefix(text_of(first_token)) == Some(actual@),
                    decreases variants.len() - k,
                {
                    if let Some(prefix) = variants[k].first_prefix() {
                        if eq_ci(prefix, actual) {
                            return k;
                        }
                    }
                    k += 1;
                }
                0
            },
            None => 0,
        },
        None => 0,
    }
}

/// The kind of named definition that a reference points at.
#[derive(Debug, Clone, Copy, PartialEq, Eq, Hash, Structural)]
pub enum RefKind {
    Object,
    Weapon,
    Armor,
    DamageFx,
    FxList,
    ObjectCreationList,
    ParticleSystem,
    Locomotor,
    Upgrade,
    Science,
    CommandButton,
    CommandSet,
    SpecialPower,
    MappedImage,
    Anim2D,
    PlayerTemplate,
    EvaEvent,
    CrateData,
    /// A named audio event (`AudioEvent` / `DialogEvent` / `MusicTrack`).
    AudioEvent,
}

/// A named set of enum or bitflag members.
#[derive(Debug)]
pub struct ValueSet {
    /// Stable id used by [`ValueType::Enum`] and [`ValueType::BitFlags`].
    pub id: String,
    pub members: Vec<ValueMember>,
}

/// A member of a value set. Names drive validation; the value is
/// informational.
#[derive(Debug)]
pub struct ValueMember {
    pub name: String,
    pub value: i64,
}

/// What a missing `named` or `terminated` flag of a block stands for.
pub fn default_true() -> (r: bool)
    ensures
        r,
{
    true
}

/// The last block type of that name.
pub open spec fn block_named(blocks: Seq<BlockType>, name: Seq<char>) -> Option<BlockType>
    decreases blocks.len(),
{
    if blocks.len() == 0 {
        None
    } else if blocks.last().name@ == name {
        Some(blocks.last())
    } else {
        block_named(blocks.drop_last(), name)
    }
}

/// The last module type of that name.
pub open spec fn module_named(modules: Seq<ModuleType>, name: Seq<char>) -> Option<ModuleType>
    decreases modules.len(),
{
    if modules.len() == 0 {
        None
    } else if modules.last().name@ == name {
        Some(modules.last())
    } else {
        module_named(modules.drop_last(), name)
    }
}

/// The last value set of that id.
pub open spec fn value_set_named(sets: Seq<ValueSet>, id: Seq<char>) -> Option<ValueSet>
    decreases sets.len(),
{
    if sets.len() == 0 {
        None
    } else if sets.last().id@ == id {
        Some(sets.last())
    } else {
        value_set_named(sets.drop_last(), id)
    }
}

/// Lookups by name over a [`Schema`]. Where a name occurs twice, the later
/// entry is the one found.
pub struct SchemaIndex<'a> {
    pub schema: &'a Schema,
}

impl Schema {
    /// The lookups by name over this schema.
    pub fn index(&self) -> (r: SchemaIndex<'_>)
        ensures
            *r.schema == *self,
    {
        SchemaIndex { schema: self }
    }
}

impl<'a> SchemaIndex<'a> {
    /// The block type of that name.
    pub fn block(&self, name: &str) -> (r: Option<&'a BlockType>)
        ensures
            match r {
                Some(b) => block_named(self.schema.blocks@, name@) == Some(*b),
                None => block_named(self.schema.blocks@, name@) is None,
            },
    {
        let blocks: &'a Vec<BlockType> = &self.schema.blocks;
        let mut i: usize = blocks.len();
        assert(blocks@.take(i as int) =~= blocks@);
        while i > 0
            invariant
                i <= blocks.len(),
                blocks@ == self.schema.blocks@,
                block_named(blocks@, name@) == block_named(blocks@.take(i as int), name@),
            decreases i,
        {
            assert(blocks@.take(i as int).drop_last() =~= blocks@.take(i - 1));
            i -= 1;
            if same(blocks[i].name.as_str(), name) {
                return Some(&blocks[i]);
            }
        }
        None
    }

    /// The module type of that name.
    pub fn module(&self, name: &str) -> (r: Option<&'a ModuleType>)
        ensures
            match r {
                Some(m) => module_named(self.schema.modules@, name@) == Some(*m),
                None => module_named(self.schema.modules@, name@) is None,
            },
    {
        let modules: &'a Vec<ModuleType> = &self.schema.modules;
        let mut i: usize = modules.len();
        assert(modules@.take(i as int) =~= modules@);
        while i > 0
            invariant
                i <= modules.len(),
                modules@ == self.schema.modules@,
                module_named(modules@, name@) == module_named(modules@.take(i as int), name@),
            decreases i,
        {
            assert(modules@.take(i as int).drop_last() =~= modules@.take(i - 1));
            i -= 1;
            if same(modules[i].name.as_str(), name) {
                return Some(&modules[i]);
            }
        }
        None
    }

    /// The value set of that id.
    pub fn value_set(&self, id: &str) -> (r: Option<&'a ValueSet>)
        ensures
            match r {
                Some(v) => value_set_named(self.schema.value_sets@, id@) == Some(*v),
                None => value_set_named(self.schema.value_sets@, id@) is None,
            },
    {
        let sets: &'a Vec<ValueSet> = &self.schema.value_sets;
        let mut i: usize = sets.len();
        assert(sets@.take(i as int) =~= sets@);
        while i > 0
            invariant
                i <= sets.len(),
                sets@ == self.schema.value_sets@,
                value_set_named(sets@, id@) == value_set_named(sets@.take(i as int), id@),
            decreases i,
        {
            assert(sets@.take(i as int).drop_last() =~= sets@.take(i - 1));
            i -= 1;
            if same(sets[i].id.as_str(), id) {
                return Some(&sets[i]);
            }
        }
        None
    }
}

/// Typed positions and schema positions agree: where a list types a raw
/// position, that position also has a schema position.
pub proof fn law_typed_positions_have_schema_positions(
    tokens: Seq<ValueType>,
    k: int,
    raw: int,
    input: Seq<Seq<char>>,
    index: int,
)
    requires
        0 <= k <= tokens.len(),
        raw <= index,
    ensures
        list_type(tokens, k, raw, input, index) is Some <==> list_index(
            tokens,
            k,
            raw,
            input,
            index,
        ) is Some,
    decreases tokens.len() - k,
{
    if k < tokens.len() {
        match tokens[k].split_prefix(input_at(input, raw)) {
            Some(_) => {
                if index > raw + 1 {
                    law_typed_positions_have_schema_positions(tokens, k + 1, raw + 2, input, index);
                }
            },
            None => {
                if index > raw {
                    law_typed_positions_have_schema_positions(tokens, k + 1, raw + 1, input, index);
                }
            },
        }
    }
}

} // verus!
