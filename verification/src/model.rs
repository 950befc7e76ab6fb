//! Bridges the syntax tree to the schema: which schema entity a scope is, and
//! which W3D models its fields name.

use vstd::prelude::*;

use crate::analyzer::Analyzer;
use crate::index::WorkspaceIndex;
use crate::schema::{
    BlockType, Field, ModelMemberMode, ModelSource, ModuleSlot, ModuleType, SubBlock, ValueType,
};
use crate::syntax::{token_texts, Element, Parse, SyntaxKind, SyntaxToken};
use crate::text::{
    eq_ci, join3, last_part, last_part_of, same, same_ci, split_at_first, split_once,
    strip_suffix, texts, trim_end, trim_end_of, unquote, unquoted, without_suffix, CharClass,
};

verus! {

/// Whether `list` holds `item`.
pub fn contains_text(list: &Vec<String>, item: &str) -> (r: bool)
    ensures
        r == texts(list@).contains(item@),
{
    let mut i: usize = 0;
    while i < list.len()
        invariant
            i <= list.len(),
            forall|k: int| 0 <= k < i ==> texts(list@)[k] != item@,
        decreases list.len() - i,
    {
        if same(list[i].as_str(), item) {
            assert(texts(list@)[i as int] == item@);
            return true;
        }
        i += 1;
    }
    false
}

/// Whether a module implements an interface that a slot accepts.
pub open spec fn fits(module: ModuleType, slot: ModuleSlot) -> bool {
    exists|i: int|
        0 <= i < module.interfaces@.len() && texts(slot.accepts@).contains(
            (#[trigger] module.interfaces@[i])@,
        )
}

/// Returns true when `module` implements at least one of the interfaces that
/// `slot` accepts.
pub fn module_fits_slot(module: &ModuleType, slot: &ModuleSlot) -> (r: bool)
    ensures
        r == fits(*module, *slot),
{
    let mut i: usize = 0;
    while i < module.interfaces.len()
        invariant
            i <= module.interfaces.len(),
            forall|k: int|
                0 <= k < i ==> !texts(slot.accepts@).contains((#[trigger] module.interfaces@[k])@),
        decreases module.interfaces.len() - i,
    {
        if contains_text(&slot.accepts, module.interfaces[i].as_str()) {
            return true;
        }
        i += 1;
    }
    false
}

/// What schema entity a scope node corresponds to.
#[derive(Clone, Copy)]
pub enum ScopeSchema<'a> {
    /// A top-level block with a known schema.
    Block(&'a BlockType),
    /// A nested module with a known schema.
    Module(&'a ModuleType),
    /// A structural sub-block declared by the enclosing scope.
    SubBlock(&'a SubBlock),
    /// A scope without a schema. Validation is lenient here: fields are not
    /// flagged as unknown.
    Unknown,
}

/// The first field of that name.
pub open spec fn field_named(fields: Seq<Field>, name: Seq<char>, from: int) -> Option<Field>
    decreases fields.len() - from,
{
    if from < 0 || from >= fields.len() {
        None
    } else if fields[from].name@ == name {
        Some(fields[from])
    } else {
        field_named(fields, name, from + 1)
    }
}

/// The position of the first sub-block of that keyword, or the length.
pub open spec fn sub_block_at(subs: Seq<SubBlock>, keyword: Seq<char>, from: int) -> int
    decreases subs.len() - from,
{
    if from < 0 || from >= subs.len() {
        subs.len() as int
    } else if subs[from].keyword@ == keyword {
        from
    } else {
        sub_block_at(subs, keyword, from + 1)
    }
}

impl<'a> ScopeSchema<'a> {
    pub open spec fn field_list(&self) -> Seq<Field> {
        match self {
            ScopeSchema::Block(b) => b.fields@,
            ScopeSchema::Module(m) => m.fields@,
            ScopeSchema::SubBlock(s) => s.fields@,
            ScopeSchema::Unknown => Seq::empty(),
        }
    }

    pub open spec fn slot_list(&self) -> Seq<ModuleSlot> {
        match self {
            ScopeSchema::Block(b) => b.module_slots@,
            _ => Seq::empty(),
        }
    }

    pub open spec fn sub_list(&self) -> Seq<SubBlock> {
        match self {
            ScopeSchema::Block(b) => b.sub_blocks@,
            ScopeSchema::Module(m) => m.sub_blocks@,
            ScopeSchema::SubBlock(s) => s.sub_blocks@,
            ScopeSchema::Unknown => Seq::empty(),
        }
    }

    pub open spec fn field_of(&self, name: Seq<char>) -> Option<Field> {
        field_named(self.field_list(), name, 0)
    }

    pub open spec fn label_text(&self) -> Seq<char> {
        match self {
            ScopeSchema::Block(b) => "block `"@ + b.name@ + "`"@,
            ScopeSchema::Module(m) => "module `"@ + m.name@ + "`"@,
            ScopeSchema::SubBlock(s) => "`"@ + s.keyword@ + "`"@,
            ScopeSchema::Unknown => "this block"@,
        }
    }

    /// The declared fields of this scope, or empty when unknown.
    pub fn fields(&self) -> (r: &'a [Field])
        ensures
            r@ == self.field_list(),
    {
        match self {
            ScopeSchema::Block(b) => b.fields.as_slice(),
            ScopeSchema::Module(m) => m.fields.as_slice(),
            ScopeSchema::SubBlock(s) => s.fields.as_slice(),
            ScopeSchema::Unknown => &[],
        }
    }

    /// Look up a field by name.
    pub fn field(&self, name: &str) -> (r: Option<&'a Field>)
        ensures
            match r {
                Some(f) => self.field_of(name@) == Some(*f),
                None => self.field_of(name@) is None,
            },
    {
        let fields: &'a [Field] = self.fields();
        let mut i: usize = 0;
        while i < fields.len()
            invariant
                i <= fields.len(),
                fields@ == self.field_list(),
                self.field_of(name@) == field_named(fields@, name@, i as int),
            decreases fields.len() - i,
        {
            if same(fields[i].name.as_str(), name) {
                return Some(&fields[i]);
            }
            i += 1;
        }
        None
    }

    /// Module slots exposed by this scope (only blocks have them).
    pub fn module_slots(&self) -> (r: &'a [ModuleSlot])
        ensures
            r@ == self.slot_list(),
    {
        match self {
            ScopeSchema::Block(b) => b.module_slots.as_slice(),
            _ => &[],
        }
    }

    /// Structural sub-blocks declared by this scope.
    pub fn sub_blocks(&self) -> (r: &'a [SubBlock])
        ensures
            r@ == self.sub_list(),
    {
        match self {
            ScopeSchema::Block(b) => b.sub_blocks.as_slice(),
            ScopeSchema::Module(m) => m.sub_blocks.as_slice(),
            ScopeSchema::SubBlock(s) => s.sub_blocks.as_slice(),
            ScopeSchema::Unknown => &[],
        }
    }

    /// Whether there is a field schema at all.
    pub fn has_field_schema(&self) -> (r: bool)
        ensures
            r == (!(self is Unknown) && self.field_list().len() > 0),
    {
        match self {
            ScopeSchema::Unknown => false,
            _ => self.fields().len() > 0,
        }
    }

    /// A human label for diagnostics.
    pub fn label(&self) -> (r: String)
        ensures
            r@ == self.label_text(),
    {
        match self {
            ScopeSchema::Block(b) => join3("block `", b.name.as_str(), "`"),
            ScopeSchema::Module(m) => join3("module `", m.name.as_str(), "`"),
            ScopeSchema::SubBlock(s) => join3("`", s.keyword.as_str(), "`"),
            ScopeSchema::Unknown => "this block".to_owned(),
        }
    }
}

/// Decides [`sub_block_at`].
pub fn find_sub_block(subs: &[SubBlock], keyword: &str) -> (r: usize)
    ensures
        r == sub_block_at(subs@, keyword@, 0),
        r <= subs.len(),
{
    let mut i: usize = 0;
    while i < subs.len()
        invariant
            i <= subs.len(),
            sub_block_at(subs@, keyword@, 0) == sub_block_at(subs@, keyword@, i as int),
        decreases subs.len() - i,
    {
        if same(subs[i].keyword.as_str(), keyword) {
            return i;
        }
        i += 1;
    }
    i
}

/// The module schema that a node's module name selects.
pub open spec fn named_module(analyzer: &Analyzer, parse: &Parse, node: int) -> Option<ModuleType> {
    match parse.nodes@[node].name {
        Some(t) => analyzer.module_of(t.text@),
        None => None,
    }
}

/// The schema entity of a scope node: a block by its keyword; a module by its
/// name, else by the sub-block of that keyword in the enclosing scope. A
/// sub-block that re-enters its parent is the parent's scope again.
pub open spec fn scope_of<'a>(analyzer: &'a Analyzer, parse: &Parse, node: int) -> ScopeSchema<'a>
    decreases node,
{
    match parse.nodes@[node].kind {
        SyntaxKind::Block => match parse.nodes@[node].head {
            Some(kw) => match analyzer.block_of(kw.text@) {
                Some(b) => ScopeSchema::Block(&b),
                None => ScopeSchema::Unknown,
            },
            None => ScopeSchema::Unknown,
        },
        SyntaxKind::Module => match named_module(analyzer, parse, node) {
            Some(m) => ScopeSchema::Module(&m),
            None => match (parse.nodes@[node].head, parse.outer_scope(node)) {
                (Some(slot), Some(p)) => if 0 <= p < node {
                    let outer = scope_of(analyzer, parse, p);
                    let k = sub_block_at(outer.sub_list(), slot.text@, 0);
                    if k < outer.sub_list().len() {
                        if outer.sub_list()[k].reenters_parent {
                            outer
                        } else {
                            ScopeSchema::SubBlock(&outer.sub_list()[k])
                        }
                    } else {
                        ScopeSchema::Unknown
                    }
                } else {
                    ScopeSchema::Unknown
                },
                _ => ScopeSchema::Unknown,
            },
        },
        _ => ScopeSchema::Unknown,
    }
}

/// Resolve the schema for a block or module node.
pub fn scope_schema<'a>(analyzer: &'a Analyzer, parse: &Parse, node: usize) -> (r: ScopeSchema<'a>)
    requires
        parse.wf(),
        node < parse.nodes.len(),
    ensures
        r == scope_of(analyzer, parse, node as int),
    decreases node,
{
    match parse.nodes[node].kind {
        SyntaxKind::Block => match &parse.nodes[node].head {
            Some(kw) => match analyzer.block(kw.text.as_str()) {
                Some(b) => ScopeSchema::Block(b),
                None => ScopeSchema::Unknown,
            },
            None => ScopeSchema::Unknown,
        },
        SyntaxKind::Module => {
            if let Some(name) = &parse.nodes[node].name {
                if let Some(m) = analyzer.module(name.text.as_str()) {
                    return ScopeSchema::Module(m);
                }
            }
            match &parse.nodes[node].head {
                Some(slot) => match parse.enclosing_scope(node) {
                    Some(p) => {
                        let outer = scope_schema(analyzer, parse, p);
                        let subs: &'a [SubBlock] = outer.sub_blocks();
                        let k: usize = find_sub_block(subs, slot.text.as_str());
                        if k < subs.len() {
                            if subs[k].reenters_parent {
                                outer
                            } else {
                                ScopeSchema::SubBlock(&subs[k])
                            }
                        } else {
                            ScopeSchema::Unknown
                        }
                    },
                    None => ScopeSchema::Unknown,
                },
                None => ScopeSchema::Unknown,
            }
        },
        _ => ScopeSchema::Unknown,
    }
}

/// The scopes from `node` outwards, innermost first.
pub open spec fn scopes_around<'a>(
    analyzer: &'a Analyzer,
    parse: &Parse,
    node: int,
) -> Seq<ScopeSchema<'a>>
    decreases node,
{
    let here = if parse.is_scope(node) {
        seq![scope_of(analyzer, parse, node)]
    } else {
        Seq::empty()
    };
    match parse.nodes@[node].parent {
        Some(p) => if 0 <= node && p < node {
            here + scopes_around(analyzer, parse, p as int)
        } else {
            here
        },
        None => here,
    }
}

/// The chain of scope schemas enclosing `node`, innermost first.
pub fn enclosing_scopes<'a>(analyzer: &'a Analyzer, parse: &Parse, node: usize) -> (r: Vec<
    ScopeSchema<'a>,
>)
    requires
        parse.wf(),
        node < parse.nodes.len(),
    ensures
        r@ == scopes_around(analyzer, parse, node as int),
{
    let mut out: Vec<ScopeSchema<'a>> = Vec::new();
    let mut at: usize = node;
    loop
        invariant
            parse.wf(),
            at < parse.nodes.len(),
            out@ + scopes_around(analyzer, parse, at as int) == scopes_around(
                analyzer,
                parse,
                node as int,
            ),
        decreases at,
    {
        let ghost before = out@;
        if parse.opens_scope(at) {
            out.push(scope_schema(analyzer, parse, at));
        }
        match parse.nodes[at].parent {
            Some(p) => {
                assert(out@ + scopes_around(analyzer, parse, p as int) =~= before + scopes_around(
                    analyzer,
                    parse,
                    at as int,
                ));
                at = p;
            },
            None => {
                assert(out@ =~= before + scopes_around(analyzer, parse, at as int));
                return out;
            },
        }
    }
}

/// Whether values of this type are W3D model names.
pub open spec fn names_model(ty: ValueType) -> bool {
    ty is W3dModel || ty is W3dModelList
}

/// Decides [`names_model`].
pub fn is_model_asset_type(ty: &ValueType) -> (r: bool)
    ensures
        r == names_model(*ty),
{
    match ty {
        ValueType::W3dModel => true,
        ValueType::W3dModelList => true,
        _ => false,
    }
}

/// Whether values of this type are members of a W3D model.
pub fn is_model_member_type(ty: &ValueType) -> (r: bool)
    ensures
        r == (*ty is W3dModelMember),
{
    match ty {
        ValueType::W3dModelMember => true,
        _ => false,
    }
}

/// The part of a member's full name after its last dot.
pub open spec fn short_member(member: Seq<char>) -> Seq<char> {
    last_part(member, '.', '.')
}

/// The name of a member as INI files write it: without container and without
/// trailing digits, unless it is all digits.
pub open spec fn ini_name(member: Seq<char>) -> Seq<char> {
    let short = short_member(member);
    let bare = trim_end(short, CharClass::Digit);
    if bare.len() == 0 {
        short
    } else {
        bare
    }
}

/// The INI name of a model member.
pub fn model_member_ini_name(member: &str) -> (r: &str)
    ensures
        r@ == ini_name(member@),
{
    let short = last_part_of(member, '.', '.');
    let bare = trim_end_of(short, CharClass::Digit);
    if bare.is_empty() {
        short
    } else {
        bare
    }
}

/// The mode that the `RandomBone:` value among the tokens from `i` on selects.
pub open spec fn random_bone(tokens: Seq<Seq<char>>, i: int) -> ModelMemberMode
    decreases tokens.len() - i,
{
    if i < 0 || i >= tokens.len() {
        ModelMemberMode::ExactOrIndexed
    } else {
        match split_once(tokens[i], ':') {
            Some((key, value)) => if same_ci(key, "RandomBone"@) {
                let chosen = if value.len() == 0 {
                    crate::schema::input_at(tokens, i + 1)
                } else {
                    value
                };
                if same_ci(chosen, "Yes"@) {
                    ModelMemberMode::Indexed
                } else if same_ci(chosen, "No"@) {
                    ModelMemberMode::Exact
                } else {
                    random_bone(tokens, i + 1)
                }
            } else {
                random_bone(tokens, i + 1)
            },
            None => random_bone(tokens, i + 1),
        }
    }
}

/// The lookup mode of a field's member tokens: a `RandomBone` field takes it
/// from its own values.
pub open spec fn member_mode(
    mode: Option<ModelMemberMode>,
    values: Seq<Seq<char>>,
) -> Option<ModelMemberMode> {
    if mode == Some(ModelMemberMode::RandomBone) {
        Some(random_bone(values, 0))
    } else {
        mode
    }
}

/// Resolve a contextual mode once, using the whole field. Colon-separated
/// values may occupy one or two tokens; while the controlling value is
/// incomplete, both legal forms are offered.
pub fn model_member_mode(mode: Option<ModelMemberMode>, tokens: &Vec<SyntaxToken>) -> (r: Option<
    ModelMemberMode,
>)
    ensures
        r == member_mode(mode, token_texts(tokens@)),
{
    match mode {
        Some(ModelMemberMode::RandomBone) => {},
        _ => {
            return mode;
        },
    }
    let ghost views = token_texts(tokens@);
    let mut i: usize = 0;
    while i < tokens.len()
        invariant
            i <= tokens.len(),
            views == token_texts(tokens@),
            mode == Some(ModelMemberMode::RandomBone),
            random_bone(views, 0) == random_bone(views, i as int),
        decreases tokens.len() - i,
    {
        if let Some((key, value)) = split_at_first(tokens[i].text.as_str(), ':') {
            if eq_ci(key, "RandomBone") {
                let chosen = if !value.is_empty() {
                    value
                } else if i + 1 < tokens.len() {
                    tokens[i + 1].text.as_str()
                } else {
                    ""
                };
                proof {
                    reveal_strlit("");
                    assert(""@ =~= Seq::<char>::empty());
                }
                if eq_ci(chosen, "Yes") {
                    return Some(ModelMemberMode::Indexed);
                }
                if eq_ci(chosen, "No") {
                    return Some(ModelMemberMode::Exact);
                }
            }
        }
        i += 1;
    }
    Some(ModelMemberMode::ExactOrIndexed)
}

/// The names under which INI files can address a member, per mode.
pub open spec fn member_names(
    member: Seq<char>,
    mode: Option<ModelMemberMode>,
) -> Seq<Seq<char>> {
    let short = short_member(member);
    let base = match strip_suffix(short, "01"@) {
        Some(b) => if b.len() > 0 {
            seq![b]
        } else {
            Seq::empty()
        },
        None => Seq::empty(),
    };
    match mode {
        None => seq![ini_name(short)],
        Some(ModelMemberMode::Exact) => seq![short],
        Some(ModelMemberMode::Indexed) => base,
        Some(_) => seq![short] + base,
    }
}

/// The names under which INI files can address a member.
pub fn model_member_names<'a>(member: &'a str, mode: Option<ModelMemberMode>) -> (r: Vec<&'a str>)
    ensures
        crate::text::slices(r@) == member_names(member@, mode),
{
    let short = last_part_of(member, '.', '.');
    let mut out: Vec<&'a str> = Vec::new();
    match mode {
        None => {
            out.push(model_member_ini_name(short));
        },
        Some(ModelMemberMode::Exact) => {
            out.push(short);
        },
        Some(ModelMemberMode::Indexed) => {
            if let Some(base) = without_suffix(short, "01") {
                if !base.is_empty() {
                    out.push(base);
                }
            }
        },
        _ => {
            out.push(short);
            if let Some(base) = without_suffix(short, "01") {
                if !base.is_empty() {
                    out.push(base);
                }
            }
        },
    }
    assert(crate::text::slices(out@) =~= member_names(member@, mode));
    out
}

/// Whether one of the names is `value` up to ASCII case.
pub open spec fn any_ci(names: Seq<Seq<char>>, value: Seq<char>) -> bool {
    exists|i: int| 0 <= i < names.len() && same_ci(#[trigger] names[i], value)
}

/// Whether `value` addresses `member`.
pub open spec fn member_matches(
    member: Seq<char>,
    value: Seq<char>,
    mode: Option<ModelMemberMode>,
) -> bool {
    (mode is None && same_ci(member, value)) || any_ci(member_names(member, mode), value)
}

/// Whether `value` addresses `member` under the mode.
pub fn model_member_matches(member: &str, value: &str, mode: Option<ModelMemberMode>) -> (r: bool)
    ensures
        r == member_matches(member@, value@, mode),
{
    if mode.is_none() && eq_ci(member, value) {
        return true;
    }
    let names = model_member_names(member, mode);
    let ghost views = crate::text::slices(names@);
    let mut i: usize = 0;
    while i < names.len()
        invariant
            i <= names.len(),
            views == crate::text::slices(names@),
            views == member_names(member@, mode),
            forall|k: int| 0 <= k < i ==> !same_ci(#[trigger] views[k], value@),
        decreases names.len() - i,
    {
        if eq_ci(names[i], value) {
            assert(same_ci(views[i as int], value@));
            return true;
        }
        i += 1;
    }
    false
}

/// The texts of value tokens without their quotes.
pub open spec fn bare_texts(tokens: Seq<SyntaxToken>) -> Seq<Seq<char>> {
    tokens.map_values(|t: SyntaxToken| unquoted(t.text@))
}

/// The texts of value tokens without their quotes.
pub fn bare_inputs(tokens: &Vec<SyntaxToken>) -> (r: Vec<&str>)
    ensures
        crate::text::slices(r@) == bare_texts(tokens@),
        r.len() == tokens.len(),
{
    let mut out: Vec<&str> = Vec::new();
    let mut i: usize = 0;
    while i < tokens.len()
        invariant
            i <= tokens.len(),
            out.len() == i,
            forall|k: int| 0 <= k < i ==> (#[trigger] out@[k])@ == unquoted(tokens@[k].text@),
        decreases tokens.len() - i,
    {
        out.push(unquote(tokens[i].text.as_str()));
        i += 1;
    }
    assert(crate::text::slices(out@) =~= bare_texts(tokens@));
    out
}

/// The model names among the tokens from `i` on of a structured value.
pub open spec fn typed_models(ty: ValueType, values: Seq<Seq<char>>, i: int) -> Seq<Seq<char>>
    decreases values.len() - i,
{
    if i < 0 || i >= values.len() {
        Seq::empty()
    } else {
        let here = match ty.input_type(values, i) {
            Some(spec) => if names_model(spec) {
                seq![values[i]]
            } else {
                Seq::empty()
            },
            None => Seq::empty(),
        };
        here + typed_models(ty, values, i + 1)
    }
}

/// The model names that a value of this type names.
pub open spec fn value_models(ty: ValueType, values: Seq<Seq<char>>) -> Seq<Seq<char>> {
    match ty {
        ValueType::W3dModelList => values,
        ValueType::TokenList { .. } => typed_models(ty, values, 0),
        ValueType::OneOf { .. } => typed_models(ty, values, 0),
        ValueType::Prefixed { .. } => typed_models(ty, values, 0),
        ValueType::W3dModel => if values.len() > 0 {
            seq![values[0]]
        } else {
            Seq::empty()
        },
        _ => Seq::empty(),
    }
}

/// The model names that a field names in its scope.
pub open spec fn field_models(
    scope: ScopeSchema<'_>,
    key: Option<SyntaxToken>,
    values: Seq<SyntaxToken>,
) -> Seq<Seq<char>> {
    match key {
        Some(k) => match scope.field_of(k.text@) {
            Some(f) => value_models(f.value_type, bare_texts(values)),
            None => Seq::empty(),
        },
        None => Seq::empty(),
    }
}

/// The model names in the subtree of `node`, from its element `k` on, in
/// source order.
pub open spec fn subtree_models(
    analyzer: &Analyzer,
    parse: &Parse,
    node: int,
    k: int,
) -> Seq<Seq<char>>
    decreases parse.nodes@.len() - node, parse.nodes@[node].elements@.len() - k,
{
    if k < 0 || k >= parse.nodes@[node].elements@.len() {
        Seq::empty()
    } else {
        let here = match parse.nodes@[node].elements@[k] {
            Element::Node(c) => if node < c < parse.nodes@.len() {
                match parse.nodes@[c as int].kind {
                    SyntaxKind::Field => field_models(
                        scope_of(analyzer, parse, node),
                        parse.nodes@[c as int].head,
                        parse.nodes@[c as int].values@,
                    ),
                    SyntaxKind::Root => Seq::empty(),
                    _ => subtree_models(analyzer, parse, c as int, 0),
                }
            } else {
                Seq::empty()
            },
            Element::Token(_) => Seq::empty(),
        };
        here + subtree_models(analyzer, parse, node, k + 1)
    }
}

/// Appends a copy of each text.
pub fn extend_texts(out: &mut Vec<String>, more: &Vec<&str>)
    ensures
        texts(final(out)@) == texts(old(out)@) + crate::text::slices(more@),
{
    let mut i: usize = 0;
    while i < more.len()
        invariant
            i <= more.len(),
            texts(out@) == texts(old(out)@) + crate::text::slices(more@).take(i as int),
        decreases more.len() - i,
    {
        let ghost before = texts(out@);
        out.push(more[i].to_owned());
        assert(texts(out@) =~= before.push(more@[i as int]@));
        assert(crate::text::slices(more@).take(i + 1) =~= crate::text::slices(more@).take(
            i as int,
        ).push(more@[i as int]@));
        i += 1;
    }
    assert(crate::text::slices(more@).take(i as int) =~= crate::text::slices(more@));
}

fn push_value_models(ty: &ValueType, values: &Vec<&str>, out: &mut Vec<String>)
    ensures
        texts(final(out)@) == texts(old(out)@) + value_models(*ty, crate::text::slices(values@)),
{
    let ghost views = crate::text::slices(values@);
    let ghost start = texts(out@);
    match ty {
        ValueType::W3dModelList => {
            extend_texts(out, values);
        },
        ValueType::TokenList { .. } | ValueType::OneOf { .. } | ValueType::Prefixed { .. } => {
            let mut i: usize = 0;
            while i < values.len()
                invariant
                    i <= values.len(),
                    views == crate::text::slices(values@),
                    texts(out@) + typed_models(*ty, views, i as int) == start + typed_models(
                        *ty,
                        views,
                        0,
                    ),
                decreases values.len() - i,
            {
                let ghost before = texts(out@);
                if let Some(spec) = ty.token_type_at_input(values.as_slice(), i) {
                    if is_model_asset_type(spec) {
                        out.push(values[i].to_owned());
                    }
                }
                assert(texts(out@) + typed_models(*ty, views, i + 1) =~= before + typed_models(
                    *ty,
                    views,
                    i as int,
                ));
                i += 1;
            }
        },
        ValueType::W3dModel => {
            if values.len() > 0 {
                out.push(values[0].to_owned());
            }
        },
        _ => {},
    }
}

/// Appends the model names in the subtree of `node`.
pub fn collect_models(analyzer: &Analyzer, parse: &Parse, node: usize, out: &mut Vec<String>)
    requires
        parse.wf(),
        node < parse.nodes.len(),
    ensures
        texts(final(out)@) == texts(old(out)@) + subtree_models(analyzer, parse, node as int, 0),
    decreases parse.nodes.len() - node,
{
    let scope = scope_schema(analyzer, parse, node);
    let ghost start = texts(out@);
    let mut k: usize = 0;
    while k < parse.nodes[node].elements.len()
        invariant
            parse.wf(),
            node < parse.nodes.len(),
            k <= parse.nodes@[node as int].elements.len(),
            scope == scope_of(analyzer, parse, node as int),
            texts(out@) + subtree_models(analyzer, parse, node as int, k as int) == start
                + subtree_models(analyzer, parse, node as int, 0),
        decreases parse.nodes@[node as int].elements.len() - k,
    {
        let ghost before = texts(out@);
        if let Element::Node(c) = &parse.nodes[node].elements[k] {
            let c: usize = *c;
            match parse.nodes[c].kind {
                SyntaxKind::Field => {
                    if let Some(key) = &parse.nodes[c].head {
                        if let Some(field) = scope.field(key.text.as_str()) {
                            let values = bare_inputs(&parse.nodes[c].values);
                            push_value_models(&field.value_type, &values, out);
                        }
                    }
                },
                SyntaxKind::Root => {},
                _ => {
                    collect_models(analyzer, parse, c, out);
                },
            }
        }
        assert(texts(out@) + subtree_models(analyzer, parse, node as int, k + 1) =~= before
            + subtree_models(analyzer, parse, node as int, k as int));
        k += 1;
    }
}

/// The models visible from a scope: those of its own subtree, or else of the
/// nearest enclosing scope that names any. The climb stops at the top-level
/// block.
pub open spec fn scope_models(analyzer: &Analyzer, parse: &Parse, node: int) -> Seq<Seq<char>>
    decreases node,
{
    let own = subtree_models(analyzer, parse, node, 0);
    if own.len() > 0 {
        own
    } else {
        match parse.nodes@[node].parent {
            Some(p) => if 0 <= node && p < node && parse.is_scope(p as int) {
                scope_models(analyzer, parse, p as int)
            } else {
                own
            },
            None => own,
        }
    }
}

/// Models referenced by W3D-model fields visible from `node`.
pub fn models_in_scope(analyzer: &Analyzer, parse: &Parse, node: usize) -> (r: Vec<String>)
    requires
        parse.wf(),
        node < parse.nodes.len(),
    ensures
        texts(r@) == scope_models(analyzer, parse, node as int),
    decreases node,
{
    let mut out: Vec<String> = Vec::new();
    collect_models(analyzer, parse, node, &mut out);
    assert(texts(out@) =~= subtree_models(analyzer, parse, node as int, 0));
    if out.len() > 0 {
        return out;
    }
    match parse.nodes[node].parent {
        Some(p) => if parse.opens_scope(p) {
            models_in_scope(analyzer, parse, p)
        } else {
            out
        },
        None => out,
    }
}

/// The name of the nearest `Object` at or around `node`.
pub open spec fn enclosing_object(parse: &Parse, node: int) -> Option<Seq<char>>
    decreases node,
{
    let n = parse.nodes@[node];
    let here = match (n.head, n.name) {
        (Some(kw), Some(name)) => if same_ci(kw.text@, "Object"@) {
            Some(name.text@)
        } else {
            None
        },
        _ => None,
    };
    if here is Some {
        here
    } else {
        match n.parent {
            Some(p) => if 0 <= node && p < node {
                enclosing_object(parse, p as int)
            } else {
                None
            },
            None => None,
        }
    }
}

fn object_around(parse: &Parse, node: usize) -> (r: Option<&str>)
    requires
        parse.wf(),
        node < parse.nodes.len(),
    ensures
        crate::schema::text_of(r) == enclosing_object(parse, node as int),
    decreases node,
{
    if let Some(kw) = &parse.nodes[node].head {
        if let Some(name) = &parse.nodes[node].name {
            if eq_ci(kw.text.as_str(), "Object") {
                return Some(name.text.as_str());
            }
        }
    }
    match parse.nodes[node].parent {
        Some(p) => object_around(parse, p),
        None => None,
    }
}

/// The first value of the first child of that key, from element `k` on.
pub open spec fn child_value(parse: &Parse, node: int, key: Seq<char>, k: int) -> Option<Seq<char>>
    decreases parse.nodes@[node].elements@.len() - k,
{
    if k < 0 || k >= parse.nodes@[node].elements@.len() {
        None
    } else {
        let rest = child_value(parse, node, key, k + 1);
        match parse.nodes@[node].elements@[k] {
            Element::Node(c) => match parse.nodes@[c as int].head {
                Some(head) => if same_ci(head.text@, key) && parse.nodes@[c as int].values@.len()
                    > 0 {
                    Some(unquoted(parse.nodes@[c as int].values@[0].text@))
                } else {
                    rest
                },
                None => rest,
            },
            Element::Token(_) => rest,
        }
    }
}

/// Reads [`child_value`].
pub fn value_of_child<'a>(parse: &'a Parse, node: usize, key: &str) -> (r: Option<&'a str>)
    requires
        parse.wf(),
        node < parse.nodes.len(),
    ensures
        crate::schema::text_of(r) == child_value(parse, node as int, key@, 0),
{
    let mut k: usize = 0;
    while k < parse.nodes[node].elements.len()
        invariant
            parse.wf(),
            node < parse.nodes.len(),
            k <= parse.nodes@[node as int].elements.len(),
            child_value(parse, node as int, key@, 0) == child_value(
                parse,
                node as int,
                key@,
                k as int,
            ),
        decreases parse.nodes@[node as int].elements.len() - k,
    {
        if let Element::Node(c) = &parse.nodes[node].elements[k] {
            let child = &parse.nodes[*c];
            if let Some(head) = &child.head {
                if eq_ci(head.text.as_str(), key) && child.values.len() > 0 {
                    return Some(unquote(child.values[0].text.as_str()));
                }
            }
        }
        k += 1;
    }
    None
}

/// The models of an object by the index.
pub open spec fn indexed_models(index: &WorkspaceIndex, object: Seq<char>) -> Seq<Seq<char>> {
    crate::index::walk(
        index.object_rows(),
        index.parent_rows(),
        seq![crate::text::lower(object)],
        Seq::empty(),
    )
}

/// The models that own a model-member field: those visible from the scope,
/// else those that the index has for the enclosing Object; or those of the
/// Object that a sibling field names.
pub open spec fn source_models(
    analyzer: &Analyzer,
    parse: &Parse,
    node: int,
    source: Option<ModelSource>,
    index: &WorkspaceIndex,
) -> Seq<Seq<char>> {
    match source {
        Some(ModelSource::ObjectReferenceField { field }) => match child_value(
            parse,
            node,
            field@,
            0,
        ) {
            Some(object) => indexed_models(index, object),
            None => Seq::empty(),
        },
        _ => {
            let local = scope_models(analyzer, parse, node);
            if local.len() > 0 {
                local
            } else {
                match enclosing_object(parse, node) {
                    Some(object) => indexed_models(index, object),
                    None => Seq::empty(),
                }
            }
        },
    }
}

/// The models that own a model-member field of the scope `node`.
pub fn models_for_source(
    analyzer: &Analyzer,
    parse: &Parse,
    node: usize,
    source: Option<&ModelSource>,
    index: &WorkspaceIndex,
) -> (r: Vec<String>)
    requires
        parse.wf(),
        node < parse.nodes.len(),
    ensures
        texts(r@) == source_models(
            analyzer,
            parse,
            node as int,
            (match source {
                Some(s) => Some(*s),
                None => None,
            }),
            index,
        ),
{
    let none: Vec<String> = Vec::new();
    assert(texts(none@) =~= Seq::<Seq<char>>::empty());
    match source {
        Some(ModelSource::ObjectReferenceField { field }) => {
            match value_of_child(parse, node, field.as_str()) {
                Some(object) => index.models_for_object(object),
                None => none,
            }
        },
        _ => {
            let local = models_in_scope(analyzer, parse, node);
            assert(texts(local@).len() == local@.len());
            if local.len() > 0 {
                return local;
            }
            match object_around(parse, node) {
                Some(object) => index.models_for_object(object),
                None => none,
            }
        },
    }
}

} // verus!
