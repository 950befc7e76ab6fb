//! Semantic tokens: each token classified by the schema, so that enum members,
//! references and numbers are coloured by meaning rather than by shape.

use vstd::prelude::*;

use crate::analyzer::Analyzer;
use crate::model::{bare_inputs, bare_texts, scope_of, scope_schema, ScopeSchema};
use crate::schema::{first_of, Field, ModuleSlot, ValueType};
use crate::syntax::{Element, Parse, Span, SyntaxKind, SyntaxNode, SyntaxToken, TokenKind};
use crate::text::{eq_ci, same, same_ci, slices};

verus! {

/// The class of a token.
#[derive(Debug, Clone, Copy, PartialEq, Eq, Structural)]
pub enum SemKind {
    /// Block keyword (`Object`, `Weapon`, `End`) and module-slot keywords.
    Keyword,
    /// A block or definition name.
    BlockName,
    /// A field key (left of `=`).
    Field,
    /// A module type name.
    Module,
    /// An enum or bitflag member, or a boolean literal.
    EnumMember,
    /// `=` and bitflag operators.
    Operator,
    /// A numeric literal.
    Number,
    /// A quoted or asset string.
    StringLit,
    /// A reference to another named definition.
    Reference,
    /// A comment.
    Comment,
}

/// A classified token over a byte span.
#[derive(Debug, Clone, Copy, PartialEq, Eq, Structural)]
pub struct SemToken {
    pub span: Span,
    pub kind: SemKind,
}

/// A classification on its way to the result. A later one at the same start
/// replaces an earlier one, unless it is weak.
#[derive(Debug, Clone, Copy, PartialEq, Eq, Structural)]
pub struct Mark {
    pub token: SemToken,
    pub weak: bool,
}

pub open spec fn strong(span: Span, kind: SemKind) -> Mark {
    Mark { token: SemToken { span, kind }, weak: false }
}

fn set(out: &mut Vec<Mark>, tok: &SyntaxToken, kind: SemKind)
    ensures
        final(out)@ == old(out)@.push(strong(tok.span, kind)),
{
    out.push(Mark { token: SemToken { span: tok.span, kind }, weak: false });
}

/// The mark of an optional token.
pub open spec fn marked(tok: Option<SyntaxToken>, kind: SemKind) -> Seq<Mark> {
    match tok {
        Some(t) => seq![strong(t.span, kind)],
        None => Seq::empty(),
    }
}

/// The class of a value token of that shape.
pub open spec fn kind_of_value(quoted: bool, ty: Option<ValueType>) -> SemKind {
    if quoted {
        SemKind::StringLit
    } else {
        match ty {
            None => SemKind::StringLit,
            Some(t) => kind_of_shape(t),
        }
    }
}

/// The class of a bare value token of that shape.
pub open spec fn kind_of_shape(ty: ValueType) -> SemKind
    decreases ty,
{
    match ty {
        ValueType::Bool => SemKind::EnumMember,
        ValueType::Enum { .. } => SemKind::EnumMember,
        ValueType::BitFlags { .. } => SemKind::EnumMember,
        ValueType::OneOf { variants } => if variants@.len() > 0 {
            kind_of_shape(variants@[0])
        } else {
            SemKind::StringLit
        },
        ValueType::Prefixed { value_type, .. } => kind_of_shape(*value_type),
        ValueType::Int => SemKind::Number,
        ValueType::UInt => SemKind::Number,
        ValueType::Real => SemKind::Number,
        ValueType::PositiveReal => SemKind::Number,
        ValueType::AngleReal => SemKind::Number,
        ValueType::Percent => SemKind::Number,
        ValueType::Duration => SemKind::Number,
        ValueType::Velocity => SemKind::Number,
        ValueType::Acceleration => SemKind::Number,
        ValueType::Color => SemKind::Number,
        ValueType::RandomVariable { .. } => SemKind::Number,
        ValueType::RandomKeyframe => SemKind::Number,
        ValueType::ColorKeyframe => SemKind::Number,
        ValueType::Coord2D => SemKind::Number,
        ValueType::Coord3D => SemKind::Number,
        ValueType::Reference { .. } => SemKind::Reference,
        ValueType::ReferenceList { .. } => SemKind::Reference,
        ValueType::W3dModel => SemKind::Reference,
        ValueType::W3dModelList => SemKind::Reference,
        ValueType::W3dModelMember => SemKind::Reference,
        ValueType::AudioFile { .. } => SemKind::Reference,
        ValueType::AudioStemList => SemKind::Reference,
        ValueType::TextureFile => SemKind::Reference,
        ValueType::TextureStem => SemKind::Reference,
        ValueType::TextureSequenceStem => SemKind::Reference,
        _ => SemKind::StringLit,
    }
}

fn shape_kind(ty: &ValueType) -> (r: SemKind)
    ensures
        r == kind_of_shape(*ty),
    decreases ty,
{
    match ty {
        ValueType::Bool => SemKind::EnumMember,
        ValueType::Enum { .. } => SemKind::EnumMember,
        ValueType::BitFlags { .. } => SemKind::EnumMember,
        ValueType::OneOf { variants } => {
            if variants.len() > 0 {
                shape_kind(&variants[0])
            } else {
                SemKind::StringLit
            }
        },
        ValueType::Prefixed { value_type, .. } => shape_kind(&**value_type),
        ValueType::Int => SemKind::Number,
        ValueType::UInt => SemKind::Number,
        ValueType::Real => SemKind::Number,
        ValueType::PositiveReal => SemKind::Number,
        ValueType::AngleReal => SemKind::Number,
        ValueType::Percent => SemKind::Number,
        ValueType::Duration => SemKind::Number,
        ValueType::Velocity => SemKind::Number,
        ValueType::Acceleration => SemKind::Number,
        ValueType::Color => SemKind::Number,
        ValueType::RandomVariable { .. } => SemKind::Number,
        ValueType::RandomKeyframe => SemKind::Number,
        ValueType::ColorKeyframe => SemKind::Number,
        ValueType::Coord2D => SemKind::Number,
        ValueType::Coord3D => SemKind::Number,
        ValueType::Reference { .. } => SemKind::Reference,
        ValueType::ReferenceList { .. } => SemKind::Reference,
        ValueType::W3dModel => SemKind::Reference,
        ValueType::W3dModelList => SemKind::Reference,
        ValueType::W3dModelMember => SemKind::Reference,
        ValueType::AudioFile { .. } => SemKind::Reference,
        ValueType::AudioStemList => SemKind::Reference,
        ValueType::TextureFile => SemKind::Reference,
        ValueType::TextureStem => SemKind::Reference,
        ValueType::TextureSequenceStem => SemKind::Reference,
        _ => SemKind::StringLit,
    }
}

/// Classifies a field value token by the field's value type.
pub fn value_token_kind(quoted: bool, ty: Option<&ValueType>) -> (r: SemKind)
    ensures
        r == kind_of_value(
            quoted,
            match ty {
                Some(t) => Some(*t),
                None => None,
            },
        ),
{
    if quoted {
        return SemKind::StringLit;
    }
    match ty {
        Some(t) => shape_kind(t),
        None => SemKind::StringLit,
    }
}

/// The class of the `i`th value token of a field.
pub open spec fn value_kind(
    removes: bool,
    field: Option<Field>,
    input: Seq<Seq<char>>,
    quoted: bool,
    i: int,
) -> SemKind {
    let animates = match field {
        Some(f) => f.parse_fn@ == "parseAnimation"@,
        None => false,
    };
    let active = match field {
        Some(f) => f.value_type.active(first_of(input)),
        None => None,
    };
    if removes {
        SemKind::Reference
    } else if animates && i < 3 {
        if i == 0 {
            SemKind::Reference
        } else {
            SemKind::Number
        }
    } else {
        match active {
            Some(ty) => if ty is RandomVariable {
                if i == 2 {
                    SemKind::EnumMember
                } else {
                    SemKind::Number
                }
            } else if ty is Coord2D || ty is Coord3D {
                SemKind::Number
            } else {
                kind_of_value(quoted, ty.input_type(input, i))
            },
            None => kind_of_value(quoted, None),
        }
    }
}

/// Whether a key removes a module.
pub open spec fn removes_module(key: Option<SyntaxToken>) -> bool {
    match key {
        Some(k) => same_ci(k.text@, "RemoveModule"@),
        None => false,
    }
}

/// The schema of a field line in a scope.
pub open spec fn line_schema(scope: ScopeSchema<'_>, key: Option<SyntaxToken>) -> Option<Field> {
    match key {
        Some(k) => scope.field_of(k.text@),
        None => None,
    }
}

/// The marks of the value tokens from `i` on.
pub open spec fn value_marks(
    removes: bool,
    field: Option<Field>,
    values: Seq<SyntaxToken>,
    i: int,
) -> Seq<Mark>
    decreases values.len() - i,
{
    if i < 0 || i >= values.len() {
        Seq::empty()
    } else {
        seq![
            strong(
                values[i].span,
                value_kind(removes, field, bare_texts(values), values[i].kind is Quoted, i),
            ),
        ] + value_marks(removes, field, values, i + 1)
    }
}

/// The marks of a field line.
pub open spec fn field_marks(node: SyntaxNode, scope: ScopeSchema<'_>) -> Seq<Mark> {
    let removes = removes_module(node.head);
    marked(
        node.head,
        if removes {
            SemKind::Keyword
        } else {
            SemKind::Field
        },
    ) + value_marks(removes, line_schema(scope, node.head), node.values@, 0)
}

fn classify_value(removes: bool, field: Option<&Field>, input: &Vec<&str>, quoted: bool, i: usize)
    -> (r: SemKind)
    ensures
        r == value_kind(
            removes,
            match field {
                Some(f) => Some(*f),
                None => None,
            },
            slices(input@),
            quoted,
            i as int,
        ),
{
    if removes {
        return SemKind::Reference;
    }
    match field {
        Some(f) => {
            if same(f.parse_fn.as_str(), "parseAnimation") && i < 3 {
                return if i == 0 {
                    SemKind::Reference
                } else {
                    SemKind::Number
                };
            }
            let first: Option<&str> = if input.len() > 0 {
                assert(slices(input@)[0] == input@[0]@);
                Some(input[0])
            } else {
                None
            };
            match f.value_type.variant_for_first_token(first) {
                Some(ty) => match ty {
                    ValueType::RandomVariable { .. } => if i == 2 {
                        SemKind::EnumMember
                    } else {
                        SemKind::Number
                    },
                    ValueType::Coord2D => SemKind::Number,
                    ValueType::Coord3D => SemKind::Number,
                    _ => value_token_kind(quoted, ty.token_type_at_input(input.as_slice(), i)),
                },
                None => value_token_kind(quoted, None),
            }
        },
        None => value_token_kind(quoted, None),
    }
}

fn mark_field(out: &mut Vec<Mark>, node: &SyntaxNode, scope: &ScopeSchema<'_>)
    ensures
        final(out)@ == old(out)@ + field_marks(*node, *scope),
{
    let ghost start = out@;
    let removes = match &node.head {
        Some(key) => eq_ci(key.text.as_str(), "RemoveModule"),
        None => false,
    };
    let field = match &node.head {
        Some(key) => scope.field(key.text.as_str()),
        None => None,
    };
    if let Some(key) = &node.head {
        let kind = if removes {
            SemKind::Keyword
        } else {
            SemKind::Field
        };
        set(out, key, kind);
    }
    let ghost schema = line_schema(*scope, node.head);
    let ghost front = marked(
        node.head,
        if removes {
            SemKind::Keyword
        } else {
            SemKind::Field
        },
    );
    assert(out@ =~= start + front);
    let input = bare_inputs(&node.values);
    let ghost whole = out@ + value_marks(removes, schema, node.values@, 0);
    let mut i: usize = 0;
    while i < node.values.len()
        invariant
            i <= node.values.len(),
            slices(input@) == bare_texts(node.values@),
            schema == match field {
                Some(f) => Some(*f),
                None => None,
            },
            out@ + value_marks(removes, schema, node.values@, i as int) == whole,
        decreases node.values.len() - i,
    {
        let ghost before = out@;
        let quoted = node.values[i].kind == TokenKind::Quoted;
        let kind = classify_value(removes, field, &input, quoted, i);
        set(out, &node.values[i], kind);
        assert(out@ + value_marks(removes, schema, node.values@, i + 1) =~= before + value_marks(
            removes,
            schema,
            node.values@,
            i as int,
        ));
        i += 1;
    }
    assert(out@ + value_marks(removes, schema, node.values@, i as int) =~= out@);
    assert(out@ =~= start + field_marks(*node, *scope));
}

/// The marks of a block header.
pub open spec fn block_marks(node: SyntaxNode) -> Seq<Mark> {
    marked(node.head, SemKind::Keyword) + marked(node.name, SemKind::BlockName)
}

fn block_header(out: &mut Vec<Mark>, node: &SyntaxNode)
    ensures
        final(out)@ == old(out)@ + block_marks(*node),
{
    let ghost start = out@;
    if let Some(kw) = &node.head {
        set(out, kw, SemKind::Keyword);
    }
    if let Some(name) = &node.name {
        set(out, name, SemKind::BlockName);
    }
    assert(out@ =~= start + block_marks(*node));
}

/// The marks of a module header. The name of a sub-block header is an
/// argument, and it has no tag.
pub open spec fn module_marks(node: SyntaxNode, genuine: bool) -> Seq<Mark> {
    marked(node.head, SemKind::Keyword) + marked(
        node.name,
        if genuine {
            SemKind::Module
        } else {
            SemKind::EnumMember
        },
    ) + if genuine {
        marked(node.tag, SemKind::Reference)
    } else {
        Seq::empty()
    }
}

fn module_header(out: &mut Vec<Mark>, node: &SyntaxNode, genuine: bool)
    ensures
        final(out)@ == old(out)@ + module_marks(*node, genuine),
{
    let ghost start = out@;
    if let Some(slot) = &node.head {
        set(out, slot, SemKind::Keyword);
    }
    if let Some(name) = &node.name {
        let kind = if genuine {
            SemKind::Module
        } else {
            SemKind::EnumMember
        };
        set(out, name, kind);
    }
    if genuine {
        if let Some(tag) = &node.tag {
            set(out, tag, SemKind::Reference);
        }
    }
    assert(out@ =~= start + module_marks(*node, genuine));
}

/// Whether a module stands in a slot of its scope.
pub open spec fn in_slot(slots: Seq<ModuleSlot>, head: Option<SyntaxToken>) -> bool {
    match head {
        Some(h) => exists|i: int|
            0 <= i < slots.len() && (#[trigger] slots[i]).keyword@ == h.text@,
        None => false,
    }
}

fn stands_in_slot(slots: &[ModuleSlot], node: &SyntaxNode) -> (r: bool)
    ensures
        r == in_slot(slots@, node.head),
{
    if let Some(head) = &node.head {
        let mut i: usize = 0;
        while i < slots.len()
            invariant
                i <= slots.len(),
                node.head == Some(*head),
                forall|k: int| 0 <= k < i ==> (#[trigger] slots@[k]).keyword@ != head.text@,
            decreases slots.len() - i,
        {
            if same(slots[i].keyword.as_str(), head.text.as_str()) {
                return true;
            }
            i += 1;
        }
    }
    false
}

/// The marks of the children of a scope, from element `k` on.
pub open spec fn walk_marks(analyzer: &Analyzer, parse: &Parse, node: int, k: int) -> Seq<Mark>
    decreases parse.nodes@.len() - node, parse.nodes@[node].elements@.len() - k,
{
    let elements = parse.nodes@[node].elements@;
    if k < 0 || k >= elements.len() {
        Seq::empty()
    } else {
        let scope = scope_of(analyzer, parse, node);
        let here = match elements[k] {
            Element::Node(c) => if node < c < parse.nodes@.len() {
                let child = parse.nodes@[c as int];
                match child.kind {
                    SyntaxKind::Field => field_marks(child, scope),
                    SyntaxKind::Module => module_marks(
                        child,
                        in_slot(scope.slot_list(), child.head),
                    ) + walk_marks(analyzer, parse, c as int, 0),
                    SyntaxKind::Block => block_marks(child) + walk_marks(
                        analyzer,
                        parse,
                        c as int,
                        0,
                    ),
                    SyntaxKind::Root => Seq::empty(),
                }
            } else {
                Seq::empty()
            },
            Element::Token(_) => Seq::empty(),
        };
        here + walk_marks(analyzer, parse, node, k + 1)
    }
}

fn walk(analyzer: &Analyzer, parse: &Parse, node: usize, out: &mut Vec<Mark>)
    requires
        parse.wf(),
        node < parse.nodes.len(),
    ensures
        final(out)@ == old(out)@ + walk_marks(analyzer, parse, node as int, 0),
    decreases parse.nodes.len() - node,
{
    let scope = scope_schema(analyzer, parse, node);
    let ghost whole = out@ + walk_marks(analyzer, parse, node as int, 0);
    let elements = &parse.nodes[node].elements;
    let mut k: usize = 0;
    while k < elements.len()
        invariant
            parse.wf(),
            node < parse.nodes.len(),
            elements@ == parse.nodes@[node as int].elements@,
            scope == scope_of(analyzer, parse, node as int),
            k <= elements.len(),
            out@ + walk_marks(analyzer, parse, node as int, k as int) == whole,
        decreases elements.len() - k,
    {
        let ghost before = out@;
        let ghost mut here = Seq::<Mark>::empty();
        assert(parse.nodes@[node as int].elements@[k as int] == elements@[k as int]);
        if let Element::Node(c) = &elements[k] {
            let c: usize = *c;
            match parse.nodes[c].kind {
                SyntaxKind::Field => {
                    mark_field(out, &parse.nodes[c], &scope);
                    proof {
                        here = field_marks(parse.nodes@[c as int], scope);
                    }
                },
                SyntaxKind::Module => {
                    let genuine = stands_in_slot(scope.module_slots(), &parse.nodes[c]);
                    module_header(out, &parse.nodes[c], genuine);
                    walk(analyzer, parse, c, out);
                    proof {
                        here = module_marks(parse.nodes@[c as int], genuine) + walk_marks(
                            analyzer,
                            parse,
                            c as int,
                            0,
                        );
                    }
                },
                SyntaxKind::Block => {
                    block_header(out, &parse.nodes[c]);
                    walk(analyzer, parse, c, out);
                    proof {
                        here = block_marks(parse.nodes@[c as int]) + walk_marks(
                            analyzer,
                            parse,
                            c as int,
                            0,
                        );
                    }
                },
                SyntaxKind::Root => {},
            }
        }
        assert(out@ =~= before + here);
        assert(walk_marks(analyzer, parse, node as int, k as int) == here + walk_marks(
            analyzer,
            parse,
            node as int,
            k + 1,
        ));
        assert(out@ + walk_marks(analyzer, parse, node as int, k + 1) =~= before + walk_marks(
            analyzer,
            parse,
            node as int,
            k as int,
        ));
        k += 1;
    }
    assert(out@ + walk_marks(analyzer, parse, node as int, k as int) =~= out@);
}

/// Whether a range meets the span.
pub open spec fn meets(range: Span, span: Span) -> bool {
    range.start <= span.end && range.end >= span.start
}

fn intersects(range: Span, span: Span) -> (r: bool)
    ensures
        r == meets(range, span),
{
    range.start <= span.end && range.end >= span.start
}

/// The schema-aware marks of a top-level element.
pub open spec fn top_marks(analyzer: &Analyzer, parse: &Parse, element: Element) -> Seq<Mark> {
    match element {
        Element::Node(c) => {
            let child = parse.nodes@[c as int];
            match child.kind {
                SyntaxKind::Block => block_marks(child) + walk_marks(
                    analyzer,
                    parse,
                    c as int,
                    0,
                ),
                SyntaxKind::Field => field_marks(child, ScopeSchema::Unknown),
                _ => Seq::empty(),
            }
        },
        Element::Token(_) => Seq::empty(),
    }
}

/// Whether a top-level element meets the span.
pub open spec fn element_meets(parse: &Parse, element: Element, span: Span) -> bool {
    meets(crate::position::element_span(parse, element), span)
}

/// The schema-aware marks of the top-level elements from `k` on that meet the
/// span.
pub open spec fn structured_marks(analyzer: &Analyzer, parse: &Parse, span: Span, k: int) -> Seq<
    Mark,
>
    decreases parse.nodes@[0].elements@.len() - k,
{
    let elements = parse.nodes@[0].elements@;
    if k < 0 || k >= elements.len() {
        Seq::empty()
    } else {
        let rest = structured_marks(analyzer, parse, span, k + 1);
        if element_meets(parse, elements[k], span) {
            top_marks(analyzer, parse, elements[k]) + rest
        } else {
            rest
        }
    }
}

/// The lexical mark of a token: comments, `=`, the closing word, and strings
/// that nothing else classified.
pub open spec fn lexical_mark(tok: SyntaxToken) -> Seq<Mark> {
    match tok.kind {
        TokenKind::Comment => seq![strong(tok.span, SemKind::Comment)],
        TokenKind::Equals => seq![strong(tok.span, SemKind::Operator)],
        TokenKind::Word => if same_ci(tok.text@, "End"@) {
            seq![strong(tok.span, SemKind::Keyword)]
        } else {
            Seq::empty()
        },
        TokenKind::Quoted => seq![
            Mark { token: SemToken { span: tok.span, kind: SemKind::StringLit }, weak: true },
        ],
        _ => Seq::empty(),
    }
}

fn mark_lexical(out: &mut Vec<Mark>, tok: &SyntaxToken)
    ensures
        final(out)@ == old(out)@ + lexical_mark(*tok),
{
    let ghost start = out@;
    match tok.kind {
        TokenKind::Comment => {
            set(out, tok, SemKind::Comment);
        },
        TokenKind::Equals => {
            set(out, tok, SemKind::Operator);
        },
        TokenKind::Word => {
            if eq_ci(tok.text.as_str(), "End") {
                set(out, tok, SemKind::Keyword);
            }
        },
        TokenKind::Quoted => {
            out.push(
                Mark { token: SemToken { span: tok.span, kind: SemKind::StringLit }, weak: true },
            );
        },
        _ => {},
    }
    assert(out@ =~= start + lexical_mark(*tok));
}

/// The lexical marks of the tokens in a subtree, from element `k` on.
pub open spec fn lexical_under(parse: &Parse, node: int, k: int) -> Seq<Mark>
    decreases parse.nodes@.len() - node, parse.nodes@[node].elements@.len() - k,
{
    let elements = parse.nodes@[node].elements@;
    if k < 0 || k >= elements.len() {
        Seq::empty()
    } else {
        let here = match elements[k] {
            Element::Node(c) => if node < c < parse.nodes@.len() {
                lexical_under(parse, c as int, 0)
            } else {
                Seq::empty()
            },
            Element::Token(t) => lexical_mark(t),
        };
        here + lexical_under(parse, node, k + 1)
    }
}

fn mark_under(parse: &Parse, node: usize, out: &mut Vec<Mark>)
    requires
        parse.wf(),
        node < parse.nodes.len(),
    ensures
        final(out)@ == old(out)@ + lexical_under(parse, node as int, 0),
    decreases parse.nodes.len() - node,
{
    let ghost whole = out@ + lexical_under(parse, node as int, 0);
    let elements = &parse.nodes[node].elements;
    let mut k: usize = 0;
    while k < elements.len()
        invariant
            parse.wf(),
            node < parse.nodes.len(),
            elements@ == parse.nodes@[node as int].elements@,
            k <= elements.len(),
            out@ + lexical_under(parse, node as int, k as int) == whole,
        decreases elements.len() - k,
    {
        let ghost before = out@;
        assert(parse.nodes@[node as int].elements@[k as int] == elements@[k as int]);
        match &elements[k] {
            Element::Node(c) => {
                mark_under(parse, *c, out);
            },
            Element::Token(t) => {
                mark_lexical(out, t);
            },
        }
        assert(out@ + lexical_under(parse, node as int, k + 1) =~= before + lexical_under(
            parse,
            node as int,
            k as int,
        ));
        k += 1;
    }
    assert(out@ + lexical_under(parse, node as int, k as int) =~= out@);
}

/// The lexical marks of a top-level element.
pub open spec fn top_lexical(parse: &Parse, element: Element) -> Seq<Mark> {
    match element {
        Element::Node(c) => lexical_under(parse, c as int, 0),
        Element::Token(t) => lexical_mark(t),
    }
}

/// The lexical marks of the top-level elements from `k` on that meet the span.
pub open spec fn lexical_marks(parse: &Parse, span: Span, k: int) -> Seq<Mark>
    decreases parse.nodes@[0].elements@.len() - k,
{
    let elements = parse.nodes@[0].elements@;
    if k < 0 || k >= elements.len() {
        Seq::empty()
    } else {
        let rest = lexical_marks(parse, span, k + 1);
        if element_meets(parse, elements[k], span) {
            top_lexical(parse, elements[k]) + rest
        } else {
            rest
        }
    }
}

/// All marks of the top-level elements that meet the span.
pub open spec fn marks_in(analyzer: &Analyzer, parse: &Parse, span: Span) -> Seq<Mark> {
    structured_marks(analyzer, parse, span, 0) + lexical_marks(parse, span, 0)
}

/// What the marks leave at a start offset, over what was there.
pub open spec fn left_at(marks: Seq<Mark>, at: u32, before: Option<SemToken>) -> Option<SemToken>
    decreases marks.len(),
{
    if marks.len() == 0 {
        before
    } else {
        let earlier = left_at(marks.drop_last(), at, before);
        let last = marks.last();
        if last.token.span.start != at || (last.weak && earlier is Some) {
            earlier
        } else {
            Some(last.token)
        }
    }
}

/// Sorted by start, with one token per start.
pub open spec fn ascending(tokens: Seq<SemToken>) -> bool {
    forall|i: int, j: int|
        #![trigger tokens[i], tokens[j]]
        0 <= i < j < tokens.len() ==> tokens[i].span.start < tokens[j].span.start
}

/// The token of a list at a start offset.
pub open spec fn token_at(tokens: Seq<SemToken>, at: u32) -> Option<SemToken>
    decreases tokens.len(),
{
    if tokens.len() == 0 {
        None
    } else if tokens.last().span.start == at {
        Some(tokens.last())
    } else {
        token_at(tokens.drop_last(), at)
    }
}

/// A list holds exactly what the marks leave.
pub open spec fn settles(tokens: Seq<SemToken>, marks: Seq<Mark>) -> bool {
    &&& ascending(tokens)
    &&& forall|at: u32| #[trigger] token_at(tokens, at) == left_at(marks, at, None)
}

proof fn lemma_token_at(tokens: Seq<SemToken>, i: int)
    requires
        ascending(tokens),
        0 <= i < tokens.len(),
    ensures
        token_at(tokens, tokens[i].span.start) == Some(tokens[i]),
    decreases tokens.len(),
{
    if i < tokens.len() - 1 {
        assert(tokens[i].span.start < tokens[tokens.len() - 1].span.start);
        lemma_token_at(tokens.drop_last(), i);
    }
}

proof fn lemma_no_token_at(tokens: Seq<SemToken>, at: u32)
    requires
        forall|i: int| 0 <= i < tokens.len() ==> (#[trigger] tokens[i]).span.start != at,
    ensures
        token_at(tokens, at) is None,
    decreases tokens.len(),
{
    if tokens.len() > 0 {
        assert(tokens[tokens.len() - 1].span.start != at);
        lemma_no_token_at(tokens.drop_last(), at);
    }
}

proof fn lemma_token_is_listed(tokens: Seq<SemToken>, at: u32)
    ensures
        token_at(tokens, at) matches Some(t) ==> tokens.contains(t) && t.span.start == at,
    decreases tokens.len(),
{
    if tokens.len() > 0 {
        if tokens.last().span.start == at {
            assert(tokens[tokens.len() - 1] == tokens.last());
        } else {
            lemma_token_is_listed(tokens.drop_last(), at);
            if let Some(t) = token_at(tokens.drop_last(), at) {
                let i = choose|i: int|
                    0 <= i < tokens.drop_last().len() && tokens.drop_last()[i] == t;
                assert(tokens[i] == t);
            }
        }
    }
}

/// The position of the first token at or after a start offset.
fn position(tokens: &Vec<SemToken>, at: u32) -> (r: usize)
    requires
        ascending(tokens@),
    ensures
        r <= tokens.len(),
        forall|i: int| 0 <= i < r ==> (#[trigger] tokens@[i]).span.start < at,
        forall|i: int| r <= i < tokens.len() ==> (#[trigger] tokens@[i]).span.start >= at,
{
    let mut low: usize = 0;
    let mut high: usize = tokens.len();
    while low < high
        invariant
            low <= high <= tokens.len(),
            ascending(tokens@),
            forall|i: int| 0 <= i < low ==> (#[trigger] tokens@[i]).span.start < at,
            forall|i: int| high <= i < tokens.len() ==> (#[trigger] tokens@[i]).span.start >= at,
        decreases high - low,
    {
        let middle: usize = low + (high - low) / 2;
        if tokens[middle].span.start < at {
            low = middle + 1;
        } else {
            high = middle;
        }
    }
    low
}

proof fn lemma_token_at_same(a: Seq<SemToken>, b: Seq<SemToken>, at: u32)
    requires
        ascending(a),
        ascending(b),
        forall|i: int| 0 <= i < a.len() && (#[trigger] a[i]).span.start == at ==> b.contains(a[i]),
        forall|i: int| 0 <= i < b.len() && (#[trigger] b[i]).span.start == at ==> a.contains(b[i]),
    ensures
        token_at(a, at) == token_at(b, at),
{
    if exists|i: int| 0 <= i < a.len() && (#[trigger] a[i]).span.start == at {
        let i = choose|i: int| 0 <= i < a.len() && (#[trigger] a[i]).span.start == at;
        lemma_token_at(a, i);
        assert(b.contains(a[i]));
        let j = choose|j: int| 0 <= j < b.len() && b[j] == a[i];
        lemma_token_at(b, j);
    } else {
        lemma_no_token_at(a, at);
        assert forall|i: int| 0 <= i < b.len() implies (#[trigger] b[i]).span.start != at by {
            if b[i].span.start == at {
                assert(a.contains(b[i]));
            }
        }
        lemma_no_token_at(b, at);
    }
}

fn settle_one(tokens: &mut Vec<SemToken>, mark: Mark)
    requires
        ascending(old(tokens)@),
    ensures
        ascending(final(tokens)@),
        forall|at: u32|
            #[trigger] token_at(final(tokens)@, at) == if mark.token.span.start != at || (mark.weak
                && token_at(old(tokens)@, at) is Some) {
                token_at(old(tokens)@, at)
            } else {
                Some(mark.token)
            },
{
    let ghost t0 = tokens@;
    let start: u32 = mark.token.span.start;
    let at: usize = position(tokens, start);
    if at < tokens.len() && tokens[at].span.start == start {
        proof {
            lemma_token_at(t0, at as int);
        }
        if !mark.weak {
            tokens.set(at, mark.token);
            proof {
                assert(tokens@ =~= t0.update(at as int, mark.token));
                lemma_token_at(tokens@, at as int);
            }
        }
    } else {
        tokens.insert(at, mark.token);
        proof {
            assert(tokens@ =~= t0.insert(at as int, mark.token));
            lemma_no_token_at(t0, start);
            lemma_token_at(tokens@, at as int);
        }
    }
    proof {
        assert forall|k: u32| k != start implies token_at(tokens@, k) == token_at(t0, k) by {
            assert forall|i: int| 0 <= i < t0.len() && (#[trigger] t0[i]).span.start
                == k implies tokens@.contains(t0[i]) by {
                if tokens@.len() == t0.len() {
                    assert(tokens@[i] == t0[i]);
                } else if i < at {
                    assert(tokens@[i] == t0[i]);
                } else {
                    assert(tokens@[i + 1] == t0[i]);
                }
            }
            assert forall|i: int| 0 <= i < tokens@.len() && (#[trigger] tokens@[i]).span.start
                == k implies t0.contains(tokens@[i]) by {
                if tokens@.len() == t0.len() {
                    assert(tokens@[i] == t0[i]);
                } else if i < at {
                    assert(tokens@[i] == t0[i]);
                } else if i > at {
                    assert(tokens@[i] == t0[i - 1]);
                }
            }
            lemma_token_at_same(tokens@, t0, k);
        }
    }
}

/// Brings marks into their final order.
pub fn settle(marks: &Vec<Mark>) -> (r: Vec<SemToken>)
    ensures
        settles(r@, marks@),
{
    let mut out: Vec<SemToken> = Vec::new();
    let mut k: usize = 0;
    while k < marks.len()
        invariant
            k <= marks.len(),
            settles(out@, marks@.take(k as int)),
        decreases marks.len() - k,
    {
        let ghost before = out@;
        settle_one(&mut out, marks[k]);
        proof {
            let next = marks@.take(k + 1);
            assert(next.drop_last() =~= marks@.take(k as int));
            assert forall|at: u32| #[trigger] token_at(out@, at) == left_at(next, at, None) by {
                assert(token_at(before, at) == left_at(next.drop_last(), at, None));
            }
        }
        k += 1;
    }
    assert(marks@.take(k as int) =~= marks@);
    out
}

fn collect_structured(analyzer: &Analyzer, parse: &Parse, span: Span, out: &mut Vec<Mark>)
    requires
        parse.wf(),
    ensures
        final(out)@ == old(out)@ + structured_marks(analyzer, parse, span, 0),
{
    let ghost whole = out@ + structured_marks(analyzer, parse, span, 0);
    let elements = &parse.nodes[0].elements;
    let mut k: usize = 0;
    while k < elements.len()
        invariant
            parse.wf(),
            elements@ == parse.nodes@[0].elements@,
            k <= elements.len(),
            out@ + structured_marks(analyzer, parse, span, k as int) == whole,
        decreases elements.len() - k,
    {
        let ghost before = out@;
        assert(parse.nodes@[0].elements@[k as int] == elements@[k as int]);
        if let Element::Node(c) = &elements[k] {
            let c: usize = *c;
            if intersects(parse.nodes[c].span, span) {
                match parse.nodes[c].kind {
                    SyntaxKind::Block => {
                        block_header(out, &parse.nodes[c]);
                        walk(analyzer, parse, c, out);
                    },
                    SyntaxKind::Field => {
                        mark_field(out, &parse.nodes[c], &ScopeSchema::Unknown);
                    },
                    _ => {},
                }
            }
        }
        assert(out@ + structured_marks(analyzer, parse, span, k + 1) =~= before
            + structured_marks(analyzer, parse, span, k as int));
        k += 1;
    }
    assert(out@ + structured_marks(analyzer, parse, span, k as int) =~= out@);
}

fn collect_lexical(parse: &Parse, span: Span, out: &mut Vec<Mark>)
    requires
        parse.wf(),
    ensures
        final(out)@ == old(out)@ + lexical_marks(parse, span, 0),
{
    let ghost whole = out@ + lexical_marks(parse, span, 0);
    let elements = &parse.nodes[0].elements;
    let mut k: usize = 0;
    while k < elements.len()
        invariant
            parse.wf(),
            elements@ == parse.nodes@[0].elements@,
            k <= elements.len(),
            out@ + lexical_marks(parse, span, k as int) == whole,
        decreases elements.len() - k,
    {
        let ghost before = out@;
        assert(parse.nodes@[0].elements@[k as int] == elements@[k as int]);
        match &elements[k] {
            Element::Node(c) => {
                if intersects(parse.nodes[*c].span, span) {
                    mark_under(parse, *c, out);
                }
            },
            Element::Token(t) => {
                if intersects(t.span, span) {
                    mark_lexical(out, t);
                }
            },
        }
        assert(out@ + lexical_marks(parse, span, k + 1) =~= before + lexical_marks(
            parse,
            span,
            k as int,
        ));
        k += 1;
    }
    assert(out@ + lexical_marks(parse, span, k as int) =~= out@);
}

/// Semantic tokens for the top-level children that meet `span`. Works by whole
/// blocks, so the result may extend past `span`.
pub fn semantic_tokens_range(analyzer: &Analyzer, parse: &Parse, span: Span) -> (r: Vec<SemToken>)
    requires
        parse.wf(),
    ensures
        settles(r@, marks_in(analyzer, parse, span)),
{
    let mut marks: Vec<Mark> = Vec::new();
    collect_structured(analyzer, parse, span, &mut marks);
    collect_lexical(parse, span, &mut marks);
    assert(marks@ =~= marks_in(analyzer, parse, span));
    settle(&marks)
}

/// The span of every document.
pub open spec fn everything() -> Span {
    Span { start: 0, end: u32::MAX }
}

/// Semantic tokens for the whole document, sorted by start offset, with one
/// classification per token.
pub fn semantic_tokens(analyzer: &Analyzer, parse: &Parse) -> (r: Vec<SemToken>)
    requires
        parse.wf(),
    ensures
        settles(r@, marks_in(analyzer, parse, everything())),
{
    semantic_tokens_range(analyzer, parse, Span { start: 0, end: u32::MAX })
}

proof fn lemma_left_at_append(a: Seq<Mark>, b: Seq<Mark>, at: u32, before: Option<SemToken>)
    ensures
        left_at(a + b, at, before) == left_at(b, at, left_at(a, at, before)),
    decreases b.len(),
{
    if b.len() == 0 {
        assert(a + b =~= a);
    } else {
        assert((a + b).drop_last() =~= a + b.drop_last());
        lemma_left_at_append(a, b.drop_last(), at, before);
    }
}

/// No mark starts at the offset.
pub open spec fn untouched(marks: Seq<Mark>, at: u32) -> bool {
    forall|i: int| 0 <= i < marks.len() ==> (#[trigger] marks[i]).token.span.start != at
}

proof fn lemma_untouched(marks: Seq<Mark>, at: u32, before: Option<SemToken>)
    requires
        untouched(marks, at),
    ensures
        left_at(marks, at, before) == before,
    decreases marks.len(),
{
    if marks.len() > 0 {
        assert(marks[marks.len() - 1].token.span.start != at);
        assert forall|i: int| 0 <= i < marks.drop_last().len() implies (
        #[trigger] marks.drop_last()[i]).token.span.start != at by {
            assert(marks[i].token.span.start != at);
        }
        lemma_untouched(marks.drop_last(), at, before);
    }
}

/// No top-level element outside the span marks the offset.
pub open spec fn owned(analyzer: &Analyzer, parse: &Parse, span: Span, at: u32) -> bool {
    forall|k: int|
        #![trigger parse.nodes@[0].elements@[k]]
        0 <= k < parse.nodes@[0].elements@.len() && !element_meets(
            parse,
            parse.nodes@[0].elements@[k],
            span,
        ) ==> untouched(top_marks(analyzer, parse, parse.nodes@[0].elements@[k]), at) && untouched(
            top_lexical(parse, parse.nodes@[0].elements@[k]),
            at,
        )
}

proof fn lemma_structured_agree(
    analyzer: &Analyzer,
    parse: &Parse,
    span: Span,
    at: u32,
    k: int,
    before: Option<SemToken>,
)
    requires
        owned(analyzer, parse, span, at),
        0 <= k,
    ensures
        left_at(structured_marks(analyzer, parse, span, k), at, before) == left_at(
            structured_marks(analyzer, parse, everything(), k),
            at,
            before,
        ),
    decreases parse.nodes@[0].elements@.len() - k,
{
    let elements = parse.nodes@[0].elements@;
    if k < elements.len() {
        let here = top_marks(analyzer, parse, elements[k]);
        let after = left_at(here, at, before);
        lemma_structured_agree(analyzer, parse, span, at, k + 1, after);
        lemma_left_at_append(
            here,
            structured_marks(analyzer, parse, everything(), k + 1),
            at,
            before,
        );
        lemma_left_at_append(here, structured_marks(analyzer, parse, span, k + 1), at, before);
        if !element_meets(parse, elements[k], span) {
            lemma_untouched(here, at, before);
        }
    }
}

proof fn lemma_lexical_agree(
    analyzer: &Analyzer,
    parse: &Parse,
    span: Span,
    at: u32,
    k: int,
    before: Option<SemToken>,
)
    requires
        owned(analyzer, parse, span, at),
        0 <= k,
    ensures
        left_at(lexical_marks(parse, span, k), at, before) == left_at(
            lexical_marks(parse, everything(), k),
            at,
            before,
        ),
    decreases parse.nodes@[0].elements@.len() - k,
{
    let elements = parse.nodes@[0].elements@;
    if k < elements.len() {
        let here = top_lexical(parse, elements[k]);
        let after = left_at(here, at, before);
        lemma_lexical_agree(analyzer, parse, span, at, k + 1, after);
        lemma_left_at_append(here, lexical_marks(parse, everything(), k + 1), at, before);
        lemma_left_at_append(here, lexical_marks(parse, span, k + 1), at, before);
        if !element_meets(parse, elements[k], span) {
            lemma_untouched(here, at, before);
        }
    }
}

/// A range pass agrees with the full pass: a token that no block outside the
/// range starts at stands in both lists or in neither.
pub proof fn law_range_agrees_with_full(
    analyzer: &Analyzer,
    parse: &Parse,
    span: Span,
    ranged: Seq<SemToken>,
    full: Seq<SemToken>,
    at: u32,
)
    requires
        settles(ranged, marks_in(analyzer, parse, span)),
        settles(full, marks_in(analyzer, parse, everything())),
        owned(analyzer, parse, span, at),
    ensures
        token_at(ranged, at) == token_at(full, at),
        token_at(ranged, at) matches Some(t) ==> full.contains(t),
{
    lemma_left_at_append(
        structured_marks(analyzer, parse, span, 0),
        lexical_marks(parse, span, 0),
        at,
        None,
    );
    lemma_left_at_append(
        structured_marks(analyzer, parse, everything(), 0),
        lexical_marks(parse, everything(), 0),
        at,
        None,
    );
    lemma_structured_agree(analyzer, parse, span, at, 0, None);
    lemma_lexical_agree(
        analyzer,
        parse,
        span,
        at,
        0,
        left_at(structured_marks(analyzer, parse, span, 0), at, None),
    );
    lemma_token_is_listed(full, at);
}

proof fn lemma_same_marks(analyzer: &Analyzer, parse: &Parse, span: Span, k: int)
    requires
        0 <= k,
        forall|j: int|
            #![trigger parse.nodes@[0].elements@[j]]
            0 <= j < parse.nodes@[0].elements@.len() ==> element_meets(
                parse,
                parse.nodes@[0].elements@[j],
                span,
            ),
    ensures
        structured_marks(analyzer, parse, span, k) == structured_marks(
            analyzer,
            parse,
            everything(),
            k,
        ),
        lexical_marks(parse, span, k) == lexical_marks(parse, everything(), k),
    decreases parse.nodes@[0].elements@.len() - k,
{
    if k < parse.nodes@[0].elements@.len() {
        lemma_same_marks(analyzer, parse, span, k + 1);
        assert(element_meets(parse, parse.nodes@[0].elements@[k], span));
    }
}

/// A range that every top-level element meets gives the same marks as the full
/// pass.
pub proof fn law_whole_range_is_full_pass(analyzer: &Analyzer, parse: &Parse, span: Span)
    requires
        forall|j: int|
            #![trigger parse.nodes@[0].elements@[j]]
            0 <= j < parse.nodes@[0].elements@.len() ==> element_meets(
                parse,
                parse.nodes@[0].elements@[j],
                span,
            ),
    ensures
        marks_in(analyzer, parse, span) == marks_in(analyzer, parse, everything()),
{
    lemma_same_marks(analyzer, parse, span, 0);
}

proof fn lemma_left_is_marked(marks: Seq<Mark>, at: u32)
    ensures
        left_at(marks, at, None) matches Some(t) ==> exists|i: int|
            0 <= i < marks.len() && (#[trigger] marks[i]).token == t,
    decreases marks.len(),
{
    if marks.len() > 0 {
        lemma_left_is_marked(marks.drop_last(), at);
        if let Some(t) = left_at(marks, at, None) {
            if marks.last().token == t {
                assert(marks[marks.len() - 1].token == t);
            } else {
                let i = choose|i: int|
                    0 <= i < marks.drop_last().len() && (#[trigger] marks.drop_last()[i]).token
                        == t;
                assert(marks[i].token == t);
            }
        }
    }
}

/// Settled tokens never overlap, as long as the marked tokens themselves are
/// either the same or apart.
proof fn lemma_settled_apart(tokens: Seq<SemToken>, marks: Seq<Mark>, i: int, j: int)
    requires
        settles(tokens, marks),
        forall|a: int, b: int|
            #![trigger marks[a], marks[b]]
            0 <= a < marks.len() && 0 <= b < marks.len() ==> {
                let x = marks[a].token.span;
                let y = marks[b].token.span;
                x == y || x.end <= y.start || y.end <= x.start
            },
        forall|a: int|
            0 <= a < marks.len() ==> (#[trigger] marks[a]).token.span.start
                <= marks[a].token.span.end,
        0 <= i < j < tokens.len(),
    ensures
        tokens[i].span.end <= tokens[j].span.start,
{
    lemma_token_at(tokens, i);
    lemma_token_at(tokens, j);
    assert(token_at(tokens, tokens[i].span.start) == left_at(marks, tokens[i].span.start, None));
    assert(token_at(tokens, tokens[j].span.start) == left_at(marks, tokens[j].span.start, None));
    lemma_left_is_marked(marks, tokens[i].span.start);
    lemma_left_is_marked(marks, tokens[j].span.start);
    let a = choose|a: int| 0 <= a < marks.len() && (#[trigger] marks[a]).token == tokens[i];
    let b = choose|b: int| 0 <= b < marks.len() && (#[trigger] marks[b]).token == tokens[j];
    assert(marks[a].token.span.start < marks[b].token.span.start);
}

/// Whether a span is that of a token of the document.
pub open spec fn token_in(parse: &Parse, span: Span) -> bool {
    exists|i: int| 0 <= i < parse.nodes@.len() && #[trigger] node_holds(parse.nodes@[i], span)
}

/// Whether a span is that of a token of a node.
pub open spec fn node_holds(node: SyntaxNode, span: Span) -> bool {
    ||| node.head matches Some(t) && t.span == span
    ||| node.name matches Some(t) && t.span == span
    ||| node.tag matches Some(t) && t.span == span
    ||| exists|k: int| 0 <= k < node.values@.len() && (#[trigger] node.values@[k]).span == span
    ||| exists|k: int|
        0 <= k < node.elements@.len() && (#[trigger] node.elements@[k] matches Element::Token(t)
            && t.span == span)
}

/// Any two tokens of the document are the same or apart.
pub open spec fn tokens_apart(parse: &Parse) -> bool {
    &&& forall|x: Span| #[trigger] token_in(parse, x) ==> x.start <= x.end
    &&& forall|x: Span, y: Span|
        #[trigger] token_in(parse, x) && #[trigger] token_in(parse, y) ==> x == y || x.end
            <= y.start || y.end <= x.start
}

/// Whether every mark is on a token of the document.
spec fn on_tokens(parse: &Parse, marks: Seq<Mark>) -> bool {
    forall|i: int| 0 <= i < marks.len() ==> token_in(parse, (#[trigger] marks[i]).token.span)
}

proof fn lemma_value_marks(
    parse: &Parse,
    node: int,
    removes: bool,
    field: Option<Field>,
    i: int,
)
    requires
        0 <= node < parse.nodes@.len(),
    ensures
        on_tokens(parse, value_marks(removes, field, parse.nodes@[node].values@, i)),
    decreases parse.nodes@[node].values@.len() - i,
{
    let values = parse.nodes@[node].values@;
    if 0 <= i < values.len() {
        lemma_value_marks(parse, node, removes, field, i + 1);
        assert(node_holds(parse.nodes@[node], values[i].span));
    }
}

proof fn lemma_head_marks(parse: &Parse, node: int, scope: ScopeSchema<'_>, genuine: bool)
    requires
        0 <= node < parse.nodes@.len(),
    ensures
        on_tokens(parse, field_marks(parse.nodes@[node], scope)),
        on_tokens(parse, block_marks(parse.nodes@[node])),
        on_tokens(parse, module_marks(parse.nodes@[node], genuine)),
{
    let n = parse.nodes@[node];
    lemma_value_marks(parse, node, removes_module(n.head), line_schema(scope, n.head), 0);
    if let Some(t) = n.head {
        assert(node_holds(n, t.span));
    }
    if let Some(t) = n.name {
        assert(node_holds(n, t.span));
    }
    if let Some(t) = n.tag {
        assert(node_holds(n, t.span));
    }
}

proof fn lemma_walk_marks(analyzer: &Analyzer, parse: &Parse, node: int, k: int)
    requires
        0 <= node < parse.nodes@.len(),
    ensures
        on_tokens(parse, walk_marks(analyzer, parse, node, k)),
    decreases parse.nodes@.len() - node, parse.nodes@[node].elements@.len() - k,
{
    let elements = parse.nodes@[node].elements@;
    if 0 <= k < elements.len() {
        let scope = scope_of(analyzer, parse, node);
        if let Element::Node(c) = elements[k] {
            if node < c < parse.nodes@.len() {
                let genuine = in_slot(scope.slot_list(), parse.nodes@[c as int].head);
                lemma_head_marks(parse, c as int, scope, genuine);
                lemma_walk_marks(analyzer, parse, c as int, 0);
            }
        }
        lemma_walk_marks(analyzer, parse, node, k + 1);
    }
}

proof fn lemma_lexical_under(parse: &Parse, node: int, k: int)
    requires
        0 <= node < parse.nodes@.len(),
    ensures
        on_tokens(parse, lexical_under(parse, node, k)),
    decreases parse.nodes@.len() - node, parse.nodes@[node].elements@.len() - k,
{
    let elements = parse.nodes@[node].elements@;
    if 0 <= k < elements.len() {
        match elements[k] {
            Element::Node(c) => {
                if node < c < parse.nodes@.len() {
                    lemma_lexical_under(parse, c as int, 0);
                }
            },
            Element::Token(t) => {
                assert(node_holds(parse.nodes@[node], t.span));
            },
        }
        lemma_lexical_under(parse, node, k + 1);
    }
}

proof fn lemma_marks_on_tokens(analyzer: &Analyzer, parse: &Parse, span: Span, k: int)
    requires
        parse.wf(),
        0 <= k <= parse.nodes@[0].elements@.len(),
    ensures
        on_tokens(parse, structured_marks(analyzer, parse, span, k)),
        on_tokens(parse, lexical_marks(parse, span, k)),
    decreases parse.nodes@[0].elements@.len() - k,
{
    let elements = parse.nodes@[0].elements@;
    if k < elements.len() {
        lemma_marks_on_tokens(analyzer, parse, span, k + 1);
        match elements[k] {
            Element::Node(c) => {
                lemma_head_marks(parse, c as int, ScopeSchema::Unknown, false);
                lemma_walk_marks(analyzer, parse, c as int, 0);
                lemma_lexical_under(parse, c as int, 0);
                assert(on_tokens(parse, top_marks(analyzer, parse, elements[k])));
                assert(on_tokens(parse, top_lexical(parse, elements[k])));
            },
            Element::Token(t) => {
                assert(node_holds(parse.nodes@[0], t.span));
                assert(on_tokens(parse, top_lexical(parse, elements[k])));
            },
        }
    }
}

/// The semantic tokens of a document, or of a range of it, are sorted and do
/// not overlap, as long as the document's own tokens do not.
pub proof fn law_tokens_do_not_overlap(
    analyzer: &Analyzer,
    parse: &Parse,
    span: Span,
    tokens: Seq<SemToken>,
    i: int,
    j: int,
)
    requires
        parse.wf(),
        tokens_apart(parse),
        settles(tokens, marks_in(analyzer, parse, span)),
        0 <= i < j < tokens.len(),
    ensures
        tokens[i].span.end <= tokens[j].span.start,
{
    let marks = marks_in(analyzer, parse, span);
    lemma_marks_on_tokens(analyzer, parse, span, 0);
    assert(on_tokens(parse, marks));
    lemma_settled_apart(tokens, marks, i, j);
}

/// Whether a span is that of a token of a node or of a node below it.
pub open spec fn held_under(parse: &Parse, node: int, span: Span) -> bool
    decreases parse.nodes@.len() - node,
{
    ||| node_holds(parse.nodes@[node], span)
    ||| exists|k: int|
        0 <= k < parse.nodes@[node].elements@.len() && (
        #[trigger] parse.nodes@[node].elements@[k] matches Element::Node(c) && node < c
            < parse.nodes@.len() && held_under(parse, c as int, span))
}

/// Whether a span is that of a token in a top-level element.
pub open spec fn element_holds(parse: &Parse, element: Element, span: Span) -> bool {
    match element {
        Element::Node(c) => held_under(parse, c as int, span),
        Element::Token(t) => t.span == span,
    }
}

/// Tokens of different top-level elements start at different offsets.
pub open spec fn elements_apart(parse: &Parse) -> bool {
    forall|j: int, k: int, x: Span, y: Span|
        #![trigger element_holds(parse, parse.nodes@[0].elements@[j], x),
            element_holds(parse, parse.nodes@[0].elements@[k], y)]
        0 <= j < parse.nodes@[0].elements@.len() && 0 <= k < parse.nodes@[0].elements@.len() && j
            != k && element_holds(parse, parse.nodes@[0].elements@[j], x) && element_holds(
            parse,
            parse.nodes@[0].elements@[k],
            y,
        ) ==> x.start != y.start
}

/// Whether every mark is on a token in or below a node.
spec fn marks_under(parse: &Parse, node: int, marks: Seq<Mark>) -> bool {
    forall|i: int|
        0 <= i < marks.len() ==> held_under(parse, node, (#[trigger] marks[i]).token.span)
}

/// Whether every mark is on a token in a top-level element.
spec fn marks_in_element(parse: &Parse, element: Element, marks: Seq<Mark>) -> bool {
    forall|i: int|
        0 <= i < marks.len() ==> element_holds(parse, element, (#[trigger] marks[i]).token.span)
}

proof fn lemma_values_under(
    parse: &Parse,
    node: int,
    removes: bool,
    field: Option<Field>,
    i: int,
)
    requires
        0 <= node < parse.nodes@.len(),
    ensures
        marks_under(parse, node, value_marks(removes, field, parse.nodes@[node].values@, i)),
    decreases parse.nodes@[node].values@.len() - i,
{
    let values = parse.nodes@[node].values@;
    if 0 <= i < values.len() {
        lemma_values_under(parse, node, removes, field, i + 1);
        assert(node_holds(parse.nodes@[node], values[i].span));
    }
}

proof fn lemma_heads_under(parse: &Parse, node: int, scope: ScopeSchema<'_>, genuine: bool)
    requires
        0 <= node < parse.nodes@.len(),
    ensures
        marks_under(parse, node, field_marks(parse.nodes@[node], scope)),
        marks_under(parse, node, block_marks(parse.nodes@[node])),
        marks_under(parse, node, module_marks(parse.nodes@[node], genuine)),
{
    let n = parse.nodes@[node];
    lemma_values_under(parse, node, removes_module(n.head), line_schema(scope, n.head), 0);
    if let Some(t) = n.head {
        assert(node_holds(n, t.span));
    }
    if let Some(t) = n.name {
        assert(node_holds(n, t.span));
    }
    if let Some(t) = n.tag {
        assert(node_holds(n, t.span));
    }
}

proof fn lemma_under_child(parse: &Parse, node: int, k: int, c: int, marks: Seq<Mark>)
    requires
        0 <= k < parse.nodes@[node].elements@.len(),
        parse.nodes@[node].elements@[k] matches Element::Node(x) && x == c,
        node < c < parse.nodes@.len(),
        marks_under(parse, c, marks),
    ensures
        marks_under(parse, node, marks),
{
    assert forall|i: int| 0 <= i < marks.len() implies held_under(
        parse,
        node,
        (#[trigger] marks[i]).token.span,
    ) by {
        assert(held_under(parse, c, marks[i].token.span));
        assert(parse.nodes@[node].elements@[k] matches Element::Node(x) && held_under(
            parse,
            x as int,
            marks[i].token.span,
        ));
    }
}

proof fn lemma_walk_under(analyzer: &Analyzer, parse: &Parse, node: int, k: int)
    requires
        0 <= node < parse.nodes@.len(),
    ensures
        marks_under(parse, node, walk_marks(analyzer, parse, node, k)),
    decreases parse.nodes@.len() - node, parse.nodes@[node].elements@.len() - k,
{
    let elements = parse.nodes@[node].elements@;
    if 0 <= k < elements.len() {
        let scope = scope_of(analyzer, parse, node);
        lemma_walk_under(analyzer, parse, node, k + 1);
        if let Element::Node(x) = elements[k] {
            let c = x as int;
            if node < c < parse.nodes@.len() {
                let child = parse.nodes@[c];
                let genuine = in_slot(scope.slot_list(), child.head);
                lemma_heads_under(parse, c, scope, genuine);
                lemma_walk_under(analyzer, parse, c, 0);
                lemma_under_child(parse, node, k, c, field_marks(child, scope));
                lemma_under_child(parse, node, k, c, module_marks(child, genuine));
                lemma_under_child(parse, node, k, c, block_marks(child));
                lemma_under_child(parse, node, k, c, walk_marks(analyzer, parse, c, 0));
            }
        }
    }
}

proof fn lemma_lexical_held(parse: &Parse, node: int, k: int)
    requires
        0 <= node < parse.nodes@.len(),
    ensures
        marks_under(parse, node, lexical_under(parse, node, k)),
    decreases parse.nodes@.len() - node, parse.nodes@[node].elements@.len() - k,
{
    let elements = parse.nodes@[node].elements@;
    if 0 <= k < elements.len() {
        lemma_lexical_held(parse, node, k + 1);
        match elements[k] {
            Element::Node(x) => {
                let c = x as int;
                if node < c < parse.nodes@.len() {
                    lemma_lexical_held(parse, c, 0);
                    lemma_under_child(parse, node, k, c, lexical_under(parse, c, 0));
                }
            },
            Element::Token(t) => {
                assert(node_holds(parse.nodes@[node], t.span));
            },
        }
    }
}

proof fn lemma_top_held(analyzer: &Analyzer, parse: &Parse, k: int)
    requires
        parse.wf(),
        0 <= k < parse.nodes@[0].elements@.len(),
    ensures
        marks_in_element(
            parse,
            parse.nodes@[0].elements@[k],
            top_marks(analyzer, parse, parse.nodes@[0].elements@[k]),
        ),
        marks_in_element(
            parse,
            parse.nodes@[0].elements@[k],
            top_lexical(parse, parse.nodes@[0].elements@[k]),
        ),
{
    match parse.nodes@[0].elements@[k] {
        Element::Node(x) => {
            let c = x as int;
            lemma_heads_under(parse, c, ScopeSchema::Unknown, false);
            lemma_walk_under(analyzer, parse, c, 0);
            lemma_lexical_held(parse, c, 0);
        },
        Element::Token(_) => {},
    }
}

/// Whether a token of a top-level element starts at an offset.
pub open spec fn starts_at(parse: &Parse, element: Element, at: u32) -> bool {
    exists|x: Span| #[trigger] element_holds(parse, element, x) && x.start == at
}

/// Whether a top-level element that meets the span has a token that starts at
/// the offset.
pub open spec fn covered(parse: &Parse, span: Span, at: u32) -> bool {
    exists|k: int|
        0 <= k < parse.nodes@[0].elements@.len() && element_meets(
            parse,
            parse.nodes@[0].elements@[k],
            span,
        ) && starts_at(parse, #[trigger] parse.nodes@[0].elements@[k], at)
}

proof fn lemma_marks_covered(analyzer: &Analyzer, parse: &Parse, span: Span, at: u32, k: int)
    requires
        parse.wf(),
        !covered(parse, span, at),
        0 <= k,
    ensures
        untouched(structured_marks(analyzer, parse, span, k), at),
        untouched(lexical_marks(parse, span, k), at),
    decreases parse.nodes@[0].elements@.len() - k,
{
    let elements = parse.nodes@[0].elements@;
    if k < elements.len() {
        lemma_marks_covered(analyzer, parse, span, at, k + 1);
        if element_meets(parse, elements[k], span) {
            lemma_top_held(analyzer, parse, k);
            assert(!starts_at(parse, elements[k], at));
            let marks = top_marks(analyzer, parse, elements[k]);
            assert forall|i: int| 0 <= i < marks.len() implies (
            #[trigger] marks[i]).token.span.start != at by {
                assert(element_holds(parse, elements[k], marks[i].token.span));
            }
            let words = top_lexical(parse, elements[k]);
            assert forall|i: int| 0 <= i < words.len() implies (
            #[trigger] words[i]).token.span.start != at by {
                assert(element_holds(parse, elements[k], words[i].token.span));
            }
        }
    }
}

proof fn lemma_covered_is_owned(analyzer: &Analyzer, parse: &Parse, span: Span, at: u32)
    requires
        parse.wf(),
        elements_apart(parse),
        covered(parse, span, at),
    ensures
        owned(analyzer, parse, span, at),
{
    let elements = parse.nodes@[0].elements@;
    let j = choose|j: int|
        0 <= j < elements.len() && element_meets(parse, elements[j], span) && starts_at(
            parse,
            #[trigger] elements[j],
            at,
        );
    let x = choose|x: Span| #[trigger] element_holds(parse, elements[j], x) && x.start == at;
    assert forall|k: int|
        #![trigger parse.nodes@[0].elements@[k]]
        0 <= k < elements.len() && !element_meets(
            parse,
            parse.nodes@[0].elements@[k],
            span,
        ) implies untouched(top_marks(analyzer, parse, parse.nodes@[0].elements@[k]), at)
        && untouched(top_lexical(parse, parse.nodes@[0].elements@[k]), at) by {
        lemma_top_held(analyzer, parse, k);
        let marks = top_marks(analyzer, parse, elements[k]);
        assert forall|i: int| 0 <= i < marks.len() implies (
        #[trigger] marks[i]).token.span.start != at by {
            assert(element_holds(parse, elements[k], marks[i].token.span));
        }
        let words = top_lexical(parse, elements[k]);
        assert forall|i: int| 0 <= i < words.len() implies (
        #[trigger] words[i]).token.span.start != at by {
            assert(element_holds(parse, elements[k], words[i].token.span));
        }
    }
}

/// The tokens of a list that start in a top-level element that meets the span,
/// in order.
pub open spec fn touching(tokens: Seq<SemToken>, parse: &Parse, span: Span) -> Seq<SemToken>
    decreases tokens.len(),
{
    if tokens.len() == 0 {
        tokens
    } else {
        let rest = touching(tokens.drop_last(), parse, span);
        if covered(parse, span, tokens.last().span.start) {
            rest.push(tokens.last())
        } else {
            rest
        }
    }
}

proof fn lemma_touching(tokens: Seq<SemToken>, parse: &Parse, span: Span, at: u32)
    requires
        ascending(tokens),
    ensures
        ascending(touching(tokens, parse, span)),
        forall|i: int|
            0 <= i < touching(tokens, parse, span).len() ==> tokens.contains(
                #[trigger] touching(tokens, parse, span)[i],
            ),
        token_at(touching(tokens, parse, span), at) == if covered(parse, span, at) {
            token_at(tokens, at)
        } else {
            None
        },
    decreases tokens.len(),
{
    if tokens.len() > 0 {
        let front = tokens.drop_last();
        assert(forall|i: int| 0 <= i < front.len() ==> #[trigger] front[i] == tokens[i]);
        lemma_touching(front, parse, span, at);
        let rest = touching(front, parse, span);
        let all = touching(tokens, parse, span);
        let last = tokens.last();
        assert forall|i: int| 0 <= i < rest.len() implies (
        #[trigger] rest[i]).span.start < last.span.start && tokens.contains(rest[i]) by {
            let j = choose|j: int| 0 <= j < front.len() && front[j] == rest[i];
            assert(tokens[j] == rest[i]);
            assert(tokens[j].span.start < tokens[tokens.len() - 1].span.start);
        }
        assert(tokens[tokens.len() - 1] == last);
        if covered(parse, span, last.span.start) {
            assert(all == rest.push(last));
            assert(all.drop_last() =~= rest);
            assert forall|i: int| 0 <= i < all.len() implies tokens.contains(
                #[trigger] all[i],
            ) by {
                if i < rest.len() {
                    assert(all[i] == rest[i]);
                }
            }
            assert forall|i: int, j: int|
                #![trigger all[i], all[j]]
                0 <= i < j < all.len() implies all[i].span.start < all[j].span.start by {
                assert(all[i] == rest[i]);
                if j < rest.len() {
                    assert(all[j] == rest[j]);
                }
            }
        } else if at == last.span.start {
            lemma_no_token_at(rest, at);
        }
    }
}

proof fn lemma_same_tokens(a: Seq<SemToken>, b: Seq<SemToken>)
    requires
        ascending(a),
        ascending(b),
        forall|at: u32| #[trigger] token_at(a, at) == token_at(b, at),
    ensures
        a == b,
    decreases a.len(),
{
    if a.len() == 0 || b.len() == 0 {
        if a.len() > 0 {
            lemma_token_at(a, 0);
            assert(token_at(b, a[0].span.start) is None);
        }
        if b.len() > 0 {
            lemma_token_at(b, 0);
            assert(token_at(a, b[0].span.start) is None);
        }
        assert(a =~= b);
    } else {
        let x = a.last();
        let y = b.last();
        lemma_token_at(a, a.len() - 1);
        lemma_token_at(b, b.len() - 1);
        assert(token_at(a, x.span.start) == token_at(b, x.span.start));
        assert(token_at(a, y.span.start) == token_at(b, y.span.start));
        lemma_token_is_listed(b, x.span.start);
        lemma_token_is_listed(a, y.span.start);
        let i = choose|i: int| 0 <= i < b.len() && b[i] == x;
        let j = choose|j: int| 0 <= j < a.len() && a[j] == y;
        assert(x.span.start <= y.span.start) by {
            if i < b.len() - 1 {
                assert(b[i].span.start < b[b.len() - 1].span.start);
            }
        }
        assert(y.span.start <= x.span.start) by {
            if j < a.len() - 1 {
                assert(a[j].span.start < a[a.len() - 1].span.start);
            }
        }
        assert(x == y);
        let s = a.drop_last();
        let t = b.drop_last();
        assert(forall|n: int| 0 <= n < s.len() ==> #[trigger] s[n] == a[n]);
        assert(forall|n: int| 0 <= n < t.len() ==> #[trigger] t[n] == b[n]);
        assert forall|at: u32| #[trigger] token_at(s, at) == token_at(t, at) by {
            assert(token_at(a, at) == token_at(b, at));
            if at == x.span.start {
                assert forall|n: int| 0 <= n < s.len() implies (
                #[trigger] s[n]).span.start != at by {
                    assert(a[n].span.start < a[a.len() - 1].span.start);
                }
                assert forall|n: int| 0 <= n < t.len() implies (
                #[trigger] t[n]).span.start != at by {
                    assert(b[n].span.start < b[b.len() - 1].span.start);
                }
                lemma_no_token_at(s, at);
                lemma_no_token_at(t, at);
            }
        }
        lemma_same_tokens(s, t);
        assert(a =~= s.push(x));
        assert(b =~= t.push(y));
    }
}

/// A range pass gives exactly those tokens of the full pass that start in a
/// top-level element that meets the range, in the same order: all tokens of
/// such an element, and none of any other.
pub proof fn law_range_selects_from_full_pass(
    analyzer: &Analyzer,
    parse: &Parse,
    span: Span,
    ranged: Seq<SemToken>,
    full: Seq<SemToken>,
)
    requires
        parse.wf(),
        elements_apart(parse),
        settles(ranged, marks_in(analyzer, parse, span)),
        settles(full, marks_in(analyzer, parse, everything())),
    ensures
        ranged == touching(full, parse, span),
{
    let marks = marks_in(analyzer, parse, span);
    let picked = touching(full, parse, span);
    lemma_touching(full, parse, span, 0);
    assert forall|at: u32| #[trigger] token_at(ranged, at) == token_at(picked, at) by {
        lemma_touching(full, parse, span, at);
        if covered(parse, span, at) {
            lemma_covered_is_owned(analyzer, parse, span, at);
            law_range_agrees_with_full(analyzer, parse, span, ranged, full, at);
        } else {
            lemma_marks_covered(analyzer, parse, span, at, 0);
            assert(untouched(marks, at));
            lemma_untouched(marks, at, None);
        }
    }
    lemma_same_tokens(ranged, picked);
}

/// A range that every top-level element meets gives the tokens of the full
/// pass.
pub proof fn law_whole_range_gives_full_pass(
    analyzer: &Analyzer,
    parse: &Parse,
    span: Span,
    ranged: Seq<SemToken>,
    full: Seq<SemToken>,
)
    requires
        forall|j: int|
            #![trigger parse.nodes@[0].elements@[j]]
            0 <= j < parse.nodes@[0].elements@.len() ==> element_meets(
                parse,
                parse.nodes@[0].elements@[j],
                span,
            ),
        settles(ranged, marks_in(analyzer, parse, span)),
        settles(full, marks_in(analyzer, parse, everything())),
    ensures
        ranged == full,
{
    law_whole_range_is_full_pass(analyzer, parse, span);
    lemma_same_tokens(ranged, full);
}

} // verus!
