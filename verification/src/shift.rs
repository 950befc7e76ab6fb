//! Subtrees and findings relative to an offset.
//!
//! Two subtrees that differ only in where they stand have the same
//! [`TreeView`], each taken relative to its own start.

use vstd::prelude::*;

use crate::syntax::{Element, Parse, Span, SyntaxKind, SyntaxToken};
use crate::text::same;
use crate::values::{diags, Diagnostic, DiagnosticView};

verus! {

/// `a - b`, wrapping below zero.
pub open spec fn wrap_sub(a: u32, b: u32) -> u32 {
    if a >= b {
        (a - b) as u32
    } else {
        (a - b + 0x1_0000_0000) as u32
    }
}

/// `a + b`, wrapping past the end.
pub open spec fn wrap_add(a: u32, b: u32) -> u32 {
    if a + b <= u32::MAX {
        (a + b) as u32
    } else {
        (a + b - 0x1_0000_0000) as u32
    }
}

/// [`wrap_sub`], computed.
pub fn minus(a: u32, b: u32) -> (r: u32)
    ensures
        r == wrap_sub(a, b),
{
    if a >= b {
        a - b
    } else {
        (0xffff_ffffu32 - b) + a + 1
    }
}

/// [`wrap_add`], computed.
pub fn plus(a: u32, b: u32) -> (r: u32)
    ensures
        r == wrap_add(a, b),
{
    if a <= 0xffff_ffffu32 - b {
        a + b
    } else {
        a - (0xffff_ffffu32 - b) - 1
    }
}

/// A diagnostic relative to an offset.
pub open spec fn rebased_down(d: DiagnosticView, offset: u32) -> DiagnosticView {
    DiagnosticView {
        span: Span { start: wrap_sub(d.span.start, offset), end: wrap_sub(d.span.end, offset) },
        ..d
    }
}

/// A relative diagnostic at an offset.
pub open spec fn rebased_up(d: DiagnosticView, offset: u32) -> DiagnosticView {
    DiagnosticView {
        span: Span { start: wrap_add(d.span.start, offset), end: wrap_add(d.span.end, offset) },
        ..d
    }
}

pub open spec fn relative(list: Seq<DiagnosticView>, offset: u32) -> Seq<DiagnosticView> {
    list.map_values(|d: DiagnosticView| rebased_down(d, offset))
}

pub open spec fn absolute(list: Seq<DiagnosticView>, offset: u32) -> Seq<DiagnosticView> {
    list.map_values(|d: DiagnosticView| rebased_up(d, offset))
}

/// Moving diagnostics down by an offset and up again changes nothing.
pub proof fn law_rebase_round_trip(list: Seq<DiagnosticView>, offset: u32)
    ensures
        absolute(relative(list, offset), offset) == list,
{
    assert forall|i: int| 0 <= i < list.len() implies #[trigger] absolute(
        relative(list, offset),
        offset,
    )[i] == list[i] by {}
    assert(absolute(relative(list, offset), offset) =~= list);
}

/// Moves diagnostics down by an offset.
pub fn shift_down(list: &Vec<Diagnostic>, offset: u32) -> (r: Vec<Diagnostic>)
    ensures
        diags(r@) == relative(diags(list@), offset),
{
    let mut out: Vec<Diagnostic> = Vec::new();
    let mut i: usize = 0;
    while i < list.len()
        invariant
            i <= list.len(),
            out.len() == i,
            forall|k: int| 0 <= k < i ==> (#[trigger] out@[k])@ == rebased_down(
                list@[k]@,
                offset,
            ),
        decreases list.len() - i,
    {
        let mut d = list[i].copy();
        d.span = Span { start: minus(d.span.start, offset), end: minus(d.span.end, offset) };
        out.push(d);
        i += 1;
    }
    assert(diags(out@) =~= relative(diags(list@), offset));
    out
}

/// Moves diagnostics up by an offset.
pub fn shift_up(list: &Vec<Diagnostic>, offset: u32) -> (r: Vec<Diagnostic>)
    ensures
        diags(r@) == absolute(diags(list@), offset),
{
    let mut out: Vec<Diagnostic> = Vec::new();
    let mut i: usize = 0;
    while i < list.len()
        invariant
            i <= list.len(),
            out.len() == i,
            forall|k: int| 0 <= k < i ==> (#[trigger] out@[k])@ == rebased_up(list@[k]@, offset),
        decreases list.len() - i,
    {
        let mut d = list[i].copy();
        d.span = Span { start: plus(d.span.start, offset), end: plus(d.span.end, offset) };
        out.push(d);
        i += 1;
    }
    assert(diags(out@) =~= absolute(diags(list@), offset));
    out
}

/// A range relative to an offset.
pub open spec fn moved(span: Span, offset: u32) -> Span {
    Span { start: wrap_sub(span.start, offset), end: wrap_sub(span.end, offset) }
}

/// What the rules read of a token, relative to an offset.
pub struct TokenView {
    pub text: Seq<char>,
    pub span: Span,
}

pub open spec fn token_view(token: SyntaxToken, offset: u32) -> TokenView {
    TokenView { text: token.text@, span: moved(token.span, offset) }
}

pub open spec fn token_views(tokens: Seq<SyntaxToken>, offset: u32) -> Seq<TokenView> {
    tokens.map_values(|t: SyntaxToken| token_view(t, offset))
}

pub open spec fn maybe_token_view(token: Option<SyntaxToken>, offset: u32) -> Option<TokenView> {
    match token {
        Some(t) => Some(token_view(t, offset)),
        None => None,
    }
}

/// A child of a subtree.
pub enum KidView {
    Node(TreeView),
    Token(TokenView),
    /// No node of the document.
    Nowhere,
}

/// A subtree with all its words, relative to an offset.
#[verifier::ext_equal]
pub struct TreeView {
    pub kind: SyntaxKind,
    pub head: Option<TokenView>,
    pub name: Option<TokenView>,
    pub tag: Option<TokenView>,
    pub values: Seq<TokenView>,
    pub kids: Seq<KidView>,
}

/// The subtree of a node, relative to an offset.
pub open spec fn tree_of(parse: &Parse, node: int, offset: u32) -> TreeView
    decreases parse.nodes@.len() - node,
{
    let n = parse.nodes@[node];
    TreeView {
        kind: n.kind,
        head: maybe_token_view(n.head, offset),
        name: maybe_token_view(n.name, offset),
        tag: maybe_token_view(n.tag, offset),
        values: token_views(n.values@, offset),
        kids: Seq::new(
            n.elements@.len(),
            |k: int|
                match n.elements@[k] {
                    Element::Node(c) => if node < c < parse.nodes@.len() {
                        KidView::Node(tree_of(parse, c as int, offset))
                    } else {
                        KidView::Nowhere
                    },
                    Element::Token(t) => KidView::Token(token_view(t, offset)),
                },
        ),
    }
}

/// A token of a [`Shape`].
pub struct ShapeToken {
    pub text: String,
    pub span: Span,
}

impl View for ShapeToken {
    type V = TokenView;

    open spec fn view(&self) -> TokenView {
        TokenView { text: self.text@, span: self.span }
    }
}

pub open spec fn maybe_shape_token(token: Option<ShapeToken>) -> Option<TokenView> {
    match token {
        Some(t) => Some(t@),
        None => None,
    }
}

/// A child of a [`Shape`].
pub enum ShapeKid {
    Node(Shape),
    Token(ShapeToken),
}

/// A copy of a subtree, relative to its start.
pub struct Shape {
    pub kind: SyntaxKind,
    pub head: Option<ShapeToken>,
    pub name: Option<ShapeToken>,
    pub tag: Option<ShapeToken>,
    pub values: Vec<ShapeToken>,
    pub kids: Vec<ShapeKid>,
}

/// The subtree that a shape is a copy of.
pub open spec fn shape_tree(shape: Shape) -> TreeView
    decreases shape,
{
    TreeView {
        kind: shape.kind,
        head: maybe_shape_token(shape.head),
        name: maybe_shape_token(shape.name),
        tag: maybe_shape_token(shape.tag),
        values: shape.values@.map_values(|t: ShapeToken| t@),
        kids: Seq::new(
            shape.kids@.len(),
            |k: int|
                if 0 <= k < shape.kids@.len() {
                    match shape.kids@[k] {
                        ShapeKid::Node(kid) => KidView::Node(shape_tree(kid)),
                        ShapeKid::Token(t) => KidView::Token(t@),
                    }
                } else {
                    KidView::Nowhere
                },
        ),
    }
}

fn moved_span(span: Span, offset: u32) -> (r: Span)
    ensures
        r == moved(span, offset),
{
    Span { start: minus(span.start, offset), end: minus(span.end, offset) }
}

fn copy_token(token: &SyntaxToken, offset: u32) -> (r: ShapeToken)
    ensures
        r@ == token_view(*token, offset),
{
    ShapeToken { text: token.text.as_str().to_owned(), span: moved_span(token.span, offset) }
}

fn copy_maybe_token(token: &Option<SyntaxToken>, offset: u32) -> (r: Option<ShapeToken>)
    ensures
        maybe_shape_token(r) == maybe_token_view(*token, offset),
{
    match token {
        Some(t) => Some(copy_token(t, offset)),
        None => None,
    }
}

/// Copies the subtree of a node, relative to an offset.
pub fn shape_of(parse: &Parse, node: usize, offset: u32) -> (r: Shape)
    requires
        parse.wf(),
        node < parse.nodes.len(),
    ensures
        shape_tree(r) == tree_of(parse, node as int, offset),
    decreases parse.nodes.len() - node,
{
    let n = &parse.nodes[node];
    let ghost tree = tree_of(parse, node as int, offset);
    let mut values: Vec<ShapeToken> = Vec::new();
    let mut i: usize = 0;
    while i < n.values.len()
        invariant
            i <= n.values.len(),
            values.len() == i,
            forall|k: int|
                0 <= k < i ==> (#[trigger] values@[k])@ == token_view(n.values@[k], offset),
        decreases n.values.len() - i,
    {
        values.push(copy_token(&n.values[i], offset));
        i += 1;
    }
    let mut kids: Vec<ShapeKid> = Vec::new();
    let mut j: usize = 0;
    while j < n.elements.len()
        invariant
            parse.wf(),
            node < parse.nodes.len(),
            n == &parse.nodes@[node as int],
            tree == tree_of(parse, node as int, offset),
            j <= n.elements.len(),
            kids.len() == j,
            forall|k: int|
                0 <= k < j ==> match #[trigger] kids@[k] {
                    ShapeKid::Node(kid) => tree.kids[k] == KidView::Node(shape_tree(kid)),
                    ShapeKid::Token(t) => tree.kids[k] == KidView::Token(t@),
                },
        decreases n.elements.len() - j,
    {
        let kid = match &n.elements[j] {
            Element::Node(c) => {
                assert(parse.nodes@[node as int].elements@[j as int] matches Element::Node(x)
                    && x == *c);
                ShapeKid::Node(shape_of(parse, *c, offset))
            },
            Element::Token(t) => ShapeKid::Token(copy_token(t, offset)),
        };
        kids.push(kid);
        j += 1;
    }
    let r = Shape {
        kind: n.kind,
        head: copy_maybe_token(&n.head, offset),
        name: copy_maybe_token(&n.name, offset),
        tag: copy_maybe_token(&n.tag, offset),
        values,
        kids,
    };
    assert(shape_tree(r).values =~= tree.values);
    assert(shape_tree(r).kids =~= tree.kids);
    r
}

fn token_is(shape: &ShapeToken, token: &SyntaxToken, offset: u32) -> (r: bool)
    ensures
        r == (shape@ == token_view(*token, offset)),
{
    let span = moved_span(token.span, offset);
    shape.span.start == span.start && shape.span.end == span.end && same(
        shape.text.as_str(),
        token.text.as_str(),
    )
}

fn maybe_token_is(shape: &Option<ShapeToken>, token: &Option<SyntaxToken>, offset: u32) -> (r: bool)
    ensures
        r == (maybe_shape_token(*shape) == maybe_token_view(*token, offset)),
{
    match (shape, token) {
        (Some(a), Some(b)) => token_is(a, b, offset),
        (None, None) => true,
        _ => false,
    }
}

fn values_are(shape: &Vec<ShapeToken>, values: &Vec<SyntaxToken>, offset: u32) -> (r: bool)
    ensures
        r == (shape@.map_values(|t: ShapeToken| t@) == token_views(values@, offset)),
{
    let ghost a = shape@.map_values(|t: ShapeToken| t@);
    let ghost b = token_views(values@, offset);
    if shape.len() != values.len() {
        assert(a.len() != b.len());
        return false;
    }
    let mut i: usize = 0;
    while i < shape.len()
        invariant
            i <= shape.len(),
            shape.len() == values.len(),
            a == shape@.map_values(|t: ShapeToken| t@),
            b == token_views(values@, offset),
            forall|k: int| 0 <= k < i ==> #[trigger] a[k] == b[k],
        decreases shape.len() - i,
    {
        if !token_is(&shape[i], &values[i], offset) {
            assert(a[i as int] != b[i as int]);
            return false;
        }
        assert(a[i as int] == b[i as int]);
        i += 1;
    }
    assert(a =~= b);
    true
}

/// Whether a shape is a copy of the subtree of a node, relative to an offset.
pub fn is_shape_of(shape: &Shape, parse: &Parse, node: usize, offset: u32) -> (r: bool)
    requires
        parse.wf(),
        node < parse.nodes.len(),
    ensures
        r == (shape_tree(*shape) == tree_of(parse, node as int, offset)),
    decreases parse.nodes.len() - node,
{
    let n = &parse.nodes[node];
    let ghost a = shape_tree(*shape);
    let ghost b = tree_of(parse, node as int, offset);
    if shape.kind != n.kind || !maybe_token_is(&shape.head, &n.head, offset) || !maybe_token_is(
        &shape.name,
        &n.name,
        offset,
    ) || !maybe_token_is(&shape.tag, &n.tag, offset) || !values_are(
        &shape.values,
        &n.values,
        offset,
    ) {
        return false;
    }
    if shape.kids.len() != n.elements.len() {
        assert(a.kids.len() != b.kids.len());
        return false;
    }
    let mut j: usize = 0;
    while j < n.elements.len()
        invariant
            parse.wf(),
            node < parse.nodes.len(),
            n == &parse.nodes@[node as int],
            a == shape_tree(*shape),
            b == tree_of(parse, node as int, offset),
            j <= n.elements.len(),
            shape.kids.len() == n.elements.len(),
            forall|k: int| 0 <= k < j ==> #[trigger] a.kids[k] == b.kids[k],
        decreases n.elements.len() - j,
    {
        let alike = match (&shape.kids[j], &n.elements[j]) {
            (ShapeKid::Node(kid), Element::Node(c)) => {
                assert(parse.nodes@[node as int].elements@[j as int] matches Element::Node(x)
                    && x == *c);
                is_shape_of(kid, parse, *c, offset)
            },
            (ShapeKid::Token(a), Element::Token(t)) => token_is(a, t, offset),
            _ => false,
        };
        if !alike {
            assert(a.kids[j as int] != b.kids[j as int]);
            return false;
        }
        assert(a.kids[j as int] == b.kids[j as int]);
        j += 1;
    }
    assert(a.kids =~= b.kids);
    true
}

} // verus!
