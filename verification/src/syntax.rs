//! The syntax tree that the rules read.
//!
//! A document is an arena of nodes. Every node has its range, its elements in
//! source order and the tokens of its header: the word that opens it, the name
//! after it, and the values that follow. Parents come before their children.

use vstd::prelude::*;

use crate::text::byte_len;

verus! {

/// A byte range of a document.
#[derive(Debug, Clone, Copy, PartialEq, Eq, Structural)]
pub struct Span {
    pub start: u32,
    pub end: u32,
}

impl Span {
    pub fn new(start: u32, end: u32) -> (r: Span)
        ensures
            r == (Span { start, end }),
    {
        Span { start, end }
    }
}

/// What a node stands for.
#[derive(Debug, Clone, Copy, PartialEq, Eq, Structural)]
pub enum SyntaxKind {
    /// The whole document.
    Root,
    /// A top-level block.
    Block,
    /// A module or a structural sub-block.
    Module,
    /// A `Key = value` line.
    Field,
}

/// What a token is.
#[derive(Debug, Clone, Copy, PartialEq, Eq, Structural)]
pub enum TokenKind {
    Word,
    Quoted,
    Comment,
    Equals,
    Newline,
    Whitespace,
}

/// A token with its text and range.
#[derive(Debug)]
pub struct SyntaxToken {
    pub kind: TokenKind,
    pub text: String,
    pub span: Span,
}

impl SyntaxToken {
    /// The range is as long as the text.
    pub open spec fn wf(&self) -> bool {
        self.span.start + byte_len(self.text@) == self.span.end
    }
}

/// Every token's range is as long as its text.
pub open spec fn tokens_wf(tokens: Seq<SyntaxToken>) -> bool {
    forall|k: int| 0 <= k < tokens.len() ==> (#[trigger] tokens[k]).wf()
}

/// A child of a node.
#[derive(Debug)]
pub enum Element {
    Node(usize),
    Token(SyntaxToken),
}

/// A node of the tree.
#[derive(Debug)]
pub struct SyntaxNode {
    pub kind: SyntaxKind,
    pub span: Span,
    pub parent: Option<usize>,
    /// Child nodes and tokens, in source order.
    pub elements: Vec<Element>,
    /// The opening word: a block's keyword, a module's slot, a field's key.
    pub head: Option<SyntaxToken>,
    /// A block's name, or the module name after `Slot =`.
    pub name: Option<SyntaxToken>,
    /// A module's tag, or the parent name of a block header.
    pub tag: Option<SyntaxToken>,
    /// A field's value tokens, or the tokens after `=` in a module header.
    pub values: Vec<SyntaxToken>,
}

/// A syntax error found while the tree was built.
#[derive(Debug)]
pub struct SyntaxError {
    pub start: u32,
    pub end: u32,
    pub message: String,
}

/// A parsed document. Node 0 is the root.
#[derive(Debug)]
pub struct Parse {
    pub nodes: Vec<SyntaxNode>,
    pub errors: Vec<SyntaxError>,
}

impl Parse {
    /// Parents come before their children, and the two agree on each other.
    pub open spec fn wf(&self) -> bool {
        &&& self.nodes@.len() > 0
        &&& self.nodes@[0].kind is Root
        &&& forall|i: int|
            #![trigger self.nodes@[i]]
            0 <= i < self.nodes@.len() ==> {
                &&& (self.nodes@[i].parent matches Some(p) ==> p < i)
                &&& self.nodes@[i].span.start <= self.nodes@[i].span.end
            }
        &&& forall|i: int, k: int|
            #![trigger self.nodes@[i].elements@[k]]
            0 <= i < self.nodes@.len() && 0 <= k < self.nodes@[i].elements@.len() ==> (
            self.nodes@[i].elements@[k] matches Element::Node(c) ==> {
                &&& i < c < self.nodes@.len()
                &&& self.nodes@[c as int].parent == Some(i as usize)
            })
        &&& forall|i: int, k: int|
            #![trigger self.nodes@[i].values@[k]]
            0 <= i < self.nodes@.len() && 0 <= k < self.nodes@[i].values@.len()
                ==> self.nodes@[i].values@[k].wf()
        &&& forall|i: int, k: int|
            #![trigger self.nodes@[i].elements@[k]]
            0 <= i < self.nodes@.len() && 0 <= k < self.nodes@[i].elements@.len() ==> (
            self.nodes@[i].elements@[k] matches Element::Token(t) ==> t.wf())
    }

    /// Whether a node opens a scope.
    pub open spec fn is_scope(&self, node: int) -> bool {
        self.nodes@[node].kind is Block || self.nodes@[node].kind is Module
    }

    /// Decides [`Parse::is_scope`].
    pub fn opens_scope(&self, node: usize) -> (r: bool)
        requires
            node < self.nodes.len(),
        ensures
            r == self.is_scope(node as int),
    {
        match self.nodes[node].kind {
            SyntaxKind::Block => true,
            SyntaxKind::Module => true,
            _ => false,
        }
    }

    /// The nearest scope among the ancestors of `node`.
    pub open spec fn outer_scope(&self, node: int) -> Option<int>
        decreases node,
    {
        match self.nodes@[node].parent {
            Some(p) => if p < node && node >= 0 {
                if self.is_scope(p as int) {
                    Some(p as int)
                } else {
                    self.outer_scope(p as int)
                }
            } else {
                None
            },
            None => None,
        }
    }

    /// Decides [`Parse::outer_scope`].
    pub fn enclosing_scope(&self, node: usize) -> (r: Option<usize>)
        requires
            self.wf(),
            node < self.nodes.len(),
        ensures
            match r {
                Some(p) => self.outer_scope(node as int) == Some(p as int) && p < node
                    && self.is_scope(p as int),
                None => self.outer_scope(node as int) is None,
            },
        decreases node,
    {
        match self.nodes[node].parent {
            Some(p) => if self.opens_scope(p) {
                Some(p)
            } else {
                self.enclosing_scope(p)
            },
            None => None,
        }
    }
}

/// The text of an optional token.
pub open spec fn token_text(token: Option<SyntaxToken>) -> Option<Seq<char>> {
    match token {
        Some(t) => Some(t.text@),
        None => None,
    }
}

/// The texts of a list of tokens.
pub open spec fn token_texts(tokens: Seq<SyntaxToken>) -> Seq<Seq<char>> {
    tokens.map_values(|t: SyntaxToken| t.text@)
}

} // verus!
