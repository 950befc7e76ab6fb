//! The reader that turns INI text into a tree.
//!
//! A document is read line by line. The first word of a line opens a scope, is
//! a field's key, or closes the innermost scope; which words open a scope is
//! the schema's to say.

use vstd::prelude::*;

use crate::analyzer::Analyzer;
use crate::model::{find_sub_block, scope_of, scope_schema, sub_block_at, ScopeSchema};
use crate::rope::{char_of_byte, lemma_char_of_byte_bounds, lemma_units_fit};
use crate::scopes::{find_slot, slot_at};
use crate::semantic::{
    element_holds, elements_apart, held_under, node_holds, token_in, tokens_apart,
};
use crate::syntax::{
    tokens_wf, Element, Parse, Span, SyntaxError, SyntaxKind, SyntaxNode, SyntaxToken, TokenKind,
};
use crate::text::{
    byte_len, bytes_in, chars_of, eq_ci, lemma_byte_len_add, same_ci, string_from,
};

verus! {

/// Where a run of characters stops.
#[derive(Debug, Clone, Copy, PartialEq, Eq, Structural)]
pub enum Stop {
    /// At the first character that is no blank.
    Solid,
    /// At the end of the line.
    Line,
    /// At the end of a word.
    Word,
    /// At a quotation mark, or at the end of the line.
    Quote,
}

/// Whether a character is a blank inside a line.
pub open spec fn is_blank(c: char) -> bool {
    c == ' ' || c == '\t' || c == '\r'
}

/// Whether a run stops at a character.
pub open spec fn stops(stop: Stop, c: char) -> bool {
    match stop {
        Stop::Solid => !is_blank(c),
        Stop::Line => c == '\n',
        Stop::Word => is_blank(c) || c == '\n' || c == ';' || c == '=',
        Stop::Quote => c == '"' || c == '\n',
    }
}

fn does_stop(stop: Stop, c: char) -> (r: bool)
    ensures
        r == stops(stop, c),
{
    let blank = c == ' ' || c == '\t' || c == '\r';
    match stop {
        Stop::Solid => !blank,
        Stop::Line => c == '\n',
        Stop::Word => blank || c == '\n' || c == ';' || c == '=',
        Stop::Quote => c == '"' || c == '\n',
    }
}

/// The end of the run that starts at `i`.
pub open spec fn run_end(s: Seq<char>, i: int, stop: Stop) -> int
    decreases s.len() - i,
{
    if 0 <= i < s.len() && !stops(stop, s[i]) {
        run_end(s, i + 1, stop)
    } else {
        i
    }
}

fn find_run_end(chars: &Vec<char>, from: usize, stop: Stop) -> (r: usize)
    requires
        from <= chars.len(),
    ensures
        r == run_end(chars@, from as int, stop),
        from <= r <= chars.len(),
{
    let mut i: usize = from;
    while i < chars.len() && !does_stop(stop, chars[i])
        invariant
            from <= i <= chars.len(),
            run_end(chars@, from as int, stop) == run_end(chars@, i as int, stop),
        decreases chars.len() - i,
    {
        i += 1;
    }
    i
}

/// The kind of the token that starts at `i`, and its end.
pub open spec fn lexeme(s: Seq<char>, i: int) -> (TokenKind, int) {
    if s[i] == '\n' {
        (TokenKind::Newline, i + 1)
    } else if is_blank(s[i]) {
        (TokenKind::Whitespace, run_end(s, i + 1, Stop::Solid))
    } else if s[i] == ';' {
        (TokenKind::Comment, run_end(s, i + 1, Stop::Line))
    } else if s[i] == '=' {
        (TokenKind::Equals, i + 1)
    } else if s[i] == '"' {
        let end = run_end(s, i + 1, Stop::Quote);
        (
            TokenKind::Quoted,
            if end < s.len() && s[end] == '"' {
                end + 1
            } else {
                end
            },
        )
    } else {
        (TokenKind::Word, run_end(s, i + 1, Stop::Word))
    }
}

fn read_lexeme(chars: &Vec<char>, i: usize) -> (r: (TokenKind, usize))
    requires
        i < chars.len(),
    ensures
        (r.0, r.1 as int) == lexeme(chars@, i as int),
        i < r.1 <= chars.len(),
{
    let c: char = chars[i];
    if c == '\n' {
        (TokenKind::Newline, i + 1)
    } else if c == ' ' || c == '\t' || c == '\r' {
        (TokenKind::Whitespace, find_run_end(chars, i + 1, Stop::Solid))
    } else if c == ';' {
        (TokenKind::Comment, find_run_end(chars, i + 1, Stop::Line))
    } else if c == '=' {
        (TokenKind::Equals, i + 1)
    } else if c == '"' {
        let end: usize = find_run_end(chars, i + 1, Stop::Quote);
        if end < chars.len() && chars[end] == '"' {
            (TokenKind::Quoted, end + 1)
        } else {
            (TokenKind::Quoted, end)
        }
    } else {
        (TokenKind::Word, find_run_end(chars, i + 1, Stop::Word))
    }
}

/// A token is the part of a text between two scalars.
pub open spec fn cut_from(
    s: Seq<char>,
    kind: TokenKind,
    from: int,
    to: int,
    t: SyntaxToken,
) -> bool {
    &&& t.kind == kind
    &&& t.text@ == s.subrange(from, to)
    &&& t.span == Span {
        start: byte_len(s.take(from)) as u32,
        end: byte_len(s.take(to)) as u32,
    }
}

/// The tokens are those of the text from scalar `i` on, one after the other.
pub open spec fn lexes(s: Seq<char>, i: int, tokens: Seq<SyntaxToken>) -> bool
    decreases tokens.len(),
{
    if tokens.len() == 0 {
        i == s.len()
    } else {
        &&& 0 <= i < s.len()
        &&& i < lexeme(s, i).1 <= s.len()
        &&& cut_from(s, lexeme(s, i).0, i, lexeme(s, i).1, tokens[0])
        &&& lexes(s, lexeme(s, i).1, tokens.skip(1))
    }
}

/// The tokens are those of the text up to scalar `i`.
spec fn lexes_to(s: Seq<char>, i: int, tokens: Seq<SyntaxToken>) -> bool {
    forall|more: Seq<SyntaxToken>| #[trigger] lexes(s, i, more) ==> lexes(s, 0, tokens + more)
}

proof fn lemma_lexes_one_more(
    s: Seq<char>,
    i: int,
    tokens: Seq<SyntaxToken>,
    t: SyntaxToken,
)
    requires
        0 <= i < s.len(),
        i < lexeme(s, i).1 <= s.len(),
        lexes_to(s, i, tokens),
        cut_from(s, lexeme(s, i).0, i, lexeme(s, i).1, t),
    ensures
        lexes_to(s, lexeme(s, i).1, tokens.push(t)),
{
    let to = lexeme(s, i).1;
    assert forall|more: Seq<SyntaxToken>| #[trigger] lexes(s, to, more) implies lexes(
        s,
        0,
        tokens.push(t) + more,
    ) by {
        let longer = seq![t] + more;
        assert(longer.skip(1) =~= more);
        assert(longer[0] == t);
        assert(lexes(s, i, longer));
        assert(tokens.push(t) + more =~= tokens + longer);
    }
}

/// The tokens of a text.
pub fn tokens_of(text: &str) -> (r: Vec<SyntaxToken>)
    requires
        byte_len(text@) <= u32::MAX,
    ensures
        lexes(text@, 0, r@),
{
    let ghost s = text@;
    let chars = chars_of(text);
    let mut out: Vec<SyntaxToken> = Vec::new();
    let mut i: usize = 0;
    let mut at: u32 = 0;
    assert(s.take(0) =~= Seq::empty());
    assert(forall|more: Seq<SyntaxToken>| #[trigger]
        lexes(s, 0, more) ==> Seq::<SyntaxToken>::empty() + more =~= more);
    while i < chars.len()
        invariant
            chars@ == s,
            byte_len(s) <= u32::MAX,
            i <= chars.len(),
            at == byte_len(s.take(i as int)),
            lexes_to(s, i as int, out@),
        decreases chars.len() - i,
    {
        let (kind, end) = read_lexeme(&chars, i);
        let piece = string_from(&chars, i, end);
        let more: usize = bytes_in(piece.as_str());
        proof {
            assert(s.take(end as int) =~= s.take(i as int) + piece@);
            lemma_byte_len_add(s.take(i as int), piece@);
            assert(s =~= s.take(end as int) + s.skip(end as int));
            lemma_byte_len_add(s.take(end as int), s.skip(end as int));
        }
        let next: u32 = at + more as u32;
        let token = SyntaxToken { kind, text: piece, span: Span { start: at, end: next } };
        proof {
            lemma_lexes_one_more(s, i as int, out@, token);
        }
        out.push(token);
        i = end;
        at = next;
    }
    proof {
        let none = Seq::<SyntaxToken>::empty();
        assert(lexes(s, i as int, none));
        assert(out@ + none =~= out@);
    }
    out
}

/// The text of a list of tokens from token `i` on.
pub open spec fn joined_text(tokens: Seq<SyntaxToken>, i: int) -> Seq<char>
    decreases tokens.len() - i,
{
    if i < 0 || i >= tokens.len() {
        Seq::empty()
    } else {
        tokens[i].text@ + joined_text(tokens, i + 1)
    }
}

proof fn lemma_joined_skip(tokens: Seq<SyntaxToken>, i: int)
    requires
        1 <= i,
        tokens.len() >= 1,
    ensures
        joined_text(tokens, i) == joined_text(tokens.skip(1), i - 1),
    decreases tokens.len() - i,
{
    if i < tokens.len() {
        assert(tokens.skip(1)[i - 1] == tokens[i]);
        lemma_joined_skip(tokens, i + 1);
    }
}

/// No token is empty, and every one ends before the next one starts.
pub open spec fn in_source_order(tokens: Seq<SyntaxToken>) -> bool {
    &&& forall|a: int|
        0 <= a < tokens.len() ==> (#[trigger] tokens[a]).span.start < tokens[a].span.end
    &&& forall|a: int, b: int|
        #![trigger tokens[a], tokens[b]]
        0 <= a < b < tokens.len() ==> tokens[a].span.end <= tokens[b].span.start
}

/// Tokens that are those of a text from a scalar on make up the text from
/// there, each one is as long as its range, and they stand in order.
pub proof fn lemma_lexed_text(s: Seq<char>, i: int, tokens: Seq<SyntaxToken>)
    requires
        byte_len(s) <= u32::MAX,
        0 <= i <= s.len(),
        lexes(s, i, tokens),
    ensures
        joined_text(tokens, 0) == s.skip(i),
        tokens_wf(tokens),
        in_source_order(tokens),
        forall|k: int|
            0 <= k < tokens.len() ==> byte_len(s.take(i)) <= (#[trigger] tokens[k]).span.start,
        byte_len(s) == if tokens.len() == 0 {
            byte_len(s.take(i))
        } else {
            tokens.last().span.end as nat
        },
    decreases tokens.len(),
{
    assert(s.take(s.len() as int) =~= s);
    if tokens.len() == 0 {
        assert(s.skip(i) =~= Seq::empty());
    } else {
        let to = lexeme(s, i).1;
        lemma_lexed_text(s, to, tokens.skip(1));
        lemma_joined_skip(tokens, 1);
        assert(s.skip(i) =~= s.subrange(i, to) + s.skip(to));
        assert(tokens[0].wf()) by {
            assert(s.take(to) =~= s.take(i) + s.subrange(i, to));
            lemma_byte_len_add(s.take(i), s.subrange(i, to));
            assert(s =~= s.take(to) + s.skip(to));
            lemma_byte_len_add(s.take(to), s.skip(to));
        }
        let rest = tokens.skip(1);
        assert(forall|k: int| 0 < k < tokens.len() ==> #[trigger] tokens[k] == rest[k - 1]);
        assert(byte_len(s.take(i)) < byte_len(s.take(to)) <= u32::MAX) by {
            lemma_units_fit(s.subrange(i, to));
            assert(s.take(to) =~= s.take(i) + s.subrange(i, to));
            lemma_byte_len_add(s.take(i), s.subrange(i, to));
            assert(s =~= s.take(to) + s.skip(to));
            lemma_byte_len_add(s.take(to), s.skip(to));
        }
    }
}

/// The model of a token.
pub struct TokenModel {
    pub kind: TokenKind,
    pub text: Seq<char>,
    pub span: Span,
}

pub open spec fn token_model(token: SyntaxToken) -> TokenModel {
    TokenModel { kind: token.kind, text: token.text@, span: token.span }
}

pub open spec fn token_models(tokens: Seq<SyntaxToken>) -> Seq<TokenModel> {
    tokens.map_values(|t: SyntaxToken| token_model(t))
}

pub open spec fn maybe_model(token: Option<SyntaxToken>) -> Option<TokenModel> {
    match token {
        Some(t) => Some(token_model(t)),
        None => None,
    }
}

/// The leaves of a node from element `k` on, in order.
pub open spec fn leaves_under(nodes: Seq<SyntaxNode>, node: int, k: int) -> Seq<TokenModel>
    decreases nodes.len() - node, nodes[node].elements@.len() - k,
{
    if k < 0 || k >= nodes[node].elements@.len() {
        Seq::empty()
    } else {
        (match nodes[node].elements@[k] {
            Element::Node(c) => if node < c < nodes.len() {
                leaves_under(nodes, c as int, 0)
            } else {
                Seq::empty()
            },
            Element::Token(t) => seq![token_model(t)],
        }) + leaves_under(nodes, node, k + 1)
    }
}

/// Every node of the subtree comes before `end`.
spec fn within(nodes: Seq<SyntaxNode>, node: int, end: int) -> bool
    decreases nodes.len() - node,
{
    &&& 0 <= node < end <= nodes.len()
    &&& forall|k: int|
        0 <= k < nodes[node].elements@.len() ==> (
        #[trigger] nodes[node].elements@[k] matches Element::Node(c) ==> node < c < end && within(
            nodes,
            c as int,
            end,
        ))
}

/// The nodes keep their elements from `from` on, up to `end`.
spec fn keeps(a: Seq<SyntaxNode>, b: Seq<SyntaxNode>, from: int, end: int) -> bool {
    &&& end <= a.len() <= b.len()
    &&& forall|i: int|
        #![trigger a[i]]
        #![trigger b[i]]
        from <= i < end ==> a[i].elements@ == b[i].elements@
}

proof fn lemma_frame(a: Seq<SyntaxNode>, b: Seq<SyntaxNode>, node: int, k: int, end: int)
    requires
        within(a, node, end),
        keeps(a, b, node, end),
        0 <= k,
    ensures
        leaves_under(a, node, k) == leaves_under(b, node, k),
        within(b, node, end),
    decreases a.len() - node, a[node].elements@.len() - k,
{
    assert(a[node].elements@ == b[node].elements@);
    assert forall|j: int| 0 <= j < b[node].elements@.len() implies (
    #[trigger] b[node].elements@[j] matches Element::Node(c) ==> node < c < end && within(
        b,
        c as int,
        end,
    )) by {
        if let Element::Node(c) = b[node].elements@[j] {
            assert(a[node].elements@[j] matches Element::Node(x) && x == c);
            lemma_frame(a, b, c as int, 0, end);
        }
    }
    if k < a[node].elements@.len() {
        assert(a[node].elements@[k] == b[node].elements@[k]);
        if let Element::Node(c) = a[node].elements@[k] {
            assert(within(a, c as int, end));
            lemma_frame(a, b, c as int, 0, end);
        }
        lemma_frame(a, b, node, k + 1, end);
    }
}

/// Children come after their parents, inside the arena.
spec fn rooted(nodes: Seq<SyntaxNode>) -> bool {
    forall|i: int, k: int|
        #![trigger nodes[i].elements@[k]]
        0 <= i < nodes.len() && 0 <= k < nodes[i].elements@.len() ==> (
        nodes[i].elements@[k] matches Element::Node(c) ==> i < c < nodes.len())
}

proof fn lemma_within_all(nodes: Seq<SyntaxNode>, node: int)
    requires
        rooted(nodes),
        0 <= node < nodes.len(),
    ensures
        within(nodes, node, nodes.len() as int),
    decreases nodes.len() - node,
{
    assert forall|k: int| 0 <= k < nodes[node].elements@.len() implies (
    #[trigger] nodes[node].elements@[k] matches Element::Node(c) ==> node < c < nodes.len() && within(
        nodes,
        c as int,
        nodes.len() as int,
    )) by {
        if let Element::Node(c) = nodes[node].elements@[k] {
            lemma_within_all(nodes, c as int);
        }
    }
}

/// The node at a depth of the open scopes; the root is at depth 0.
pub open spec fn at_depth(open: Seq<usize>, depth: int) -> int {
    if depth <= 0 {
        0
    } else {
        open[depth - 1] as int
    }
}

/// The innermost open scope, or the root.
pub open spec fn innermost(open: Seq<usize>) -> int {
    at_depth(open, open.len() as int)
}

/// The scope at `depth` is the last element of the one around it, and what
/// stands before it there was done before it.
spec fn last_inside(nodes: Seq<SyntaxNode>, outer: int, inner: int) -> bool {
    let elements = nodes[outer].elements@;
    &&& 0 <= outer < inner < nodes.len()
    &&& inner <= usize::MAX
    &&& elements.len() > 0
    &&& elements.last() == Element::Node(inner as usize)
    &&& forall|k: int|
        0 <= k < elements.len() - 1 ==> (#[trigger] elements[k] matches Element::Node(c) ==> within(
            nodes,
            c as int,
            inner,
        ))
}

/// Every open scope is the last element of the one around it.
spec fn well_open(nodes: Seq<SyntaxNode>, open: Seq<usize>) -> bool {
    forall|depth: int|
        1 <= depth <= open.len() ==> last_inside(
            nodes,
            #[trigger] at_depth(open, depth - 1),
            at_depth(open, depth),
        )
}

proof fn lemma_element_added(
    a: Seq<SyntaxNode>,
    b: Seq<SyntaxNode>,
    node: int,
    k: int,
    last: Element,
)
    requires
        rooted(a),
        0 <= node < a.len() <= b.len(),
        keeps(a, b, node + 1, a.len() as int),
        b[node].elements@ == a[node].elements@.push(last),
        0 <= k <= a[node].elements@.len(),
    ensures
        leaves_under(b, node, k) == leaves_under(a, node, k) + match last {
            Element::Node(c) => if node < c < b.len() {
                leaves_under(b, c as int, 0)
            } else {
                Seq::empty()
            },
            Element::Token(t) => seq![token_model(t)],
        },
    decreases a[node].elements@.len() - k,
{
    let n = a[node].elements@.len();
    if k < n {
        lemma_element_added(a, b, node, k + 1, last);
        assert(b[node].elements@[k] == a[node].elements@[k]);
        if let Element::Node(c) = a[node].elements@[k] {
            lemma_within_all(a, c as int);
            lemma_frame(a, b, c as int, 0, a.len() as int);
        }
        let more = match last {
            Element::Node(c) => if node < c < b.len() {
                leaves_under(b, c as int, 0)
            } else {
                Seq::empty()
            },
            Element::Token(t) => seq![token_model(t)],
        };
        assert(leaves_under(b, node, k) =~= leaves_under(a, node, k) + more);
    } else {
        assert(b[node].elements@[k] == last);
        assert(leaves_under(b, node, k + 1) =~= Seq::empty());
        assert(leaves_under(a, node, k) =~= Seq::empty());
        let here = leaves_under(b, node, k);
        assert(here =~= Seq::<TokenModel>::empty() + here);
    }
}

proof fn lemma_outer_text(
    a: Seq<SyntaxNode>,
    b: Seq<SyntaxNode>,
    outer: int,
    inner: int,
    k: int,
    more: Seq<TokenModel>,
)
    requires
        last_inside(a, outer, inner),
        a.len() <= b.len(),
        a[outer].elements@ == b[outer].elements@,
        keeps(a, b, outer, inner),
        leaves_under(b, inner, 0) == leaves_under(a, inner, 0) + more,
        0 <= k < a[outer].elements@.len(),
    ensures
        leaves_under(b, outer, k) == leaves_under(a, outer, k) + more,
    decreases a[outer].elements@.len() - k,
{
    let elements = a[outer].elements@;
    if k < elements.len() - 1 {
        lemma_outer_text(a, b, outer, inner, k + 1, more);
        if let Element::Node(c) = elements[k] {
            assert(within(a, c as int, inner));
            lemma_outer_child(a, b, outer, inner, k);
        }
        assert(leaves_under(b, outer, k) =~= leaves_under(a, outer, k) + more);
    } else {
        assert(elements[k] == Element::Node(inner as usize));
        assert(leaves_under(a, outer, k + 1) =~= Seq::empty());
        assert(leaves_under(b, outer, k + 1) =~= Seq::empty());
        assert(leaves_under(b, outer, k) =~= leaves_under(a, outer, k) + more);
    }
}

/// A child that was done before the innermost scope keeps its leaves.
proof fn lemma_outer_child(
    a: Seq<SyntaxNode>,
    b: Seq<SyntaxNode>,
    outer: int,
    inner: int,
    k: int,
)
    requires
        last_inside(a, outer, inner),
        keeps(a, b, outer, inner),
        0 <= k < a[outer].elements@.len() - 1,
        a[outer].elements@[k] is Node,
    ensures
        ({
            let c = a[outer].elements@[k]->Node_0 as int;
            outer < c ==> leaves_under(a, c, 0) == leaves_under(b, c, 0) && within(b, c, inner)
        }),
{
    let c = a[outer].elements@[k]->Node_0 as int;
    assert(within(a, c, inner));
    if outer < c {
        lemma_frame(a, b, c, 0, inner);
    }
}

/// What is added to the innermost scope is added to every scope around it.
proof fn lemma_added_everywhere(
    a: Seq<SyntaxNode>,
    b: Seq<SyntaxNode>,
    open: Seq<usize>,
    depth: int,
    more: Seq<TokenModel>,
)
    requires
        rooted(a),
        well_open(a, open),
        0 <= depth <= open.len(),
        a.len() > 0,
        keeps(a, b, 0, innermost(open)),
        leaves_under(b, innermost(open), 0) == leaves_under(a, innermost(open), 0) + more,
    ensures
        leaves_under(b, at_depth(open, depth), 0) == leaves_under(a, at_depth(open, depth), 0) + more,
        depth < open.len() ==> at_depth(open, depth) < innermost(open),
        depth < open.len() ==> last_inside(b, at_depth(open, depth), at_depth(open, depth + 1)),
    decreases open.len() - depth,
{
    if depth < open.len() {
        lemma_added_everywhere(a, b, open, depth + 1, more);
        let outer = at_depth(open, depth);
        let inner = at_depth(open, depth + 1);
        assert(last_inside(a, at_depth(open, (depth + 1) - 1), inner));
        assert(keeps(a, b, outer, inner));
        lemma_outer_text(a, b, outer, inner, 0, more);
        let elements = a[outer].elements@;
        assert forall|k: int| 0 <= k < elements.len() - 1 implies (
        #[trigger] elements[k] matches Element::Node(c) ==> within(b, c as int, inner)) by {
            if let Element::Node(c) = elements[k] {
                assert(rooted(a));
                lemma_outer_child(a, b, outer, inner, k);
            }
        }
    }
}

/// Everything of a node but its end and its elements.
spec fn same_header(a: SyntaxNode, b: SyntaxNode) -> bool {
    &&& a.kind == b.kind
    &&& a.span.start == b.span.start
    &&& a.parent == b.parent
    &&& a.head == b.head
    &&& a.name == b.name
    &&& a.tag == b.tag
    &&& a.values == b.values
}

/// Elements were only added.
#[verifier::opaque]
spec fn grown(a: Seq<Element>, b: Seq<Element>) -> bool {
    &&& a.len() <= b.len()
    &&& forall|k: int|
        #![trigger a[k]]
        #![trigger b[k]]
        0 <= k < a.len() ==> a[k] == b[k]
}

/// No node loses its header or an element.
spec fn headers_kept(a: Seq<SyntaxNode>, b: Seq<SyntaxNode>) -> bool {
    &&& a.len() <= b.len()
    &&& forall|i: int|
        #![trigger a[i]]
        #![trigger b[i]]
        0 <= i < a.len() ==> same_header(a[i], b[i]) && grown(a[i].elements@, b[i].elements@)
}

proof fn lemma_kept_twice(a: Seq<SyntaxNode>, b: Seq<SyntaxNode>, c: Seq<SyntaxNode>)
    requires
        headers_kept(a, b),
        headers_kept(b, c),
    ensures
        headers_kept(a, c),
{
    assert forall|i: int|
        #![trigger a[i]]
        #![trigger c[i]]
        0 <= i < a.len() implies same_header(a[i], c[i]) && grown(
        a[i].elements@,
        c[i].elements@,
    ) by {
        assert(same_header(a[i], b[i]));
        assert(same_header(b[i], c[i]));
        reveal(grown);
    }
}

proof fn lemma_kept_same(a: Seq<SyntaxNode>)
    ensures
        headers_kept(a, a),
{
    reveal(grown);
}

/// Whether a token stands among the elements of a node.
pub open spec fn holds_token(node: SyntaxNode, token: TokenModel) -> bool {
    exists|k: int|
        0 <= k < node.elements@.len() && (#[trigger] node.elements@[k] matches Element::Token(t)
            && token_model(t) == token)
}

/// The tokens from `from` to `to` stand among the elements of a node.
pub open spec fn stands(
    nodes: Seq<SyntaxNode>,
    node: int,
    tokens: Seq<SyntaxToken>,
    from: int,
    to: int,
) -> bool {
    forall|i: int|
        from <= i < to ==> holds_token(nodes[node], token_model(#[trigger] tokens[i]))
}

proof fn lemma_stands_kept(
    a: Seq<SyntaxNode>,
    b: Seq<SyntaxNode>,
    node: int,
    tokens: Seq<SyntaxToken>,
    from: int,
    to: int,
)
    requires
        headers_kept(a, b),
        0 <= node < a.len(),
        stands(a, node, tokens, from, to),
    ensures
        stands(b, node, tokens, from, to),
{
    assert forall|i: int| from <= i < to implies holds_token(
        b[node],
        token_model(#[trigger] tokens[i]),
    ) by {
        let t = token_model(tokens[i]);
        assert(holds_token(a[node], t));
        let k = choose|k: int|
            0 <= k < a[node].elements@.len() && (
            #[trigger] a[node].elements@[k] matches Element::Token(x) && token_model(x) == t);
        reveal(grown);
        assert(b[node].elements@[k] == a[node].elements@[k]);
    }
}

/// Whether a node is an element of another one.
pub open spec fn child_of(nodes: Seq<SyntaxNode>, parent: int, c: int) -> bool {
    exists|k: int|
        0 <= k < nodes[parent].elements@.len() && (
        #[trigger] nodes[parent].elements@[k] matches Element::Node(x) && x == c)
}

/// The nodes among the elements come in the order in which they were made, none
/// of them twice.
pub open spec fn children_in_order(elements: Seq<Element>) -> bool {
    forall|j: int, k: int|
        #![trigger elements[j], elements[k]]
        0 <= j < k < elements.len() && elements[j] is Node && elements[k] is Node
            ==> elements[j]->Node_0 < elements[k]->Node_0
}

/// Every node but the root is an element of its parent, exactly once, and the
/// nodes in a node stand in source order.
pub open spec fn linked(nodes: Seq<SyntaxNode>) -> bool {
    &&& forall|c: int|
        0 < c < nodes.len() ==> ((#[trigger] nodes[c]).parent matches Some(p) && p < c && child_of(
            nodes,
            p as int,
            c,
        ))
    &&& forall|i: int| 0 <= i < nodes.len() ==> children_in_order((#[trigger] nodes[i]).elements@)
}

proof fn lemma_child_kept(a: Seq<SyntaxNode>, b: Seq<SyntaxNode>, parent: int, c: int)
    requires
        headers_kept(a, b),
        0 <= parent < a.len(),
        child_of(a, parent, c),
    ensures
        child_of(b, parent, c),
{
    let k = choose|k: int|
        0 <= k < a[parent].elements@.len() && (
        #[trigger] a[parent].elements@[k] matches Element::Node(x) && x == c);
    reveal(grown);
    assert(b[parent].elements@[k] == a[parent].elements@[k]);
}

/// Nodes stay linked when one of them gets an element, and when the element is
/// the one node that was added.
proof fn lemma_linked_kept(a: &Parse, b: &Parse, top: int, last: Element)
    requires
        a.wf(),
        linked(a.nodes@),
        headers_kept(a.nodes@, b.nodes@),
        0 <= top < a.nodes@.len(),
        b.nodes@[top].elements@ == a.nodes@[top].elements@.push(last),
        forall|i: int|
            0 <= i < a.nodes@.len() && i != top ==> (#[trigger] b.nodes@[i]).elements@
                == a.nodes@[i].elements@,
        match last {
            Element::Token(_) => b.nodes@.len() == a.nodes@.len(),
            Element::Node(c) => {
                &&& c == a.nodes@.len()
                &&& b.nodes@.len() == a.nodes@.len() + 1
                &&& b.nodes@[c as int].parent == Some(top as usize)
                &&& all_tokens(b.nodes@[c as int].elements@)
            },
        },
    ensures
        linked(b.nodes@),
{
    let n = a.nodes@.len();
    let nodes = b.nodes@;
    assert forall|c: int| 0 < c < nodes.len() implies ((#[trigger] nodes[c]).parent matches Some(p)
        && p < c && child_of(nodes, p as int, c)) by {
        if c < n {
            assert(same_header(a.nodes@[c], nodes[c]));
            lemma_child_kept(a.nodes@, nodes, a.nodes@[c].parent->Some_0 as int, c);
        } else {
            let k = a.nodes@[top].elements@.len() as int;
            assert(nodes[top].elements@[k] matches Element::Node(x) && x == c);
        }
    }
    assert forall|i: int| 0 <= i < nodes.len() implies children_in_order(
        (#[trigger] nodes[i]).elements@,
    ) by {
        if i == top {
            let had = a.nodes@[top].elements@;
            let has = nodes[top].elements@;
            assert(children_in_order(had));
            assert forall|j: int, k: int|
                #![trigger has[j], has[k]]
                0 <= j < k < has.len() && has[j] is Node && has[k] is Node implies has[j]->Node_0
                < has[k]->Node_0 by {
                assert(has[j] == had[j]);
                assert(a.nodes@[top].elements@[j] is Node);
                if k < had.len() {
                    assert(has[k] == had[k]);
                }
            }
        } else if i < n {
            assert(children_in_order(a.nodes@[i].elements@));
        } else {
            assert(all_tokens(nodes[i].elements@));
        }
    }
}

/// A node starts with its first word.
pub open spec fn headed(node: SyntaxNode) -> bool {
    &&& node.elements@.len() > 0
    &&& node.elements@[0] matches Element::Token(t) && maybe_model(node.head) == Some(
        token_model(t),
    ) && node.span.start == t.span.start
}

/// A node ends with its last token.
spec fn ended(node: SyntaxNode) -> bool {
    &&& node.elements@.len() > 0
    &&& node.elements@.last() matches Element::Token(t) && node.span.end == t.span.end
}

/// The nodes are linked, every one but the root starts with its first word, and
/// every one that is not open ends with its last token.
#[verifier::opaque]
spec fn shaped(nodes: Seq<SyntaxNode>, open: Seq<usize>) -> bool {
    &&& linked(nodes)
    &&& forall|i: int| 0 < i < nodes.len() ==> headed(#[trigger] nodes[i])
    &&& forall|i: int|
        0 < i < nodes.len() && !open.contains(i as usize) ==> ended(#[trigger] nodes[i])
}

/// The innermost scope counts as open, unless it is the root.
proof fn lemma_top_open(open: Seq<usize>)
    ensures
        innermost(open) != 0 ==> open.contains(innermost(open) as usize),
{
    if open.len() > 0 {
        assert(open[open.len() - 1] == open.last());
    }
}

/// Nodes keep their shape when the innermost scope gets an element.
proof fn lemma_shaped_added(a: &Parse, b: &Parse, open: Seq<usize>, last: Element)
    requires
        a.wf(),
        shaped(a.nodes@, open),
        headers_kept(a.nodes@, b.nodes@),
        0 <= innermost(open) < a.nodes@.len(),
        b.nodes@[innermost(open)].elements@ == a.nodes@[innermost(open)].elements@.push(last),
        forall|i: int|
            0 <= i < a.nodes@.len() && i != innermost(open) ==> #[trigger] b.nodes@[i]
                == a.nodes@[i],
        match last {
            Element::Token(_) => b.nodes@.len() == a.nodes@.len(),
            Element::Node(c) => {
                &&& c == a.nodes@.len()
                &&& b.nodes@.len() == a.nodes@.len() + 1
                &&& b.nodes@[c as int].parent == Some(innermost(open) as usize)
                &&& all_tokens(b.nodes@[c as int].elements@)
                &&& headed(b.nodes@[c as int])
                &&& ended(b.nodes@[c as int])
            },
        },
    ensures
        shaped(b.nodes@, open),
        last matches Element::Node(c) ==> shaped(b.nodes@, open.push(c)),
{
    reveal(shaped);
    let top = innermost(open);
    lemma_top_open(open);
    lemma_linked_kept(a, b, top, last);
    let nodes = b.nodes@;
    assert forall|i: int| 0 < i < nodes.len() implies headed(#[trigger] nodes[i]) by {
        if i < a.nodes@.len() {
            assert(headed(a.nodes@[i]));
            assert(same_header(a.nodes@[i], nodes[i]));
        }
    }
    assert forall|i: int| 0 < i < nodes.len() && !open.contains(i as usize) implies ended(
        #[trigger] nodes[i],
    ) by {
        if i < a.nodes@.len() {
            assert(ended(a.nodes@[i]));
        }
    }
    if let Element::Node(c) = last {
        let more = open.push(c);
        assert forall|i: int| 0 < i < nodes.len() && !more.contains(i as usize) implies ended(
            #[trigger] nodes[i],
        ) by {
            if open.contains(i as usize) {
                let k = choose|k: int| 0 <= k < open.len() && open[k] == i as usize;
                assert(more[k] == i as usize);
            }
        }
    }
}

/// Nodes keep their shape when the end of one that is open, or of the root,
/// moves.
proof fn lemma_shaped_moved(
    a: Seq<SyntaxNode>,
    b: Seq<SyntaxNode>,
    open: Seq<usize>,
    node: usize,
)
    requires
        shaped(a, open),
        headers_kept(a, b),
        a.len() == b.len(),
        node == 0 || open.contains(node),
        forall|i: int|
            #![trigger b[i]]
            0 <= i < b.len() ==> b[i].elements@ == a[i].elements@ && (i != node ==> b[i].span
                == a[i].span),
    ensures
        shaped(b, open),
{
    reveal(shaped);
    assert forall|c: int| 0 < c < b.len() implies ((#[trigger] b[c]).parent matches Some(p) && p
        < c && child_of(b, p as int, c)) by {
        assert(same_header(a[c], b[c]));
        lemma_child_kept(a, b, a[c].parent->Some_0 as int, c);
    }
    assert forall|i: int| 0 <= i < b.len() implies children_in_order(
        (#[trigger] b[i]).elements@,
    ) by {
        assert(children_in_order(a[i].elements@));
    }
    assert forall|i: int| 0 < i < b.len() implies headed(#[trigger] b[i]) by {
        assert(headed(a[i]));
        assert(same_header(a[i], b[i]));
    }
    assert forall|i: int| 0 < i < b.len() && !open.contains(i as usize) implies ended(
        #[trigger] b[i],
    ) by {
        assert(ended(a[i]));
    }
}

/// Nodes keep their shape when a scope that ends with its last token is closed.
proof fn lemma_shaped_closed(nodes: Seq<SyntaxNode>, open: Seq<usize>)
    requires
        shaped(nodes, open),
        open.len() > 0,
        ended(nodes[innermost(open)]),
    ensures
        shaped(nodes, open.drop_last()),
{
    reveal(shaped);
    let less = open.drop_last();
    assert forall|i: int| 0 < i < nodes.len() && !less.contains(i as usize) implies ended(
        #[trigger] nodes[i],
    ) by {
        if open.contains(i as usize) {
            let k = choose|k: int| 0 <= k < open.len() && open[k] == i as usize;
            if k < less.len() {
                assert(less[k] == i as usize);
            }
        }
    }
}

proof fn lemma_outer_kept(a: &Parse, b: &Parse, node: int)
    requires
        headers_kept(a.nodes@, b.nodes@),
        0 <= node < a.nodes@.len(),
    ensures
        a.outer_scope(node) == b.outer_scope(node),
    decreases node,
{
    assert(same_header(a.nodes@[node], b.nodes@[node]));
    if let Some(p) = a.nodes@[node].parent {
        if p < node {
            assert(same_header(a.nodes@[p as int], b.nodes@[p as int]));
            lemma_outer_kept(a, b, p as int);
        }
    }
}

proof fn lemma_scope_kept(analyzer: &Analyzer, a: &Parse, b: &Parse, node: int)
    requires
        headers_kept(a.nodes@, b.nodes@),
        0 <= node < a.nodes@.len(),
    ensures
        scope_of(analyzer, a, node) == scope_of(analyzer, b, node),
    decreases node,
{
    assert(same_header(a.nodes@[node], b.nodes@[node]));
    lemma_outer_kept(a, b, node);
    if let Some(p) = a.outer_scope(node) {
        if 0 <= p < node {
            lemma_scope_kept(analyzer, a, b, p);
        }
    }
}

/// Whether a word opens a scope inside a scope of that schema.
pub open spec fn opens_in(scope: ScopeSchema<'_>, word: Seq<char>) -> bool {
    slot_at(scope.slot_list(), word, 0) < scope.slot_list().len() || sub_block_at(
        scope.sub_list(),
        word,
        0,
    ) < scope.sub_list().len()
}

/// A node is what the schema makes of its first word. At the top, a word that
/// names a block opens it, unless the block is a single line; inside a scope,
/// the words of its slots and sub-blocks open scopes, and all others are keys.
pub open spec fn ruled_node(analyzer: &Analyzer, parse: &Parse, c: int) -> bool {
    let n = parse.nodes@[c];
    &&& n.head is Some
    &&& n.parent matches Some(p) && p < c && if p == 0 {
        &&& n.kind is Block || n.kind is Field
        &&& analyzer.block_of(n.head->Some_0.text@) matches Some(b) ==> (n.kind is Block)
            == b.terminated
    } else {
        n.kind == if opens_in(scope_of(analyzer, parse, p as int), n.head->Some_0.text@) {
            SyntaxKind::Module
        } else {
            SyntaxKind::Field
        }
    }
}

/// Every node is what the schema makes of its first word.
pub open spec fn ruled(analyzer: &Analyzer, parse: &Parse) -> bool {
    forall|c: int| 0 < c < parse.nodes@.len() ==> #[trigger] ruled_node(analyzer, parse, c)
}

proof fn lemma_ruled_kept(analyzer: &Analyzer, a: &Parse, b: &Parse, c: int)
    requires
        headers_kept(a.nodes@, b.nodes@),
        0 < c < a.nodes@.len(),
        ruled_node(analyzer, a, c),
    ensures
        ruled_node(analyzer, b, c),
{
    assert(same_header(a.nodes@[c], b.nodes@[c]));
    lemma_scope_kept(analyzer, a, b, a.nodes@[c].parent->Some_0 as int);
}

/// What an element adds to the leaves, right after it was added to `node`.
spec fn element_leaves(nodes: Seq<SyntaxNode>, node: int, element: Element) -> Seq<TokenModel> {
    match element {
        Element::Node(c) => if node < c < nodes.len() {
            leaves_under(nodes, c as int, 0)
        } else {
            Seq::empty()
        },
        Element::Token(t) => seq![token_model(t)],
    }
}

/// Adding an element to the innermost scope adds its leaves to the document, and
/// keeps the open scopes open.
proof fn lemma_added(a: &Parse, b: &Parse, open: Seq<usize>, last: Element)
    requires
        a.wf(),
        well_open(a.nodes@, open),
        innermost(open) < a.nodes@.len() <= b.nodes@.len(),
        keeps(a.nodes@, b.nodes@, 0, innermost(open)),
        keeps(a.nodes@, b.nodes@, innermost(open) + 1, a.nodes@.len() as int),
        b.nodes@[innermost(open)].elements@ == a.nodes@[innermost(open)].elements@.push(last),
    ensures
        well_open(b.nodes@, open),
        leaves_under(b.nodes@, 0, 0) == leaves_under(a.nodes@, 0, 0) + element_leaves(
            b.nodes@,
            innermost(open),
            last,
        ),
{
    let top = innermost(open);
    let more = element_leaves(b.nodes@, top, last);
    assert(0 <= top) by {
        if open.len() > 0 {
            assert(last_inside(a.nodes@, at_depth(open, open.len() - 1), top));
        }
    }
    assert(rooted(a.nodes@));
    lemma_element_added(a.nodes@, b.nodes@, top, 0, last);
    lemma_added_everywhere(a.nodes@, b.nodes@, open, 0, more);
    assert forall|depth: int| 1 <= depth <= open.len() implies last_inside(
        b.nodes@,
        #[trigger] at_depth(open, depth - 1),
        at_depth(open, depth),
    ) by {
        lemma_added_everywhere(a.nodes@, b.nodes@, open, depth - 1, more);
    }
}

/// The leaves that the tokens from `from` to `to` stand for.
pub open spec fn range_leaves(tokens: Seq<SyntaxToken>, from: int, to: int) -> Seq<TokenModel>
    decreases to - from,
{
    if from < 0 || from >= to {
        Seq::empty()
    } else {
        seq![token_model(tokens[from])] + range_leaves(tokens, from + 1, to)
    }
}

proof fn lemma_range_split(tokens: Seq<SyntaxToken>, from: int, mid: int, to: int)
    requires
        0 <= from <= mid <= to,
    ensures
        range_leaves(tokens, from, to) == range_leaves(tokens, from, mid) + range_leaves(
            tokens,
            mid,
            to,
        ),
    decreases mid - from,
{
    if from < mid {
        lemma_range_split(tokens, from + 1, mid, to);
        assert(range_leaves(tokens, from, to) =~= range_leaves(tokens, from, mid) + range_leaves(
            tokens,
            mid,
            to,
        ));
    } else {
        assert(range_leaves(tokens, from, mid) + range_leaves(tokens, mid, to) =~= range_leaves(
            tokens,
            from,
            to,
        ));
    }
}

/// The text of a list of leaves from leaf `i` on.
pub open spec fn leaf_text(leaves: Seq<TokenModel>, i: int) -> Seq<char>
    decreases leaves.len() - i,
{
    if i < 0 || i >= leaves.len() {
        Seq::empty()
    } else {
        leaves[i].text + leaf_text(leaves, i + 1)
    }
}

pub proof fn lemma_range_leaf(tokens: Seq<SyntaxToken>, from: int, to: int, i: int)
    requires
        0 <= from <= to,
    ensures
        range_leaves(tokens, from, to).len() == to - from,
        0 <= i < to - from ==> range_leaves(tokens, from, to)[i] == token_model(tokens[from + i]),
    decreases to - from,
{
    if from < to {
        lemma_range_leaf(tokens, from + 1, to, i - 1);
    }
}

proof fn lemma_leaves_are_joined(tokens: Seq<SyntaxToken>, i: int)
    requires
        0 <= i <= tokens.len(),
    ensures
        leaf_text(range_leaves(tokens, 0, tokens.len() as int), i) == joined_text(tokens, i),
    decreases tokens.len() - i,
{
    lemma_range_leaf(tokens, 0, tokens.len() as int, i);
    if i < tokens.len() {
        lemma_leaves_are_joined(tokens, i + 1);
    }
}

/// Where the token before `i` ends.
spec fn end_before(tokens: Seq<SyntaxToken>, i: int) -> int {
    if i <= 0 {
        0
    } else {
        tokens[i - 1].span.end as int
    }
}

/// A list of tokens as a reader takes them.
spec fn readable(tokens: Seq<SyntaxToken>) -> bool {
    tokens_wf(tokens) && in_source_order(tokens)
}

fn copy_token(token: &SyntaxToken) -> (r: SyntaxToken)
    ensures
        r.kind == token.kind,
        r.text@ == token.text@,
        r.span == token.span,
{
    SyntaxToken { kind: token.kind, text: token.text.as_str().to_owned(), span: token.span }
}

/// Whether a token of that range stands among the elements.
pub open spec fn held_in(elements: Seq<Element>, span: Span) -> bool {
    exists|k: int|
        0 <= k < elements.len() && (#[trigger] elements[k] matches Element::Token(t) && t.span
            == span)
}

/// The tokens of a node's header stand among its elements too.
pub open spec fn contained(node: SyntaxNode) -> bool {
    &&& node.head matches Some(t) ==> held_in(node.elements@, t.span)
    &&& node.name matches Some(t) ==> held_in(node.elements@, t.span)
    &&& node.tag matches Some(t) ==> held_in(node.elements@, t.span)
    &&& values_contained(node.values@, node.elements@)
}

pub open spec fn values_contained(values: Seq<SyntaxToken>, elements: Seq<Element>) -> bool {
    forall|k: int| 0 <= k < values.len() ==> held_in(elements, (#[trigger] values[k]).span)
}

proof fn lemma_held_push(elements: Seq<Element>, last: Element, span: Span)
    requires
        held_in(elements, span),
    ensures
        held_in(elements.push(last), span),
{
    let k = choose|k: int|
        0 <= k < elements.len() && (#[trigger] elements[k] matches Element::Token(t) && t.span
            == span);
    assert(elements.push(last)[k] == elements[k]);
}

proof fn lemma_values_push(values: Seq<SyntaxToken>, elements: Seq<Element>, last: Element)
    requires
        values_contained(values, elements),
    ensures
        values_contained(values, elements.push(last)),
{
    assert forall|k: int| 0 <= k < values.len() implies held_in(
        elements.push(last),
        (#[trigger] values[k]).span,
    ) by {
        lemma_held_push(elements, last, values[k].span);
    }
}

/// A node keeps its header among its elements when it gets one more.
proof fn lemma_contained_push(a: SyntaxNode, b: SyntaxNode, last: Element)
    requires
        contained(a),
        same_header(a, b),
        b.elements@ == a.elements@.push(last),
    ensures
        contained(b),
{
    if let Some(t) = a.head {
        lemma_held_push(a.elements@, last, t.span);
    }
    if let Some(t) = a.name {
        lemma_held_push(a.elements@, last, t.span);
    }
    if let Some(t) = a.tag {
        lemma_held_push(a.elements@, last, t.span);
    }
    lemma_values_push(a.values@, a.elements@, last);
}

/// A tree under construction.
struct Reader<'a> {
    analyzer: &'a Analyzer,
    parse: Parse,
    /// The open scopes, the innermost one last.
    open: Vec<usize>,
}

impl<'a> Reader<'a> {
    spec fn inv(&self, end: int) -> bool {
        &&& self.parse.wf()
        &&& well_open(self.parse.nodes@, self.open@)
        &&& innermost(self.open@) < self.parse.nodes@.len()
        &&& ruled(self.analyzer, &self.parse)
        &&& forall|i: int|
            0 <= i < self.parse.nodes@.len() ==> contained(#[trigger] self.parse.nodes@[i])
        &&& forall|i: int|
            0 <= i < self.parse.nodes@.len() ==> (#[trigger] self.parse.nodes@[i]).span.end <= end
        &&& shaped(self.parse.nodes@, self.open@)
        &&& self.parse.nodes@[0].span.start == 0
    }

    proof fn lemma_top_fits(&self)
        requires
            well_open(self.parse.nodes@, self.open@),
        ensures
            innermost(self.open@) >= 0,
    {
        if self.open@.len() > 0 {
            assert(last_inside(
                self.parse.nodes@,
                at_depth(self.open@, self.open@.len() - 1),
                innermost(self.open@),
            ));
        }
    }


    spec fn leaves(&self) -> Seq<TokenModel> {
        leaves_under(self.parse.nodes@, 0, 0)
    }

    spec fn state(&self) -> ReadState {
        ReadState {
            open: self.open@,
            next: self.parse.nodes@.len() as int,
            strays: error_spans(self.parse.errors@),
        }
    }

    fn top(&self) -> (r: usize)
        ensures
            r == innermost(self.open@),
    {
        if self.open.len() == 0 {
            0
        } else {
            self.open[self.open.len() - 1]
        }
    }

    /// Adds a token to the innermost scope.
    fn push(&mut self, token: SyntaxToken, Ghost(end): Ghost<int>)
        requires
            old(self).inv(end),
            token.wf(),
        ensures
            final(self).inv(end),
            final(self).open@ == old(self).open@,
            final(self).analyzer == old(self).analyzer,
            final(self).parse.nodes@.len() == old(self).parse.nodes@.len(),
            final(self).parse.errors@ == old(self).parse.errors@,
            headers_kept(old(self).parse.nodes@, final(self).parse.nodes@),
            final(self).leaves() == old(self).leaves() + seq![token_model(token)],
            final(self).parse.nodes@[innermost(old(self).open@)].elements@ == old(
                self,
            ).parse.nodes@[innermost(old(self).open@)].elements@.push(Element::Token(token)),
    {
        let ghost before = self.parse;
        let ghost element = Element::Token(token);
        let top: usize = self.top();
        self.parse.nodes[top].elements.push(Element::Token(token));
        proof {
            assert(headers_kept(before.nodes@, self.parse.nodes@)) by {
                reveal(grown);
            }
            lemma_shaped_added(&before, &self.parse, self.open@, element);
            lemma_added(&before, &self.parse, self.open@, element);
            lemma_contained_push(
                before.nodes@[top as int],
                self.parse.nodes@[top as int],
                element,
            );
            assert forall|c: int| 0 < c < self.parse.nodes@.len() implies #[trigger] ruled_node(
                self.analyzer,
                &self.parse,
                c,
            ) by {
                assert(ruled_node(self.analyzer, &before, c));
                lemma_ruled_kept(self.analyzer, &before, &self.parse, c);
            }
        }
    }
}

/// The leaves of elements that are all tokens, from element `k` on.
spec fn flat_leaves(elements: Seq<Element>, k: int) -> Seq<TokenModel>
    decreases elements.len() - k,
{
    if k < 0 || k >= elements.len() {
        Seq::empty()
    } else {
        (match elements[k] {
            Element::Token(t) => seq![token_model(t)],
            Element::Node(_) => Seq::empty(),
        }) + flat_leaves(elements, k + 1)
    }
}

spec fn all_tokens(elements: Seq<Element>) -> bool {
    forall|k: int|
        0 <= k < elements.len() ==> (#[trigger] elements[k] matches Element::Token(t) && t.wf())
}

proof fn lemma_flat_under(nodes: Seq<SyntaxNode>, node: int, k: int)
    requires
        0 <= k,
        all_tokens(nodes[node].elements@),
    ensures
        leaves_under(nodes, node, k) == flat_leaves(nodes[node].elements@, k),
    decreases nodes[node].elements@.len() - k,
{
    if k < nodes[node].elements@.len() {
        assert(nodes[node].elements@[k] is Token);
        lemma_flat_under(nodes, node, k + 1);
    }
}

proof fn lemma_flat_push(elements: Seq<Element>, token: SyntaxToken, k: int)
    requires
        0 <= k <= elements.len(),
    ensures
        flat_leaves(elements.push(Element::Token(token)), k) == flat_leaves(elements, k) + seq![token_model(token)],
    decreases elements.len() - k,
{
    let more = elements.push(Element::Token(token));
    if k < elements.len() {
        assert(more[k] == elements[k]);
        lemma_flat_push(elements, token, k + 1);
        assert(flat_leaves(more, k) =~= flat_leaves(elements, k) + seq![token_model(token)]);
    } else {
        assert(more[k] == Element::Token(token));
        assert(flat_leaves(more, k + 1) =~= Seq::empty());
        assert(flat_leaves(more, k) =~= flat_leaves(elements, k) + seq![token_model(token)]);
    }
}

/// The words between two tokens, bare or quoted.
pub open spec fn words(tokens: Seq<SyntaxToken>, from: int, to: int) -> Seq<TokenModel>
    decreases to - from,
{
    if from < 0 || from >= to {
        Seq::empty()
    } else {
        let rest = words(tokens, from + 1, to);
        if tokens[from].kind is Word || tokens[from].kind is Quoted {
            seq![token_model(tokens[from])] + rest
        } else {
            rest
        }
    }
}

proof fn lemma_words_before(tokens: Seq<SyntaxToken>, from: int, to: int)
    requires
        0 <= from < to,
        !(tokens[to - 1].kind is Word) && !(tokens[to - 1].kind is Quoted),
    ensures
        words(tokens, from, to - 1) == words(tokens, from, to),
    decreases to - from,
{
    if from < to - 1 {
        lemma_words_before(tokens, from + 1, to);
    } else {
        assert(words(tokens, from + 1, to) =~= Seq::empty());
    }
}

/// The item at a place of a list, where it has one.
pub open spec fn nth(list: Seq<TokenModel>, i: int) -> Option<TokenModel> {
    if 0 <= i < list.len() {
        Some(list[i])
    } else {
        None
    }
}

/// A node has the header of a line: its first word, and the words after it.
pub open spec fn has_header(node: SyntaxNode, first: SyntaxToken, rest: Seq<TokenModel>) -> bool {
    &&& maybe_model(node.head) == Some(token_model(first))
    &&& node.span.start == first.span.start
    &&& maybe_model(node.name) == if node.kind is Field {
        None
    } else {
        nth(rest, 0)
    }
    &&& maybe_model(node.tag) == if node.kind is Field {
        None
    } else {
        nth(rest, 1)
    }
    &&& token_models(node.values@) == if node.kind is Block {
        Seq::empty()
    } else {
        rest
    }
}

/// The elements are the tokens from `from` to `to`.
spec fn copied(elements: Seq<Element>, tokens: Seq<SyntaxToken>, from: int, to: int) -> bool {
    &&& elements.len() == to - from
    &&& forall|k: int|
        0 <= k < elements.len() ==> (#[trigger] elements[k] matches Element::Token(t)
            && token_model(t) == token_model(tokens[from + k]))
}

proof fn lemma_copied_stands(
    nodes: Seq<SyntaxNode>,
    node: int,
    tokens: Seq<SyntaxToken>,
    from: int,
    to: int,
)
    requires
        copied(nodes[node].elements@, tokens, from, to),
    ensures
        stands(nodes, node, tokens, from, to),
{
    assert forall|i: int| from <= i < to implies holds_token(
        nodes[node],
        token_model(#[trigger] tokens[i]),
    ) by {
        assert(nodes[node].elements@[i - from] is Token);
    }
}

/// A node that a line opens, with the tokens of the line.
fn header_node(
    tokens: &Vec<SyntaxToken>,
    from: usize,
    to: usize,
    kind: SyntaxKind,
    parent: usize,
) -> (r: SyntaxNode)
    requires
        from < to <= tokens.len(),
        readable(tokens@),
    ensures
        r.kind == kind,
        r.parent == Some(parent),
        has_header(r, tokens@[from as int], words(tokens@, from + 1, to as int)),
        r.span.end == tokens@[to - 1].span.end,
        r.span.start <= r.span.end,
        tokens_wf(r.values@),
        all_tokens(r.elements@),
        contained(r),
        flat_leaves(r.elements@, 0) == range_leaves(tokens@, from as int, to as int),
        copied(r.elements@, tokens@, from as int, to as int),
        headed(r),
        ended(r),
{
    let ghost rest = words(tokens@, from + 1, to as int);
    let mut elements: Vec<Element> = Vec::new();
    let mut values: Vec<SyntaxToken> = Vec::new();
    let mut name: Option<SyntaxToken> = None;
    let mut tag: Option<SyntaxToken> = None;
    let mut n: usize = 0;
    assert(flat_leaves(elements@, 0) =~= Seq::empty());
    let copy = copy_token(&tokens[from]);
    proof {
        assert(tokens@[from as int].wf());
        lemma_flat_push(elements@, copy, 0);
    }
    elements.push(Element::Token(copy));
    assert(elements@[0] matches Element::Token(t) && t.span == tokens@[from as int].span);
    let mut i: usize = from + 1;
    assert(flat_leaves(elements@, 0) + range_leaves(tokens@, i as int, to as int) =~= range_leaves(
        tokens@,
        from as int,
        to as int,
    ));
    assert(rest.take(0) + rest =~= rest);
    assert(token_models(values@) =~= Seq::empty());
    while i < to
        invariant
            from < i <= to <= tokens.len(),
            readable(tokens@),
            n < i - from,
            n <= rest.len(),
            rest == rest.take(n as int) + words(tokens@, i as int, to as int),
            tokens_wf(values@),
            token_models(values@) == (if kind is Block {
                Seq::empty()
            } else {
                rest.take(n as int)
            }),
            maybe_model(name) == (if kind is Field {
                None
            } else {
                nth(rest.take(n as int), 0)
            }),
            maybe_model(tag) == (if kind is Field {
                None
            } else {
                nth(rest.take(n as int), 1)
            }),
            all_tokens(elements@),
            copied(elements@, tokens@, from as int, i as int),
            held_in(elements@, tokens@[from as int].span),
            name matches Some(t) ==> held_in(elements@, t.span),
            tag matches Some(t) ==> held_in(elements@, t.span),
            values_contained(values@, elements@),
            flat_leaves(elements@, 0) + range_leaves(tokens@, i as int, to as int) == range_leaves(
                tokens@,
                from as int,
                to as int,
            ),
        decreases to - i,
    {
        let token = &tokens[i];
        let ghost before = elements@;
        let copy = copy_token(token);
        let ghost last = Element::Token(copy);
        proof {
            assert(tokens@[i as int].wf());
            lemma_flat_push(before, copy, 0);
            lemma_held_push(before, last, tokens@[from as int].span);
            if name is Some {
                lemma_held_push(before, last, name->Some_0.span);
            }
            if tag is Some {
                lemma_held_push(before, last, tag->Some_0.span);
            }
            lemma_values_push(values@, before, last);
        }
        elements.push(Element::Token(copy));
        assert(elements@[elements@.len() - 1] == last);
        assert(held_in(elements@, token.span));
        if token.kind == TokenKind::Word || token.kind == TokenKind::Quoted {
            let ghost more = words(tokens@, i + 1, to as int);
            proof {
                assert(words(tokens@, i as int, to as int) == seq![token_model(*token)] + more);
                assert(n < rest.len());
                assert(rest[n as int] == token_model(*token));
                assert(rest.take(n + 1) =~= rest.take(n as int).push(token_model(*token)));
                assert(rest =~= rest.take(n + 1) + more);
            }
            if kind != SyntaxKind::Field {
                if n == 0 {
                    name = Some(copy_token(token));
                } else if n == 1 {
                    tag = Some(copy_token(token));
                }
            }
            if kind != SyntaxKind::Block {
                let ghost had = values@;
                values.push(copy_token(token));
                assert(token_models(values@) =~= token_models(had).push(token_model(*token)));
            }
            n += 1;
        }
        assert(flat_leaves(elements@, 0) + range_leaves(tokens@, i + 1, to as int) =~= flat_leaves(
            before,
            0,
        ) + range_leaves(tokens@, i as int, to as int));
        i += 1;
    }
    assert(words(tokens@, i as int, to as int) =~= Seq::empty());
    assert(rest.take(n as int) =~= rest);
    assert(flat_leaves(elements@, 0) =~= range_leaves(tokens@, from as int, to as int));
    let first = &tokens[from];
    let last = &tokens[to - 1];
    proof {
        assert(tokens@[from as int].wf() && tokens@[to - 1].wf());
        if from < to - 1 {
            assert(tokens@[from as int].span.end <= tokens@[to - 1].span.start);
        }
    }
    SyntaxNode {
        kind,
        span: Span { start: first.span.start, end: last.span.end },
        parent: Some(parent),
        elements,
        head: Some(copy_token(first)),
        name,
        tag,
        values,
    }
}

fn significant(kind: TokenKind) -> (r: bool)
    ensures
        r == (kind is Word || kind is Quoted || kind is Equals),
{
    kind == TokenKind::Word || kind == TokenKind::Quoted || kind == TokenKind::Equals
}

/// Whether `=` comes next, after blanks.
pub open spec fn assigned(tokens: Seq<SyntaxToken>, from: int, to: int) -> bool
    decreases to - from,
{
    if from < 0 || from >= to {
        false
    } else if tokens[from].kind is Whitespace {
        assigned(tokens, from + 1, to)
    } else {
        tokens[from].kind is Equals
    }
}

fn is_assigned(tokens: &Vec<SyntaxToken>, from: usize, to: usize) -> (r: bool)
    requires
        from <= to <= tokens.len(),
    ensures
        r == assigned(tokens@, from as int, to as int),
{
    let mut i: usize = from;
    while i < to && tokens[i].kind == TokenKind::Whitespace
        invariant
            from <= i <= to <= tokens.len(),
            assigned(tokens@, from as int, to as int) == assigned(tokens@, i as int, to as int),
        decreases to - i,
    {
        i += 1;
    }
    i < to && tokens[i].kind == TokenKind::Equals
}

impl<'a> Reader<'a> {
    /// Adds tokens to the innermost scope.
    fn push_all(
        &mut self,
        tokens: &Vec<SyntaxToken>,
        from: usize,
        to: usize,
        Ghost(end): Ghost<int>,
    )
        requires
            old(self).inv(end),
            from <= to <= tokens.len(),
            readable(tokens@),
        ensures
            final(self).inv(end),
            final(self).open@ == old(self).open@,
            final(self).analyzer == old(self).analyzer,
            final(self).parse.nodes@.len() == old(self).parse.nodes@.len(),
            final(self).parse.errors@ == old(self).parse.errors@,
            headers_kept(old(self).parse.nodes@, final(self).parse.nodes@),
            final(self).leaves() == old(self).leaves() + range_leaves(tokens@, from as int, to as int),
            stands(
                final(self).parse.nodes@,
                innermost(old(self).open@),
                tokens@,
                from as int,
                to as int,
            ),
            from < to ==> ({
                let elements = final(self).parse.nodes@[innermost(old(self).open@)].elements@;
                elements.len() > 0 && (elements.last() matches Element::Token(t) && t.span
                    == tokens@[to - 1].span)
            }),
    {
        let ghost start = self.leaves();
        let ghost top = innermost(self.open@);
        proof {
            lemma_kept_same(self.parse.nodes@);
        }
        let mut i: usize = from;
        while i < to
            invariant
                self.inv(end),
                self.open@ == old(self).open@,
                self.analyzer == old(self).analyzer,
                self.parse.nodes@.len() == old(self).parse.nodes@.len(),
                self.parse.errors@ == old(self).parse.errors@,
                headers_kept(old(self).parse.nodes@, self.parse.nodes@),
                from <= i <= to <= tokens.len(),
                readable(tokens@),
                self.leaves() + range_leaves(tokens@, i as int, to as int) == start + range_leaves(
                    tokens@,
                    from as int,
                    to as int,
                ),
                top == innermost(old(self).open@),
                stands(self.parse.nodes@, top, tokens@, from as int, i as int),
                from < i ==> ({
                    let elements = self.parse.nodes@[top].elements@;
                    elements.len() > 0 && (elements.last() matches Element::Token(t) && t.span
                        == tokens@[i - 1].span)
                }),
            decreases to - i,
        {
            let ghost before = self.leaves();
            let ghost had = self.parse.nodes@;
            assert(tokens@[i as int].wf());
            proof {
                self.lemma_top_fits();
            }
            self.push(copy_token(&tokens[i]), Ghost(end));
            proof {
                lemma_kept_twice(old(self).parse.nodes@, had, self.parse.nodes@);
                lemma_stands_kept(had, self.parse.nodes@, top, tokens@, from as int, i as int);
                let elements = self.parse.nodes@[top].elements@;
                assert(elements[elements.len() - 1] matches Element::Token(t) && token_model(t)
                    == token_model(tokens@[i as int]));
                assert(holds_token(self.parse.nodes@[top], token_model(tokens@[i as int])));
            }
            assert(self.leaves() + range_leaves(tokens@, i + 1, to as int) =~= before + range_leaves(
                tokens@,
                i as int,
                to as int,
            ));
            i += 1;
        }
        assert(self.leaves() =~= start + range_leaves(tokens@, from as int, to as int));
    }

    /// Adds a node to the innermost scope, and opens it where it is a scope.
    fn attach(&mut self, node: SyntaxNode, Ghost(end): Ghost<int>)
        requires
            old(self).inv(end),
            node.parent == Some(innermost(old(self).open@) as usize),
            node.span.start <= node.span.end <= end,
            tokens_wf(node.values@),
            all_tokens(node.elements@),
            contained(node),
            headed(node),
            ended(node),
            node.head is Some,
            ({
                let word = node.head->Some_0.text@;
                if old(self).open@.len() == 0 {
                    &&& node.kind is Block || node.kind is Field
                    &&& old(self).analyzer.block_of(word) matches Some(b) ==> (node.kind is Block)
                        == b.terminated
                } else {
                    node.kind == if opens_in(
                        scope_of(
                            old(self).analyzer,
                            &old(self).parse,
                            innermost(old(self).open@),
                        ),
                        word,
                    ) {
                        SyntaxKind::Module
                    } else {
                        SyntaxKind::Field
                    }
                }
            }),
        ensures
            final(self).inv(end),
            final(self).analyzer == old(self).analyzer,
            final(self).parse.nodes@.len() == old(self).parse.nodes@.len() + 1,
            final(self).parse.errors@ == old(self).parse.errors@,
            headers_kept(old(self).parse.nodes@, final(self).parse.nodes@),
            same_header(node, final(self).parse.nodes@.last()),
            final(self).parse.nodes@.last().elements@ == node.elements@,
            final(self).open@ == (if node.kind is Field {
                old(self).open@
            } else {
                old(self).open@.push(old(self).parse.nodes@.len() as usize)
            }),
            final(self).leaves() == old(self).leaves() + flat_leaves(node.elements@, 0),
    {
        let ghost before = self.parse;
        let ghost made = node;
        let top: usize = self.top();
        let id: usize = self.parse.nodes.len();
        let opens = node.kind != SyntaxKind::Field;
        self.parse.nodes.push(node);
        self.parse.nodes[top].elements.push(Element::Node(id));
        let ghost nodes = self.parse.nodes@;
        let ghost open0 = self.open@;
        proof {
            assert(0 <= top < id);
            assert(nodes[id as int] == made);
            assert(headers_kept(before.nodes@, nodes)) by {
                reveal(grown);
            }
            assert(forall|i: int|
                0 <= i < id && i != top ==> #[trigger] nodes[i] == before.nodes@[i]);
            assert(self.parse.wf());
            lemma_shaped_added(&before, &self.parse, open0, Element::Node(id));
            lemma_added(&before, &self.parse, open0, Element::Node(id));
            lemma_flat_under(nodes, id as int, 0);
            lemma_contained_push(
                before.nodes@[top as int],
                nodes[top as int],
                Element::Node(id),
            );
            assert forall|c: int| 0 < c < self.parse.nodes@.len() implies #[trigger] ruled_node(
                self.analyzer,
                &self.parse,
                c,
            ) by {
                if c < id {
                    assert(ruled_node(self.analyzer, &before, c));
                    lemma_ruled_kept(self.analyzer, &before, &self.parse, c);
                } else {
                    lemma_scope_kept(self.analyzer, &before, &self.parse, top as int);
                    if open0.len() > 0 {
                        assert(last_inside(
                            before.nodes@,
                            at_depth(open0, open0.len() - 1),
                            top as int,
                        ));
                        assert(top > 0);
                    }
                }
            }
        }
        if opens {
            self.open.push(id);
            proof {
                let open = self.open@;
                assert forall|depth: int| 1 <= depth <= open.len() implies last_inside(
                    nodes,
                    #[trigger] at_depth(open, depth - 1),
                    at_depth(open, depth),
                ) by {
                    assert(at_depth(open, depth - 1) == at_depth(open0, depth - 1));
                    if depth <= open0.len() {
                        assert(at_depth(open, depth) == at_depth(open0, depth));
                        assert(last_inside(
                            nodes,
                            at_depth(open0, depth - 1),
                            at_depth(open0, depth),
                        ));
                    } else {
                        let elements = nodes[top as int].elements@;
                        assert forall|k: int| 0 <= k < elements.len() - 1 implies (
                        #[trigger] elements[k] matches Element::Node(c) ==> within(
                            nodes,
                            c as int,
                            id as int,
                        )) by {
                            if let Element::Node(c) = elements[k] {
                                assert(before.nodes@[top as int].elements@[k] == elements[k]);
                                lemma_within_all(before.nodes@, c as int);
                                lemma_frame(before.nodes@, nodes, c as int, 0, id as int);
                            }
                        }
                    }
                }
            }
        }
    }

    fn set_end(&mut self, node: usize, offset: u32, Ghost(end): Ghost<int>)
        requires
            old(self).inv(end),
            node < old(self).parse.nodes@.len(),
            node == 0 || old(self).open@.contains(node),
            old(self).parse.nodes@[node as int].span.start <= offset <= end,
        ensures
            final(self).inv(end),
            final(self).open@ == old(self).open@,
            final(self).analyzer == old(self).analyzer,
            final(self).parse.nodes@.len() == old(self).parse.nodes@.len(),
            final(self).parse.errors@ == old(self).parse.errors@,
            headers_kept(old(self).parse.nodes@, final(self).parse.nodes@),
            final(self).leaves() == old(self).leaves(),
            final(self).parse.nodes@[node as int].span.end == offset,
            forall|i: int|
                #![trigger final(self).parse.nodes@[i]]
                0 <= i < final(self).parse.nodes@.len() ==> {
                    &&& final(self).parse.nodes@[i].elements@ == old(self).parse.nodes@[i].elements@
                    &&& i != node ==> final(self).parse.nodes@[i].span == old(
                        self,
                    ).parse.nodes@[i].span
                },
    {
        let ghost before = self.parse;
        let start: u32 = self.parse.nodes[node].span.start;
        self.parse.nodes[node].span = Span { start, end: offset };
        proof {
            let nodes = self.parse.nodes@;
            assert(headers_kept(before.nodes@, nodes)) by {
                reveal(grown);
            }
            assert(keeps(before.nodes@, nodes, 0, nodes.len() as int));
            assert(contained(before.nodes@[node as int]));
            assert(contained(nodes[node as int]));
            lemma_shaped_moved(before.nodes@, nodes, self.open@, node);
            lemma_within_all(before.nodes@, 0);
            lemma_frame(before.nodes@, nodes, 0, 0, nodes.len() as int);
            let open = self.open@;
            assert forall|depth: int| 1 <= depth <= open.len() implies last_inside(
                nodes,
                #[trigger] at_depth(open, depth - 1),
                at_depth(open, depth),
            ) by {
                let outer = at_depth(open, depth - 1);
                let inner = at_depth(open, depth);
                assert(last_inside(before.nodes@, outer, inner));
                let elements = before.nodes@[outer].elements@;
                assert forall|k: int| 0 <= k < elements.len() - 1 implies (
                #[trigger] elements[k] matches Element::Node(c) ==> within(
                    nodes,
                    c as int,
                    inner,
                )) by {
                    if let Element::Node(c) = elements[k] {
                        lemma_frame(before.nodes@, nodes, c as int, 0, inner);
                    }
                }
            }
            assert forall|c: int| 0 < c < self.parse.nodes@.len() implies #[trigger] ruled_node(
                self.analyzer,
                &self.parse,
                c,
            ) by {
                assert(ruled_node(self.analyzer, &before, c));
                lemma_ruled_kept(self.analyzer, &before, &self.parse, c);
            }
        }
    }

    /// Closes the innermost scope.
    fn pop(&mut self, Ghost(end): Ghost<int>)
        requires
            old(self).inv(end),
            old(self).open@.len() > 0,
            ended(old(self).parse.nodes@[innermost(old(self).open@)]),
        ensures
            final(self).inv(end),
            final(self).analyzer == old(self).analyzer,
            final(self).parse == old(self).parse,
            final(self).open@ == old(self).open@.drop_last(),
    {
        let ghost before = self.open@;
        self.open.pop();
        proof {
            let open = self.open@;
            let nodes = self.parse.nodes@;
            lemma_shaped_closed(nodes, before);
            assert forall|depth: int| 0 <= depth <= open.len() implies #[trigger] at_depth(
                open,
                depth,
            ) == at_depth(before, depth) by {}
            assert forall|depth: int| 1 <= depth <= open.len() implies last_inside(
                nodes,
                #[trigger] at_depth(open, depth - 1),
                at_depth(open, depth),
            ) by {
                assert(last_inside(nodes, at_depth(before, depth - 1), at_depth(before, depth)));
            }
            assert(last_inside(
                nodes,
                at_depth(before, before.len() - 1),
                at_depth(before, before.len() as int),
            ));
        }
    }
}

/// The end of the line that holds token `i`: after its line break.
pub open spec fn line_end(tokens: Seq<SyntaxToken>, i: int) -> int
    decreases tokens.len() - i,
{
    if i < 0 || i >= tokens.len() {
        tokens.len() as int
    } else if tokens[i].kind is Newline {
        i + 1
    } else {
        line_end(tokens, i + 1)
    }
}

/// The first token from `i` on that is a word or `=`.
pub open spec fn first_solid(tokens: Seq<SyntaxToken>, i: int, to: int) -> int
    decreases to - i,
{
    if 0 <= i < to && !(tokens[i].kind is Word || tokens[i].kind is Quoted
        || tokens[i].kind is Equals) {
        first_solid(tokens, i + 1, to)
    } else {
        i
    }
}

/// How far a text was read: the open scopes, the innermost one last, the place
/// of the next node, and where an `End` had nothing to close.
#[verifier::ext_equal]
pub struct ReadState {
    pub open: Seq<usize>,
    pub next: int,
    pub strays: Seq<Span>,
}

/// Before anything was read: only the root is there.
pub open spec fn unread() -> ReadState {
    ReadState { open: Seq::empty(), next: 1, strays: Seq::empty() }
}

/// After one more line. A line whose first word is `End` closes the innermost
/// scope; any other word makes a node, which opens a scope unless it is a field.
pub open spec fn line_step(
    nodes: Seq<SyntaxNode>,
    tokens: Seq<SyntaxToken>,
    from: int,
    to: int,
    state: ReadState,
) -> ReadState {
    let first = first_solid(tokens, from, to);
    if first >= to {
        state
    } else if same_ci(tokens[first].text@, "End"@) {
        if state.open.len() > 0 {
            ReadState { open: state.open.drop_last(), ..state }
        } else {
            ReadState { strays: state.strays.push(tokens[first].span), ..state }
        }
    } else {
        ReadState {
            open: if nodes[state.next].kind is Field {
                state.open
            } else {
                state.open.push(state.next as usize)
            },
            next: state.next + 1,
            ..state
        }
    }
}

/// What a word makes of a line. At the top, a word that names a block opens it,
/// unless the block is a single line, and an unknown word opens one, unless `=`
/// follows; inside a scope, the words of its slots and sub-blocks open scopes,
/// and all others are keys.
pub open spec fn line_kind(
    analyzer: &Analyzer,
    parse: &Parse,
    open: Seq<usize>,
    word: Seq<char>,
    assigns: bool,
) -> SyntaxKind {
    if open.len() == 0 {
        let block = match analyzer.block_of(word) {
            Some(b) => b.terminated,
            None => !assigns,
        };
        if block {
            SyntaxKind::Block
        } else {
            SyntaxKind::Field
        }
    } else if opens_in(scope_of(analyzer, parse, open.last() as int), word) {
        SyntaxKind::Module
    } else {
        SyntaxKind::Field
    }
}

/// Where the tokens of a node that a line makes end: a field leaves the line
/// break to the scope around it.
pub open spec fn header_end(tokens: Seq<SyntaxToken>, to: int, kind: SyntaxKind) -> int {
    if kind is Field && tokens[to - 1].kind is Newline {
        to - 1
    } else {
        to
    }
}

/// The node that a line makes, if it makes one, has the line's header, kind and
/// tokens, and belongs to the innermost open scope. All other tokens stand in
/// that scope, those of an `End` that closes it among them.
pub open spec fn line_read(
    analyzer: &Analyzer,
    parse: &Parse,
    tokens: Seq<SyntaxToken>,
    from: int,
    to: int,
    state: ReadState,
) -> bool {
    let first = first_solid(tokens, from, to);
    let scope = innermost(state.open);
    &&& stands(parse.nodes@, scope, tokens, from, first)
    &&& first < to && same_ci(tokens[first].text@, "End"@) ==> stands(
        parse.nodes@,
        scope,
        tokens,
        first,
        to,
    )
    &&& first < to && !same_ci(tokens[first].text@, "End"@) ==> {
        let node = parse.nodes@[state.next];
        let cut = header_end(tokens, to, node.kind);
        &&& 0 < state.next < parse.nodes@.len()
        &&& has_header(node, tokens[first], words(tokens, first + 1, to))
        &&& node.parent == Some(scope as usize)
        &&& node.kind == line_kind(
            analyzer,
            parse,
            state.open,
            tokens[first].text@,
            assigned(tokens, first + 1, to),
        )
        &&& stands(parse.nodes@, state.next, tokens, first, cut)
        &&& stands(parse.nodes@, scope, tokens, cut, to)
    }
}

/// An error says that a scope was not closed, at its opening word.
pub open spec fn tells_open(nodes: Seq<SyntaxNode>, scope: int, error: SyntaxError) -> bool {
    &&& error.message@ == "missing `End`"@
    &&& nodes[scope].head matches Some(word) && error.start == word.span.start && error.end
        == word.span.end
}

/// The errors of a document that was read to its end: every `End` that had
/// nothing to close, then every scope that was not closed, the innermost first,
/// at its opening word.
pub open spec fn errors_told(parse: &Parse, state: ReadState) -> bool {
    let errors = parse.errors@;
    &&& errors.len() == state.strays.len() + state.open.len()
    &&& forall|i: int|
        0 <= i < state.strays.len() ==> {
            &&& (#[trigger] errors[i]).message@ == "`End` outside any block"@
            &&& errors[i].start == state.strays[i].start && errors[i].end == state.strays[i].end
        }
    &&& forall|i: int|
        state.strays.len() <= i < errors.len() ==> tells_open(
            parse.nodes@,
            state.open[errors.len() - 1 - i] as int,
            #[trigger] errors[i],
        )
}

/// The tree follows the tokens, line by line, from token `from` on.
pub open spec fn follows(
    analyzer: &Analyzer,
    parse: &Parse,
    tokens: Seq<SyntaxToken>,
    from: int,
    state: ReadState,
) -> bool
    decreases tokens.len() - from,
{
    if from < 0 || from >= tokens.len() {
        parse.nodes@.len() == state.next && errors_told(parse, state)
    } else {
        let to = line_end(tokens, from);
        &&& from < to <= tokens.len()
        &&& line_read(analyzer, parse, tokens, from, to, state)
        &&& follows(
            analyzer,
            parse,
            tokens,
            to,
            line_step(parse.nodes@, tokens, from, to, state),
        )
    }
}

/// The ranges of errors.
spec fn error_spans(errors: Seq<SyntaxError>) -> Seq<Span> {
    errors.map_values(|e: SyntaxError| Span { start: e.start, end: e.end })
}

/// Every error so far is about an `End` that had nothing to close.
spec fn only_strays(errors: Seq<SyntaxError>) -> bool {
    forall|i: int|
        0 <= i < errors.len() ==> (#[trigger] errors[i]).message@ == "`End` outside any block"@
}

/// After the errors that were there come those about the last scopes of a list,
/// the innermost first.
spec fn told_so_far(
    nodes: Seq<SyntaxNode>,
    open: Seq<usize>,
    had: Seq<SyntaxError>,
    errors: Seq<SyntaxError>,
) -> bool {
    &&& had.len() <= errors.len() <= had.len() + open.len()
    &&& forall|i: int| 0 <= i < had.len() ==> #[trigger] errors[i] == had[i]
    &&& forall|i: int|
        had.len() <= i < errors.len() ==> tells_open(
            nodes,
            open[open.len() - 1 - (i - had.len())] as int,
            #[trigger] errors[i],
        )
}

proof fn lemma_told_same(
    a: Seq<SyntaxNode>,
    b: Seq<SyntaxNode>,
    open: Seq<usize>,
    had: Seq<SyntaxError>,
    errors: Seq<SyntaxError>,
)
    requires
        headers_kept(a, b),
        well_open(a, open),
        told_so_far(a, open, had, errors),
    ensures
        told_so_far(b, open, had, errors),
{
    assert forall|i: int| had.len() <= i < errors.len() implies tells_open(
        b,
        open[open.len() - 1 - (i - had.len())] as int,
        #[trigger] errors[i],
    ) by {
        let depth = open.len() - (i - had.len());
        assert(last_inside(a, at_depth(open, depth - 1), at_depth(open, depth)));
        assert(same_header(a[at_depth(open, depth)], b[at_depth(open, depth)]));
    }
}

proof fn lemma_told_more(
    nodes: Seq<SyntaxNode>,
    open: Seq<usize>,
    had: Seq<SyntaxError>,
    errors: Seq<SyntaxError>,
)
    requires
        errors.len() > 0,
        told_so_far(nodes, open, had, errors.drop_last()),
        errors.len() <= had.len() + open.len(),
        tells_open(nodes, open[open.len() + had.len() - errors.len()] as int, errors.last()),
    ensures
        told_so_far(nodes, open, had, errors),
{
    let less = errors.drop_last();
    assert forall|i: int| 0 <= i < had.len() implies #[trigger] errors[i] == had[i] by {
        assert(less[i] == errors[i]);
    }
    assert forall|i: int| had.len() <= i < errors.len() implies tells_open(
        nodes,
        open[open.len() - 1 - (i - had.len())] as int,
        #[trigger] errors[i],
    ) by {
        if i < less.len() {
            assert(less[i] == errors[i]);
        }
    }
}

proof fn lemma_all_told(parse: &Parse, state: ReadState, had: Seq<SyntaxError>)
    requires
        only_strays(had),
        state.strays == error_spans(had),
        parse.errors@.len() == had.len() + state.open.len(),
        told_so_far(parse.nodes@, state.open, had, parse.errors@),
    ensures
        errors_told(parse, state),
{
    let errors = parse.errors@;
    assert forall|i: int| 0 <= i < state.strays.len() implies {
        &&& (#[trigger] errors[i]).message@ == "`End` outside any block"@
        &&& errors[i].start == state.strays[i].start && errors[i].end == state.strays[i].end
    } by {
        assert(errors[i] == had[i]);
    }
}

proof fn lemma_read_kept(
    analyzer: &Analyzer,
    a: &Parse,
    b: &Parse,
    tokens: Seq<SyntaxToken>,
    from: int,
    to: int,
    state: ReadState,
)
    requires
        a.wf(),
        headers_kept(a.nodes@, b.nodes@),
        line_read(analyzer, a, tokens, from, to, state),
        0 <= state.next <= a.nodes@.len(),
        state.open.len() > 0 ==> state.open.last() < a.nodes@.len(),
    ensures
        line_read(analyzer, b, tokens, from, to, state),
        ({
            let first = first_solid(tokens, from, to);
            first < to && !same_ci(tokens[first].text@, "End"@)
        }) ==> a.nodes@[state.next].kind == b.nodes@[state.next].kind,
{
    let first = first_solid(tokens, from, to);
    let scope = innermost(state.open);
    lemma_stands_kept(a.nodes@, b.nodes@, scope, tokens, from, first);
    if first < to && same_ci(tokens[first].text@, "End"@) {
        lemma_stands_kept(a.nodes@, b.nodes@, scope, tokens, first, to);
    }
    if first < to && !same_ci(tokens[first].text@, "End"@) {
        assert(same_header(a.nodes@[state.next], b.nodes@[state.next]));
        let cut = header_end(tokens, to, a.nodes@[state.next].kind);
        lemma_stands_kept(a.nodes@, b.nodes@, state.next, tokens, first, cut);
        lemma_stands_kept(a.nodes@, b.nodes@, scope, tokens, cut, to);
        if state.open.len() > 0 {
            lemma_scope_kept(analyzer, a, b, state.open.last() as int);
        }
    }
}

proof fn lemma_ends_grow(tokens: Seq<SyntaxToken>, a: int, b: int)
    requires
        readable(tokens),
        0 <= a <= b <= tokens.len(),
    ensures
        end_before(tokens, a) <= end_before(tokens, b),
        b < tokens.len() ==> end_before(tokens, a) <= tokens[b].span.start <= tokens[b].span.end,
{
    if b < tokens.len() {
        assert(tokens[b].wf());
    }
    if a < b {
        assert(tokens[b - 1].wf());
        if a > 0 {
            if a < b {
                assert(tokens[a - 1].span.end <= tokens[b - 1].span.start);
            }
        }
    }
    if 0 < a && b < tokens.len() {
        assert(tokens[a - 1].span.end <= tokens[b].span.start);
    }
}

impl<'a> Reader<'a> {
    proof fn lemma_later(&self, a: int, b: int)
        requires
            self.inv(a),
            a <= b,
        ensures
            self.inv(b),
    {
        assert forall|i: int| 0 <= i < self.parse.nodes@.len() implies (
        #[trigger] self.parse.nodes@[i]).span.end <= b by {
            assert(self.parse.nodes@[i].span.end <= a);
        }
    }

    /// What a line opens whose first word is at `first`.
    fn kind_at(&self, tokens: &Vec<SyntaxToken>, first: usize, to: usize) -> (r: SyntaxKind)
        requires
            self.parse.wf(),
            innermost(self.open@) < self.parse.nodes@.len(),
            first < to <= tokens.len(),
        ensures
            r == line_kind(
                self.analyzer,
                &self.parse,
                self.open@,
                tokens@[first as int].text@,
                assigned(tokens@, first + 1, to as int),
            ),
    {
        let word = tokens[first].text.as_str();
        if self.open.len() == 0 {
            let block = match self.analyzer.block(word) {
                Some(b) => b.terminated,
                None => !is_assigned(tokens, first + 1, to),
            };
            return if block {
                SyntaxKind::Block
            } else {
                SyntaxKind::Field
            };
        }
        let scope = scope_schema(self.analyzer, &self.parse, self.top());
        let slots = scope.module_slots();
        let subs = scope.sub_blocks();
        if find_slot(slots, word) < slots.len() || find_sub_block(subs, word) < subs.len() {
            SyntaxKind::Module
        } else {
            SyntaxKind::Field
        }
    }

    /// Closes the innermost scope with the `End` at `first`. The rest of the
    /// line belongs to it, up to and with the line break.
    fn close(&mut self, tokens: &Vec<SyntaxToken>, first: usize, to: usize)
        requires
            old(self).inv(end_before(tokens@, first as int)),
            old(self).open@.len() > 0,
            first < to <= tokens.len(),
            readable(tokens@),
        ensures
            final(self).inv(end_before(tokens@, to as int)),
            final(self).analyzer == old(self).analyzer,
            final(self).open@ == old(self).open@.drop_last(),
            final(self).parse.nodes@.len() == old(self).parse.nodes@.len(),
            final(self).parse.errors@ == old(self).parse.errors@,
            headers_kept(old(self).parse.nodes@, final(self).parse.nodes@),
            final(self).leaves() == old(self).leaves() + range_leaves(
                tokens@,
                first as int,
                to as int,
            ),
            stands(
                final(self).parse.nodes@,
                innermost(old(self).open@),
                tokens@,
                first as int,
                to as int,
            ),
    {
        let ghost start = self.leaves();
        let ghost from = end_before(tokens@, first as int);
        let ghost until = end_before(tokens@, to as int);
        let top: usize = self.top();
        let offset: u32 = tokens[to - 1].span.end;
        proof {
            lemma_ends_grow(tokens@, first as int, to - 1);
            lemma_ends_grow(tokens@, first as int, to as int);
            self.lemma_later(from, until);
            assert(last_inside(
                self.parse.nodes@,
                at_depth(self.open@, self.open@.len() - 1),
                top as int,
            ));
            assert(self.parse.nodes@[top as int].span.start
                <= self.parse.nodes@[top as int].span.end);
            assert(tokens@[first as int].wf());
        }
        self.push_all(tokens, first, to, Ghost(until));
        let ghost had = self.parse.nodes@;
        proof {
            lemma_top_open(self.open@);
            assert(had[top as int].span.start <= had[top as int].span.end);
            assert(same_header(old(self).parse.nodes@[top as int], had[top as int]));
        }
        self.set_end(top, offset, Ghost(until));
        proof {
            lemma_kept_twice(old(self).parse.nodes@, had, self.parse.nodes@);
            lemma_stands_kept(
                had,
                self.parse.nodes@,
                top as int,
                tokens@,
                first as int,
                to as int,
            );
        }
        self.pop(Ghost(until));
        assert(self.leaves() =~= start + range_leaves(tokens@, first as int, to as int));
    }

    /// Adds the node that the line makes whose first word is at `first`.
    fn add_node(&mut self, tokens: &Vec<SyntaxToken>, first: usize, to: usize)
        requires
            old(self).inv(end_before(tokens@, first as int)),
            first < to <= tokens.len(),
            readable(tokens@),
            !(tokens@[first as int].kind is Newline),
        ensures
            final(self).inv(end_before(tokens@, to as int)),
            final(self).analyzer == old(self).analyzer,
            final(self).leaves() == old(self).leaves() + range_leaves(
                tokens@,
                first as int,
                to as int,
            ),
            headers_kept(old(self).parse.nodes@, final(self).parse.nodes@),
            final(self).parse.errors@ == old(self).parse.errors@,
            final(self).parse.nodes@.len() == old(self).parse.nodes@.len() + 1,
            ({
                let node = final(self).parse.nodes@[old(self).parse.nodes@.len() as int];
                let word = tokens@[first as int].text@;
                &&& has_header(node, tokens@[first as int], words(tokens@, first + 1, to as int))
                &&& node.parent == Some(innermost(old(self).open@) as usize)
                &&& node.kind == line_kind(
                    final(self).analyzer,
                    &final(self).parse,
                    old(self).open@,
                    word,
                    assigned(tokens@, first + 1, to as int),
                )
                &&& final(self).open@ == if node.kind is Field {
                    old(self).open@
                } else {
                    old(self).open@.push(old(self).parse.nodes@.len() as usize)
                }
                &&& stands(
                    final(self).parse.nodes@,
                    old(self).parse.nodes@.len() as int,
                    tokens@,
                    first as int,
                    header_end(tokens@, to as int, node.kind),
                )
                &&& stands(
                    final(self).parse.nodes@,
                    innermost(old(self).open@),
                    tokens@,
                    header_end(tokens@, to as int, node.kind),
                    to as int,
                )
            }),
    {
        let ghost start = self.leaves();
        let ghost tree = self.parse;
        let ghost open = self.open@;
        let ghost until = end_before(tokens@, to as int);
        let kind = self.kind_at(tokens, first, to);
        let breaks = tokens[to - 1].kind == TokenKind::Newline;
        let cut: usize = if kind == SyntaxKind::Field && breaks {
            to - 1
        } else {
            to
        };
        let node = header_node(tokens, first, cut, kind, self.top());
        let ghost made = node;
        proof {
            if cut < to {
                lemma_words_before(tokens@, first + 1, to as int);
            }
            lemma_ends_grow(tokens@, first as int, to as int);
            lemma_ends_grow(tokens@, cut as int, to as int);
            lemma_range_split(tokens@, first as int, cut as int, to as int);
            self.lemma_later(end_before(tokens@, first as int), until);
        }
        self.attach(node, Ghost(until));
        let ghost attached = self.parse;
        self.push_all(tokens, cut, to, Ghost(until));
        proof {
            let next = tree.nodes@.len() as int;
            assert(same_header(made, attached.nodes@[next]));
            assert(same_header(attached.nodes@[next], self.parse.nodes@[next]));
            lemma_kept_twice(tree.nodes@, attached.nodes@, self.parse.nodes@);
            lemma_copied_stands(attached.nodes@, next, tokens@, first as int, cut as int);
            lemma_stands_kept(
                attached.nodes@,
                self.parse.nodes@,
                next,
                tokens@,
                first as int,
                cut as int,
            );
            if open.len() > 0 {
                lemma_scope_kept(self.analyzer, &tree, &self.parse, open.last() as int);
            }
            assert(self.leaves() =~= start + range_leaves(tokens@, first as int, to as int));
        }
    }

    /// Reads one line.
    fn line(&mut self, tokens: &Vec<SyntaxToken>, from: usize, to: usize)
        requires
            old(self).inv(end_before(tokens@, from as int)),
            from < to <= tokens.len(),
            readable(tokens@),
            only_strays(old(self).parse.errors@),
        ensures
            final(self).inv(end_before(tokens@, to as int)),
            final(self).analyzer == old(self).analyzer,
            final(self).leaves() == old(self).leaves() + range_leaves(tokens@, from as int, to as int),
            headers_kept(old(self).parse.nodes@, final(self).parse.nodes@),
            only_strays(final(self).parse.errors@),
            line_read(
                final(self).analyzer,
                &final(self).parse,
                tokens@,
                from as int,
                to as int,
                old(self).state(),
            ),
            final(self).state() == line_step(
                final(self).parse.nodes@,
                tokens@,
                from as int,
                to as int,
                old(self).state(),
            ),
    {
        let ghost start = self.leaves();
        let ghost until = end_before(tokens@, to as int);
        let mut first: usize = from;
        while first < to && !significant(tokens[first].kind)
            invariant
                from <= first <= to <= tokens.len(),
                first_solid(tokens@, from as int, to as int) == first_solid(
                    tokens@,
                    first as int,
                    to as int,
                ),
            decreases to - first,
        {
            first += 1;
        }
        assert(first_solid(tokens@, from as int, to as int) == first);
        proof {
            lemma_ends_grow(tokens@, from as int, first as int);
            lemma_ends_grow(tokens@, first as int, to as int);
            self.lemma_later(
                end_before(tokens@, from as int),
                end_before(tokens@, first as int),
            );
            lemma_range_split(tokens@, from as int, first as int, to as int);
        }
        let ghost scope = innermost(self.open@);
        self.push_all(tokens, from, first, Ghost(end_before(tokens@, first as int)));
        let ghost had = self.parse.nodes@;
        proof {
            self.lemma_top_fits();
        }
        if first == to {
            assert(range_leaves(tokens@, first as int, to as int) =~= Seq::empty());
            assert(self.leaves() =~= start + range_leaves(tokens@, from as int, to as int));
            return;
        }
        if eq_ci(tokens[first].text.as_str(), "End") {
            if self.open.len() > 0 {
                self.close(tokens, first, to);
            } else {
                proof {
                    self.lemma_later(end_before(tokens@, first as int), until);
                }
                let span = tokens[first].span;
                let error = SyntaxError {
                    start: span.start,
                    end: span.end,
                    message: "`End` outside any block".to_owned(),
                };
                let ghost told = self.parse.errors@;
                self.report(error, Ghost(until));
                self.push_all(tokens, first, to, Ghost(until));
                assert(error_spans(self.parse.errors@) =~= error_spans(told).push(span));
            }
            proof {
                lemma_kept_twice(old(self).parse.nodes@, had, self.parse.nodes@);
                lemma_stands_kept(
                    had,
                    self.parse.nodes@,
                    scope,
                    tokens@,
                    from as int,
                    first as int,
                );
                assert(self.leaves() =~= start + range_leaves(tokens@, from as int, to as int));
            }
            return;
        }
        self.add_node(tokens, first, to);
        proof {
            lemma_kept_twice(old(self).parse.nodes@, had, self.parse.nodes@);
            lemma_stands_kept(
                had,
                self.parse.nodes@,
                scope,
                tokens@,
                from as int,
                first as int,
            );
        }
        assert(self.leaves() =~= start + range_leaves(tokens@, from as int, to as int));
    }

    fn report(&mut self, error: SyntaxError, Ghost(end): Ghost<int>)
        requires
            old(self).inv(end),
        ensures
            final(self).inv(end),
            final(self).open@ == old(self).open@,
            final(self).analyzer == old(self).analyzer,
            final(self).parse.nodes@ == old(self).parse.nodes@,
            final(self).parse.errors@ == old(self).parse.errors@.push(error),
    {
        let ghost before = self.parse;
        self.parse.errors.push(error);
        proof {
            lemma_kept_same(before.nodes@);
            assert forall|c: int| 0 < c < self.parse.nodes@.len() implies #[trigger] ruled_node(
                self.analyzer,
                &self.parse,
                c,
            ) by {
                assert(ruled_node(self.analyzer, &before, c));
                lemma_ruled_kept(self.analyzer, &before, &self.parse, c);
            }
        }
    }

    /// Reports a scope that was not closed, at its opening word.
    fn report_open(&mut self, scope: usize, Ghost(end): Ghost<int>)
        requires
            old(self).inv(end),
            0 < scope < old(self).parse.nodes@.len(),
        ensures
            final(self).inv(end),
            final(self).open@ == old(self).open@,
            final(self).analyzer == old(self).analyzer,
            final(self).parse.nodes@ == old(self).parse.nodes@,
            final(self).parse.errors@.len() == old(self).parse.errors@.len() + 1,
            final(self).parse.errors@.drop_last() == old(self).parse.errors@,
            tells_open(final(self).parse.nodes@, scope as int, final(self).parse.errors@.last()),
    {
        assert(ruled_node(self.analyzer, &self.parse, scope as int));
        let span = match &self.parse.nodes[scope].head {
            Some(word) => word.span,
            None => self.parse.nodes[scope].span,
        };
        let error = SyntaxError {
            start: span.start,
            end: span.end,
            message: "missing `End`".to_owned(),
        };
        let ghost had = self.parse.errors@;
        self.report(error, Ghost(end));
        assert(self.parse.errors@.drop_last() =~= had);
    }

    /// Ends the document: every scope that is still open is reported, and
    /// reaches to the end.
    fn finish(&mut self, length: u32)
        requires
            old(self).inv(length as int),
            only_strays(old(self).parse.errors@),
        ensures
            final(self).inv(length as int),
            final(self).analyzer == old(self).analyzer,
            final(self).open@ == old(self).open@,
            final(self).leaves() == old(self).leaves(),
            final(self).parse.nodes@.len() == old(self).parse.nodes@.len(),
            headers_kept(old(self).parse.nodes@, final(self).parse.nodes@),
            errors_told(&final(self).parse, old(self).state()),
            final(self).parse.nodes@[0].span.end == length,
            all_end_at(final(self).parse.nodes@, final(self).open@, 0, length),
    {
        let ghost nodes0 = self.parse.nodes@;
        let ghost open0 = self.open@;
        let ghost errors0 = self.parse.errors@;
        let mut i: usize = self.open.len();
        proof {
            lemma_kept_same(nodes0);
        }
        while i > 0
            invariant
                self.inv(length as int),
                self.analyzer == old(self).analyzer,
                self.leaves() == old(self).leaves(),
                nodes0 == old(self).parse.nodes@,
                self.parse.nodes@.len() == nodes0.len(),
                headers_kept(nodes0, self.parse.nodes@),
                i <= open0.len(),
                self.open@ == open0,
                self.parse.errors@.len() == errors0.len() + open0.len() - i,
                told_so_far(self.parse.nodes@, open0, errors0, self.parse.errors@),
                all_end_at(self.parse.nodes@, open0, i as int, length),
            decreases i,
        {
            i = i - 1;
            let top: usize = self.open[i];
            let ghost had = self.parse.nodes@;
            let ghost told = self.parse.errors@;
            proof {
                assert(last_inside(had, at_depth(open0, (i + 1) - 1), at_depth(open0, i + 1)));
                assert(had[top as int].span.start <= had[top as int].span.end <= length);
                assert(open0.contains(open0[i as int]));
            }
            self.report_open(top, Ghost(length as int));
            self.set_end(top, length, Ghost(length as int));
            proof {
                lemma_kept_twice(nodes0, had, self.parse.nodes@);
                assert(self.parse.errors@.drop_last() == told);
                lemma_told_more(had, open0, errors0, self.parse.errors@);
                lemma_told_same(had, self.parse.nodes@, open0, errors0, self.parse.errors@);
                assert forall|k: int| i <= k < open0.len() implies ends_at(
                    self.parse.nodes@,
                    #[trigger] open0[k] as int,
                    length,
                ) by {
                    assert(last_inside(had, at_depth(open0, (k + 1) - 1), at_depth(open0, k + 1)));
                    assert(k > i ==> ends_at(had, open0[k] as int, length));
                }
            }
        }
        let ghost had = self.parse.nodes@;
        assert(had[0].span.start <= had[0].span.end <= length);
        self.set_end(0, length, Ghost(length as int));
        proof {
            lemma_kept_twice(nodes0, had, self.parse.nodes@);
            lemma_told_same(had, self.parse.nodes@, open0, errors0, self.parse.errors@);
            lemma_all_told(&self.parse, old(self).state(), errors0);
            assert forall|k: int| 0 <= k < open0.len() implies ends_at(
                self.parse.nodes@,
                #[trigger] open0[k] as int,
                length,
            ) by {
                assert(last_inside(had, at_depth(open0, (k + 1) - 1), at_depth(open0, k + 1)));
            }
        }
    }
}

/// A node ends at an offset.
spec fn ends_at(nodes: Seq<SyntaxNode>, node: int, offset: u32) -> bool {
    nodes[node].span.end == offset
}

/// The nodes of a list, from place `i` on, end at an offset.
spec fn all_end_at(nodes: Seq<SyntaxNode>, list: Seq<usize>, i: int, offset: u32) -> bool {
    forall|k: int| i <= k < list.len() ==> ends_at(nodes, #[trigger] list[k] as int, offset)
}

/// A state whose places are in a tree.
spec fn state_fits(parse: &Parse, state: ReadState) -> bool {
    &&& 0 <= state.next <= parse.nodes@.len()
    &&& state.open.len() > 0 ==> state.open.last() < parse.nodes@.len()
}

/// Line `j` was read.
spec fn line_done(
    analyzer: &Analyzer,
    parse: &Parse,
    tokens: Seq<SyntaxToken>,
    starts: Seq<int>,
    states: Seq<ReadState>,
    j: int,
) -> bool {
    &&& 0 <= starts[j] < starts[j + 1] <= tokens.len()
    &&& starts[j + 1] == line_end(tokens, starts[j])
    &&& state_fits(parse, states[j])
    &&& line_read(analyzer, parse, tokens, starts[j], starts[j + 1], states[j])
    &&& states[j + 1] == line_step(parse.nodes@, tokens, starts[j], starts[j + 1], states[j])
}

/// The lines that start at these tokens were read, in these states.
spec fn lines_read(
    analyzer: &Analyzer,
    parse: &Parse,
    tokens: Seq<SyntaxToken>,
    starts: Seq<int>,
    states: Seq<ReadState>,
) -> bool {
    &&& starts.len() == states.len()
    &&& starts.len() > 0
    &&& starts[0] == 0
    &&& forall|j: int|
        0 <= j < starts.len() - 1 ==> #[trigger] line_done(
            analyzer,
            parse,
            tokens,
            starts,
            states,
            j,
        )
}

proof fn lemma_lines_kept(
    analyzer: &Analyzer,
    a: &Parse,
    b: &Parse,
    tokens: Seq<SyntaxToken>,
    starts: Seq<int>,
    states: Seq<ReadState>,
)
    requires
        a.wf(),
        headers_kept(a.nodes@, b.nodes@),
        lines_read(analyzer, a, tokens, starts, states),
    ensures
        lines_read(analyzer, b, tokens, starts, states),
{
    assert forall|j: int| 0 <= j < starts.len() - 1 implies #[trigger] line_done(
        analyzer,
        b,
        tokens,
        starts,
        states,
        j,
    ) by {
        assert(line_done(analyzer, a, tokens, starts, states, j));
        lemma_read_kept(analyzer, a, b, tokens, starts[j], starts[j + 1], states[j]);
    }
}

proof fn lemma_one_more_line(
    analyzer: &Analyzer,
    parse: &Parse,
    tokens: Seq<SyntaxToken>,
    starts: Seq<int>,
    states: Seq<ReadState>,
    to: int,
    state: ReadState,
)
    requires
        lines_read(analyzer, parse, tokens, starts, states),
        0 <= starts.last() < to <= tokens.len(),
        to == line_end(tokens, starts.last()),
        state_fits(parse, states.last()),
        line_read(analyzer, parse, tokens, starts.last(), to, states.last()),
        state == line_step(parse.nodes@, tokens, starts.last(), to, states.last()),
    ensures
        lines_read(analyzer, parse, tokens, starts.push(to), states.push(state)),
{
    let starts1 = starts.push(to);
    let states1 = states.push(state);
    assert forall|j: int| 0 <= j < starts1.len() - 1 implies #[trigger] line_done(
        analyzer,
        parse,
        tokens,
        starts1,
        states1,
        j,
    ) by {
        if j < starts.len() - 1 {
            assert(line_done(analyzer, parse, tokens, starts, states, j));
        }
    }
}

proof fn lemma_follows(
    analyzer: &Analyzer,
    parse: &Parse,
    tokens: Seq<SyntaxToken>,
    starts: Seq<int>,
    states: Seq<ReadState>,
    j: int,
)
    requires
        lines_read(analyzer, parse, tokens, starts, states),
        starts.last() == tokens.len(),
        parse.nodes@.len() == states.last().next,
        errors_told(parse, states.last()),
        0 <= j < starts.len(),
    ensures
        follows(analyzer, parse, tokens, starts[j], states[j]),
    decreases starts.len() - j,
{
    if j < starts.len() - 1 {
        assert(line_done(analyzer, parse, tokens, starts, states, j));
        lemma_follows(analyzer, parse, tokens, starts, states, j + 1);
    }
}

proof fn lemma_leaf_part(nodes: Seq<SyntaxNode>, node: int, j: int, k: int, l: TokenModel)
    requires
        0 <= j <= k < nodes[node].elements@.len(),
        element_leaves(nodes, node, nodes[node].elements@[k]).contains(l),
    ensures
        leaves_under(nodes, node, j).contains(l),
    decreases k - j,
{
    let here = element_leaves(nodes, node, nodes[node].elements@[j]);
    let rest = leaves_under(nodes, node, j + 1);
    assert(leaves_under(nodes, node, j) == here + rest);
    if j < k {
        lemma_leaf_part(nodes, node, j + 1, k, l);
        let i = choose|i: int| 0 <= i < rest.len() && rest[i] == l;
        assert((here + rest)[here.len() + i] == l);
    } else {
        let i = choose|i: int| 0 <= i < here.len() && here[i] == l;
        assert((here + rest)[i] == l);
    }
}

/// A token in or below a node is one of its leaves.
proof fn lemma_held_leaf(parse: &Parse, node: int, span: Span) -> (l: TokenModel)
    requires
        parse.wf(),
        forall|i: int|
            0 <= i < parse.nodes@.len() ==> contained(#[trigger] parse.nodes@[i]),
        0 <= node < parse.nodes@.len(),
        held_under(parse, node, span),
    ensures
        l.span == span,
        leaves_under(parse.nodes@, node, 0).contains(l),
    decreases parse.nodes@.len() - node,
{
    let nodes = parse.nodes@;
    let n = nodes[node];
    let elements = n.elements@;
    if node_holds(n, span) {
        assert(contained(n));
        assert(held_in(elements, span)) by {
            if exists|k: int|
                0 <= k < n.values@.len() && (#[trigger] n.values@[k]).span == span {
                let k = choose|k: int|
                    0 <= k < n.values@.len() && (#[trigger] n.values@[k]).span == span;
                assert(held_in(elements, n.values@[k].span));
            }
        }
        let k = choose|k: int|
            0 <= k < elements.len() && (#[trigger] elements[k] matches Element::Token(t)
                && t.span == span);
        let l = token_model(elements[k]->Token_0);
        assert(element_leaves(nodes, node, elements[k])[0] == l);
        lemma_leaf_part(nodes, node, 0, k, l);
        l
    } else {
        let k = choose|k: int|
            0 <= k < elements.len() && (#[trigger] elements[k] matches Element::Node(c) && node < c
                < nodes.len() && held_under(parse, c as int, span));
        let c = elements[k]->Node_0 as int;
        let l = lemma_held_leaf(parse, c, span);
        lemma_leaf_part(nodes, node, 0, k, l);
        l
    }
}

/// The leaves from element `j` of a node on are the last of its leaves.
proof fn lemma_last_leaves(nodes: Seq<SyntaxNode>, node: int, j: int)
    requires
        0 <= j <= nodes[node].elements@.len(),
    ensures
        leaves_under(nodes, node, j).len() <= leaves_under(nodes, node, 0).len(),
        forall|i: int|
            0 <= i < leaves_under(nodes, node, j).len() ==> #[trigger] leaves_under(
                nodes,
                node,
                j,
            )[i] == leaves_under(nodes, node, 0)[leaves_under(nodes, node, 0).len()
                - leaves_under(nodes, node, j).len() + i],
    decreases j,
{
    if j > 0 {
        lemma_last_leaves(nodes, node, j - 1);
        let here = element_leaves(nodes, node, nodes[node].elements@[j - 1]);
        let rest = leaves_under(nodes, node, j);
        let before = leaves_under(nodes, node, j - 1);
        assert(before == here + rest);
        assert forall|i: int| 0 <= i < rest.len() implies #[trigger] rest[i] == leaves_under(
            nodes,
            node,
            0,
        )[leaves_under(nodes, node, 0).len() - rest.len() + i] by {
            assert(before[here.len() + i] == rest[i]);
        }
    }
}

proof fn lemma_fewer_leaves(nodes: Seq<SyntaxNode>, node: int, j: int, k: int)
    requires
        0 <= j <= k <= nodes[node].elements@.len(),
    ensures
        leaves_under(nodes, node, k).len() <= leaves_under(nodes, node, j).len(),
    decreases k - j,
{
    if j < k {
        lemma_fewer_leaves(nodes, node, j + 1, k);
    }
}

/// The first leaf of a node is the token that it starts with.
proof fn lemma_first_leaf(nodes: Seq<SyntaxNode>, node: int)
    requires
        headed(nodes[node]),
    ensures
        leaves_under(nodes, node, 0).len() > 0,
        maybe_model(nodes[node].head) == Some(leaves_under(nodes, node, 0)[0]),
        nodes[node].span.start == leaves_under(nodes, node, 0)[0].span.start,
{
    let t = nodes[node].elements@[0]->Token_0;
    assert(leaves_under(nodes, node, 0) == seq![token_model(t)] + leaves_under(nodes, node, 1));
}

/// The last leaf of a node is the last one of its last element.
proof fn lemma_last_leaf(nodes: Seq<SyntaxNode>, node: int)
    requires
        nodes[node].elements@.len() > 0,
        element_leaves(nodes, node, nodes[node].elements@.last()).len() > 0,
    ensures
        leaves_under(nodes, node, 0).len() > 0,
        leaves_under(nodes, node, 0).last() == element_leaves(
            nodes,
            node,
            nodes[node].elements@.last(),
        ).last(),
{
    let at = nodes[node].elements@.len() - 1;
    let here = element_leaves(nodes, node, nodes[node].elements@[at]);
    assert(leaves_under(nodes, node, at + 1) =~= Seq::empty());
    assert(leaves_under(nodes, node, at) =~= here);
    lemma_last_leaves(nodes, node, at);
    assert(leaves_under(nodes, node, at)[here.len() - 1] == here.last());
}

/// The last leaf of an open scope is the last one of the document.
proof fn lemma_open_last_leaf(nodes: Seq<SyntaxNode>, open: Seq<usize>, depth: int)
    requires
        well_open(nodes, open),
        0 <= depth <= open.len(),
        forall|i: int| 0 < i < nodes.len() ==> headed(#[trigger] nodes[i]),
    ensures
        depth > 0 ==> {
            &&& leaves_under(nodes, at_depth(open, depth), 0).len() > 0
            &&& leaves_under(nodes, at_depth(open, depth), 0).last() == leaves_under(
                nodes,
                0,
                0,
            ).last()
        },
    decreases depth,
{
    if depth > 0 {
        lemma_open_last_leaf(nodes, open, depth - 1);
        let outer = at_depth(open, depth - 1);
        let inner = at_depth(open, depth);
        assert(last_inside(nodes, outer, inner));
        lemma_first_leaf(nodes, inner);
        lemma_last_leaf(nodes, outer);
    }
}

/// A node's range runs from its first token, which is its first word, to the end
/// of its last one.
pub open spec fn spanned(nodes: Seq<SyntaxNode>, node: int) -> bool {
    let leaves = leaves_under(nodes, node, 0);
    &&& leaves.len() > 0
    &&& maybe_model(nodes[node].head) == Some(leaves[0])
    &&& nodes[node].span.start == leaves[0].span.start
    &&& nodes[node].span.end == leaves.last().span.end
}

proof fn lemma_spanned(nodes: Seq<SyntaxNode>, open: Seq<usize>, length: u32, c: int)
    requires
        shaped(nodes, open),
        well_open(nodes, open),
        all_end_at(nodes, open, 0, length),
        open.len() > 0 ==> leaves_under(nodes, 0, 0).last().span.end == length,
        0 < c < nodes.len(),
        nodes.len() <= usize::MAX,
    ensures
        spanned(nodes, c),
{
    reveal(shaped);
    assert(headed(nodes[c]));
    lemma_first_leaf(nodes, c);
    if open.contains(c as usize) {
        let k = choose|k: int| 0 <= k < open.len() && open[k] == c as usize;
        lemma_open_last_leaf(nodes, open, k + 1);
        assert(ends_at(nodes, open[k] as int, length));
    } else {
        assert(ended(nodes[c]));
        lemma_last_leaf(nodes, c);
    }
}

/// What it is for a tree to be read from a text. Its leaves are the tokens of
/// the text, every node is an element of its parent, its range is that of its
/// tokens, and the tree follows the lines of the text.
pub open spec fn reads(
    analyzer: &Analyzer,
    text: Seq<char>,
    tokens: Seq<SyntaxToken>,
    parse: &Parse,
) -> bool {
    let nodes = parse.nodes@;
    &&& lexes(text, 0, tokens)
    &&& parse.wf()
    &&& linked(nodes)
    &&& leaves_under(nodes, 0, 0) == range_leaves(tokens, 0, tokens.len() as int)
    &&& nodes[0].span == Span { start: 0, end: byte_len(text) as u32 }
    &&& forall|c: int| 0 < c < nodes.len() ==> #[trigger] spanned(nodes, c)
    &&& forall|c: int| 0 <= c < nodes.len() ==> contained(#[trigger] nodes[c])
    &&& ruled(analyzer, parse)
    &&& follows(analyzer, parse, tokens, 0, unread())
}

/// The leaves of a node are tokens of the document that follow each other.
pub proof fn lemma_segment(parse: &Parse, tokens: Seq<SyntaxToken>, c: int) -> (from: int)
    requires
        parse.wf(),
        linked(parse.nodes@),
        leaves_under(parse.nodes@, 0, 0) == range_leaves(tokens, 0, tokens.len() as int),
        0 <= c < parse.nodes@.len(),
    ensures
        0 <= from,
        from + leaves_under(parse.nodes@, c, 0).len() <= tokens.len(),
        leaves_under(parse.nodes@, c, 0) == range_leaves(
            tokens,
            from,
            from + leaves_under(parse.nodes@, c, 0).len(),
        ),
    decreases c,
{
    let nodes = parse.nodes@;
    lemma_range_leaf(tokens, 0, tokens.len() as int, 0);
    if c == 0 {
        0
    } else {
        assert(nodes[c].parent is Some);
        let p = nodes[c].parent->Some_0 as int;
        let k = choose|k: int|
            0 <= k < nodes[p].elements@.len() && (
            #[trigger] nodes[p].elements@[k] matches Element::Node(x) && x == c);
        let at = lemma_segment(parse, tokens, p);
        let outer = leaves_under(nodes, p, 0);
        let inner = leaves_under(nodes, c, 0);
        let rest = leaves_under(nodes, p, k);
        assert(rest == inner + leaves_under(nodes, p, k + 1));
        lemma_last_leaves(nodes, p, k);
        let from = at + outer.len() - rest.len();
        lemma_range_leaf(tokens, from, from + inner.len(), 0);
        assert forall|i: int| 0 <= i < inner.len() implies #[trigger] inner[i] == range_leaves(
            tokens,
            from,
            from + inner.len(),
        )[i] by {
            assert(rest[i] == inner[i]);
            lemma_range_leaf(tokens, at, at + outer.len(), outer.len() - rest.len() + i);
            lemma_range_leaf(tokens, from, from + inner.len(), i);
        }
        assert(inner =~= range_leaves(tokens, from, from + inner.len()));
        from
    }
}

/// A token that stands in the root is a token of the document.
pub proof fn lemma_root_token(parse: &Parse, tokens: Seq<SyntaxToken>, k: int) -> (at: int)
    requires
        leaves_under(parse.nodes@, 0, 0) == range_leaves(tokens, 0, tokens.len() as int),
        0 <= k < parse.nodes@[0].elements@.len(),
        parse.nodes@[0].elements@[k] is Token,
    ensures
        0 <= at < tokens.len(),
        token_model(tokens[at]) == token_model(parse.nodes@[0].elements@[k]->Token_0),
{
    let nodes = parse.nodes@;
    let l = token_model(nodes[0].elements@[k]->Token_0);
    assert(element_leaves(nodes, 0, nodes[0].elements@[k])[0] == l);
    lemma_leaf_part(nodes, 0, 0, k, l);
    let all = leaves_under(nodes, 0, 0);
    let at = choose|i: int| 0 <= i < all.len() && all[i] == l;
    lemma_range_leaf(tokens, 0, tokens.len() as int, at);
    at
}

/// A token in or below a node is one of the tokens of the document that the
/// node's leaves are.
proof fn lemma_token_place(
    parse: &Parse,
    tokens: Seq<SyntaxToken>,
    node: int,
    span: Span,
) -> (at: int)
    requires
        parse.wf(),
        linked(parse.nodes@),
        forall|i: int|
            0 <= i < parse.nodes@.len() ==> contained(#[trigger] parse.nodes@[i]),
        leaves_under(parse.nodes@, 0, 0) == range_leaves(tokens, 0, tokens.len() as int),
        0 <= node < parse.nodes@.len(),
        held_under(parse, node, span),
    ensures
        0 <= at < tokens.len(),
        tokens[at].span == span,
{
    let nodes = parse.nodes@;
    let l = lemma_held_leaf(parse, node, span);
    let from = lemma_segment(parse, tokens, node);
    let here = leaves_under(nodes, node, 0);
    let i = choose|i: int| 0 <= i < here.len() && here[i] == l;
    lemma_range_leaf(tokens, from, from + here.len(), i);
    from + i
}

/// Any two tokens of a tree that was read are the same or apart.
pub proof fn lemma_read_tokens_apart(
    analyzer: &Analyzer,
    text: Seq<char>,
    tokens: Seq<SyntaxToken>,
    parse: &Parse,
)
    requires
        byte_len(text) <= u32::MAX,
        reads(analyzer, text, tokens, parse),
    ensures
        tokens_apart(parse),
{
    lemma_lexed_text(text, 0, tokens);
    assert forall|x: Span| #[trigger] token_in(parse, x) implies x.start <= x.end by {
        let i = choose|i: int|
            0 <= i < parse.nodes@.len() && #[trigger] node_holds(parse.nodes@[i], x);
        assert(held_under(parse, i, x));
        let at = lemma_token_place(parse, tokens, i, x);
        assert(tokens[at].span.start < tokens[at].span.end);
    }
    assert forall|x: Span, y: Span| #[trigger]
        token_in(parse, x) && #[trigger] token_in(parse, y) implies x == y || x.end <= y.start
        || y.end <= x.start by {
        let i = choose|i: int|
            0 <= i < parse.nodes@.len() && #[trigger] node_holds(parse.nodes@[i], x);
        assert(held_under(parse, i, x));
        let a = lemma_token_place(parse, tokens, i, x);
        let j = choose|j: int|
            0 <= j < parse.nodes@.len() && #[trigger] node_holds(parse.nodes@[j], y);
        assert(held_under(parse, j, y));
        let b = lemma_token_place(parse, tokens, j, y);
        if a < b {
            assert(tokens[a].span.end <= tokens[b].span.start);
        } else if b < a {
            assert(tokens[b].span.end <= tokens[a].span.start);
        }
    }
}

/// A token of the root's element `j` is one of the document's tokens, at a
/// place between what stands before the element and what stands after it.
proof fn lemma_place(parse: &Parse, tokens: Seq<SyntaxToken>, j: int, span: Span) -> (at: int)
    requires
        parse.wf(),
        forall|i: int|
            0 <= i < parse.nodes@.len() ==> contained(#[trigger] parse.nodes@[i]),
        leaves_under(parse.nodes@, 0, 0) == range_leaves(tokens, 0, tokens.len() as int),
        0 <= j < parse.nodes@[0].elements@.len(),
        element_holds(parse, parse.nodes@[0].elements@[j], span),
    ensures
        0 <= at < tokens.len(),
        tokens[at].span == span,
        tokens.len() - leaves_under(parse.nodes@, 0, j).len() <= at < tokens.len() - leaves_under(
            parse.nodes@,
            0,
            j + 1,
        ).len(),
{
    let nodes = parse.nodes@;
    let element = nodes[0].elements@[j];
    let here = element_leaves(nodes, 0, element);
    let l = match element {
        Element::Node(c) => lemma_held_leaf(parse, c as int, span),
        Element::Token(t) => token_model(t),
    };
    assert(here.contains(l)) by {
        if element is Token {
            assert(here[0] == l);
        }
    }
    let i = choose|i: int| 0 <= i < here.len() && here[i] == l;
    let all = leaves_under(nodes, 0, 0);
    let from = leaves_under(nodes, 0, j);
    let rest = leaves_under(nodes, 0, j + 1);
    assert(from == here + rest);
    lemma_last_leaves(nodes, 0, j);
    assert(from[i] == l);
    let at = all.len() - from.len() + i;
    assert(all[at] == l);
    lemma_range_leaf(tokens, 0, tokens.len() as int, at);
    at
}

/// Tokens of different top-level elements start at different offsets.
proof fn lemma_read_apart(parse: &Parse, tokens: Seq<SyntaxToken>)
    requires
        parse.wf(),
        forall|i: int|
            0 <= i < parse.nodes@.len() ==> contained(#[trigger] parse.nodes@[i]),
        leaves_under(parse.nodes@, 0, 0) == range_leaves(tokens, 0, tokens.len() as int),
        in_source_order(tokens),
    ensures
        elements_apart(parse),
{
    let elements = parse.nodes@[0].elements@;
    assert forall|j: int, k: int, x: Span, y: Span|
        #![trigger element_holds(parse, parse.nodes@[0].elements@[j], x),
            element_holds(parse, parse.nodes@[0].elements@[k], y)]
        0 <= j < elements.len() && 0 <= k < elements.len() && j != k && element_holds(
            parse,
            parse.nodes@[0].elements@[j],
            x,
        ) && element_holds(parse, parse.nodes@[0].elements@[k], y) implies x.start
        != y.start by {
        let a = lemma_place(parse, tokens, j, x);
        let b = lemma_place(parse, tokens, k, y);
        if j < k {
            lemma_fewer_leaves(parse.nodes@, 0, j + 1, k);
            assert(tokens[a].span.end <= tokens[b].span.start);
        } else {
            lemma_fewer_leaves(parse.nodes@, 0, k + 1, j);
            assert(tokens[b].span.end <= tokens[a].span.start);
        }
    }
}

/// Reads an INI text into a tree. Nothing of the text is lost: the tokens of the
/// tree, in order, are those of the text, and make it up. The tree follows the
/// lines of the text, every node is what the schema makes of its first word, and
/// no two tokens overlap.
pub fn read_ini(analyzer: &Analyzer, text: &str) -> (r: Parse)
    requires
        byte_len(text@) <= u32::MAX,
    ensures
        r.wf(),
        leaf_text(leaves_under(r.nodes@, 0, 0), 0) == text@,
        ruled(analyzer, &r),
        elements_apart(&r),
        tokens_apart(&r),
        exists|tokens: Seq<SyntaxToken>| #[trigger] reads(analyzer, text@, tokens, &r),
{
    let tokens = tokens_of(text);
    proof {
        lemma_lexed_text(text@, 0, tokens@);
        lemma_leaves_are_joined(tokens@, 0);
        assert(text@.skip(0) =~= text@);
    }
    let root = SyntaxNode {
        kind: SyntaxKind::Root,
        span: Span { start: 0, end: 0 },
        parent: None,
        elements: Vec::new(),
        head: None,
        name: None,
        tag: None,
        values: Vec::new(),
    };
    let mut nodes: Vec<SyntaxNode> = Vec::new();
    nodes.push(root);
    let mut reader = Reader {
        analyzer,
        parse: Parse { nodes, errors: Vec::new() },
        open: Vec::new(),
    };
    assert(reader.leaves() =~= Seq::empty());
    assert(reader.inv(0)) by {
        reveal(shaped);
    }
    let ghost mut starts: Seq<int> = seq![0];
    let ghost mut states: Seq<ReadState> = seq![reader.state()];
    assert(reader.state() =~= unread());
    let mut from: usize = 0;
    while from < tokens.len()
        invariant
            from <= tokens.len(),
            readable(tokens@),
            reader.analyzer == analyzer,
            reader.inv(end_before(tokens@, from as int)),
            reader.leaves() == range_leaves(tokens@, 0, from as int),
            only_strays(reader.parse.errors@),
            lines_read(analyzer, &reader.parse, tokens@, starts, states),
            starts.last() == from,
            states.last() == reader.state(),
            state_fits(&reader.parse, reader.state()),
            states[0] == unread(),
        decreases tokens.len() - from,
    {
        let mut to: usize = from + 1;
        while to < tokens.len() && tokens[to - 1].kind != TokenKind::Newline
            invariant
                from < to <= tokens.len(),
                line_end(tokens@, from as int) == line_end(tokens@, to - 1),
            decreases tokens.len() - to,
        {
            to += 1;
        }
        assert(line_end(tokens@, from as int) == to) by {
            assert(line_end(tokens@, tokens@.len() as int) == tokens@.len());
        }
        proof {
            lemma_range_split(tokens@, 0, from as int, to as int);
        }
        let ghost before = reader.parse;
        let ghost state = reader.state();
        reader.line(&tokens, from, to);
        proof {
            lemma_lines_kept(analyzer, &before, &reader.parse, tokens@, starts, states);
            lemma_one_more_line(
                analyzer,
                &reader.parse,
                tokens@,
                starts,
                states,
                to as int,
                reader.state(),
            );
            starts = starts.push(to as int);
            states = states.push(reader.state());
            if reader.open@.len() > 0 {
                assert(innermost(reader.open@) == reader.open@.last());
            }
        }
        from = to;
    }
    let length: u32 = if tokens.len() == 0 {
        0
    } else {
        tokens[tokens.len() - 1].span.end
    };
    let ghost before = reader.parse;
    let ghost state = reader.state();
    reader.finish(length);
    proof {
        lemma_kept_same(before.nodes@);
        lemma_lines_kept(analyzer, &before, &reader.parse, tokens@, starts, states);
        lemma_follows(analyzer, &reader.parse, tokens@, starts, states, 0);
        lemma_read_apart(&reader.parse, tokens@);
        let nodes = reader.parse.nodes@;
        let n = tokens@.len() as int;
        assert(linked(nodes)) by {
            reveal(shaped);
        }
        if n > 0 {
            lemma_range_leaf(tokens@, 0, n, n - 1);
        } else if starts.len() > 1 {
            assert(line_done(analyzer, &before, tokens@, starts, states, 0));
        }
        assert(nodes.len() == reader.parse.nodes.len());
        assert forall|c: int| 0 < c < nodes.len() implies #[trigger] spanned(nodes, c) by {
            lemma_spanned(nodes, reader.open@, length, c);
        }
        assert(reads(analyzer, text@, tokens@, &reader.parse));
        lemma_read_tokens_apart(analyzer, text@, tokens@, &reader.parse);
    }
    reader.parse
}

/// The part of a text that is read: offsets are 32 bits wide, so that a longer
/// text is read up to the last scalar that they reach.
pub open spec fn readable_front(text: Seq<char>) -> Seq<char> {
    text.take(char_of_byte(text, u32::MAX as nat) as int)
}

/// A tree is that of a text.
pub open spec fn tree_of(analyzer: &Analyzer, text: Seq<char>, parse: &Parse) -> bool {
    exists|tokens: Seq<SyntaxToken>| #[trigger]
        reads(analyzer, readable_front(text), tokens, parse)
}

/// Reads any text into a tree.
pub fn read_text(analyzer: &Analyzer, text: &str) -> (r: Parse)
    ensures
        r.wf(),
        tokens_apart(&r),
        elements_apart(&r),
        tree_of(analyzer, text@, &r),
        byte_len(text@) <= u32::MAX ==> readable_front(text@) == text@,
{
    proof {
        lemma_char_of_byte_bounds(text@, u32::MAX as nat);
        if byte_len(text@) <= u32::MAX {
            assert(text@.take(text@.len() as int) =~= text@);
        }
    }
    if bytes_in(text) <= u32::MAX as usize {
        assert(char_of_byte(text@, u32::MAX as nat) == text@.len());
        assert(readable_front(text@) =~= text@);
        let r = read_ini(analyzer, text);
        assert(exists|tokens: Seq<SyntaxToken>| #[trigger] reads(analyzer, text@, tokens, &r));
        return r;
    }
    let rope = ropey::Rope::from_str(text);
    let end: usize = rope.byte_to_char(u32::MAX as usize);
    let front = vstd::string::StrSliceExecFns::substring_char(text, 0, end);
    assert(front@ =~= readable_front(text@));
    read_ini(analyzer, front)
}

} // verus!
