//! What a position of a document is for: a block keyword, a field key, a
//! value, a module name or the argument of a sub-block.

use vstd::prelude::*;

use crate::analyzer::Analyzer;
use crate::index::{copy_texts, is_override_layer, override_layer};
use crate::model::{bare_inputs, bare_texts, find_sub_block, scope_of, scope_schema, sub_block_at};
use crate::schema::{text_of, ModuleSlot, ValueType};
use crate::syntax::{Element, Parse, Span, SyntaxKind, SyntaxToken, TokenKind};
use crate::text::{eq_ci, join2, same, same_ci, slices, texts, unquote};

verus! {

/// What may be completed at a position.
pub enum PosContext<'a> {
    TopLevel,
    /// The name of a top-level Object in a map override layer. Existing
    /// objects are useful override targets, and a new name is valid too.
    ObjectName,
    /// A field or slot keyword inside this scope.
    FieldKey(usize),
    /// A value of `key` inside this scope.
    FieldValue {
        scope: usize,
        key: String,
        value_index: usize,
        current_token: Option<String>,
        first_token: Option<String>,
    },
    /// A module type name after a slot's `=`, with the interfaces that the
    /// slot accepts.
    ModuleName { scope: usize, accepts: Vec<String> },
    /// The argument of a sub-block header.
    SubBlockArg { argument_type: &'a ValueType },
}

/// The model of a [`PosContext`].
pub enum PosView {
    TopLevel,
    ObjectName,
    FieldKey(int),
    FieldValue {
        scope: int,
        key: Seq<char>,
        value_index: int,
        current_token: Option<Seq<char>>,
        first_token: Option<Seq<char>>,
    },
    ModuleName { scope: int, accepts: Seq<Seq<char>> },
    SubBlockArg { argument_type: ValueType },
}

impl<'a> View for PosContext<'a> {
    type V = PosView;

    open spec fn view(&self) -> PosView {
        match *self {
            PosContext::TopLevel => PosView::TopLevel,
            PosContext::ObjectName => PosView::ObjectName,
            PosContext::FieldKey(scope) => PosView::FieldKey(scope as int),
            PosContext::FieldValue { scope, key, value_index, current_token, first_token } => {
                PosView::FieldValue {
                    scope: scope as int,
                    key: key@,
                    value_index: value_index as int,
                    current_token: crate::index::opt_text(current_token),
                    first_token: crate::index::opt_text(first_token),
                }
            },
            PosContext::ModuleName { scope, accepts } => PosView::ModuleName {
                scope: scope as int,
                accepts: texts(accepts@),
            },
            PosContext::SubBlockArg { argument_type } => PosView::SubBlockArg {
                argument_type: *argument_type,
            },
        }
    }
}

impl<'a> PosContext<'a> {
    /// The scope that a position names is a node of the document.
    pub open spec fn within(&self, parse: &Parse) -> bool {
        match *self {
            PosContext::FieldKey(scope) => scope < parse.nodes@.len(),
            PosContext::FieldValue { scope, .. } => scope < parse.nodes@.len(),
            PosContext::ModuleName { scope, .. } => scope < parse.nodes@.len(),
            _ => true,
        }
    }
}

/// The range of an element.
pub open spec fn element_span(parse: &Parse, element: Element) -> Span {
    match element {
        Element::Node(c) => parse.nodes@[c as int].span,
        Element::Token(t) => t.span,
    }
}

fn span_of(parse: &Parse, element: &Element) -> (r: Span)
    requires
        element matches Element::Node(c) ==> c < parse.nodes.len(),
    ensures
        r == element_span(parse, *element),
{
    match element {
        Element::Node(c) => parse.nodes[*c].span,
        Element::Token(t) => t.span,
    }
}

/// The last element before `k` that starts before the offset or ends by it,
/// else the first.
pub open spec fn covering(parse: &Parse, node: int, offset: u32, k: int) -> int
    decreases k,
{
    if k <= 1 {
        0
    } else if element_span(parse, parse.nodes@[node].elements@[k - 1]).start < offset
        || element_span(parse, parse.nodes@[node].elements@[k - 1]).end <= offset {
        k - 1
    } else {
        covering(parse, node, offset, k - 1)
    }
}

/// The deepest node around an offset. On the border between two elements the
/// left one counts.
pub open spec fn node_at(parse: &Parse, node: int, offset: u32) -> int
    decreases parse.nodes@.len() - node,
{
    let elements = parse.nodes@[node].elements@;
    let k = covering(parse, node, offset, elements.len() as int);
    if 0 <= k < elements.len() {
        match elements[k] {
            Element::Node(c) => if node < c < parse.nodes@.len()
                && parse.nodes@[c as int].span.start <= offset <= parse.nodes@[c as int].span.end {
                node_at(parse, c as int, offset)
            } else {
                node
            },
            Element::Token(_) => node,
        }
    } else {
        node
    }
}

fn find_node_at(parse: &Parse, node: usize, offset: u32) -> (r: usize)
    requires
        parse.wf(),
        node < parse.nodes.len(),
    ensures
        r == node_at(parse, node as int, offset),
        r < parse.nodes.len(),
    decreases parse.nodes.len() - node,
{
    let elements = &parse.nodes[node].elements;
    let mut k: usize = elements.len();
    while k > 1
        invariant
            parse.wf(),
            node < parse.nodes.len(),
            elements@ == parse.nodes@[node as int].elements@,
            k <= elements.len(),
            elements.len() > 0 ==> k > 0,
            covering(parse, node as int, offset, elements@.len() as int) == covering(
                parse,
                node as int,
                offset,
                k as int,
            ),
        ensures
            k <= elements.len(),
            elements.len() > 0 ==> k > 0,
            elements.len() > 0 ==> covering(
                parse,
                node as int,
                offset,
                elements@.len() as int,
            ) == k - 1,
        decreases k,
    {
        assert(parse.nodes@[node as int].elements@[k - 1] == elements@[k - 1]);
        let span = span_of(parse, &elements[k - 1]);
        if span.start < offset || span.end <= offset {
            break;
        }
        k -= 1;
    }
    if elements.len() == 0 {
        return node;
    }
    match &elements[k - 1] {
        Element::Node(c) => {
            let c: usize = *c;
            assert(parse.nodes@[node as int].elements@[k - 1] == elements@[k - 1]);
            if parse.nodes[c].span.start <= offset && offset <= parse.nodes[c].span.end {
                find_node_at(parse, c, offset)
            } else {
                node
            }
        },
        Element::Token(_) => node,
    }
}

/// The nearest node of a kind: the node itself or an ancestor.
pub open spec fn nearest(parse: &Parse, node: int, kind: SyntaxKind) -> Option<int>
    decreases node,
{
    if parse.nodes@[node].kind == kind {
        Some(node)
    } else {
        match parse.nodes@[node].parent {
            Some(p) => if 0 <= node && p < node {
                nearest(parse, p as int, kind)
            } else {
                None
            },
            None => None,
        }
    }
}

fn ancestor_of_kind(parse: &Parse, node: usize, kind: SyntaxKind) -> (r: Option<usize>)
    requires
        parse.wf(),
        node < parse.nodes.len(),
    ensures
        match r {
            Some(n) => nearest(parse, node as int, kind) == Some(n as int) && n
                < parse.nodes.len(),
            None => nearest(parse, node as int, kind) is None,
        },
    decreases node,
{
    if parse.nodes[node].kind == kind {
        return Some(node);
    }
    match parse.nodes[node].parent {
        Some(p) => ancestor_of_kind(parse, p, kind),
        None => None,
    }
}

/// Whether an `=` of the header, from element `k` on, ends at or before the
/// offset. The header ends at the first nested node.
pub open spec fn equals_before(elements: Seq<Element>, k: int, offset: u32) -> bool
    decreases elements.len() - k,
{
    if k < 0 || k >= elements.len() {
        false
    } else {
        match elements[k] {
            Element::Token(t) => (t.kind is Equals && t.span.end <= offset) || equals_before(
                elements,
                k + 1,
                offset,
            ),
            Element::Node(_) => false,
        }
    }
}

fn after_equals(parse: &Parse, node: usize, offset: u32) -> (r: bool)
    requires
        node < parse.nodes.len(),
    ensures
        r == equals_before(parse.nodes@[node as int].elements@, 0, offset),
{
    let elements = &parse.nodes[node].elements;
    let mut k: usize = 0;
    while k < elements.len()
        invariant
            k <= elements.len(),
            elements@ == parse.nodes@[node as int].elements@,
            equals_before(elements@, 0, offset) == equals_before(elements@, k as int, offset),
        decreases elements.len() - k,
    {
        match &elements[k] {
            Element::Token(t) => {
                if t.kind == TokenKind::Equals && t.span.end <= offset {
                    return true;
                }
            },
            Element::Node(_) => {
                return false;
            },
        }
        k += 1;
    }
    false
}

/// Whether the offset lies on the header line, which the first line break
/// among the elements from `k` on ends. Nothing ends a header without one.
pub open spec fn on_header(elements: Seq<Element>, k: int, offset: u32) -> bool
    decreases elements.len() - k,
{
    if k < 0 || k >= elements.len() {
        true
    } else {
        match elements[k] {
            Element::Token(t) => if t.kind is Newline {
                offset <= t.span.start
            } else {
                on_header(elements, k + 1, offset)
            },
            Element::Node(_) => true,
        }
    }
}

fn on_header_line(parse: &Parse, node: usize, offset: u32) -> (r: bool)
    requires
        node < parse.nodes.len(),
    ensures
        r == on_header(parse.nodes@[node as int].elements@, 0, offset),
{
    let elements = &parse.nodes[node].elements;
    let mut k: usize = 0;
    while k < elements.len()
        invariant
            k <= elements.len(),
            elements@ == parse.nodes@[node as int].elements@,
            on_header(elements@, 0, offset) == on_header(elements@, k as int, offset),
        decreases elements.len() - k,
    {
        match &elements[k] {
            Element::Token(t) => {
                if t.kind == TokenKind::Newline {
                    return offset <= t.span.start;
                }
            },
            Element::Node(_) => {
                return true;
            },
        }
        k += 1;
    }
    true
}

/// How many of the tokens from `k` on end before the offset.
pub open spec fn ended(tokens: Seq<SyntaxToken>, k: int, offset: u32) -> nat
    decreases tokens.len() - k,
{
    if k < 0 || k >= tokens.len() {
        0
    } else if tokens[k].span.end < offset {
        1 + ended(tokens, k + 1, offset)
    } else {
        ended(tokens, k + 1, offset)
    }
}

fn count_ended(tokens: &Vec<SyntaxToken>, offset: u32) -> (r: usize)
    ensures
        r == ended(tokens@, 0, offset),
        r <= tokens.len(),
{
    let mut n: usize = 0;
    let mut k: usize = 0;
    while k < tokens.len()
        invariant
            k <= tokens.len(),
            n <= k,
            n + ended(tokens@, k as int, offset) == ended(tokens@, 0, offset),
        decreases tokens.len() - k,
    {
        if tokens[k].span.end < offset {
            n += 1;
        }
        k += 1;
    }
    n
}

/// The first token from `k` on that the offset touches.
pub open spec fn touched(tokens: Seq<SyntaxToken>, k: int, offset: u32) -> Option<int>
    decreases tokens.len() - k,
{
    if k < 0 || k >= tokens.len() {
        None
    } else if tokens[k].span.start <= offset <= tokens[k].span.end {
        Some(k)
    } else {
        touched(tokens, k + 1, offset)
    }
}

fn token_at(tokens: &Vec<SyntaxToken>, offset: u32) -> (r: Option<usize>)
    ensures
        match r {
            Some(k) => touched(tokens@, 0, offset) == Some(k as int) && k < tokens.len(),
            None => touched(tokens@, 0, offset) is None,
        },
{
    let mut k: usize = 0;
    while k < tokens.len()
        invariant
            k <= tokens.len(),
            touched(tokens@, 0, offset) == touched(tokens@, k as int, offset),
        decreases tokens.len() - k,
    {
        if tokens[k].span.start <= offset && offset <= tokens[k].span.end {
            return Some(k);
        }
        k += 1;
    }
    None
}

/// Whether a text ends with a colon.
pub open spec fn ends_with_colon(s: Seq<char>) -> bool {
    s.len() > 0 && s.last() == ':'
}

fn colon_at_end(text: &str) -> (r: bool)
    ensures
        r == ends_with_colon(text@),
{
    let n: usize = text.unicode_len();
    n > 0 && text.get_char(n - 1) == ':'
}

/// The token being written: the one that the offset touches, joined to a
/// preceding `Prefix:`; or else the `Prefix:` that was written last.
pub open spec fn current_of(tokens: Seq<SyntaxToken>, offset: u32) -> Option<Seq<char>> {
    let bare = bare_texts(tokens);
    match touched(tokens, 0, offset) {
        Some(k) => if k > 0 && ends_with_colon(bare[k - 1]) {
            Some(bare[k - 1] + bare[k])
        } else {
            Some(bare[k])
        },
        None => {
            let raw = ended(tokens, 0, offset);
            if 0 < raw <= bare.len() && ends_with_colon(bare[raw - 1]) {
                Some(bare[raw - 1])
            } else {
                None
            }
        },
    }
}

fn current_token_of(tokens: &Vec<SyntaxToken>, offset: u32) -> (r: Option<String>)
    ensures
        crate::index::opt_text(r) == current_of(tokens@, offset),
{
    let ghost bare = bare_texts(tokens@);
    match token_at(tokens, offset) {
        Some(k) => {
            let current = unquote(tokens[k].text.as_str());
            if k > 0 {
                let previous = unquote(tokens[k - 1].text.as_str());
                if colon_at_end(previous) {
                    return Some(join2(previous, current));
                }
            }
            Some(current.to_owned())
        },
        None => {
            let raw: usize = count_ended(tokens, offset);
            if raw > 0 {
                let previous = unquote(tokens[raw - 1].text.as_str());
                if colon_at_end(previous) {
                    return Some(previous.to_owned());
                }
            }
            None
        },
    }
}

/// The schema position of the value being written. The tokens after an
/// animation's name are an optional distance and a repeat count.
pub open spec fn value_index_of(
    analyzer: &Analyzer,
    parse: &Parse,
    scope: Option<int>,
    key: Seq<char>,
    input: Seq<Seq<char>>,
    raw: int,
) -> int {
    match scope {
        Some(s) => match scope_of(analyzer, parse, s).field_of(key) {
            Some(field) => if field.parse_fn@ == "parseAnimation"@ {
                raw
            } else {
                match field.value_type.input_index(input, raw) {
                    Some(k) => k,
                    None => raw,
                }
            },
            None => raw,
        },
        None => raw,
    }
}

fn find_value_index(
    analyzer: &Analyzer,
    parse: &Parse,
    scope: Option<usize>,
    key: &str,
    input: &[&str],
    raw: usize,
) -> (r: usize)
    requires
        parse.wf(),
        scope matches Some(s) ==> s < parse.nodes.len(),
    ensures
        r == value_index_of(
            analyzer,
            parse,
            index_of(scope),
            key@,
            slices(input@),
            raw as int,
        ),
{
    match scope {
        Some(s) => match scope_schema(analyzer, parse, s).field(key) {
            Some(field) => {
                if same(field.parse_fn.as_str(), "parseAnimation") {
                    raw
                } else {
                    match field.value_type.token_index_at_input(input, raw) {
                        Some(k) => k,
                        None => raw,
                    }
                }
            },
            None => raw,
        },
        None => raw,
    }
}

/// The view of an optional position.
pub open spec fn index_of(at: Option<usize>) -> Option<int> {
    match at {
        Some(k) => Some(k as int),
        None => None,
    }
}

/// The node, or the root.
pub open spec fn or_root(at: Option<int>) -> int {
    match at {
        Some(k) => k,
        None => 0,
    }
}

/// What a position on a field line is for.
pub open spec fn field_position(
    analyzer: &Analyzer,
    parse: &Parse,
    field: int,
    offset: u32,
) -> PosView {
    let n = parse.nodes@[field];
    let scope = parse.outer_scope(field);
    let after_key = match n.head {
        Some(key) => key.span.end < offset,
        None => false,
    };
    if equals_before(n.elements@, 0, offset) || after_key {
        let key = match n.head {
            Some(key) => key.text@,
            None => Seq::empty(),
        };
        let bare = bare_texts(n.values@);
        let raw = ended(n.values@, 0, offset) as int;
        PosView::FieldValue {
            scope: or_root(scope),
            key,
            value_index: value_index_of(analyzer, parse, scope, key, bare, raw),
            current_token: current_of(n.values@, offset),
            first_token: crate::schema::first_of(bare),
        }
    } else {
        match scope {
            Some(s) => PosView::FieldKey(s),
            None => PosView::TopLevel,
        }
    }
}

fn classify_field<'a>(analyzer: &'a Analyzer, parse: &Parse, field: usize, offset: u32) -> (r:
    PosContext<'a>)
    requires
        parse.wf(),
        field < parse.nodes.len(),
    ensures
        r@ == field_position(analyzer, parse, field as int, offset),
        r.within(parse),
{
    let n = &parse.nodes[field];
    let scope = parse.enclosing_scope(field);
    let after_key = match &n.head {
        Some(key) => key.span.end < offset,
        None => false,
    };
    if after_equals(parse, field, offset) || after_key {
        let key = match &n.head {
            Some(key) => key.text.clone(),
            None => String::new(),
        };
        assert(n.head is None ==> key@ =~= Seq::<char>::empty());
        let input = bare_inputs(&n.values);
        let raw: usize = count_ended(&n.values, offset);
        let value_index: usize = find_value_index(
            analyzer,
            parse,
            scope,
            key.as_str(),
            input.as_slice(),
            raw,
        );
        let current_token = current_token_of(&n.values, offset);
        let first_token = if input.len() > 0 {
            assert(slices(input@)[0] == input@[0]@);
            Some(input[0].to_owned())
        } else {
            None
        };
        return PosContext::FieldValue {
            scope: match scope {
                Some(s) => s,
                None => 0,
            },
            key,
            value_index,
            current_token,
            first_token,
        };
    }
    match scope {
        Some(s) => PosContext::FieldKey(s),
        None => PosContext::TopLevel,
    }
}

/// The first slot of that keyword, from `k` on.
pub open spec fn slot_of(slots: Seq<ModuleSlot>, k: int, keyword: Seq<char>) -> Option<ModuleSlot>
    decreases slots.len() - k,
{
    if k < 0 || k >= slots.len() {
        None
    } else if slots[k].keyword@ == keyword {
        Some(slots[k])
    } else {
        slot_of(slots, k + 1, keyword)
    }
}

fn find_slot<'a>(slots: &'a [ModuleSlot], keyword: &str) -> (r: Option<&'a ModuleSlot>)
    ensures
        match r {
            Some(s) => slot_of(slots@, 0, keyword@) == Some(*s),
            None => slot_of(slots@, 0, keyword@) is None,
        },
{
    let mut k: usize = 0;
    while k < slots.len()
        invariant
            k <= slots.len(),
            slot_of(slots@, 0, keyword@) == slot_of(slots@, k as int, keyword@),
        decreases slots.len() - k,
    {
        if same(slots[k].keyword.as_str(), keyword) {
            return Some(&slots[k]);
        }
        k += 1;
    }
    None
}

/// The type of the argument of the sub-block of that keyword.
pub open spec fn argument_of(
    analyzer: &Analyzer,
    parse: &Parse,
    scope: Option<int>,
    keyword: Seq<char>,
) -> Option<ValueType> {
    match scope {
        Some(s) => {
            let subs = scope_of(analyzer, parse, s).sub_list();
            let k = sub_block_at(subs, keyword, 0);
            if 0 <= k < subs.len() {
                subs[k].argument_type
            } else {
                None
            }
        },
        None => None,
    }
}

fn sub_block_arg_type<'a>(
    analyzer: &'a Analyzer,
    parse: &Parse,
    scope: Option<usize>,
    keyword: &str,
) -> (r: Option<&'a ValueType>)
    requires
        parse.wf(),
        scope matches Some(s) ==> s < parse.nodes.len(),
    ensures
        match r {
            Some(t) => argument_of(analyzer, parse, index_of(scope), keyword@) == Some(*t),
            None => argument_of(analyzer, parse, index_of(scope), keyword@) is None,
        },
{
    match scope {
        Some(s) => {
            let subs: &'a [crate::schema::SubBlock] = scope_schema(analyzer, parse, s).sub_blocks();
            let k: usize = find_sub_block(subs, keyword);
            if k < subs.len() {
                subs[k].argument_type.as_ref()
            } else {
                None
            }
        },
        None => None,
    }
}

/// What a position inside a module is for.
pub open spec fn module_position(
    analyzer: &Analyzer,
    parse: &Parse,
    module: int,
    offset: u32,
) -> PosView {
    let n = parse.nodes@[module];
    let scope = parse.outer_scope(module);
    let body = PosView::FieldKey(module);
    if !on_header(n.elements@, 0, offset) {
        body
    } else {
        match n.head {
            None => body,
            Some(slot) => {
                let argument = argument_of(analyzer, parse, scope, slot.text@);
                if equals_before(n.elements@, 0, offset) {
                    let accepting = match scope {
                        Some(s) => slot_of(scope_of(analyzer, parse, s).slot_list(), 0, slot.text@),
                        None => None,
                    };
                    match accepting {
                        Some(s) => PosView::ModuleName {
                            scope: or_root(scope),
                            accepts: texts(s.accepts@),
                        },
                        None => match argument {
                            Some(argument_type) => PosView::SubBlockArg { argument_type },
                            None => body,
                        },
                    }
                } else if offset >= slot.span.end {
                    match argument {
                        Some(argument_type) => PosView::SubBlockArg { argument_type },
                        None => body,
                    }
                } else {
                    body
                }
            },
        }
    }
}

fn classify_module<'a>(analyzer: &'a Analyzer, parse: &Parse, module: usize, offset: u32) -> (r:
    PosContext<'a>)
    requires
        parse.wf(),
        module < parse.nodes.len(),
    ensures
        r@ == module_position(analyzer, parse, module as int, offset),
        r.within(parse),
{
    let n = &parse.nodes[module];
    let body: PosContext<'a> = PosContext::FieldKey(module);
    if !on_header_line(parse, module, offset) {
        return body;
    }
    let scope = parse.enclosing_scope(module);
    match &n.head {
        None => body,
        Some(slot) => {
            if after_equals(parse, module, offset) {
                if let Some(s) = scope {
                    let slots: &'a [ModuleSlot] = scope_schema(analyzer, parse, s).module_slots();
                    if let Some(accepting) = find_slot(slots, slot.text.as_str()) {
                        return PosContext::ModuleName {
                            scope: s,
                            accepts: copy_texts(&accepting.accepts),
                        };
                    }
                }
            } else if offset < slot.span.end {
                return body;
            }
            match sub_block_arg_type(analyzer, parse, scope, slot.text.as_str()) {
                Some(argument_type) => PosContext::SubBlockArg { argument_type },
                None => body,
            }
        },
    }
}

/// What a position inside a block is for.
pub open spec fn block_position(
    parse: &Parse,
    block: int,
    offset: u32,
    file: Option<Seq<char>>,
) -> PosView {
    let n = parse.nodes@[block];
    let top = match n.parent {
        Some(p) => parse.nodes@[p as int].kind is Root,
        None => false,
    };
    let body = PosView::FieldKey(block);
    if top && on_header(n.elements@, 0, offset) && !equals_before(n.elements@, 0, offset) {
        match n.head {
            Some(kw) => if offset <= kw.span.end {
                PosView::TopLevel
            } else if (file matches Some(f) && override_layer(f)) && same_ci(
                kw.text@,
                "Object"@,
            ) {
                PosView::ObjectName
            } else {
                body
            },
            None => body,
        }
    } else {
        body
    }
}

fn classify_block<'a>(parse: &Parse, block: usize, offset: u32, file: Option<&str>) -> (r:
    PosContext<'a>)
    requires
        parse.wf(),
        block < parse.nodes.len(),
    ensures
        r@ == block_position(parse, block as int, offset, text_of(file)),
        r.within(parse),
{
    let n = &parse.nodes[block];
    let top = match n.parent {
        Some(p) => parse.nodes[p].kind == SyntaxKind::Root,
        None => false,
    };
    if top && on_header_line(parse, block, offset) && !after_equals(parse, block, offset) {
        if let Some(kw) = &n.head {
            if offset <= kw.span.end {
                return PosContext::TopLevel;
            }
            if let Some(f) = file {
                if is_override_layer(f) && eq_ci(kw.text.as_str(), "Object") {
                    return PosContext::ObjectName;
                }
            }
        }
    }
    PosContext::FieldKey(block)
}

/// What a position of the document is for: that of the field line around it,
/// else of the module, else of the block, else of the file.
pub open spec fn position_of(
    analyzer: &Analyzer,
    parse: &Parse,
    offset: u32,
    file: Option<Seq<char>>,
) -> PosView {
    let end = parse.nodes@[0].span.end;
    let at = if offset < end {
        offset
    } else {
        end
    };
    let node = node_at(parse, 0, at);
    match nearest(parse, node, SyntaxKind::Field) {
        Some(field) => field_position(analyzer, parse, field, offset),
        None => match nearest(parse, node, SyntaxKind::Module) {
            Some(module) => module_position(analyzer, parse, module, offset),
            None => match nearest(parse, node, SyntaxKind::Block) {
                Some(block) => block_position(parse, block, offset, file),
                None => PosView::TopLevel,
            },
        },
    }
}

/// Decides what a position of the document is for.
pub fn classify_position<'a>(
    analyzer: &'a Analyzer,
    parse: &Parse,
    offset: u32,
    file: Option<&str>,
) -> (r: PosContext<'a>)
    requires
        parse.wf(),
    ensures
        r@ == position_of(analyzer, parse, offset, text_of(file)),
        r.within(parse),
{
    let end: u32 = parse.nodes[0].span.end;
    let at: u32 = if offset < end {
        offset
    } else {
        end
    };
    let node: usize = find_node_at(parse, 0, at);
    if let Some(field) = ancestor_of_kind(parse, node, SyntaxKind::Field) {
        return classify_field(analyzer, parse, field, offset);
    }
    if let Some(module) = ancestor_of_kind(parse, node, SyntaxKind::Module) {
        return classify_module(analyzer, parse, module, offset);
    }
    if let Some(block) = ancestor_of_kind(parse, node, SyntaxKind::Block) {
        return classify_block(parse, block, offset, file);
    }
    PosContext::TopLevel
}

} // verus!
