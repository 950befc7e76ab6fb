//! Conversions between byte offsets and line/character positions, and from
//! analysis results to what a language client is sent.
//!
//! A position's `character` counts code units of the negotiated encoding:
//! UTF-16 by default, or UTF-8 when the client offers it.

use vstd::prelude::*;

use crate::completion::{Completion, CompletionKind};
use crate::index::{copy_opt, opt_text};
use crate::model::contains_text;
use crate::rope::{
    char_of_byte, char_of_unit, lemma_char_of_byte, lemma_char_of_byte_bounds,
    lemma_char_of_byte_grows, lemma_char_of_unit, lemma_char_of_unit_bounds, lemma_fronts,
    lemma_line_from, lemma_line_starts, lemma_lines_grow, lemma_units_fit, line_count, line_of,
    line_start, remove_chars, rope_text, utf16_len,
};
use crate::semantic::{SemKind, SemToken};
use crate::syntax::Span;
use crate::text::{byte_len, strip_suffix, texts, without_suffix};
use crate::values::{Diagnostic, Severity};

verus! {

/// The position encoding negotiated with the client.
#[derive(Debug, Clone, Copy, PartialEq, Eq, Structural)]
pub enum PositionEnc {
    /// `character` counts UTF-8 bytes from the line start.
    Utf8,
    /// `character` counts UTF-16 code units from the line start.
    Utf16,
}

impl Default for PositionEnc {
    fn default() -> (r: PositionEnc)
        ensures
            r == PositionEnc::Utf16,
    {
        PositionEnc::Utf16
    }
}

/// A line and a column of a document, both from zero.
#[derive(Debug, Clone, Copy, PartialEq, Eq, Structural)]
pub struct Position {
    pub line: u32,
    pub character: u32,
}

/// A range between two positions.
#[derive(Debug, Clone, Copy, PartialEq, Eq, Structural)]
pub struct Range {
    pub start: Position,
    pub end: Position,
}

/// The protocol name of an encoding.
pub open spec fn encoding_name(enc: PositionEnc) -> Seq<char> {
    match enc {
        PositionEnc::Utf8 => "utf-8"@,
        PositionEnc::Utf16 => "utf-16"@,
    }
}

/// Picks the best encoding that the client offers: UTF-8 if offered, otherwise
/// the mandatory UTF-16. Gives its protocol name too.
pub fn negotiate_encoding(offered: &Vec<String>) -> (r: (PositionEnc, &'static str))
    ensures
        r.0 == (if texts(offered@).contains("utf-8"@) {
            PositionEnc::Utf8
        } else {
            PositionEnc::Utf16
        }),
        r.1@ == encoding_name(r.0),
{
    if contains_text(offered, "utf-8") {
        (PositionEnc::Utf8, "utf-8")
    } else {
        (PositionEnc::Utf16, "utf-16")
    }
}

/// The end of a line's content: before its trailing line feeds and carriage
/// returns.
pub open spec fn content_end(s: Seq<char>, start: int, end: int) -> int
    decreases end - start,
{
    if end > start && (s[end - 1] == '\n' || s[end - 1] == '\r') {
        content_end(s, start, end - 1)
    } else {
        end
    }
}

/// The content of a line, without a trailing line break.
pub open spec fn content_of(s: Seq<char>, line: nat) -> (int, int) {
    let start = line_start(s, line);
    let end = if line + 1 < line_count(s) {
        line_start(s, line + 1)
    } else {
        s.len() as int
    };
    (start, content_end(s, start, end))
}

proof fn lemma_content_end(s: Seq<char>, start: int, end: int)
    requires
        start <= end,
    ensures
        start <= content_end(s, start, end) <= end,
    decreases end - start,
{
    if end > start && (s[end - 1] == '\n' || s[end - 1] == '\r') {
        lemma_content_end(s, start, end - 1);
    }
}

/// The range of a line's content in scalars, without any trailing line break:
/// an oversized `character` is clamped to the line's length, and the break
/// itself is addressed as the start of the next line.
pub fn line_content(rope: &ropey::Rope, line: usize) -> (r: (usize, usize))
    requires
        line < line_count(rope_text(*rope)),
    ensures
        (r.0 as int, r.1 as int) == content_of(rope_text(*rope), line as nat),
        r.0 <= r.1 <= rope_text(*rope).len(),
{
    let ghost s = rope_text(*rope);
    proof {
        lemma_line_starts(s, line as nat, line as nat + 1);
    }
    let lines: usize = rope.len_lines();
    let start: usize = rope.line_to_char(line);
    let first: usize = if line + 1 < lines {
        rope.line_to_char(line + 1)
    } else {
        rope.len_chars()
    };
    let mut end: usize = first;
    while end > start
        invariant_except_break
            s == rope_text(*rope),
            start <= end <= first <= s.len(),
            content_end(s, start as int, first as int) == content_end(s, start as int, end as int),
        ensures
            start <= end <= first,
            end == content_end(s, start as int, first as int),
        decreases end - start,
    {
        let c: char = rope.char(end - 1);
        if c == '\n' || c == '\r' {
            end -= 1;
        } else {
            break;
        }
    }
    (start, end)
}

pub open spec fn least(a: int, b: int) -> int {
    if a < b {
        a
    } else {
        b
    }
}

/// The position of a byte. A byte past the end stands for the end.
pub open spec fn position_at(s: Seq<char>, byte: int, enc: PositionEnc) -> (int, int) {
    let b = least(byte, byte_len(s) as int);
    let c = char_of_byte(s, b as nat) as int;
    let line = line_of(s, c);
    let start = line_start(s, line);
    (
        line as int,
        match enc {
            PositionEnc::Utf8 => b - byte_len(s.take(start)),
            PositionEnc::Utf16 => utf16_len(s.take(c)) - utf16_len(s.take(start)),
        },
    )
}

proof fn lemma_position_at(s: Seq<char>, byte: int, enc: PositionEnc)
    requires
        0 <= byte,
    ensures
        ({
            let b = least(byte, byte_len(s) as int);
            let c = char_of_byte(s, b as nat) as int;
            let start = line_start(s, line_of(s, c));
            &&& 0 <= start <= c <= s.len()
            &&& byte_len(s.take(start)) <= byte_len(s.take(c)) <= b
            &&& utf16_len(s.take(start)) <= utf16_len(s.take(c)) <= utf16_len(s)
            &&& line_of(s, c) <= c
            &&& line_of(s, c) < line_count(s)
        }),
        0 <= position_at(s, byte, enc).0 <= byte_len(s),
        0 <= position_at(s, byte, enc).1 <= byte_len(s),
{
    let b = least(byte, byte_len(s) as int);
    let c = char_of_byte(s, b as nat) as int;
    lemma_char_of_byte_bounds(s, b as nat);
    lemma_line_from(s, line_of(s, c), 0, c);
    let start = line_start(s, line_of(s, c));
    lemma_fronts(s, start, c);
    lemma_fronts(s, c, s.len() as int);
    assert(s.take(s.len() as int) =~= s);
    lemma_lines_grow(s, 0, c);
    lemma_lines_grow(s, c, s.len() as int);
    lemma_units_fit(s);
}

/// The position of a byte offset.
pub open spec fn position_of(s: Seq<char>, byte: u32, enc: PositionEnc) -> Position {
    let at = position_at(s, byte as int, enc);
    Position { line: at.0 as u32, character: at.1 as u32 }
}

/// Converts a byte offset to a position.
pub fn offset_to_position(rope: &ropey::Rope, byte: u32, enc: PositionEnc) -> (r: Position)
    ensures
        r == position_of(rope_text(*rope), byte, enc),
{
    let ghost s = rope_text(*rope);
    proof {
        lemma_position_at(s, byte as int, enc);
        lemma_line_starts(s, 0, 0);
    }
    let total: usize = rope.len_bytes();
    let b: usize = if (byte as usize) < total {
        byte as usize
    } else {
        total
    };
    let c: usize = rope.byte_to_char(b);
    let line: usize = rope.char_to_line(c);
    let start: usize = rope.line_to_char(line);
    let character: usize = match enc {
        PositionEnc::Utf8 => b - rope.char_to_byte(start),
        PositionEnc::Utf16 => rope.char_to_utf16_cu(c) - rope.char_to_utf16_cu(start),
    };
    Position { line: line as u32, character: character as u32 }
}

/// The scalar at a position: the line is clamped to the last one, and the
/// character to the line's content.
pub open spec fn char_at_position(s: Seq<char>, pos: Position, enc: PositionEnc) -> nat {
    let line = least(pos.line as int, line_count(s) - 1) as nat;
    let (start, end) = content_of(s, line);
    match enc {
        PositionEnc::Utf8 => char_of_byte(
            s,
            least(byte_len(s.take(start)) + pos.character, byte_len(s.take(end)) as int) as nat,
        ),
        PositionEnc::Utf16 => char_of_unit(
            s,
            least(utf16_len(s.take(start)) + pos.character, utf16_len(s.take(end)) as int) as nat,
        ),
    }
}

fn clamp_add(start: usize, by: u32, end: usize) -> (r: usize)
    requires
        start <= end,
    ensures
        r == least(start + by, end as int),
        start <= r <= end,
{
    let room: usize = end - start;
    if (by as u64) < (room as u64) {
        start + (by as usize)
    } else {
        end
    }
}

/// Converts a position to a scalar index of the rope.
pub fn position_to_char(rope: &ropey::Rope, pos: Position, enc: PositionEnc) -> (r: usize)
    ensures
        r == char_at_position(rope_text(*rope), pos, enc),
        r <= rope_text(*rope).len(),
{
    let ghost s = rope_text(*rope);
    let last: usize = rope.len_lines() - 1;
    let line: usize = if (pos.line as u64) < (last as u64) {
        pos.line as usize
    } else {
        last
    };
    let (start, end) = line_content(rope, line);
    proof {
        lemma_fronts(s, start as int, end as int);
        lemma_fronts(s, end as int, s.len() as int);
        assert(s.take(s.len() as int) =~= s);
    }
    match enc {
        PositionEnc::Utf8 => {
            let start_b: usize = rope.char_to_byte(start);
            let end_b: usize = rope.char_to_byte(end);
            let target: usize = clamp_add(start_b, pos.character, end_b);
            proof {
                lemma_char_of_byte_bounds(s, target as nat);
            }
            rope.byte_to_char(target)
        },
        PositionEnc::Utf16 => {
            let start_u: usize = rope.char_to_utf16_cu(start);
            let end_u: usize = rope.char_to_utf16_cu(end);
            let target: usize = clamp_add(start_u, pos.character, end_u);
            proof {
                lemma_char_of_unit_bounds(s, target as nat);
            }
            rope.utf16_cu_to_char(target)
        },
    }
}

/// The byte offset of a position.
pub open spec fn offset_of(s: Seq<char>, pos: Position, enc: PositionEnc) -> u32 {
    byte_len(s.take(char_at_position(s, pos, enc) as int)) as u32
}

/// Converts a position to a byte offset, clamped to the document.
pub fn position_to_offset(rope: &ropey::Rope, pos: Position, enc: PositionEnc) -> (r: u32)
    ensures
        r == offset_of(rope_text(*rope), pos, enc),
{
    let at: usize = position_to_char(rope, pos, enc);
    rope.char_to_byte(at) as u32
}

/// What a content change makes of a text. A change without a range replaces
/// the whole document.
pub open spec fn changed(
    s: Seq<char>,
    range: Option<Range>,
    text: Seq<char>,
    enc: PositionEnc,
) -> Seq<char> {
    match range {
        None => text,
        Some(r) => {
            let start = char_at_position(s, r.start, enc) as int;
            let until = char_at_position(s, r.end, enc) as int;
            let end = if until < start {
                start
            } else {
                until
            };
            s.take(start) + text + s.skip(end)
        },
    }
}

/// Applies one content change to the rope in place.
pub fn apply_change(rope: &mut ropey::Rope, range: Option<Range>, text: &str, enc: PositionEnc)
    ensures
        rope_text(*final(rope)) == changed(rope_text(*old(rope)), range, text@, enc),
{
    match range {
        None => {
            *rope = ropey::Rope::from_str(text);
        },
        Some(r) => {
            let ghost s = rope_text(*rope);
            let start: usize = position_to_char(rope, r.start, enc);
            let until: usize = position_to_char(rope, r.end, enc);
            let end: usize = if until < start {
                start
            } else {
                until
            };
            remove_chars(rope, start, end);
            proof {
                let rest = s.take(start as int) + s.skip(end as int);
                assert(rest.take(start as int) =~= s.take(start as int));
                assert(rest.skip(start as int) =~= s.skip(end as int));
            }
            rope.insert(start, text);
        },
    }
}

/// The range of a span.
pub open spec fn range_of(s: Seq<char>, span: Span, enc: PositionEnc) -> Range {
    Range { start: position_of(s, span.start, enc), end: position_of(s, span.end, enc) }
}

/// Converts a span to a range.
pub fn span_to_range(rope: &ropey::Rope, span: Span, enc: PositionEnc) -> (r: Range)
    ensures
        r == range_of(rope_text(*rope), span, enc),
{
    Range {
        start: offset_to_position(rope, span.start, enc),
        end: offset_to_position(rope, span.end, enc),
    }
}

/// A finding as a client is sent it.
#[derive(Debug, PartialEq, Eq)]
pub struct DiagnosticItem {
    pub range: Range,
    pub severity: Severity,
    pub code: &'static str,
    pub source: &'static str,
    pub message: String,
}

/// Converts a diagnostic for the client.
pub fn to_lsp_diagnostic(rope: &ropey::Rope, d: &Diagnostic, enc: PositionEnc) -> (r:
    DiagnosticItem)
    ensures
        r.range == range_of(rope_text(*rope), d.span, enc),
        r.severity == d.severity,
        r.code@ == d.code@,
        r.source@ == "zerosyntax"@,
        r.message@ == d.message@,
{
    DiagnosticItem {
        range: span_to_range(rope, d.span, enc),
        severity: d.severity,
        code: d.code,
        source: "zerosyntax",
        message: d.message.clone(),
    }
}

/// The icon of a completion item.
#[derive(Debug, Clone, Copy, PartialEq, Eq, Structural)]
pub enum ItemKind {
    Class,
    Property,
    Constructor,
    EnumMember,
    Value,
    Reference,
}

/// The icon of a kind of completion.
pub open spec fn icon_of(kind: CompletionKind) -> ItemKind {
    match kind {
        CompletionKind::Block => ItemKind::Class,
        CompletionKind::Field => ItemKind::Property,
        CompletionKind::Module => ItemKind::Constructor,
        CompletionKind::EnumMember => ItemKind::EnumMember,
        CompletionKind::Value => ItemKind::Value,
        CompletionKind::Reference => ItemKind::Reference,
        CompletionKind::W3dModel => ItemKind::Reference,
        CompletionKind::W3dAnimation => ItemKind::Reference,
    }
}

/// A completion as a client is sent it.
#[derive(Debug, PartialEq, Eq)]
pub struct CompletionItem {
    pub label: String,
    pub kind: ItemKind,
    pub detail: Option<String>,
    /// Markdown shown alongside the item.
    pub documentation: Option<String>,
    /// A snippet to insert in place of the label.
    pub insert_text: Option<String>,
    /// Open the suggestion list again after the insertion.
    pub trigger_suggest: bool,
    /// The W3D model whose preview may be asked for.
    pub preview: Option<String>,
}

/// Whether a snippet leaves the cursor after `=`, where module names follow.
pub open spec fn awaits_value(snippet: Seq<char>) -> bool {
    strip_suffix(snippet, "= $0"@) is Some
}

/// Converts a completion for the client. Snippets are sent only to a client
/// that supports them.
pub fn to_lsp_completion(c: Completion, snippets_supported: bool) -> (r: CompletionItem)
    ensures
        r.label@ == c.label@,
        r.kind == icon_of(c.kind),
        opt_text(r.detail) == opt_text(c.detail),
        opt_text(r.documentation) == opt_text(c.documentation),
        opt_text(r.insert_text) == (if snippets_supported {
            opt_text(c.insert)
        } else {
            None
        }),
        r.trigger_suggest == (snippets_supported && (c.insert matches Some(s) && awaits_value(s@))),
        opt_text(r.preview) == (if c.kind == CompletionKind::W3dModel {
            Some(c.label@)
        } else {
            None
        }),
{
    let kind = match c.kind {
        CompletionKind::Block => ItemKind::Class,
        CompletionKind::Field => ItemKind::Property,
        CompletionKind::Module => ItemKind::Constructor,
        CompletionKind::EnumMember => ItemKind::EnumMember,
        CompletionKind::Value => ItemKind::Value,
        CompletionKind::Reference => ItemKind::Reference,
        CompletionKind::W3dModel => ItemKind::Reference,
        CompletionKind::W3dAnimation => ItemKind::Reference,
    };
    let mut insert_text: Option<String> = None;
    let mut trigger_suggest = false;
    if snippets_supported {
        insert_text = copy_opt(&c.insert);
        if let Some(snippet) = &c.insert {
            trigger_suggest = without_suffix(snippet.as_str(), "= $0").is_some();
        }
    }
    let preview = if c.kind == CompletionKind::W3dModel {
        Some(c.label.clone())
    } else {
        None
    };
    CompletionItem {
        label: c.label.clone(),
        kind,
        detail: copy_opt(&c.detail),
        documentation: copy_opt(&c.documentation),
        insert_text,
        trigger_suggest,
        preview,
    }
}

/// What an outline symbol stands for.
#[derive(Debug, Clone, Copy, PartialEq, Eq, Structural)]
pub enum SymKind {
    Block,
    Module,
    SubBlock,
}

/// A symbol of the outline, with its children.
#[derive(Debug)]
pub struct DocSymbol {
    pub name: String,
    pub detail: Option<String>,
    pub kind: SymKind,
    pub span: Span,
    /// The part to select: the name.
    pub selection: Span,
    pub children: Vec<DocSymbol>,
}

/// The icon of an outline symbol.
#[derive(Debug, Clone, Copy, PartialEq, Eq, Structural)]
pub enum SymbolIcon {
    Class,
    Constructor,
    Struct,
}

/// An outline symbol as a client is sent it.
#[derive(Debug)]
pub struct DocumentSymbol {
    pub name: String,
    pub detail: Option<String>,
    pub kind: SymbolIcon,
    pub range: Range,
    pub selection_range: Range,
    pub children: Vec<DocumentSymbol>,
}

/// The icon of a kind of symbol.
pub open spec fn symbol_icon(kind: SymKind) -> SymbolIcon {
    match kind {
        SymKind::Block => SymbolIcon::Class,
        SymKind::Module => SymbolIcon::Constructor,
        SymKind::SubBlock => SymbolIcon::Struct,
    }
}

/// Whether an item shows a symbol and all its children.
pub open spec fn shows(
    s: Seq<char>,
    symbol: DocSymbol,
    item: DocumentSymbol,
    enc: PositionEnc,
) -> bool
    decreases symbol,
{
    &&& item.name@ == symbol.name@
    &&& opt_text(item.detail) == opt_text(symbol.detail)
    &&& item.kind == symbol_icon(symbol.kind)
    &&& item.range == range_of(s, symbol.span, enc)
    &&& item.selection_range == range_of(s, symbol.selection, enc)
    &&& item.children@.len() == symbol.children@.len()
    &&& forall|i: int|
        #![trigger symbol.children@[i]]
        0 <= i < symbol.children@.len() ==> shows(
            s,
            symbol.children@[i],
            item.children@[i],
            enc,
        )
}

/// Converts an outline symbol, with its children, for the client.
pub fn to_lsp_document_symbol(rope: &ropey::Rope, symbol: &DocSymbol, enc: PositionEnc) -> (r:
    DocumentSymbol)
    ensures
        shows(rope_text(*rope), *symbol, r, enc),
    decreases symbol,
{
    let ghost s = rope_text(*rope);
    let mut children: Vec<DocumentSymbol> = Vec::new();
    let mut i: usize = 0;
    while i < symbol.children.len()
        invariant
            s == rope_text(*rope),
            i <= symbol.children.len(),
            children.len() == i,
            forall|k: int|
                #![trigger symbol.children@[k]]
                0 <= k < i ==> shows(s, symbol.children@[k], children@[k], enc),
        decreases symbol.children.len() - i,
    {
        assert(decreases_to!(*symbol => symbol.children@[i as int]));
        let child = to_lsp_document_symbol(rope, &symbol.children[i], enc);
        children.push(child);
        i += 1;
    }
    DocumentSymbol {
        name: symbol.name.clone(),
        detail: copy_opt(&symbol.detail),
        kind: match symbol.kind {
            SymKind::Block => SymbolIcon::Class,
            SymKind::Module => SymbolIcon::Constructor,
            SymKind::SubBlock => SymbolIcon::Struct,
        },
        range: span_to_range(rope, symbol.span, enc),
        selection_range: span_to_range(rope, symbol.selection, enc),
        children,
    }
}

/// The lines that a scope folds: from its header line to the line of its
/// closing word, so that the header stays visible.
pub open spec fn folded(s: Seq<char>, span: Span, enc: PositionEnc) -> Option<(u32, u32)> {
    let last = if span.end > span.start {
        (span.end - 1) as u32
    } else {
        span.start
    };
    let first = position_of(s, span.start, enc).line;
    let end = position_of(s, last, enc).line;
    if end > first {
        Some((first, end))
    } else {
        None
    }
}

/// Converts a foldable scope to its first and last line. The scope's range
/// ends after the trailing line break, so the line of the byte before it is
/// the closing one.
pub fn to_lsp_folding_range(rope: &ropey::Rope, span: Span, enc: PositionEnc) -> (r: Option<
    (u32, u32),
>)
    ensures
        r == folded(rope_text(*rope), span, enc),
{
    let start = offset_to_position(rope, span.start, enc);
    let last: u32 = if span.end > span.start {
        span.end - 1
    } else {
        span.start
    };
    let end = offset_to_position(rope, last, enc);
    if end.line > start.line {
        Some((start.line, end.line))
    } else {
        None
    }
}

/// The semantic-token legend, in the order of [`sem_kind_index`].
pub fn semantic_legend() -> (r: [&'static str; 10])
    ensures
        r@.len() == 10,
        forall|kind: SemKind| #[trigger] r@[kind_index(kind) as int]@ == legend_name(kind),
{
    [
        "keyword",
        "class",
        "property",
        "type",
        "enumMember",
        "operator",
        "number",
        "string",
        "variable",
        "comment",
    ]
}

/// The protocol name of a class of tokens.
pub open spec fn legend_name(kind: SemKind) -> Seq<char> {
    match kind {
        SemKind::Keyword => "keyword"@,
        SemKind::BlockName => "class"@,
        SemKind::Field => "property"@,
        SemKind::Module => "type"@,
        SemKind::EnumMember => "enumMember"@,
        SemKind::Operator => "operator"@,
        SemKind::Number => "number"@,
        SemKind::StringLit => "string"@,
        SemKind::Reference => "variable"@,
        SemKind::Comment => "comment"@,
    }
}

pub open spec fn kind_index(kind: SemKind) -> u32 {
    match kind {
        SemKind::Keyword => 0,
        SemKind::BlockName => 1,
        SemKind::Field => 2,
        SemKind::Module => 3,
        SemKind::EnumMember => 4,
        SemKind::Operator => 5,
        SemKind::Number => 6,
        SemKind::StringLit => 7,
        SemKind::Reference => 8,
        SemKind::Comment => 9,
    }
}

/// The place of a class of tokens in the legend.
pub fn sem_kind_index(kind: SemKind) -> (r: u32)
    ensures
        r == kind_index(kind),
{
    match kind {
        SemKind::Keyword => 0,
        SemKind::BlockName => 1,
        SemKind::Field => 2,
        SemKind::Module => 3,
        SemKind::EnumMember => 4,
        SemKind::Operator => 5,
        SemKind::Number => 6,
        SemKind::StringLit => 7,
        SemKind::Reference => 8,
        SemKind::Comment => 9,
    }
}

/// A semantic token on the wire, relative to the one before it.
#[derive(Debug, Clone, Copy, PartialEq, Eq, Structural)]
pub struct SemanticToken {
    pub delta_line: u32,
    pub delta_start: u32,
    pub length: u32,
    pub token_type: u32,
    pub token_modifiers_bitset: u32,
}

/// A token relative to the position of the one before it.
pub open spec fn relative(
    s: Seq<char>,
    token: SemToken,
    before: Position,
    enc: PositionEnc,
) -> SemanticToken {
    let start = position_of(s, token.span.start, enc);
    let end = position_of(s, token.span.end, enc);
    SemanticToken {
        delta_line: (start.line - before.line) as u32,
        delta_start: if start.line == before.line {
            (start.character - before.character) as u32
        } else {
            start.character
        },
        length: if end.character > start.character {
            (end.character - start.character) as u32
        } else {
            0
        },
        token_type: kind_index(token.kind),
        token_modifiers_bitset: 0,
    }
}

/// The position before the `i`th token: that of the token before it, or the
/// start of the document.
pub open spec fn origin(s: Seq<char>, tokens: Seq<SemToken>, i: int, enc: PositionEnc) -> Position {
    if i <= 0 || i > tokens.len() {
        Position { line: 0, character: 0 }
    } else {
        position_of(s, tokens[i - 1].span.start, enc)
    }
}

/// The tokens on the wire.
pub open spec fn encoded(s: Seq<char>, tokens: Seq<SemToken>, enc: PositionEnc) -> Seq<
    SemanticToken,
> {
    Seq::new(
        tokens.len(),
        |i: int| relative(s, tokens[i], origin(s, tokens, i, enc), enc),
    )
}

/// Sorted by start offset.
pub open spec fn in_order(tokens: Seq<SemToken>) -> bool {
    forall|i: int, j: int|
        #![trigger tokens[i], tokens[j]]
        0 <= i <= j < tokens.len() ==> tokens[i].span.start <= tokens[j].span.start
}

/// Whether a position comes no later than another.
pub open spec fn no_later(a: Position, b: Position) -> bool {
    a.line < b.line || (a.line == b.line && a.character <= b.character)
}

/// Later offsets have later positions.
pub proof fn lemma_positions_grow(s: Seq<char>, a: u32, b: u32, enc: PositionEnc)
    requires
        a <= b,
        byte_len(s) <= u32::MAX,
    ensures
        no_later(position_of(s, a, enc), position_of(s, b, enc)),
{
    let x = least(a as int, byte_len(s) as int);
    let y = least(b as int, byte_len(s) as int);
    let c = char_of_byte(s, x as nat) as int;
    let d = char_of_byte(s, y as nat) as int;
    lemma_position_at(s, a as int, enc);
    lemma_position_at(s, b as int, enc);
    lemma_char_of_byte_grows(s, x as nat, y as nat);
    lemma_lines_grow(s, c, d);
    lemma_fronts(s, c, d);
}

/// Delta-encodes semantic tokens for the wire. Tokens never span lines, so the
/// length is the difference of columns.
pub fn to_lsp_semantic_tokens(rope: &ropey::Rope, tokens: &[SemToken], enc: PositionEnc) -> (r: Vec<
    SemanticToken,
>)
    requires
        in_order(tokens@),
        byte_len(rope_text(*rope)) <= u32::MAX,
    ensures
        r@ == encoded(rope_text(*rope), tokens@, enc),
{
    let ghost s = rope_text(*rope);
    let mut out: Vec<SemanticToken> = Vec::new();
    let mut before = Position { line: 0, character: 0 };
    let mut i: usize = 0;
    while i < tokens.len()
        invariant
            i <= tokens.len(),
            s == rope_text(*rope),
            in_order(tokens@),
            byte_len(s) <= u32::MAX,
            before == origin(s, tokens@, i as int, enc),
            out.len() == i,
            forall|k: int| 0 <= k < i ==> out@[k] == encoded(s, tokens@, enc)[k],
        decreases tokens.len() - i,
    {
        let token = tokens[i];
        let start = offset_to_position(rope, token.span.start, enc);
        let end = offset_to_position(rope, token.span.end, enc);
        proof {
            if i > 0 {
                assert(tokens@[i - 1].span.start <= tokens@[i as int].span.start);
                lemma_positions_grow(s, tokens@[i - 1].span.start, token.span.start, enc);
            }
        }
        let length: u32 = if end.character > start.character {
            end.character - start.character
        } else {
            0
        };
        let delta_line: u32 = start.line - before.line;
        let delta_start: u32 = if delta_line == 0 {
            start.character - before.character
        } else {
            start.character
        };
        out.push(
            SemanticToken {
                delta_line,
                delta_start,
                length,
                token_type: sem_kind_index(token.kind),
                token_modifiers_bitset: 0,
            },
        );
        before = start;
        i += 1;
    }
    assert(out@ =~= encoded(s, tokens@, enc));
    out
}

/// The position that the first `n` tokens on the wire lead to.
pub open spec fn decoded(data: Seq<SemanticToken>, n: int) -> (int, int)
    decreases n,
{
    if n <= 0 || n > data.len() {
        (0, 0)
    } else {
        let before = decoded(data, n - 1);
        let t = data[n - 1];
        if t.delta_line == 0 {
            (before.0, before.1 + t.delta_start)
        } else {
            (before.0 + t.delta_line, t.delta_start as int)
        }
    }
}

/// The deltas on the wire lead back to the position of every token.
pub proof fn law_deltas_give_back_positions(
    s: Seq<char>,
    tokens: Seq<SemToken>,
    enc: PositionEnc,
    n: int,
)
    requires
        in_order(tokens),
        byte_len(s) <= u32::MAX,
        0 <= n <= tokens.len(),
    ensures
        ({
            let at = origin(s, tokens, n, enc);
            decoded(encoded(s, tokens, enc), n) == (at.line as int, at.character as int)
        }),
    decreases n,
{
    if n > 0 {
        law_deltas_give_back_positions(s, tokens, enc, n - 1);
        if n > 1 {
            assert(tokens[n - 2].span.start <= tokens[n - 1].span.start);
            lemma_positions_grow(s, tokens[n - 2].span.start, tokens[n - 1].span.start, enc);
        }
    }
}

/// An edit of the token list on the wire: `start` and `delete_count` count the
/// five numbers of each token.
#[derive(Debug, PartialEq, Eq)]
pub struct SemanticTokensEdit {
    pub start: u32,
    pub delete_count: u32,
    pub data: Vec<SemanticToken>,
}

/// What an edit makes of the previous tokens.
pub open spec fn spliced(
    prev: Seq<SemanticToken>,
    start: int,
    delete_count: int,
    data: Seq<SemanticToken>,
) -> Seq<SemanticToken> {
    prev.take(start / 5) + data + prev.skip(start / 5 + delete_count / 5)
}

/// How many tokens two lists have in common from `i` on.
pub open spec fn common_front(a: Seq<SemanticToken>, b: Seq<SemanticToken>, i: int) -> int
    decreases a.len() - i,
{
    if 0 <= i < a.len() && i < b.len() && a[i] == b[i] {
        common_front(a, b, i + 1)
    } else {
        i
    }
}

/// How many tokens two lists have in common at their ends, when neither may
/// reach below `front`, and `n` are known.
pub open spec fn common_back(
    a: Seq<SemanticToken>,
    b: Seq<SemanticToken>,
    front: int,
    n: int,
) -> int
    decreases a.len() - front - n,
{
    if 0 <= n < a.len() - front && n < b.len() - front && a[a.len() - 1 - n] == b[b.len() - 1 - n] {
        common_back(a, b, front, n + 1)
    } else {
        n
    }
}

/// Whether an edit replaces just what lies between the tokens that two results
/// share at the front and at the back.
pub open spec fn is_splice(
    edit: SemanticTokensEdit,
    prev: Seq<SemanticToken>,
    next: Seq<SemanticToken>,
) -> bool {
    let front = common_front(prev, next, 0);
    let back = common_back(prev, next, front, 0);
    &&& edit.start == front * 5
    &&& edit.delete_count == (prev.len() - front - back) * 5
    &&& edit.data@ == next.subrange(front, next.len() - back)
}

/// The single edit that turns `prev` into `next`: everything between their
/// common front and their common back.
pub fn semantic_tokens_splice(prev: &[SemanticToken], next: &[SemanticToken]) -> (r:
    SemanticTokensEdit)
    requires
        prev.len() * 5 <= u32::MAX,
    ensures
        is_splice(r, prev@, next@),
        spliced(prev@, r.start as int, r.delete_count as int, r.data@) == next@,
{
    let mut front: usize = 0;
    while front < prev.len() && front < next.len() && prev[front] == next[front]
        invariant
            front <= prev.len(),
            front <= next.len(),
            forall|k: int| 0 <= k < front ==> prev@[k] == next@[k],
            common_front(prev@, next@, 0) == common_front(prev@, next@, front as int),
        decreases prev.len() - front,
    {
        front += 1;
    }
    let mut back: usize = 0;
    while back < prev.len() - front && back < next.len() - front && prev[prev.len() - 1 - back]
        == next[next.len() - 1 - back]
        invariant
            front <= prev.len(),
            front <= next.len(),
            back <= prev.len() - front,
            back <= next.len() - front,
            forall|k: int|
                prev@.len() - back <= k < prev@.len() ==> #[trigger] prev@[k] == next@[k
                    + next@.len() - prev@.len()],
            common_back(prev@, next@, front as int, 0) == common_back(
                prev@,
                next@,
                front as int,
                back as int,
            ),
        decreases prev.len() - back,
    {
        back += 1;
    }
    let mut data: Vec<SemanticToken> = Vec::new();
    let end: usize = next.len() - back;
    let mut i: usize = front;
    while i < end
        invariant
            front <= i <= end,
            end <= next.len(),
            data@ == next@.subrange(front as int, i as int),
        decreases end - i,
    {
        data.push(next[i]);
        i += 1;
        assert(data@ =~= next@.subrange(front as int, i as int));
    }
    let start: u32 = (front * 5) as u32;
    let delete_count: u32 = ((prev.len() - front - back) * 5) as u32;
    proof {
        let all = spliced(prev@, start as int, delete_count as int, data@);
        assert(start as int / 5 == front);
        assert(delete_count as int / 5 == prev@.len() - front - back);
        assert forall|k: int| 0 <= k < all.len() implies all[k] == next@[k] by {
            if k >= end {
                let j = k - next@.len() + prev@.len();
                assert(prev@[j] == next@[k]);
            }
        }
        assert(all =~= next@);
    }
    SemanticTokensEdit { start, delete_count, data }
}

/// Every byte that starts a scalar of a line's content is found again from its
/// position, in either encoding.
pub proof fn law_positions_round_trip(s: Seq<char>, c: int, enc: PositionEnc)
    requires
        0 <= c <= s.len(),
        byte_len(s.take(c)) <= u32::MAX,
        c <= content_of(s, line_of(s, c)).1,
    ensures
        ({
            let byte = byte_len(s.take(c)) as u32;
            offset_of(s, position_of(s, byte, enc), enc) == byte
        }),
{
    let b = byte_len(s.take(c));
    lemma_fronts(s, c, s.len() as int);
    assert(s.take(s.len() as int) =~= s);
    lemma_char_of_byte(s, c);
    lemma_char_of_unit(s, c);
    lemma_position_at(s, b as int, enc);
    lemma_units_fit(s.take(c));
    let line = line_of(s, c);
    let (start, end) = content_of(s, line);
    lemma_line_starts(s, line, line + 1);
    let limit = if line + 1 < line_count(s) {
        line_start(s, line + 1)
    } else {
        s.len() as int
    };
    lemma_content_end(s, start, limit);
    lemma_fronts(s, c, end);
}

} // verus!
