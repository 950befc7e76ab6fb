//! Navigation between definitions and references: where a symbol is declared
//! and used, what a rename touches, and copies of a base definition.

use vstd::prelude::*;

use crate::analyzer::Analyzer;
use crate::extract::{defined_kind, kind_defined};
use crate::index::{
    def_location, default_object, is_override_layer, new_override_in, override_layer, picked,
    site_location, symbol_for, tag_location, Location, LocationView, Symbol, WorkspaceIndex,
};
use crate::order::{le_text, sort, sorted, text_le, views, Ranked};
use crate::reader::{read_text, tree_of};
use crate::rope::{char_of_byte, lemma_char_of_byte_bounds};
use crate::schema::RefKind;
use crate::syntax::{Element, Parse, Span, SyntaxKind};
use crate::text::{
    byte_len, bytes_in, chars_of, eq_ci, join2, join5, last_part, last_part_of, lower, same,
    same_ci, string_from, texts, to_lower,
};
use crate::uri::{fits_url, is_url_sized, parse_url, url_parts};
use crate::values::{diags, Diagnostic, DiagnosticView};

verus! {

/// How many symbols a search gives at most.
pub const MAX_SYMBOLS: usize = 256;

/// What stands under the cursor.
#[derive(Debug, Clone, Copy)]
pub enum SymbolAt<'a> {
    /// The name of a definition, where it is declared or where it is used.
    Reference { kind: RefKind, name: &'a str, span: Span },
    /// A module tag. `before` is where the cursor stands on a use of it.
    ModuleTag { object: &'a str, name: &'a str, span: Span, before: Option<u32> },
}

impl<'a> SymbolAt<'a> {
    /// The range of the symbol under the cursor.
    pub fn span(&self) -> (r: Span)
        ensures
            r == (match *self {
                SymbolAt::Reference { span, .. } => span,
                SymbolAt::ModuleTag { span, .. } => span,
            }),
    {
        match *self {
            SymbolAt::Reference { span, .. } => span,
            SymbolAt::ModuleTag { span, .. } => span,
        }
    }
}

/// Picks the symbol under the cursor among what was found there: a reference,
/// then a definition, then the use of a tag, then its declaration.
pub fn symbol_at<'a>(
    reference: Option<(RefKind, &'a str, Span)>,
    definition: Option<(RefKind, &'a str, Span)>,
    tag_reference: Option<(&'a str, &'a str, Span)>,
    tag_definition: Option<(&'a str, &'a str, Span)>,
) -> (r: Option<SymbolAt<'a>>)
    ensures
        r == (match (reference, definition, tag_reference, tag_definition) {
            (Some((kind, name, span)), _, _, _) => Some(SymbolAt::Reference { kind, name, span }),
            (None, Some((kind, name, span)), _, _) => Some(
                SymbolAt::Reference { kind, name, span },
            ),
            (None, None, Some((object, name, span)), _) => Some(
                SymbolAt::ModuleTag { object, name, span, before: Some(span.start) },
            ),
            (None, None, None, Some((object, name, span))) => Some(
                SymbolAt::ModuleTag { object, name, span, before: None },
            ),
            (None, None, None, None) => None,
        }),
{
    match reference {
        Some((kind, name, span)) => {
            return Some(SymbolAt::Reference { kind, name, span });
        },
        None => {},
    }
    match definition {
        Some((kind, name, span)) => {
            return Some(SymbolAt::Reference { kind, name, span });
        },
        None => {},
    }
    match tag_reference {
        Some((object, name, span)) => {
            return Some(SymbolAt::ModuleTag { object, name, span, before: Some(span.start) });
        },
        None => {},
    }
    match tag_definition {
        Some((object, name, span)) => Some(
            SymbolAt::ModuleTag { object, name, span, before: None },
        ),
        None => None,
    }
}

/// Where a tag is declared, as seen from `before` in `file`: on the object
/// itself, else, for a new map object, on the default object.
pub open spec fn effective_tag_places(
    index: WorkspaceIndex,
    object: Seq<char>,
    tag: Seq<char>,
    file: Seq<char>,
    before: Option<u32>,
) -> Seq<LocationView> {
    let own = picked(
        index.tag_rows(),
        tag_location(lower(object), tag, false, Some(file), before),
    );
    if own.len() == 0 && new_override_in(index.def_rows(), object, Some(file)) {
        picked(index.tag_rows(), tag_location(default_object(), tag, false, None, None))
    } else {
        own
    }
}

/// Where a symbol is used.
pub open spec fn use_places(index: WorkspaceIndex, symbol: SymbolAt) -> Seq<LocationView> {
    match symbol {
        SymbolAt::Reference { kind, name, .. } => picked(
            index.site_rows(),
            site_location(kind, lower(name@)),
        ),
        SymbolAt::ModuleTag { object, name, .. } => picked(
            index.tag_rows(),
            tag_location(lower(object@), name@, true, None, None),
        ),
    }
}

/// Where a symbol is declared.
pub open spec fn declared_places(index: WorkspaceIndex, symbol: SymbolAt, file: Seq<char>) -> Seq<
    LocationView,
> {
    match symbol {
        SymbolAt::Reference { kind, name, .. } => picked(
            index.def_rows(),
            def_location(kind, lower(name@)),
        ),
        SymbolAt::ModuleTag { object, name, before, .. } => if before is Some {
            effective_tag_places(index, object@, name@, file, before)
        } else {
            picked(index.tag_rows(), tag_location(lower(object@), name@, false, None, None))
        },
    }
}

impl Ranked for Location {
    open spec fn at_most(a: LocationView, b: LocationView) -> bool {
        if a.file != b.file {
            text_le(a.file, b.file)
        } else {
            a.span.start <= b.span.start
        }
    }

    fn is_at_most(&self, other: &Self) -> (r: bool) {
        if !same(self.file.as_str(), other.file.as_str()) {
            le_text(self.file.as_str(), other.file.as_str())
        } else {
            self.span.start <= other.span.start
        }
    }
}

/// `s` without elements that repeat their neighbour.
pub open spec fn without_repeats(s: Seq<LocationView>) -> Seq<LocationView>
    decreases s.len(),
{
    if s.len() == 0 {
        Seq::empty()
    } else {
        let rest = without_repeats(s.drop_last());
        if rest.len() > 0 && rest.last() == s.last() {
            rest
        } else {
            rest.push(s.last())
        }
    }
}

fn drop_repeats(list: Vec<Location>) -> (r: Vec<Location>)
    ensures
        views(r@) == without_repeats(views(list@)),
{
    let ghost whole = views(list@);
    let mut out: Vec<Location> = Vec::new();
    assert(whole.take(0) =~= Seq::empty());
    assert(views(out@) =~= Seq::empty());
    for location in it: list
        invariant
            views(it.seq()) == whole,
            views(out@) == without_repeats(whole.take(it.index() as int)),
    {
        let ghost before = views(out@);
        proof {
            let k = it.index() as int;
            assert(views(it.seq())[k] == location@);
            assert(whole.take(k + 1).drop_last() =~= whole.take(k));
        }
        let n: usize = out.len();
        let repeats: bool = n > 0 && same(
            out[n - 1].file.as_str(),
            location.file.as_str(),
        ) && out[n - 1].span == location.span;
        proof {
            if n > 0 {
                assert(before.last() == out@[n - 1]@);
            }
        }
        if !repeats {
            let ghost view = location@;
            out.push(location);
            assert(views(out@) =~= before.push(view));
        }
    }
    assert(whole.take(whole.len() as int) =~= whole);
    out
}

/// The places of a symbol: where it is used and, where they are asked for,
/// where it is declared, in order of file and start.
pub open spec fn places_of(
    index: WorkspaceIndex,
    symbol: SymbolAt,
    file: Seq<char>,
    with_declarations: bool,
) -> Seq<LocationView> {
    let found = if with_declarations {
        use_places(index, symbol) + declared_places(index, symbol, file)
    } else {
        use_places(index, symbol)
    };
    without_repeats(sorted::<Location>(found))
}

fn extend(list: &mut Vec<Location>, more: Vec<Location>)
    ensures
        views(final(list)@) == views(old(list)@) + views(more@),
{
    let ghost start = views(list@);
    let ghost whole = views(more@);
    assert(start + whole.take(0) =~= start);
    for location in it: more
        invariant
            views(it.seq()) == whole,
            views(list@) == start + whole.take(it.index() as int),
    {
        let ghost before = views(list@);
        let ghost view = location@;
        proof {
            let k = it.index() as int;
            assert(views(it.seq())[k] == view);
            assert(whole.take(k + 1) =~= whole.take(k).push(view));
        }
        list.push(location);
        assert(views(list@) =~= before.push(view));
        assert(views(list@) =~= start + whole.take(it.index() + 1));
    }
    assert(whole.take(whole.len() as int) =~= whole);
}

/// Where a symbol under the cursor in `file` is declared.
pub fn declarations(index: &WorkspaceIndex, symbol: SymbolAt, file: &str) -> (r: Vec<Location>)
    ensures
        views(r@) == declared_places(*index, symbol, file@),
{
    match symbol {
        SymbolAt::Reference { kind, name, .. } => index.locations(kind, name),
        SymbolAt::ModuleTag { object, name, before, .. } => {
            if before.is_some() {
                index.effective_module_tag_locations(object, name, Some(file), before)
            } else {
                index.module_tag_locations(object, name)
            }
        },
    }
}

/// The places of the symbol under the cursor in `file`. A rename touches those
/// with the declarations.
pub fn places(
    index: &WorkspaceIndex,
    symbol: SymbolAt,
    file: &str,
    with_declarations: bool,
) -> (r: Vec<Location>)
    ensures
        views(r@) == places_of(*index, symbol, file@, with_declarations),
{
    let mut found = match symbol {
        SymbolAt::Reference { kind, name, .. } => index.reference_sites(kind, name),
        SymbolAt::ModuleTag { object, name, .. } => index.module_tag_reference_locations(
            object,
            name,
        ),
    };
    if with_declarations {
        let declared = declarations(index, symbol, file);
        extend(&mut found, declared);
    }
    drop_repeats(sort(found))
}

proof fn lemma_repeats_keep(s: Seq<LocationView>, x: LocationView)
    ensures
        without_repeats(s).contains(x) <==> s.contains(x),
        s.len() > 0 ==> without_repeats(s).len() > 0 && without_repeats(s).last() == s.last(),
    decreases s.len(),
{
    if s.len() > 0 {
        let front = s.drop_last();
        lemma_repeats_keep(front, x);
        let rest = without_repeats(front);
        let out = without_repeats(s);
        if s.contains(x) {
            let i = choose|i: int| 0 <= i < s.len() && s[i] == x;
            if i < front.len() {
                assert(front[i] == x);
                let j = choose|j: int| 0 <= j < rest.len() && rest[j] == x;
                assert(out[j] == x);
            } else {
                assert(out[out.len() - 1] == x);
            }
        }
        if out.contains(x) {
            let j = choose|j: int| 0 <= j < out.len() && out[j] == x;
            if j < rest.len() {
                assert(rest[j] == x);
                let i = choose|i: int| 0 <= i < front.len() && front[i] == x;
                assert(s[i] == x);
            } else {
                assert(s[s.len() - 1] == x);
            }
        }
    }
}

proof fn lemma_sorted_keeps<T: Ranked>(s: Seq<T::V>, x: T::V)
    ensures
        sorted::<T>(s).contains(x) <==> s.contains(x),
    decreases s.len(),
{
    if s.len() > 0 {
        lemma_sorted_keeps::<T>(s.drop_last(), x);
        lemma_inserted_keeps::<T>(sorted::<T>(s.drop_last()), s.last(), x);
        let front = s.drop_last();
        if s.contains(x) {
            let i = choose|i: int| 0 <= i < s.len() && s[i] == x;
            if i < front.len() {
                assert(front[i] == x);
            }
        }
        if front.contains(x) {
            let i = choose|i: int| 0 <= i < front.len() && front[i] == x;
            assert(s[i] == x);
        }
        if x == s.last() {
            assert(s[s.len() - 1] == x);
        }
    }
}

proof fn lemma_inserted_keeps<T: Ranked>(s: Seq<T::V>, y: T::V, x: T::V)
    ensures
        crate::order::inserted::<T>(s, y).contains(x) <==> s.contains(x) || x == y,
    decreases s.len(),
{
    let out = crate::order::inserted::<T>(s, y);
    if s.len() == 0 || T::at_most(s.last(), y) {
        assert(out =~= s.push(y));
        if s.contains(x) {
            let i = choose|i: int| 0 <= i < s.len() && s[i] == x;
            assert(out[i] == x);
        }
        if x == y {
            assert(out[s.len() as int] == x);
        }
    } else {
        let front = s.drop_last();
        lemma_inserted_keeps::<T>(front, y, x);
        let inner = crate::order::inserted::<T>(front, y);
        assert(out =~= inner.push(s.last()));
        if inner.contains(x) {
            let i = choose|i: int| 0 <= i < inner.len() && inner[i] == x;
            assert(out[i] == x);
        }
        if x == s.last() {
            assert(out[inner.len() as int] == x);
        }
        if out.contains(x) {
            let i = choose|i: int| 0 <= i < out.len() && out[i] == x;
            if i < inner.len() {
                assert(inner[i] == x);
            } else {
                assert(s[s.len() - 1] == x);
            }
        }
        if s.contains(x) {
            let i = choose|i: int| 0 <= i < s.len() && s[i] == x;
            if i < front.len() {
                assert(front[i] == x);
            }
        }
        if front.contains(x) {
            let i = choose|i: int| 0 <= i < front.len() && front[i] == x;
            assert(s[i] == x);
        }
    }
}

/// The places of a symbol are exactly those where it is used and, where they
/// are asked for, declared.
pub proof fn law_places_are_complete(
    index: WorkspaceIndex,
    symbol: SymbolAt,
    file: Seq<char>,
    with_declarations: bool,
    place: LocationView,
)
    ensures
        places_of(index, symbol, file, with_declarations).contains(place) <==> use_places(
            index,
            symbol,
        ).contains(place) || (with_declarations && declared_places(index, symbol, file).contains(
            place,
        )),
{
    let uses = use_places(index, symbol);
    let declared = declared_places(index, symbol, file);
    let found = if with_declarations {
        uses + declared
    } else {
        uses
    };
    lemma_sorted_keeps::<Location>(found, place);
    lemma_repeats_keep(sorted::<Location>(found), place);
    if with_declarations {
        if uses.contains(place) {
            let i = choose|i: int| 0 <= i < uses.len() && uses[i] == place;
            assert(found[i] == place);
        }
        if declared.contains(place) {
            let i = choose|i: int| 0 <= i < declared.len() && declared[i] == place;
            assert(found[uses.len() + i] == place);
        }
        if found.contains(place) {
            let i = choose|i: int| 0 <= i < found.len() && found[i] == place;
            if i < uses.len() {
                assert(uses[i] == place);
            } else {
                assert(declared[i - uses.len()] == place);
            }
        }
    }
}

pub open spec fn breaks_token(c: char) -> bool {
    c == ' ' || c == '\t' || c == '\r' || c == '\n' || c == '=' || c == ';' || c == '"'
}

/// A name that the engine reads as one token.
pub open spec fn is_single_token(name: Seq<char>) -> bool {
    name.len() > 0 && forall|k: int| 0 <= k < name.len() ==> !breaks_token(#[trigger] name[k])
}

/// Decides whether a definition can be renamed to `new_name`.
pub fn check_new_name(new_name: &str) -> (r: Result<(), &'static str>)
    ensures
        r is Ok <==> is_single_token(new_name@),
        r matches Err(e) ==> e@
            == "name must be a single token (no whitespace, `=`, `;` or quotes)"@,
{
    let chars = chars_of(new_name);
    let mut ok: bool = chars.len() > 0;
    let mut i: usize = 0;
    while i < chars.len()
        invariant
            i <= chars.len(),
            ok == (chars@.len() > 0 && forall|k: int|
                0 <= k < i ==> !breaks_token(#[trigger] chars@[k])),
        decreases chars.len() - i,
    {
        let c = chars[i];
        if c == ' ' || c == '\t' || c == '\r' || c == '\n' || c == '=' || c == ';' || c == '"' {
            ok = false;
        }
        i += 1;
    }
    if ok {
        Ok(())
    } else {
        Err("name must be a single token (no whitespace, `=`, `;` or quotes)")
    }
}

/// The symbols that a search gives: the first matches, up to the limit.
pub fn workspace_symbols(index: &WorkspaceIndex, query: &str) -> (r: Vec<Symbol>)
    ensures
        ({
            let all = picked(index.def_rows(), symbol_for(lower(query@)));
            views(r@) == (if all.len() <= MAX_SYMBOLS {
                all
            } else {
                all.take(MAX_SYMBOLS as int)
            })
        }),
{
    let mut found = index.symbols(query);
    let ghost all = views(found@);
    assert(all.len() == found@.len());
    if found.len() > MAX_SYMBOLS {
        found.truncate(MAX_SYMBOLS);
        assert(views(found@) =~= all.take(MAX_SYMBOLS as int));
    }
    found
}

/// A quick fix.
#[derive(Debug)]
pub struct Fix {
    pub title: String,
    pub span: Span,
    pub new_text: String,
}

/// The last segment of a URL's path: what follows its last slash. A path that
/// does not start with a slash has no segments, and is called `base`.
pub open spec fn last_segment(path: Seq<char>) -> Seq<char> {
    if path.len() > 0 && path[0] == '/' {
        last_part(path, '/', '/')
    } else {
        "base"@
    }
}

/// The short name of the file behind a URL, where the text is one.
pub open spec fn short_name(file: Seq<char>) -> Option<Seq<char>> {
    if !fits_url(file) {
        None
    } else {
        match url_parts(file) {
            Some((_, path)) => Some(last_segment(path)),
            None => None,
        }
    }
}

/// Decides [`short_name`].
pub fn short_name_of(file: &str) -> (r: Option<String>)
    ensures
        (match r {
            Some(short) => Some(short@),
            None => None,
        }) == short_name(file@),
{
    if !is_url_sized(file) {
        return None;
    }
    match parse_url(file) {
        Some((_, path)) => Some(segment_of(path.as_str())),
        None => None,
    }
}

/// Decides [`last_segment`].
pub fn segment_of(path: &str) -> (r: String)
    ensures
        r@ == last_segment(path@),
{
    if path.unicode_len() > 0 && path.get_char(0) == '/' {
        last_part_of(path, '/', '/').to_owned()
    } else {
        "base".to_owned()
    }
}

/// A definition that a map overrides, with the base file that defines it.
#[derive(Debug)]
pub struct OriginTarget {
    pub kind: RefKind,
    pub name: String,
    pub file: String,
    pub short: String,
}

/// The model of an [`OriginTarget`].
pub struct TargetView {
    pub kind: RefKind,
    pub name: Seq<char>,
    pub file: Seq<char>,
    pub short: Seq<char>,
}

impl View for OriginTarget {
    type V = TargetView;

    open spec fn view(&self) -> TargetView {
        TargetView {
            kind: self.kind,
            name: self.name@,
            file: self.file@,
            short: self.short@,
        }
    }
}

/// Whether a child of the root is a block around a range.
pub open spec fn block_around(parse: &Parse, k: int, span: Span) -> Option<int> {
    match parse.nodes@[0].elements@[k] {
        Element::Node(c) => {
            let node = parse.nodes@[c as int];
            if node.kind == SyntaxKind::Block && node.span.start <= span.start && span.end
                <= node.span.end {
                Some(c as int)
            } else {
                None
            }
        },
        Element::Token(_) => None,
    }
}

/// The first top-level block around a range, from child `k` on.
pub open spec fn first_block_around(parse: &Parse, span: Span, k: int) -> Option<int>
    decreases parse.nodes@[0].elements@.len() - k,
{
    if k < 0 || k >= parse.nodes@[0].elements@.len() {
        None
    } else if block_around(parse, k, span) is Some {
        block_around(parse, k, span)
    } else {
        first_block_around(parse, span, k + 1)
    }
}

/// The name and kind of the definition that an override finding is about.
pub open spec fn overridden(analyzer: &Analyzer, parse: &Parse, d: DiagnosticView, range: Span) -> Option<
    (RefKind, Seq<char>),
> {
    if d.code != "overrides"@ || d.span.end < range.start || d.span.start > range.end {
        None
    } else {
        match first_block_around(parse, d.span, 0) {
            Some(c) => {
                let node = parse.nodes@[c];
                match (defined_kind(analyzer, node), node.name) {
                    (Some(kind), Some(name)) => Some((kind, name.text@)),
                    _ => None,
                }
            },
            None => None,
        }
    }
}

/// The first place outside the override layers, from place `i` on.
pub open spec fn first_base(places: Seq<LocationView>, i: int) -> Option<LocationView>
    decreases places.len() - i,
{
    if i < 0 || i >= places.len() {
        None
    } else if !override_layer(places[i].file) {
        Some(places[i])
    } else {
        first_base(places, i + 1)
    }
}

/// The target for a definition, where a base file defines it.
pub open spec fn target_of(index: &WorkspaceIndex, kind: RefKind, name: Seq<char>) -> Seq<
    TargetView,
> {
    match first_base(picked(index.def_rows(), def_location(kind, lower(name))), 0) {
        Some(base) => match short_name(base.file) {
            Some(short) => seq![TargetView { kind, name, file: base.file, short }],
            None => Seq::empty(),
        },
        None => Seq::empty(),
    }
}

/// The targets of the override findings from finding `i` on, each name once;
/// `seen` are the names met before, in lower case.
pub open spec fn targets_from(
    analyzer: &Analyzer,
    parse: &Parse,
    found: Seq<DiagnosticView>,
    range: Span,
    index: &WorkspaceIndex,
    seen: Seq<Seq<char>>,
    i: int,
) -> Seq<TargetView>
    decreases found.len() - i,
{
    if i < 0 || i >= found.len() {
        Seq::empty()
    } else {
        match overridden(analyzer, parse, found[i], range) {
            Some((kind, name)) => if seen.contains(lower(name)) {
                targets_from(analyzer, parse, found, range, index, seen, i + 1)
            } else {
                target_of(index, kind, name) + targets_from(
                    analyzer,
                    parse,
                    found,
                    range,
                    index,
                    seen.push(lower(name)),
                    i + 1,
                )
            },
            None => targets_from(analyzer, parse, found, range, index, seen, i + 1),
        }
    }
}

fn find_block(parse: &Parse, span: Span) -> (r: Option<usize>)
    requires
        parse.wf(),
    ensures
        match r {
            Some(c) => first_block_around(parse, span, 0) == Some(c as int) && c
                < parse.nodes@.len(),
            None => first_block_around(parse, span, 0) is None,
        },
{
    let mut k: usize = 0;
    while k < parse.nodes[0].elements.len()
        invariant
            parse.wf(),
            k <= parse.nodes@[0].elements@.len(),
            first_block_around(parse, span, 0) == first_block_around(parse, span, k as int),
        decreases parse.nodes@[0].elements@.len() - k,
    {
        if let Element::Node(c) = &parse.nodes[0].elements[k] {
            let c: usize = *c;
            assert(parse.nodes@[0].elements@[k as int] == Element::Node(c));
            let node = &parse.nodes[c];
            if node.kind == SyntaxKind::Block && node.span.start <= span.start && span.end
                <= node.span.end {
                return Some(c);
            }
        }
        k += 1;
    }
    None
}

fn find_overridden<'a>(
    analyzer: &Analyzer,
    parse: &'a Parse,
    d: &Diagnostic,
    range: Span,
) -> (r: Option<(RefKind, &'a str)>)
    requires
        parse.wf(),
    ensures
        (match r {
            Some((kind, name)) => Some((kind, name@)),
            None => None,
        }) == overridden(analyzer, parse, d@, range),
{
    if !same(d.code, "overrides") || d.span.end < range.start || d.span.start > range.end {
        return None;
    }
    match find_block(parse, d.span) {
        Some(c) => {
            let node = &parse.nodes[c];
            match kind_defined(analyzer, node) {
                Some(kind) => match &node.name {
                    Some(name) => Some((kind, name.text.as_str())),
                    None => None,
                },
                None => None,
            }
        },
        None => None,
    }
}

fn find_target(index: &WorkspaceIndex, kind: RefKind, name: &str) -> (r: Option<OriginTarget>)
    ensures
        (match r {
            Some(t) => seq![t@],
            None => Seq::empty(),
        }) == target_of(index, kind, name@),
{
    let places = index.locations(kind, name);
    let ghost found = views(places@);
    let mut i: usize = 0;
    while i < places.len()
        invariant
            i <= places.len(),
            found == views(places@),
            found == picked(index.def_rows(), def_location(kind, lower(name@))),
            first_base(found, 0) == first_base(found, i as int),
        decreases places.len() - i,
    {
        assert(found[i as int] == places@[i as int]@);
        if !is_override_layer(places[i].file.as_str()) {
            let file = places[i].file.as_str();
            return match short_name_of(file) {
                Some(short) => {
                    let t = OriginTarget {
                        kind,
                        name: name.to_owned(),
                        file: file.to_owned(),
                        short,
                    };
                    assert(seq![t@] =~= target_of(index, kind, name@));
                    Some(t)
                },
                None => None,
            };
        }
        i += 1;
    }
    None
}

/// The base definitions that a map's findings in `range` override. The text of
/// each one's file is needed to offer a copy.
pub fn origin_targets(
    analyzer: &Analyzer,
    parse: &Parse,
    found: &Vec<Diagnostic>,
    range: Span,
    index: &WorkspaceIndex,
) -> (r: Vec<OriginTarget>)
    requires
        parse.wf(),
    ensures
        views(r@) == targets_from(
            analyzer,
            parse,
            diags(found@),
            range,
            index,
            Seq::empty(),
            0,
        ),
{
    let ghost all = diags(found@);
    let mut out: Vec<OriginTarget> = Vec::new();
    let mut seen: Vec<String> = Vec::new();
    let ghost whole = targets_from(analyzer, parse, all, range, index, Seq::empty(), 0);
    let mut i: usize = 0;
    assert(texts(seen@) =~= Seq::empty());
    assert(views(out@) + whole =~= whole);
    while i < found.len()
        invariant
            parse.wf(),
            i <= found.len(),
            all == diags(found@),
            views(out@) + targets_from(
                analyzer,
                parse,
                all,
                range,
                index,
                texts(seen@),
                i as int,
            ) == whole,
        decreases found.len() - i,
    {
        let ghost before = views(out@);
        let ghost met = texts(seen@);
        assert(all[i as int] == found@[i as int]@);
        match find_overridden(analyzer, parse, &found[i], range) {
            Some((kind, name)) => {
                let key = to_lower(name);
                if !crate::model::contains_text(&seen, key.as_str()) {
                    seen.push(key);
                    assert(texts(seen@) =~= met.push(lower(name@)));
                    match find_target(index, kind, name) {
                        Some(t) => {
                            let ghost view = t@;
                            out.push(t);
                            assert(views(out@) =~= before + seq![view]);
                        },
                        None => {
                            assert(views(out@) =~= before + Seq::empty());
                        },
                    }
                    proof {
                        let rest = targets_from(
                            analyzer,
                            parse,
                            all,
                            range,
                            index,
                            texts(seen@),
                            i + 1,
                        );
                        let here = target_of(index, kind, name@);
                        assert(views(out@) + rest =~= before + (here + rest));
                    }
                }
            },
            None => {},
        }
        i += 1;
    }
    proof {
        let rest = targets_from(analyzer, parse, all, range, index, texts(seen@), i as int);
        assert(views(out@) + rest =~= views(out@));
    }
    out
}

/// The range of a child of the root that is a block defining that kind under
/// that name, up to ASCII case.
pub open spec fn block_called(
    analyzer: &Analyzer,
    parse: &Parse,
    k: int,
    kind: RefKind,
    name: Seq<char>,
) -> Option<Span> {
    match parse.nodes@[0].elements@[k] {
        Element::Node(c) => {
            let node = parse.nodes@[c as int];
            if node.kind == SyntaxKind::Block && defined_kind(analyzer, node) == Some(kind) && (
            node.name matches Some(t) && same_ci(t.text@, name)) {
                Some(node.span)
            } else {
                None
            }
        },
        Element::Token(_) => None,
    }
}

/// The range of the first top-level block that defines that kind under that
/// name, from child `k` on.
pub open spec fn first_block_called(
    analyzer: &Analyzer,
    parse: &Parse,
    kind: RefKind,
    name: Seq<char>,
    k: int,
) -> Option<Span>
    decreases parse.nodes@[0].elements@.len() - k,
{
    if k < 0 || k >= parse.nodes@[0].elements@.len() {
        None
    } else if block_called(analyzer, parse, k, kind, name) is Some {
        block_called(analyzer, parse, k, kind, name)
    } else {
        first_block_called(analyzer, parse, kind, name, k + 1)
    }
}

/// The scalars of a text between two bytes of it.
pub open spec fn between_bytes(s: Seq<char>, start: int, end: int) -> Seq<char> {
    let from = char_of_byte(s, start as nat) as int;
    let to = char_of_byte(s, end as nat) as int;
    if from <= to {
        s.subrange(from, to)
    } else {
        Seq::empty()
    }
}

fn text_between(text: &str, start: u32, end: u32) -> (r: String)
    ensures
        r@ == between_bytes(text@, start as int, end as int),
{
    let rope = ropey::Rope::from_str(text);
    let total: usize = rope.len_bytes();
    let from: usize = if start as usize > total {
        proof {
            lemma_past_end(text@, start as nat);
        }
        rope.len_chars()
    } else {
        rope.byte_to_char(start as usize)
    };
    let to: usize = if end as usize > total {
        proof {
            lemma_past_end(text@, end as nat);
        }
        rope.len_chars()
    } else {
        rope.byte_to_char(end as usize)
    };
    proof {
        lemma_char_of_byte_bounds(text@, start as nat);
        lemma_char_of_byte_bounds(text@, end as nat);
    }
    if from > to {
        return String::new();
    }
    let chars = chars_of(text);
    string_from(&chars, from, to)
}

proof fn lemma_past_end(s: Seq<char>, byte: nat)
    requires
        byte > byte_len(s),
    ensures
        char_of_byte(s, byte) == s.len(),
{
}

/// Whether a text ends its last line.
pub open spec fn ends_line(text: Seq<char>) -> bool {
    text.len() == 0 || text.last() == '\n'
}

/// The text that a copy of a base definition puts at the end of a map.
pub open spec fn copy_text(
    text: Seq<char>,
    name: Seq<char>,
    short: Seq<char>,
    block: Seq<char>,
) -> Seq<char> {
    (if ends_line(text) {
        ""@
    } else {
        "\n"@
    }) + ("\n; === Reference copy of "@ + name + " from "@ + short
        + " ===\n; Remove the fields and modules you don't need.\n"@) + block + "\n"@
}

/// What is offered for a base definition: a copy at the end of the map's text
/// of the first top-level block of the base file that defines that kind under
/// that name, and nothing where the base file has none.
pub open spec fn copies(
    analyzer: &Analyzer,
    kind: RefKind,
    text: Seq<char>,
    name: Seq<char>,
    short: Seq<char>,
    base_text: Seq<char>,
    base_parse: &Parse,
    offered: Option<Fix>,
) -> bool {
    match offered {
        Some(fix) => {
            &&& first_block_called(analyzer, base_parse, kind, name, 0) matches Some(span)
                && fix.new_text@ == copy_text(
                text,
                name,
                short,
                between_bytes(base_text, span.start as int, span.end as int),
            )
            &&& fix.title@ == "Insert reference copy of `"@ + name + "` from "@ + short
            &&& fix.span == (Span { start: byte_len(text) as u32, end: byte_len(text) as u32 })
        },
        None => first_block_called(analyzer, base_parse, kind, name, 0) is None,
    }
}

/// Offers a copy of a base definition at the end of the map's text. Nothing is
/// offered where the base file holds no block that defines that kind under
/// that name.
pub fn origin_copy_fix(
    analyzer: &Analyzer,
    kind: RefKind,
    text: &str,
    name: &str,
    short: &str,
    base_text: &str,
) -> (r: Option<Fix>)
    requires
        byte_len(text@) <= u32::MAX,
    ensures
        exists|base_parse: Parse| #[trigger]
            tree_of(analyzer, base_text@, &base_parse) && copies(
                analyzer,
                kind,
                text@,
                name@,
                short@,
                base_text@,
                &base_parse,
                r,
            ),
{
    let base_parse = read_text(analyzer, base_text);
    copy_from(analyzer, kind, text, name, short, base_text, &base_parse)
}

fn copy_from(
    analyzer: &Analyzer,
    kind: RefKind,
    text: &str,
    name: &str,
    short: &str,
    base_text: &str,
    base_parse: &Parse,
) -> (r: Option<Fix>)
    requires
        base_parse.wf(),
        byte_len(text@) <= u32::MAX,
    ensures
        copies(analyzer, kind, text@, name@, short@, base_text@, base_parse, r),
{
    let mut k: usize = 0;
    while k < base_parse.nodes[0].elements.len()
        invariant
            base_parse.wf(),
            byte_len(text@) <= u32::MAX,
            k <= base_parse.nodes@[0].elements@.len(),
            first_block_called(analyzer, base_parse, kind, name@, 0) == first_block_called(
                analyzer,
                base_parse,
                kind,
                name@,
                k as int,
            ),
        decreases base_parse.nodes@[0].elements@.len() - k,
    {
        if let Element::Node(c) = &base_parse.nodes[0].elements[k] {
            let c: usize = *c;
            assert(base_parse.nodes@[0].elements@[k as int] == Element::Node(c));
            let node = &base_parse.nodes[c];
            let called: bool = match &node.name {
                Some(t) => eq_ci(t.text.as_str(), name),
                None => false,
            };
            let defines: bool = match kind_defined(analyzer, node) {
                Some(own) => own == kind,
                None => false,
            };
            if node.kind == SyntaxKind::Block && defines && called {
                let block = text_between(base_text, node.span.start, node.span.end);
                let chars = chars_of(text);
                let lead = if chars.len() == 0 || chars[chars.len() - 1] == '\n' {
                    ""
                } else {
                    "\n"
                };
                let banner = join5(
                    "\n; === Reference copy of ",
                    name,
                    " from ",
                    short,
                    " ===\n; Remove the fields and modules you don't need.\n",
                );
                let mut new_text = join2(lead, banner.as_str());
                new_text.append(block.as_str());
                new_text.append("\n");
                let mut title = join2("Insert reference copy of `", name);
                title.append("` from ");
                title.append(short);
                let at: u32 = bytes_in(text) as u32;
                return Some(Fix { title, span: Span::new(at, at), new_text });
            }
        }
        k += 1;
    }
    None
}

/// A copy starts on a line of its own and ends its last one.
pub proof fn law_copy_is_on_lines_of_its_own(
    text: Seq<char>,
    name: Seq<char>,
    short: Seq<char>,
    block: Seq<char>,
)
    ensures
        ends_line(text + copy_text(text, name, short, block)),
        copy_text(text, name, short, block).len() > 1,
        copy_text(text, name, short, block)[0] == '\n',
        !ends_line(text) ==> copy_text(text, name, short, block)[1] == '\n',
{
    reveal_strlit("");
    reveal_strlit("\n");
    reveal_strlit("\n; === Reference copy of ");
    assert("\n; === Reference copy of "@[0] == '\n');
    let out = copy_text(text, name, short, block);
    let banner = "\n; === Reference copy of "@ + name + " from "@ + short
        + " ===\n; Remove the fields and modules you don't need.\n"@;
    assert(banner[0] == "\n; === Reference copy of "@[0]);
    assert(out.last() == '\n');
    assert((text + out).last() == out.last());
}

} // verus!
