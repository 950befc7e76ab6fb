//! What one document contributes to the workspace index: definitions,
//! reference sites, module tags, and the models and parents of its Objects.

use vstd::prelude::*;

use crate::analyzer::Analyzer;
use crate::index::{
    dedup_case_insensitive, dedup_ci, Definition, ModuleTagDefinition, ReferenceSite, TagView,
};
use crate::model::{bare_inputs, bare_texts, extend_texts, scope_of, scope_schema, ScopeSchema};
use crate::order::views;
use crate::schema::{RefKind, ValueType};
use crate::syntax::{tokens_wf, Element, Parse, Span, SyntaxKind, SyntaxNode, SyntaxToken};
use crate::text::{
    byte_len, bytes_in, eq_ci, join5, lemma_split_bytes, lemma_trim_bytes, lower, same_ci,
    split_at_first, split_once, texts, to_lower, unquote, unquoted, CharClass,
};

verus! {

/// The model of a named site: a definition or a reference.
pub struct SiteOf {
    pub name: Seq<char>,
    pub kind: RefKind,
    pub span: Span,
}

pub open spec fn def_sites(defs: Seq<Definition>) -> Seq<SiteOf> {
    defs.map_values(|d: Definition| SiteOf { name: d.name@, kind: d.kind, span: d.span })
}

pub open spec fn ref_sites(refs: Seq<ReferenceSite>) -> Seq<SiteOf> {
    refs.map_values(|r: ReferenceSite| SiteOf { name: r.name@, kind: r.kind, span: r.span })
}

/// The reference kind that a block defines.
pub open spec fn defined_kind(analyzer: &Analyzer, node: SyntaxNode) -> Option<RefKind> {
    match node.head {
        Some(kw) => match analyzer.block_of(kw.text@) {
            Some(b) => b.defines,
            None => None,
        },
        None => None,
    }
}

/// Decides [`defined_kind`].
pub fn kind_defined(analyzer: &Analyzer, node: &SyntaxNode) -> (r: Option<RefKind>)
    ensures
        r == defined_kind(analyzer, *node),
{
    match &node.head {
        Some(kw) => match analyzer.block(kw.text.as_str()) {
            Some(b) => b.defines,
            None => None,
        },
        None => None,
    }
}

/// The definition that a top-level node makes.
pub open spec fn block_definition(analyzer: &Analyzer, node: SyntaxNode) -> Option<SiteOf> {
    if node.kind is Block {
        match (defined_kind(analyzer, node), node.name) {
            (Some(kind), Some(name)) => Some(
                SiteOf { name: name.text@, kind, span: name.span },
            ),
            _ => None,
        }
    } else {
        None
    }
}

/// The definitions of the top-level nodes from element `k` on.
pub open spec fn definitions_from(analyzer: &Analyzer, parse: &Parse, k: int) -> Seq<SiteOf>
    decreases parse.nodes@[0].elements@.len() - k,
{
    if k < 0 || k >= parse.nodes@[0].elements@.len() {
        Seq::empty()
    } else {
        let rest = definitions_from(analyzer, parse, k + 1);
        match parse.nodes@[0].elements@[k] {
            Element::Node(c) => match block_definition(analyzer, parse.nodes@[c as int]) {
                Some(d) => seq![d] + rest,
                None => rest,
            },
            Element::Token(_) => rest,
        }
    }
}

/// Collect the named definitions that a document contributes: top-level
/// blocks whose keyword defines a reference kind.
pub fn definitions_in(analyzer: &Analyzer, parse: &Parse, _file: &str) -> (r: Vec<Definition>)
    requires
        parse.wf(),
    ensures
        def_sites(r@) == definitions_from(analyzer, parse, 0),
{
    let mut out: Vec<Definition> = Vec::new();
    let mut k: usize = 0;
    let ghost whole = definitions_from(analyzer, parse, 0);
    assert(def_sites(out@) + whole =~= whole);
    while k < parse.nodes[0].elements.len()
        invariant
            parse.wf(),
            k <= parse.nodes@[0].elements.len(),
            def_sites(out@) + definitions_from(analyzer, parse, k as int) == whole,
        decreases parse.nodes@[0].elements.len() - k,
    {
        let ghost o0 = def_sites(out@);
        if let Element::Node(c) = &parse.nodes[0].elements[k] {
            let node = &parse.nodes[*c];
            if node.kind == SyntaxKind::Block {
                if let Some(kind) = kind_defined(analyzer, node) {
                    if let Some(name) = &node.name {
                        let d = Definition { name: name.text.clone(), kind, span: name.span };
                        out.push(d);
                        assert(def_sites(out@) =~= o0.push(
                            SiteOf { name: name.text@, kind, span: name.span },
                        ));
                    }
                }
            }
        }
        assert(def_sites(out@) + definitions_from(analyzer, parse, k + 1) =~= o0
            + definitions_from(analyzer, parse, k as int));
        k += 1;
    }
    assert(def_sites(out@) =~= whole);
    out
}

/// Whether a named reference is a site: not a null sentinel, not made by the
/// engine.
pub open spec fn navigable(analyzer: &Analyzer, kind: RefKind, name: Seq<char>) -> bool {
    name.len() > 0 && !same_ci(name, "None"@) && !(kind == RefKind::AudioEvent && same_ci(
        name,
        "NoSound"@,
    )) && !analyzer.builtin(kind, name)
}

/// The site of a reference, if it is one.
pub open spec fn site(analyzer: &Analyzer, kind: RefKind, name: Seq<char>, span: Span) -> Seq<
    SiteOf,
> {
    if navigable(analyzer, kind, name) {
        seq![SiteOf { name, kind, span }]
    } else {
        Seq::empty()
    }
}

/// The kind that a reference type points at.
pub open spec fn pointed_kind(ty: ValueType) -> Option<RefKind> {
    match ty {
        ValueType::Reference { ref_kind } => Some(ref_kind),
        ValueType::ReferenceList { ref_kind } => Some(ref_kind),
        _ => None,
    }
}

/// Decides [`pointed_kind`].
pub fn kind_pointed_at(ty: &ValueType) -> (r: Option<RefKind>)
    ensures
        r == pointed_kind(*ty),
{
    match ty {
        ValueType::Reference { ref_kind } => Some(*ref_kind),
        ValueType::ReferenceList { ref_kind } => Some(*ref_kind),
        _ => None,
    }
}

/// The range of the name behind `Prefix:` inside a token.
pub open spec fn name_span(token: SyntaxToken, actual: Seq<char>, name: Seq<char>) -> Span {
    let quote: int = if token.text@.len() > 0 && token.text@[0] == '"' {
        1
    } else {
        0
    };
    let start = token.span.start + quote + byte_len(actual) + 1;
    Span { start: start as u32, end: (start + byte_len(name)) as u32 }
}

/// The reference site in one token of a structured value.
pub open spec fn token_site(analyzer: &Analyzer, ty: ValueType, token: SyntaxToken) -> Seq<SiteOf> {
    match ty {
        ValueType::Prefixed { prefix, value_type } => match (
            pointed_kind(*value_type),
            split_once(unquoted(token.text@), ':'),
        ) {
            (Some(kind), Some((actual, name))) => if same_ci(actual, prefix@) && name.len() > 0 {
                site(analyzer, kind, name, name_span(token, actual, name))
            } else {
                Seq::empty()
            },
            _ => Seq::empty(),
        },
        _ => match pointed_kind(ty) {
            Some(kind) => site(analyzer, kind, unquoted(token.text@), token.span),
            None => Seq::empty(),
        },
    }
}

/// The sites in the tokens from `i` on of a structured value.
pub open spec fn list_sites(
    analyzer: &Analyzer,
    ty: ValueType,
    tokens: Seq<SyntaxToken>,
    i: int,
) -> Seq<SiteOf>
    decreases tokens.len() - i,
{
    if i < 0 || i >= tokens.len() {
        Seq::empty()
    } else {
        let here = match ty.input_type(bare_texts(tokens), i) {
            Some(spec) => token_site(analyzer, spec, tokens[i]),
            None => Seq::empty(),
        };
        here + list_sites(analyzer, ty, tokens, i + 1)
    }
}

/// The sites of a plain reference list from token `i` on.
pub open spec fn plain_sites(
    analyzer: &Analyzer,
    kind: RefKind,
    tokens: Seq<SyntaxToken>,
    i: int,
) -> Seq<SiteOf>
    decreases tokens.len() - i,
{
    if i < 0 || i >= tokens.len() {
        Seq::empty()
    } else {
        site(analyzer, kind, unquoted(tokens[i].text@), tokens[i].span) + plain_sites(
            analyzer,
            kind,
            tokens,
            i + 1,
        )
    }
}

/// The reference sites in a value of this type.
pub open spec fn value_sites(analyzer: &Analyzer, ty: ValueType, tokens: Seq<SyntaxToken>) -> Seq<
    SiteOf,
>
    decreases ty,
{
    match ty {
        ValueType::OneOf { variants } => {
            let k = crate::schema::active_variant(
                variants@,
                crate::schema::first_of(bare_texts(tokens)),
            );
            if 0 <= k < variants@.len() {
                value_sites(analyzer, variants@[k], tokens)
            } else {
                Seq::empty()
            }
        },
        ValueType::Reference { ref_kind } => if tokens.len() > 0 {
            site(analyzer, ref_kind, unquoted(tokens[0].text@), tokens[0].span)
        } else {
            Seq::empty()
        },
        ValueType::ReferenceList { ref_kind } => plain_sites(analyzer, ref_kind, tokens, 0),
        ValueType::TokenList { .. } => list_sites(analyzer, ty, tokens, 0),
        ValueType::Prefixed { .. } => list_sites(analyzer, ty, tokens, 0),
        _ => Seq::empty(),
    }
}

fn push_site(
    analyzer: &Analyzer,
    kind: RefKind,
    name: &str,
    span: Span,
    out: &mut Vec<ReferenceSite>,
)
    ensures
        ref_sites(final(out)@) == ref_sites(old(out)@) + site(analyzer, kind, name@, span),
{
    let ghost o0 = ref_sites(out@);
    if name.is_empty() || eq_ci(name, "None") || (kind == RefKind::AudioEvent && eq_ci(
        name,
        "NoSound",
    )) || analyzer.is_builtin(kind, name) {
        assert(o0 + site(analyzer, kind, name@, span) =~= o0);
        return;
    }
    let item = ReferenceSite { name: name.to_owned(), kind, span };
    out.push(item);
    assert(ref_sites(out@) =~= o0.push(SiteOf { name: name@, kind, span }));
}

fn push_token_site(
    analyzer: &Analyzer,
    ty: &ValueType,
    token: &SyntaxToken,
    out: &mut Vec<ReferenceSite>,
)
    requires
        token.wf(),
    ensures
        ref_sites(final(out)@) == ref_sites(old(out)@) + token_site(analyzer, *ty, *token),
{
    let ghost o0 = ref_sites(out@);
    match ty {
        ValueType::Prefixed { prefix, value_type } => {
            if let Some(kind) = kind_pointed_at(value_type) {
                let text = unquote(token.text.as_str());
                if let Some((actual, name)) = split_at_first(text, ':') {
                    if eq_ci(actual, prefix.as_str()) && !name.is_empty() {
                        proof {
                            lemma_trim_bytes(token.text@, CharClass::Quote);
                            lemma_split_bytes(text@, ':');
                        }
                        let quote: usize = if !token.text.as_str().is_empty() && starts_quoted(
                            token.text.as_str(),
                        ) {
                            1
                        } else {
                            0
                        };
                        let skip: usize = quote + bytes_in(actual) + 1;
                        let len: usize = bytes_in(name);
                        let start: u32 = token.span.start + (skip as u32);
                        let span = Span { start, end: start + (len as u32) };
                        push_site(analyzer, kind, name, span, out);
                    }
                }
            }
        },
        _ => {
            if let Some(kind) = kind_pointed_at(ty) {
                push_site(analyzer, kind, unquote(token.text.as_str()), token.span, out);
            }
        },
    }
    assert(ref_sites(out@) =~= o0 + token_site(analyzer, *ty, *token));
}

/// Whether a text starts with a double quote.
pub fn starts_quoted(text: &str) -> (r: bool)
    ensures
        r == (text@.len() > 0 && text@[0] == '"'),
{
    let chars = crate::text::chars_of(text);
    chars.len() > 0 && chars[0] == '"'
}

/// Appends the reference sites of a value.
pub fn collect_refs_from_type(
    analyzer: &Analyzer,
    ty: &ValueType,
    tokens: &Vec<SyntaxToken>,
    out: &mut Vec<ReferenceSite>,
)
    requires
        tokens_wf(tokens@),
    ensures
        ref_sites(final(out)@) == ref_sites(old(out)@) + value_sites(analyzer, *ty, tokens@),
    decreases ty,
{
    let ghost o0 = ref_sites(out@);
    match ty {
        ValueType::OneOf { variants } => {
            let input = bare_inputs(tokens);
            let first: Option<&str> = if input.len() > 0 {
                Some(input[0])
            } else {
                None
            };
            assert(crate::schema::text_of(first) == crate::schema::first_of(bare_texts(tokens@)));
            if variants.len() > 0 {
                let k: usize = crate::schema::variant_index(variants, first);
                collect_refs_from_type(analyzer, &variants[k], tokens, out);
            }
        },
        ValueType::Reference { ref_kind } => {
            if tokens.len() > 0 {
                push_site(
                    analyzer,
                    *ref_kind,
                    unquote(tokens[0].text.as_str()),
                    tokens[0].span,
                    out,
                );
            }
        },
        ValueType::ReferenceList { ref_kind } => {
            let mut i: usize = 0;
            while i < tokens.len()
                invariant
                    i <= tokens.len(),
                    ref_sites(out@) + plain_sites(analyzer, *ref_kind, tokens@, i as int) == o0
                        + plain_sites(analyzer, *ref_kind, tokens@, 0),
                decreases tokens.len() - i,
            {
                let ghost o1 = ref_sites(out@);
                push_site(
                    analyzer,
                    *ref_kind,
                    unquote(tokens[i].text.as_str()),
                    tokens[i].span,
                    out,
                );
                assert(ref_sites(out@) + plain_sites(analyzer, *ref_kind, tokens@, i + 1) =~= o1
                    + plain_sites(analyzer, *ref_kind, tokens@, i as int));
                i += 1;
            }
        },
        ValueType::TokenList { .. } | ValueType::Prefixed { .. } => {
            let input = bare_inputs(tokens);
            let mut i: usize = 0;
            while i < tokens.len()
                invariant
                    i <= tokens.len(),
                    tokens_wf(tokens@),
                    crate::text::slices(input@) == bare_texts(tokens@),
                    ref_sites(out@) + list_sites(analyzer, *ty, tokens@, i as int) == o0
                        + list_sites(analyzer, *ty, tokens@, 0),
                decreases tokens.len() - i,
            {
                let ghost o1 = ref_sites(out@);
                if let Some(spec) = ty.token_type_at_input(input.as_slice(), i) {
                    push_token_site(analyzer, spec, &tokens[i], out);
                }
                assert(ref_sites(out@) + list_sites(analyzer, *ty, tokens@, i + 1) =~= o1
                    + list_sites(analyzer, *ty, tokens@, i as int));
                i += 1;
            }
        },
        _ => {},
    }
}

/// The reference sites of a field in its scope.
pub open spec fn field_sites(
    analyzer: &Analyzer,
    scope: ScopeSchema<'_>,
    node: SyntaxNode,
) -> Seq<SiteOf> {
    match node.head {
        Some(key) => match scope.field_of(key.text@) {
            Some(f) => value_sites(analyzer, f.value_type, node.values@),
            None => Seq::empty(),
        },
        None => Seq::empty(),
    }
}

/// The reference sites in the subtree of `node`, from its element `k` on.
pub open spec fn subtree_sites(analyzer: &Analyzer, parse: &Parse, node: int, k: int) -> Seq<SiteOf>
    decreases parse.nodes@.len() - node, parse.nodes@[node].elements@.len() - k,
{
    if k < 0 || k >= parse.nodes@[node].elements@.len() {
        Seq::empty()
    } else {
        let here = match parse.nodes@[node].elements@[k] {
            Element::Node(c) => if node < c < parse.nodes@.len() {
                match parse.nodes@[c as int].kind {
                    SyntaxKind::Field => field_sites(
                        analyzer,
                        scope_of(analyzer, parse, node),
                        parse.nodes@[c as int],
                    ),
                    SyntaxKind::Root => Seq::empty(),
                    _ => subtree_sites(analyzer, parse, c as int, 0),
                }
            } else {
                Seq::empty()
            },
            Element::Token(_) => Seq::empty(),
        };
        here + subtree_sites(analyzer, parse, node, k + 1)
    }
}

fn collect_refs(
    analyzer: &Analyzer,
    parse: &Parse,
    node: usize,
    out: &mut Vec<ReferenceSite>,
)
    requires
        parse.wf(),
        node < parse.nodes.len(),
    ensures
        ref_sites(final(out)@) == ref_sites(old(out)@) + subtree_sites(
            analyzer,
            parse,
            node as int,
            0,
        ),
    decreases parse.nodes.len() - node,
{
    let scope = scope_schema(analyzer, parse, node);
    let ghost start = ref_sites(out@);
    let mut k: usize = 0;
    while k < parse.nodes[node].elements.len()
        invariant
            parse.wf(),
            node < parse.nodes.len(),
            k <= parse.nodes@[node as int].elements.len(),
            scope == scope_of(analyzer, parse, node as int),
            ref_sites(out@) + subtree_sites(analyzer, parse, node as int, k as int) == start
                + subtree_sites(analyzer, parse, node as int, 0),
        decreases parse.nodes@[node as int].elements.len() - k,
    {
        let ghost before = ref_sites(out@);
        if let Element::Node(c) = &parse.nodes[node].elements[k] {
            let c: usize = *c;
            match parse.nodes[c].kind {
                SyntaxKind::Field => {
                    if let Some(key) = &parse.nodes[c].head {
                        if let Some(field) = scope.field(key.text.as_str()) {
                            assert(tokens_wf(parse.nodes@[c as int].values@));
                            collect_refs_from_type(
                                analyzer,
                                &field.value_type,
                                &parse.nodes[c].values,
                                out,
                            );
                        }
                    }
                },
                SyntaxKind::Root => {},
                _ => {
                    collect_refs(analyzer, parse, c, out);
                },
            }
        }
        assert(ref_sites(out@) + subtree_sites(analyzer, parse, node as int, k + 1) =~= before
            + subtree_sites(analyzer, parse, node as int, k as int));
        k += 1;
    }
}

/// The reference sites of the top-level blocks from element `k` on.
pub open spec fn references_from(analyzer: &Analyzer, parse: &Parse, k: int) -> Seq<SiteOf>
    decreases parse.nodes@[0].elements@.len() - k,
{
    if k < 0 || k >= parse.nodes@[0].elements@.len() {
        Seq::empty()
    } else {
        let here = match parse.nodes@[0].elements@[k] {
            Element::Node(c) => if parse.nodes@[c as int].kind is Block {
                subtree_sites(analyzer, parse, c as int, 0)
            } else {
                Seq::empty()
            },
            Element::Token(_) => Seq::empty(),
        };
        here + references_from(analyzer, parse, k + 1)
    }
}

/// Collect every reference site of a document: each value token of a
/// reference-typed field. Null sentinels and engine builtins are not sites.
pub fn references_in(analyzer: &Analyzer, parse: &Parse) -> (r: Vec<ReferenceSite>)
    requires
        parse.wf(),
    ensures
        ref_sites(r@) == references_from(analyzer, parse, 0),
{
    let mut out: Vec<ReferenceSite> = Vec::new();
    let ghost whole = references_from(analyzer, parse, 0);
    assert(ref_sites(out@) + whole =~= whole);
    let mut k: usize = 0;
    while k < parse.nodes[0].elements.len()
        invariant
            parse.wf(),
            k <= parse.nodes@[0].elements.len(),
            ref_sites(out@) + references_from(analyzer, parse, k as int) == whole,
        decreases parse.nodes@[0].elements.len() - k,
    {
        let ghost o0 = ref_sites(out@);
        if let Element::Node(c) = &parse.nodes[0].elements[k] {
            let c: usize = *c;
            if parse.nodes[c].kind == SyntaxKind::Block {
                collect_refs(analyzer, parse, c, &mut out);
            }
        }
        assert(ref_sites(out@) + references_from(analyzer, parse, k + 1) =~= o0
            + references_from(analyzer, parse, k as int));
        k += 1;
    }
    assert(ref_sites(out@) =~= whole);
    out
}

/// Whether a node is headed `Object`.
pub open spec fn is_object(node: SyntaxNode) -> bool {
    match node.head {
        Some(kw) => same_ci(kw.text@, "Object"@),
        None => false,
    }
}

/// Decides [`is_object`].
pub fn opens_object(node: &SyntaxNode) -> (r: bool)
    ensures
        r == is_object(*node),
{
    match &node.head {
        Some(kw) => eq_ci(kw.text.as_str(), "Object"),
        None => false,
    }
}

/// The object and parent that a top-level node names.
pub open spec fn node_parent(node: SyntaxNode) -> Option<(Seq<char>, Seq<char>)> {
    if is_object(node) {
        match (node.name, node.tag) {
            (Some(name), Some(parent)) => Some((name.text@, parent.text@)),
            _ => None,
        }
    } else {
        None
    }
}

/// The parents from element `k` on.
pub open spec fn parents_from(parse: &Parse, k: int) -> Seq<(Seq<char>, Seq<char>)>
    decreases parse.nodes@[0].elements@.len() - k,
{
    if k < 0 || k >= parse.nodes@[0].elements@.len() {
        Seq::empty()
    } else {
        let rest = parents_from(parse, k + 1);
        match parse.nodes@[0].elements@[k] {
            Element::Node(c) => match node_parent(parse.nodes@[c as int]) {
                Some(p) => seq![p] + rest,
                None => rest,
            },
            Element::Token(_) => rest,
        }
    }
}

pub open spec fn pair_texts(pairs: Seq<(String, String)>) -> Seq<(Seq<char>, Seq<char>)> {
    pairs.map_values(|p: (String, String)| (p.0@, p.1@))
}

/// The parents that Object headers name.
pub fn object_parents_in(parse: &Parse) -> (r: Vec<(String, String)>)
    requires
        parse.wf(),
    ensures
        pair_texts(r@) == parents_from(parse, 0),
{
    let mut out: Vec<(String, String)> = Vec::new();
    let ghost whole = parents_from(parse, 0);
    assert(pair_texts(out@) + whole =~= whole);
    let mut k: usize = 0;
    while k < parse.nodes[0].elements.len()
        invariant
            parse.wf(),
            k <= parse.nodes@[0].elements.len(),
            pair_texts(out@) + parents_from(parse, k as int) == whole,
        decreases parse.nodes@[0].elements.len() - k,
    {
        let ghost o0 = pair_texts(out@);
        if let Element::Node(c) = &parse.nodes[0].elements[k] {
            let node = &parse.nodes[*c];
            if opens_object(node) {
                if let Some(name) = &node.name {
                    if let Some(parent) = &node.tag {
                        out.push((name.text.clone(), parent.text.clone()));
                        assert(pair_texts(out@) =~= o0.push((name.text@, parent.text@)));
                    }
                }
            }
        }
        assert(pair_texts(out@) + parents_from(parse, k + 1) =~= o0 + parents_from(
            parse,
            k as int,
        ));
        k += 1;
    }
    assert(pair_texts(out@) =~= whole);
    out
}

/// The models that a field of an Object declares.
pub open spec fn declared_models(
    scope: ScopeSchema<'_>,
    node: SyntaxNode,
) -> Seq<Seq<char>> {
    match node.head {
        Some(key) => match scope.field_of(key.text@) {
            Some(f) => match f.value_type {
                ValueType::W3dModelList => bare_texts(node.values@),
                ValueType::W3dModel => if node.values@.len() > 0 {
                    seq![unquoted(node.values@[0].text@)]
                } else {
                    Seq::empty()
                },
                _ => Seq::empty(),
            },
            None => Seq::empty(),
        },
        None => Seq::empty(),
    }
}

/// The models that the subtree of an Object declares, from element `k` on.
pub open spec fn object_subtree_models(
    analyzer: &Analyzer,
    parse: &Parse,
    node: int,
    k: int,
) -> Seq<Seq<char>>
    decreases parse.nodes@.len() - node, parse.nodes@[node].elements@.len() - k,
{
    if k < 0 || k >= parse.nodes@[node].elements@.len() {
        Seq::empty()
    } else {
        let here = match parse.nodes@[node].elements@[k] {
            Element::Node(c) => if node < c < parse.nodes@.len() {
                match parse.nodes@[c as int].kind {
                    SyntaxKind::Field => declared_models(
                        scope_of(analyzer, parse, node),
                        parse.nodes@[c as int],
                    ),
                    SyntaxKind::Root => Seq::empty(),
                    _ => object_subtree_models(analyzer, parse, c as int, 0),
                }
            } else {
                Seq::empty()
            },
            Element::Token(_) => Seq::empty(),
        };
        here + object_subtree_models(analyzer, parse, node, k + 1)
    }
}

fn collect_object_models(
    analyzer: &Analyzer,
    parse: &Parse,
    node: usize,
    out: &mut Vec<String>,
)
    requires
        parse.wf(),
        node < parse.nodes.len(),
    ensures
        texts(final(out)@) == texts(old(out)@) + object_subtree_models(
            analyzer,
            parse,
            node as int,
            0,
        ),
    decreases parse.nodes.len() - node,
{
    let scope = scope_schema(analyzer, parse, node);
    let ghost start = texts(out@);
    let mut k: usize = 0;
    while k < parse.nodes[node].elements.len()
        invariant
            parse.wf(),
            node < parse.nodes.len(),
            k <= parse.nodes@[node as int].elements.len(),
            scope == scope_of(analyzer, parse, node as int),
            texts(out@) + object_subtree_models(analyzer, parse, node as int, k as int) == start
                + object_subtree_models(analyzer, parse, node as int, 0),
        decreases parse.nodes@[node as int].elements.len() - k,
    {
        let ghost before = texts(out@);
        if let Element::Node(c) = &parse.nodes[node].elements[k] {
            let c: usize = *c;
            match parse.nodes[c].kind {
                SyntaxKind::Field => {
                    if let Some(key) = &parse.nodes[c].head {
                        if let Some(field) = scope.field(key.text.as_str()) {
                            match &field.value_type {
                                ValueType::W3dModelList => {
                                    let values = bare_inputs(&parse.nodes[c].values);
                                    extend_texts(out, &values);
                                },
                                ValueType::W3dModel => {
                                    if parse.nodes[c].values.len() > 0 {
                                        out.push(
                                            unquote(
                                                parse.nodes[c].values[0].text.as_str(),
                                            ).to_owned(),
                                        );
                                    }
                                },
                                _ => {},
                            }
                        }
                    }
                },
                SyntaxKind::Root => {},
                _ => {
                    collect_object_models(analyzer, parse, c, out);
                },
            }
        }
        assert(texts(out@) + object_subtree_models(analyzer, parse, node as int, k + 1) =~= before
            + object_subtree_models(analyzer, parse, node as int, k as int));
        k += 1;
    }
}

/// The models of the Objects from element `k` on.
pub open spec fn objects_from(analyzer: &Analyzer, parse: &Parse, k: int) -> Seq<
    (Seq<char>, Seq<Seq<char>>),
>
    decreases parse.nodes@[0].elements@.len() - k,
{
    if k < 0 || k >= parse.nodes@[0].elements@.len() {
        Seq::empty()
    } else {
        let rest = objects_from(analyzer, parse, k + 1);
        match parse.nodes@[0].elements@[k] {
            Element::Node(c) => match (
                is_object(parse.nodes@[c as int]),
                parse.nodes@[c as int].name,
            ) {
                (true, Some(name)) => seq![
                    (name.text@, dedup_ci(object_subtree_models(analyzer, parse, c as int, 0))),
                ] + rest,
                _ => rest,
            },
            Element::Token(_) => rest,
        }
    }
}

pub open spec fn object_texts(objects: Seq<(String, Vec<String>)>) -> Seq<
    (Seq<char>, Seq<Seq<char>>),
> {
    objects.map_values(|o: (String, Vec<String>)| (o.0@, texts(o.1@)))
}

/// Collect the W3D models declared below every Object definition.
pub fn object_models_in(analyzer: &Analyzer, parse: &Parse) -> (r: Vec<(String, Vec<String>)>)
    requires
        parse.wf(),
    ensures
        object_texts(r@) == objects_from(analyzer, parse, 0),
{
    let mut out: Vec<(String, Vec<String>)> = Vec::new();
    let ghost whole = objects_from(analyzer, parse, 0);
    assert(object_texts(out@) + whole =~= whole);
    let mut k: usize = 0;
    while k < parse.nodes[0].elements.len()
        invariant
            parse.wf(),
            k <= parse.nodes@[0].elements.len(),
            object_texts(out@) + objects_from(analyzer, parse, k as int) == whole,
        decreases parse.nodes@[0].elements.len() - k,
    {
        let ghost o0 = object_texts(out@);
        if let Element::Node(c) = &parse.nodes[0].elements[k] {
            let c: usize = *c;
            if opens_object(&parse.nodes[c]) {
                if let Some(name) = &parse.nodes[c].name {
                    let mut models: Vec<String> = Vec::new();
                    collect_object_models(analyzer, parse, c, &mut models);
                    assert(texts(models@) =~= object_subtree_models(
                        analyzer,
                        parse,
                        c as int,
                        0,
                    ));
                    let models = dedup_case_insensitive(models);
                    out.push((name.text.clone(), models));
                    assert(object_texts(out@) =~= o0.push((name.text@, texts(models@))));
                }
            }
        }
        assert(object_texts(out@) + objects_from(analyzer, parse, k + 1) =~= o0 + objects_from(
            analyzer,
            parse,
            k as int,
        ));
        k += 1;
    }
    assert(object_texts(out@) =~= whole);
    out
}

/// The header of a module as one line.
pub open spec fn module_header(node: SyntaxNode) -> Seq<char> {
    match (node.head, node.name, node.tag) {
        (Some(slot), Some(name), Some(tag)) => slot.text@ + " = "@ + name.text@ + " "@ + tag.text@,
        _ => ""@,
    }
}

fn header_of(node: &SyntaxNode) -> (r: String)
    ensures
        r@ == module_header(*node),
{
    if let Some(slot) = &node.head {
        if let Some(name) = &node.name {
            if let Some(tag) = &node.tag {
                return join5(
                    slot.text.as_str(),
                    " = ",
                    name.text.as_str(),
                    " ",
                    tag.text.as_str(),
                );
            }
        }
    }
    "".to_owned()
}

/// The tags that the modules of an Object declare, from element `k` on.
pub open spec fn declared_tags(parse: &Parse, node: int, object: Seq<char>, k: int) -> Seq<TagView>
    decreases parse.nodes@[node].elements@.len() - k,
{
    if k < 0 || k >= parse.nodes@[node].elements@.len() {
        Seq::empty()
    } else {
        let rest = declared_tags(parse, node, object, k + 1);
        match parse.nodes@[node].elements@[k] {
            Element::Node(c) => match (parse.nodes@[c as int].kind, parse.nodes@[c as int].tag) {
                (SyntaxKind::Module, Some(tag)) => seq![
                    TagView {
                        object,
                        name: tag.text@,
                        span: tag.span,
                        is_reference: false,
                        snippet: module_header(parse.nodes@[c as int]),
                    },
                ] + rest,
                _ => rest,
            },
            Element::Token(_) => rest,
        }
    }
}

/// Whether a node is a field of that key, up to ASCII case.
pub open spec fn is_field_named(node: SyntaxNode, key: Seq<char>) -> bool {
    node.kind is Field && match node.head {
        Some(k) => same_ci(k.text@, key),
        None => false,
    }
}

/// Decides [`is_field_named`].
pub fn field_is(node: &SyntaxNode, key: &str) -> (r: bool)
    ensures
        r == is_field_named(*node, key@),
{
    if node.kind != SyntaxKind::Field {
        return false;
    }
    match &node.head {
        Some(k) => eq_ci(k.text.as_str(), key),
        None => false,
    }
}

/// The tags that `RemoveModule` fields of an Object name, from element `k` on.
pub open spec fn removed_tags(parse: &Parse, node: int, object: Seq<char>, k: int) -> Seq<TagView>
    decreases parse.nodes@[node].elements@.len() - k,
{
    if k < 0 || k >= parse.nodes@[node].elements@.len() {
        Seq::empty()
    } else {
        let rest = removed_tags(parse, node, object, k + 1);
        match parse.nodes@[node].elements@[k] {
            Element::Node(c) => if is_field_named(parse.nodes@[c as int], "RemoveModule"@)
                && parse.nodes@[c as int].values@.len() > 0 {
                let tag = parse.nodes@[c as int].values@[0];
                seq![
                    TagView {
                        object,
                        name: unquoted(tag.text@),
                        span: tag.span,
                        is_reference: true,
                        snippet: ""@,
                    },
                ] + rest
            } else {
                rest
            },
            Element::Token(_) => rest,
        }
    }
}

/// The module tags of one top-level node.
pub open spec fn node_tags(parse: &Parse, node: int) -> Seq<TagView> {
    match parse.nodes@[node].name {
        Some(name) => if parse.nodes@[node].kind is Block && is_object(parse.nodes@[node]) {
            declared_tags(parse, node, lower(name.text@), 0) + removed_tags(
                parse,
                node,
                lower(name.text@),
                0,
            )
        } else {
            Seq::empty()
        },
        None => Seq::empty(),
    }
}

/// The module tags of the top-level nodes from element `k` on.
pub open spec fn tags_from(parse: &Parse, k: int) -> Seq<TagView>
    decreases parse.nodes@[0].elements@.len() - k,
{
    if k < 0 || k >= parse.nodes@[0].elements@.len() {
        Seq::empty()
    } else {
        let here = match parse.nodes@[0].elements@[k] {
            Element::Node(c) => node_tags(parse, c as int),
            Element::Token(_) => Seq::empty(),
        };
        here + tags_from(parse, k + 1)
    }
}

fn push_object_tags(parse: &Parse, node: usize, object: &str, out: &mut Vec<ModuleTagDefinition>)
    requires
        parse.wf(),
        node < parse.nodes.len(),
    ensures
        views(final(out)@) == views(old(out)@) + declared_tags(parse, node as int, object@, 0)
            + removed_tags(parse, node as int, object@, 0),
{
    let ghost start = views(out@);
    let mut k: usize = 0;
    while k < parse.nodes[node].elements.len()
        invariant
            parse.wf(),
            node < parse.nodes.len(),
            k <= parse.nodes@[node as int].elements.len(),
            views(out@) + declared_tags(parse, node as int, object@, k as int) == start
                + declared_tags(parse, node as int, object@, 0),
        decreases parse.nodes@[node as int].elements.len() - k,
    {
        let ghost o0 = views(out@);
        if let Element::Node(c) = &parse.nodes[node].elements[k] {
            let child = &parse.nodes[*c];
            if child.kind == SyntaxKind::Module {
                if let Some(tag) = &child.tag {
                    let item = ModuleTagDefinition {
                        object: object.to_owned(),
                        name: tag.text.clone(),
                        span: tag.span,
                        is_reference: false,
                        snippet: header_of(child),
                    };
                    out.push(item);
                    assert(views(out@) =~= o0.push(item@));
                }
            }
        }
        assert(views(out@) + declared_tags(parse, node as int, object@, k + 1) =~= o0
            + declared_tags(parse, node as int, object@, k as int));
        k += 1;
    }
    let ghost middle = views(out@);
    assert(middle =~= start + declared_tags(parse, node as int, object@, 0));
    let mut k: usize = 0;
    while k < parse.nodes[node].elements.len()
        invariant
            parse.wf(),
            node < parse.nodes.len(),
            k <= parse.nodes@[node as int].elements.len(),
            views(out@) + removed_tags(parse, node as int, object@, k as int) == middle
                + removed_tags(parse, node as int, object@, 0),
        decreases parse.nodes@[node as int].elements.len() - k,
    {
        let ghost o0 = views(out@);
        if let Element::Node(c) = &parse.nodes[node].elements[k] {
            let child = &parse.nodes[*c];
            if field_is(child, "RemoveModule") && child.values.len() > 0 {
                let tag = &child.values[0];
                let item = ModuleTagDefinition {
                    object: object.to_owned(),
                    name: unquote(tag.text.as_str()).to_owned(),
                    span: tag.span,
                    is_reference: true,
                    snippet: "".to_owned(),
                };
                out.push(item);
                assert(views(out@) =~= o0.push(item@));
            }
        }
        assert(views(out@) + removed_tags(parse, node as int, object@, k + 1) =~= o0
            + removed_tags(parse, node as int, object@, k as int));
        k += 1;
    }
}

/// Collect module-tag declarations and `RemoveModule` sites of all Objects.
pub fn module_tags_in(_analyzer: &Analyzer, parse: &Parse) -> (r: Vec<ModuleTagDefinition>)
    requires
        parse.wf(),
    ensures
        views(r@) == tags_from(parse, 0),
{
    let mut out: Vec<ModuleTagDefinition> = Vec::new();
    let ghost whole = tags_from(parse, 0);
    assert(views(out@) + whole =~= whole);
    let mut k: usize = 0;
    while k < parse.nodes[0].elements.len()
        invariant
            parse.wf(),
            k <= parse.nodes@[0].elements.len(),
            views(out@) + tags_from(parse, k as int) == whole,
        decreases parse.nodes@[0].elements.len() - k,
    {
        let ghost o0 = views(out@);
        if let Element::Node(c) = &parse.nodes[0].elements[k] {
            let c: usize = *c;
            if parse.nodes[c].kind == SyntaxKind::Block && opens_object(&parse.nodes[c]) {
                if let Some(name) = &parse.nodes[c].name {
                    let object = to_lower(name.text.as_str());
                    push_object_tags(parse, c, object.as_str(), &mut out);
                }
            }
        }
        assert(views(out@) + tags_from(parse, k + 1) =~= o0 + tags_from(parse, k as int));
        k += 1;
    }
    assert(views(out@) =~= whole);
    out
}

} // verus!
