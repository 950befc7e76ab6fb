//! Which tokens of a document are references, and to what.

use vstd::prelude::*;

use crate::analyzer::Analyzer;
use crate::extract::{
    field_sites, list_sites, plain_sites, references_from, site, subtree_sites, token_site,
    value_sites, SiteOf,
};
use crate::laws::lists::{lemma_behind, lemma_either, lemma_front};
use crate::laws::tree::law_nodes_lie_in_scopes;
use crate::laws::values::stands_for_nothing;
use crate::model::{bare_texts, scope_of};
use crate::reader::{child_of, reads};
use crate::schema::{Field, RefKind, ValueType};
use crate::syntax::{Element, Parse, Span, SyntaxKind, SyntaxToken};
use crate::text::{byte_len, same_ci, trim_end, trim_start, unquoted, CharClass};

verus! {

/// A name without a quote at either end.
pub open spec fn unquotable(name: Seq<char>) -> bool {
    name.len() > 0 ==> name[0] != '"' && name.last() != '"'
}

/// A token that writes a name, bare or in double quotes.
pub open spec fn writes(token: Seq<char>, name: Seq<char>) -> bool {
    unquotable(name) && (token == name || token == "\""@ + name + "\""@)
}

pub proof fn lemma_unquoted(token: Seq<char>, name: Seq<char>)
    requires
        writes(token, name),
        name.len() > 0,
    ensures
        unquoted(token) == name,
{
    reveal_strlit("\"");
    if token == name {
        assert(trim_start(name, CharClass::Quote) == name);
    } else {
        assert(token.drop_first() =~= name + "\""@);
        assert(trim_start(token, CharClass::Quote) == trim_start(
            name + "\""@,
            CharClass::Quote,
        ));
        assert((name + "\""@)[0] == name[0]);
        assert(trim_start(name + "\""@, CharClass::Quote) == name + "\""@);
        assert((name + "\""@).drop_last() =~= name);
        assert(trim_end(name + "\""@, CharClass::Quote) == trim_end(name, CharClass::Quote));
    }
}

proof fn lemma_site(analyzer: &Analyzer, kind: RefKind, name: Seq<char>, span: Span)
    requires
        !stands_for_nothing(analyzer, kind, name),
    ensures
        site(analyzer, kind, name, span).contains(SiteOf { name, kind, span }),
{
    assert(site(analyzer, kind, name, span)[0] == (SiteOf { name, kind, span }));
}

proof fn lemma_listed(
    analyzer: &Analyzer,
    kind: RefKind,
    tokens: Seq<SyntaxToken>,
    from: int,
    i: int,
    s: SiteOf,
)
    requires
        0 <= from <= i < tokens.len(),
        site(analyzer, kind, unquoted(tokens[i].text@), tokens[i].span).contains(s),
    ensures
        plain_sites(analyzer, kind, tokens, from).contains(s),
    decreases i - from,
{
    let here = site(analyzer, kind, unquoted(tokens[from].text@), tokens[from].span);
    let rest = plain_sites(analyzer, kind, tokens, from + 1);
    if from < i {
        lemma_listed(analyzer, kind, tokens, from + 1, i, s);
        lemma_behind(here, rest, s);
    } else {
        lemma_front(here, rest, s);
    }
}

proof fn lemma_typed(
    analyzer: &Analyzer,
    ty: ValueType,
    tokens: Seq<SyntaxToken>,
    from: int,
    i: int,
    s: SiteOf,
)
    requires
        0 <= from <= i < tokens.len(),
        ty.input_type(bare_texts(tokens), i) matches Some(spec) && token_site(
            analyzer,
            spec,
            tokens[i],
        ).contains(s),
    ensures
        list_sites(analyzer, ty, tokens, from).contains(s),
    decreases i - from,
{
    let here = match ty.input_type(bare_texts(tokens), from) {
        Some(spec) => token_site(analyzer, spec, tokens[from]),
        None => Seq::empty(),
    };
    let rest = list_sites(analyzer, ty, tokens, from + 1);
    if from < i {
        lemma_typed(analyzer, ty, tokens, from + 1, i, s);
        lemma_behind(here, rest, s);
    } else {
        lemma_front(here, rest, s);
    }
}

/// The sites of element `k` of a node.
spec fn element_sites(analyzer: &Analyzer, parse: &Parse, node: int, k: int) -> Seq<SiteOf> {
    match parse.nodes@[node].elements@[k] {
        Element::Node(c) => if node < c < parse.nodes@.len() {
            match parse.nodes@[c as int].kind {
                SyntaxKind::Field => field_sites(
                    analyzer,
                    scope_of(analyzer, parse, node),
                    parse.nodes@[c as int],
                ),
                SyntaxKind::Root => Seq::empty(),
                _ => subtree_sites(analyzer, parse, c as int, 0),
            }
        } else {
            Seq::empty()
        },
        Element::Token(_) => Seq::empty(),
    }
}

proof fn lemma_in_subtree(
    analyzer: &Analyzer,
    parse: &Parse,
    node: int,
    j: int,
    k: int,
    s: SiteOf,
)
    requires
        0 <= node < parse.nodes@.len(),
        0 <= j <= k < parse.nodes@[node].elements@.len(),
        element_sites(analyzer, parse, node, k).contains(s),
    ensures
        subtree_sites(analyzer, parse, node, j).contains(s),
    decreases k - j,
{
    let here = element_sites(analyzer, parse, node, j);
    let rest = subtree_sites(analyzer, parse, node, j + 1);
    assert(subtree_sites(analyzer, parse, node, j) == here + rest);
    if j < k {
        lemma_in_subtree(analyzer, parse, node, j + 1, k, s);
        lemma_behind(here, rest, s);
    } else {
        lemma_front(here, rest, s);
    }
}

proof fn lemma_at_top(analyzer: &Analyzer, parse: &Parse, j: int, k: int, s: SiteOf)
    requires
        0 <= j <= k < parse.nodes@[0].elements@.len(),
        parse.nodes@[0].elements@[k] matches Element::Node(c) && parse.nodes@[c as int].kind is Block
            && subtree_sites(analyzer, parse, c as int, 0).contains(s),
    ensures
        references_from(analyzer, parse, j).contains(s),
    decreases k - j,
{
    let here = match parse.nodes@[0].elements@[j] {
        Element::Node(c) => if parse.nodes@[c as int].kind is Block {
            subtree_sites(analyzer, parse, c as int, 0)
        } else {
            Seq::empty()
        },
        Element::Token(_) => Seq::empty(),
    };
    let rest = references_from(analyzer, parse, j + 1);
    assert(references_from(analyzer, parse, j) == here + rest);
    if j < k {
        lemma_at_top(analyzer, parse, j + 1, k, s);
        lemma_behind(here, rest, s);
    } else {
        lemma_front(here, rest, s);
    }
}

proof fn lemma_from_scope(
    analyzer: &Analyzer,
    text: Seq<char>,
    tokens: Seq<SyntaxToken>,
    parse: &Parse,
    p: int,
    s: SiteOf,
)
    requires
        reads(analyzer, text, tokens, parse),
        0 < p < parse.nodes@.len(),
        parse.nodes@[p].kind is Block || parse.nodes@[p].kind is Module,
        subtree_sites(analyzer, parse, p, 0).contains(s),
    ensures
        references_from(analyzer, parse, 0).contains(s),
    decreases p,
{
    let nodes = parse.nodes@;
    law_nodes_lie_in_scopes(analyzer, text, tokens, parse, p);
    let q = nodes[p].parent->Some_0 as int;
    assert(child_of(nodes, q, p));
    let k = choose|k: int|
        0 <= k < nodes[q].elements@.len() && (#[trigger] nodes[q].elements@[k] matches Element::Node(
            x,
        ) && x == p);
    if q == 0 {
        lemma_at_top(analyzer, parse, 0, k, s);
    } else {
        lemma_in_subtree(analyzer, parse, q, 0, k, s);
        lemma_from_scope(analyzer, text, tokens, parse, q, s);
    }
}

/// A field line of a document, of the field that its scope declares for its key.
pub open spec fn declared_line(
    analyzer: &Analyzer,
    text: Seq<char>,
    tokens: Seq<SyntaxToken>,
    parse: &Parse,
    p: int,
    c: int,
    field: Field,
) -> bool {
    &&& byte_len(text) <= u32::MAX
    &&& reads(analyzer, text, tokens, parse)
    &&& 0 < p < c < parse.nodes@.len()
    &&& parse.nodes@[c].kind is Field
    &&& parse.nodes@[c].parent matches Some(q) && q == p
    &&& parse.nodes@[c].head matches Some(key) && scope_of(analyzer, parse, p).field_of(key.text@)
        == Some(field)
}

proof fn lemma_from_line(
    analyzer: &Analyzer,
    text: Seq<char>,
    tokens: Seq<SyntaxToken>,
    parse: &Parse,
    p: int,
    c: int,
    field: Field,
    s: SiteOf,
)
    requires
        declared_line(analyzer, text, tokens, parse, p, c, field),
        value_sites(analyzer, field.value_type, parse.nodes@[c].values@).contains(s),
    ensures
        references_from(analyzer, parse, 0).contains(s),
{
    let nodes = parse.nodes@;
    law_nodes_lie_in_scopes(analyzer, text, tokens, parse, c);
    assert(child_of(nodes, p, c));
    let k = choose|k: int|
        0 <= k < nodes[p].elements@.len() && (#[trigger] nodes[p].elements@[k] matches Element::Node(
            x,
        ) && x == c);
    lemma_in_subtree(analyzer, parse, p, 0, k, s);
    lemma_from_scope(analyzer, text, tokens, parse, p, s);
}

/// The first value of a line of a reference field is a reference of the field's
/// kind, by the name that it writes and at its own place, unless the name stands
/// for nothing.
pub proof fn law_references_are_collected(
    analyzer: &Analyzer,
    text: Seq<char>,
    tokens: Seq<SyntaxToken>,
    parse: &Parse,
    p: int,
    c: int,
    field: Field,
    kind: RefKind,
    name: Seq<char>,
)
    requires
        declared_line(analyzer, text, tokens, parse, p, c, field),
        field.value_type == (ValueType::Reference { ref_kind: kind }),
        parse.nodes@[c].values@.len() > 0,
        writes(parse.nodes@[c].values@[0].text@, name),
        !stands_for_nothing(analyzer, kind, name),
    ensures
        references_from(analyzer, parse, 0).contains(
            SiteOf { name, kind, span: parse.nodes@[c].values@[0].span },
        ),
{
    let values = parse.nodes@[c].values@;
    let s = SiteOf { name, kind, span: values[0].span };
    lemma_unquoted(values[0].text@, name);
    lemma_site(analyzer, kind, name, values[0].span);
    lemma_from_line(analyzer, text, tokens, parse, p, c, field, s);
}

/// Every value of a line of a list of references is one, by the name that it
/// writes and at its own place, unless the name stands for nothing.
pub proof fn law_lists_of_references_are_collected(
    analyzer: &Analyzer,
    text: Seq<char>,
    tokens: Seq<SyntaxToken>,
    parse: &Parse,
    p: int,
    c: int,
    field: Field,
    kind: RefKind,
    i: int,
    name: Seq<char>,
)
    requires
        declared_line(analyzer, text, tokens, parse, p, c, field),
        field.value_type == (ValueType::ReferenceList { ref_kind: kind }),
        0 <= i < parse.nodes@[c].values@.len(),
        writes(parse.nodes@[c].values@[i].text@, name),
        !stands_for_nothing(analyzer, kind, name),
    ensures
        references_from(analyzer, parse, 0).contains(
            SiteOf { name, kind, span: parse.nodes@[c].values@[i].span },
        ),
{
    let values = parse.nodes@[c].values@;
    let s = SiteOf { name, kind, span: values[i].span };
    lemma_unquoted(values[i].text@, name);
    lemma_site(analyzer, kind, name, values[i].span);
    lemma_listed(analyzer, kind, values, 0, i, s);
    lemma_from_line(analyzer, text, tokens, parse, p, c, field, s);
}

/// The shapes of a list up to one place, none of them with a prefix of its own.
pub open spec fn plain_shapes(shapes: Seq<ValueType>, i: int) -> bool {
    &&& 0 <= i < shapes.len()
    &&& forall|j: int| 0 <= j <= i ==> !((#[trigger] shapes[j]) is Prefixed)
}

proof fn lemma_list_type(
    shapes: Seq<ValueType>,
    k: int,
    input: Seq<Seq<char>>,
    i: int,
)
    requires
        plain_shapes(shapes, i),
        0 <= k <= i,
    ensures
        crate::schema::list_type(shapes, k, k, input, i) == Some(shapes[i]),
    decreases i - k,
{
    assert(!(shapes[k] is Prefixed));
    if k < i {
        lemma_list_type(shapes, k + 1, input, i);
    }
}

/// A value that stands where a list of shapes has a reference is one.
pub proof fn law_references_in_lists_are_collected(
    analyzer: &Analyzer,
    text: Seq<char>,
    tokens: Seq<SyntaxToken>,
    parse: &Parse,
    p: int,
    c: int,
    field: Field,
    kind: RefKind,
    i: int,
    name: Seq<char>,
)
    requires
        declared_line(analyzer, text, tokens, parse, p, c, field),
        field.value_type matches ValueType::TokenList { tokens: shapes } && plain_shapes(
            shapes@,
            i,
        ) && shapes@[i] == (ValueType::Reference { ref_kind: kind }),
        0 <= i < parse.nodes@[c].values@.len(),
        writes(parse.nodes@[c].values@[i].text@, name),
        !stands_for_nothing(analyzer, kind, name),
    ensures
        references_from(analyzer, parse, 0).contains(
            SiteOf { name, kind, span: parse.nodes@[c].values@[i].span },
        ),
{
    let values = parse.nodes@[c].values@;
    let s = SiteOf { name, kind, span: values[i].span };
    if let ValueType::TokenList { tokens: shapes } = field.value_type {
        lemma_list_type(shapes@, 0, bare_texts(values), i);
    }
    lemma_unquoted(values[i].text@, name);
    lemma_site(analyzer, kind, name, values[i].span);
    lemma_typed(analyzer, field.value_type, values, 0, i, s);
    lemma_from_line(analyzer, text, tokens, parse, p, c, field, s);
}

/// A value `Prefix:Name` of a prefixed reference names what stands behind the
/// colon, and the reference lies there: behind the prefix and the colon, and as
/// long as the name.
pub proof fn law_prefixed_references_are_collected(
    analyzer: &Analyzer,
    text: Seq<char>,
    tokens: Seq<SyntaxToken>,
    parse: &Parse,
    p: int,
    c: int,
    field: Field,
    kind: RefKind,
    spelled: Seq<char>,
    name: Seq<char>,
)
    requires
        declared_line(analyzer, text, tokens, parse, p, c, field),
        field.value_type matches ValueType::Prefixed { prefix, value_type } && same_ci(
            spelled,
            prefix@,
        ) && *value_type == (ValueType::Reference { ref_kind: kind }),
        parse.nodes@[c].values@.len() > 0,
        parse.nodes@[c].values@[0].text@ == spelled + ":"@ + name,
        forall|j: int| 0 <= j < spelled.len() ==> #[trigger] spelled[j] != ':',
        spelled.len() > 0 ==> spelled[0] != '"',
        name.len() > 0,
        name.last() != '"',
        !stands_for_nothing(analyzer, kind, name),
    ensures
        ({
            let start = parse.nodes@[c].values@[0].span.start + byte_len(spelled) + 1;
            references_from(analyzer, parse, 0).contains(
                SiteOf {
                    name,
                    kind,
                    span: Span { start: start as u32, end: (start + byte_len(name)) as u32 },
                },
            )
        }),
{
    reveal_strlit(":");
    let values = parse.nodes@[c].values@;
    let token = values[0].text@;
    let start = values[0].span.start + byte_len(spelled) + 1;
    let s = SiteOf {
        name,
        kind,
        span: Span { start: start as u32, end: (start + byte_len(name)) as u32 },
    };
    assert(token[0] != '"') by {
        if spelled.len() > 0 {
            assert(token[0] == spelled[0]);
        } else {
            assert(token[0] == ':');
        }
    }
    assert(token.last() == name.last());
    reveal_strlit("\"");
    assert(trim_start(token, CharClass::Quote) == token);
    assert(trim_end(token, CharClass::Quote) == token);
    assert(unquoted(token) == token);
    lemma_find(token, ':', 0, spelled.len() as int);
    assert(token.subrange(0, spelled.len() as int) =~= spelled);
    assert(token.subrange(spelled.len() as int + 1, token.len() as int) =~= name);
    lemma_site(analyzer, kind, name, s.span);
    assert(token_site(analyzer, field.value_type, values[0]).contains(s));
    lemma_typed(analyzer, field.value_type, values, 0, 0, s);
    lemma_from_line(analyzer, text, tokens, parse, p, c, field, s);
}

proof fn lemma_find(s: Seq<char>, c: char, from: int, at: int)
    requires
        0 <= from <= at < s.len(),
        s[at] == c,
        forall|j: int| 0 <= j < at ==> #[trigger] s[j] != c,
    ensures
        crate::text::find(s, c, from) == at,
    decreases at - from,
{
    if from < at {
        assert(s[from] != c);
        lemma_find(s, c, from + 1, at);
    }
}

/// A site that stands for something, and that one of the values says by its own name
/// or, behind a prefix, by the end of it.
pub open spec fn stands(analyzer: &Analyzer, ty: ValueType, s: SiteOf) -> bool {
    &&& !stands_for_nothing(analyzer, s.kind, s.name)
    &&& ty is Reference || ty is ReferenceList || ty is OneOf || ty is TokenList || ty is Prefixed
    &&& ty matches ValueType::Reference { ref_kind } ==> s.kind == ref_kind
    &&& ty matches ValueType::ReferenceList { ref_kind } ==> s.kind == ref_kind
}

proof fn lemma_site_stands(
    analyzer: &Analyzer,
    kind: RefKind,
    name: Seq<char>,
    span: Span,
    s: SiteOf,
)
    requires
        site(analyzer, kind, name, span).contains(s),
    ensures
        s == (SiteOf { name, kind, span }),
        !stands_for_nothing(analyzer, kind, name),
{
}

proof fn lemma_plain_source(
    analyzer: &Analyzer,
    kind: RefKind,
    tokens: Seq<SyntaxToken>,
    from: int,
    s: SiteOf,
) -> (i: int)
    requires
        0 <= from,
        plain_sites(analyzer, kind, tokens, from).contains(s),
    ensures
        from <= i < tokens.len(),
        s == (SiteOf { name: unquoted(tokens[i].text@), kind, span: tokens[i].span }),
        !stands_for_nothing(analyzer, kind, s.name),
    decreases tokens.len() - from,
{
    let here = site(analyzer, kind, unquoted(tokens[from].text@), tokens[from].span);
    let rest = plain_sites(analyzer, kind, tokens, from + 1);
    lemma_either(here, rest, s);
    if rest.contains(s) {
        lemma_plain_source(analyzer, kind, tokens, from + 1, s)
    } else {
        from
    }
}

proof fn lemma_list_stands(
    analyzer: &Analyzer,
    ty: ValueType,
    tokens: Seq<SyntaxToken>,
    from: int,
    s: SiteOf,
)
    requires
        0 <= from,
        list_sites(analyzer, ty, tokens, from).contains(s),
    ensures
        !stands_for_nothing(analyzer, s.kind, s.name),
    decreases tokens.len() - from,
{
    let here = match ty.input_type(bare_texts(tokens), from) {
        Some(spec) => token_site(analyzer, spec, tokens[from]),
        None => Seq::empty(),
    };
    let rest = list_sites(analyzer, ty, tokens, from + 1);
    lemma_either(here, rest, s);
    if rest.contains(s) {
        lemma_list_stands(analyzer, ty, tokens, from + 1, s);
    }
}

proof fn lemma_value_stands(
    analyzer: &Analyzer,
    ty: ValueType,
    tokens: Seq<SyntaxToken>,
    s: SiteOf,
)
    requires
        value_sites(analyzer, ty, tokens).contains(s),
    ensures
        stands(analyzer, ty, s),
    decreases ty,
{
    match ty {
        ValueType::OneOf { variants } => {
            let k = crate::schema::active_variant(
                variants@,
                crate::schema::first_of(bare_texts(tokens)),
            );
            lemma_value_stands(analyzer, variants@[k], tokens, s);
        },
        ValueType::ReferenceList { ref_kind } => {
            lemma_plain_source(analyzer, ref_kind, tokens, 0, s);
        },
        ValueType::TokenList { .. } => {
            lemma_list_stands(analyzer, ty, tokens, 0, s);
        },
        ValueType::Prefixed { .. } => {
            lemma_list_stands(analyzer, ty, tokens, 0, s);
        },
        _ => {},
    }
}

proof fn lemma_subtree_source(
    analyzer: &Analyzer,
    parse: &Parse,
    node: int,
    k: int,
    s: SiteOf,
) -> (found: (int, int))
    requires
        parse.wf(),
        0 <= node < parse.nodes@.len(),
        0 <= k,
        subtree_sites(analyzer, parse, node, k).contains(s),
    ensures
        node <= found.0 < found.1 < parse.nodes@.len(),
        parse.nodes@[found.1].kind is Field,
        parse.nodes@[found.1].parent matches Some(q) && q == found.0,
        field_sites(
            analyzer,
            scope_of(analyzer, parse, found.0),
            parse.nodes@[found.1],
        ).contains(s),
    decreases parse.nodes@.len() - node, parse.nodes@[node].elements@.len() - k,
{
    let elements = parse.nodes@[node].elements@;
    assert(k < elements.len());
    let here = element_sites(analyzer, parse, node, k);
    let rest = subtree_sites(analyzer, parse, node, k + 1);
    assert(subtree_sites(analyzer, parse, node, k) == here + rest);
    lemma_either(here, rest, s);
    if rest.contains(s) {
        lemma_subtree_source(analyzer, parse, node, k + 1, s)
    } else {
        let c = elements[k]->Node_0;
        assert(parse.nodes@[node].elements@[k] == Element::Node(c));
        assert(parse.nodes@[c as int].parent == Some(node as usize));
        assert(parse.nodes.len() == parse.nodes@.len());
        if parse.nodes@[c as int].kind is Field {
            (node, c as int)
        } else {
            lemma_subtree_source(analyzer, parse, c as int, 0, s)
        }
    }
}

/// Every reference comes from a line of a declared field that takes references, and
/// stands for something; one of a plain reference field is its first value, of the
/// field's kind and by the name in it.
pub proof fn law_references_come_from_lines(
    analyzer: &Analyzer,
    parse: &Parse,
    k: int,
    s: SiteOf,
) -> (found: (int, int))
    requires
        parse.wf(),
        0 <= k,
        references_from(analyzer, parse, k).contains(s),
    ensures
        0 < found.0 < found.1 < parse.nodes@.len(),
        parse.nodes@[found.1].kind is Field,
        parse.nodes@[found.1].parent matches Some(q) && q == found.0,
        parse.nodes@[found.1].head matches Some(key) && scope_of(
            analyzer,
            parse,
            found.0,
        ).field_of(key.text@) matches Some(f) && stands(analyzer, f.value_type, s) && (
        f.value_type is Reference ==> parse.nodes@[found.1].values@.len() > 0 && s.span
            == parse.nodes@[found.1].values@[0].span && s.name == unquoted(
            parse.nodes@[found.1].values@[0].text@,
        )),
    decreases parse.nodes@[0].elements@.len() - k,
{
    let elements = parse.nodes@[0].elements@;
    assert(k < elements.len());
    let here = match elements[k] {
        Element::Node(c) => if parse.nodes@[c as int].kind is Block {
            subtree_sites(analyzer, parse, c as int, 0)
        } else {
            Seq::empty()
        },
        Element::Token(_) => Seq::empty(),
    };
    let rest = references_from(analyzer, parse, k + 1);
    assert(references_from(analyzer, parse, k) == here + rest);
    lemma_either(here, rest, s);
    if rest.contains(s) {
        law_references_come_from_lines(analyzer, parse, k + 1, s)
    } else {
        let c = elements[k]->Node_0;
        assert(parse.nodes@[0].elements@[k] == Element::Node(c));
        let found = lemma_subtree_source(analyzer, parse, c as int, 0, s);
        let node = parse.nodes@[found.1];
        let f = scope_of(analyzer, parse, found.0).field_of(node.head->Some_0.text@)->Some_0;
        lemma_value_stands(analyzer, f.value_type, node.values@, s);
        if let ValueType::Reference { ref_kind } = f.value_type {
            assert(node.values@.len() > 0);
            lemma_site_stands(
                analyzer,
                ref_kind,
                unquoted(node.values@[0].text@),
                node.values@[0].span,
                s,
            );
        }
        found
    }
}

} // verus!
