//! What a document declares: definitions, parents, module tags and models.

use vstd::prelude::*;

use crate::analyzer::Analyzer;
use crate::extract::{
    declared_models, declared_tags, definitions_from, node_tags, object_subtree_models,
    parents_from, removed_tags, tags_from, SiteOf,
};
use crate::index::TagView;
use crate::laws::lists::{lemma_behind, lemma_either, lemma_front};
use crate::laws::references::{declared_line, writes};
use crate::laws::schema::{last_block, law_block_types_are_found};
use crate::laws::tree::law_nodes_lie_in_scopes;
use crate::model::scope_of;
use crate::reader::{child_of, reads};
use crate::schema::RefKind;
use crate::syntax::{Element, Parse, SyntaxKind, SyntaxToken};
use crate::text::{lower, same_ci, unquoted};

verus! {

/// Where a node stands among the elements of its parent.
pub proof fn lemma_child(
    analyzer: &Analyzer,
    text: Seq<char>,
    tokens: Seq<SyntaxToken>,
    parse: &Parse,
    p: int,
    c: int,
) -> (k: int)
    requires
        reads(analyzer, text, tokens, parse),
        0 < c < parse.nodes@.len(),
        parse.nodes@[c].parent matches Some(q) && q == p,
    ensures
        0 <= k < parse.nodes@[p].elements@.len(),
        parse.nodes@[p].elements@[k] == Element::Node(c as usize),
        p < c,
        c as usize == c,
{
    let nodes = parse.nodes@;
    assert(child_of(nodes, p, c));
    let k = choose|k: int|
        0 <= k < nodes[p].elements@.len() && (#[trigger] nodes[p].elements@[k] matches Element::Node(
            x,
        ) && x == c);
    k
}

proof fn lemma_definition_at(
    analyzer: &Analyzer,
    parse: &Parse,
    j: int,
    k: int,
    d: SiteOf,
)
    requires
        0 <= j <= k < parse.nodes@[0].elements@.len(),
        parse.nodes@[0].elements@[k] matches Element::Node(c)
            && crate::extract::block_definition(analyzer, parse.nodes@[c as int]) == Some(d),
    ensures
        definitions_from(analyzer, parse, j).contains(d),
    decreases k - j,
{
    let rest = definitions_from(analyzer, parse, j + 1);
    let all = definitions_from(analyzer, parse, j);
    if j < k {
        lemma_definition_at(analyzer, parse, j + 1, k, d);
        if all != rest {
            let here = seq![all[0]];
            assert(all =~= here + rest);
            lemma_behind(here, rest, d);
        }
    } else {
        assert(all[0] == d);
    }
}

/// A block at the top whose type defines something, and that has a name, is a
/// definition of that kind and name, at its name.
pub proof fn law_named_blocks_are_definitions(
    analyzer: &Analyzer,
    text: Seq<char>,
    tokens: Seq<SyntaxToken>,
    parse: &Parse,
    c: int,
    b: int,
    kind: RefKind,
)
    requires
        reads(analyzer, text, tokens, parse),
        0 < c < parse.nodes@.len(),
        parse.nodes@[c].kind is Block,
        parse.nodes@[c].parent == Some(0usize),
        parse.nodes@[c].name is Some,
        parse.nodes@[c].head matches Some(kw) && last_block(
            analyzer.schema.blocks@,
            kw.text@,
            b,
        ),
        analyzer.schema.blocks@[b].defines == Some(kind),
    ensures
        parse.nodes@[c].name matches Some(name) && definitions_from(analyzer, parse, 0).contains(
            SiteOf { name: name.text@, kind, span: name.span },
        ),
{
    let node = parse.nodes@[c];
    let name = node.name->Some_0;
    let k = lemma_child(analyzer, text, tokens, parse, 0, c);
    law_block_types_are_found(analyzer.schema.blocks@, node.head->Some_0.text@, b);
    lemma_definition_at(
        analyzer,
        parse,
        0,
        k,
        SiteOf { name: name.text@, kind, span: name.span },
    );
}

proof fn lemma_block_of(analyzer: &Analyzer, name: Seq<char>) -> (b: int)
    requires
        analyzer.block_of(name) is Some,
    ensures
        last_block(analyzer.schema.blocks@, name, b),
        analyzer.block_of(name) == Some(analyzer.schema.blocks@[b]),
{
    lemma_last_block(analyzer.schema.blocks@, name)
}

proof fn lemma_last_block(blocks: Seq<crate::schema::BlockType>, name: Seq<char>) -> (b: int)
    requires
        crate::schema::block_named(blocks, name) is Some,
    ensures
        last_block(blocks, name, b),
        crate::schema::block_named(blocks, name) == Some(blocks[b]),
    decreases blocks.len(),
{
    if blocks.last().name@ == name {
        blocks.len() - 1
    } else {
        let b = lemma_last_block(blocks.drop_last(), name);
        assert forall|j: int| b < j < blocks.len() implies (#[trigger] blocks[j]).name@ != name by {
            if j < blocks.len() - 1 {
                assert(blocks.drop_last()[j] == blocks[j]);
            }
        }
        b
    }
}

/// Every definition is a named block at the top: the name, the place of the name,
/// and the kind that the block's type defines.
pub proof fn law_definitions_are_named_blocks(
    analyzer: &Analyzer,
    parse: &Parse,
    k: int,
    d: SiteOf,
) -> (found: (int, int))
    requires
        parse.wf(),
        0 <= k,
        definitions_from(analyzer, parse, k).contains(d),
    ensures
        0 < found.0 < parse.nodes@.len(),
        parse.nodes@[found.0].kind is Block,
        parse.nodes@[found.0].parent == Some(0usize),
        parse.nodes@[found.0].name matches Some(name) && d.name == name.text@ && d.span
            == name.span,
        parse.nodes@[found.0].head matches Some(kw) && last_block(
            analyzer.schema.blocks@,
            kw.text@,
            found.1,
        ),
        analyzer.schema.blocks@[found.1].defines == Some(d.kind),
    decreases parse.nodes@[0].elements@.len() - k,
{
    let rest = definitions_from(analyzer, parse, k + 1);
    let all = definitions_from(analyzer, parse, k);
    assert(k < parse.nodes@[0].elements@.len());
    if rest.contains(d) {
        law_definitions_are_named_blocks(analyzer, parse, k + 1, d)
    } else {
        let here = seq![all[0]];
        assert(all =~= here + rest);
        lemma_either(here, rest, d);
        let c = parse.nodes@[0].elements@[k]->Node_0;
        assert(parse.nodes@[0].elements@[k] == Element::Node(c));
        let b = lemma_block_of(analyzer, parse.nodes@[c as int].head->Some_0.text@);
        (c as int, b)
    }
}

proof fn lemma_parent_at(parse: &Parse, j: int, k: int, d: (Seq<char>, Seq<char>))
    requires
        0 <= j <= k < parse.nodes@[0].elements@.len(),
        parse.nodes@[0].elements@[k] matches Element::Node(c)
            && crate::extract::node_parent(parse.nodes@[c as int]) == Some(d),
    ensures
        parents_from(parse, j).contains(d),
    decreases k - j,
{
    let rest = parents_from(parse, j + 1);
    let all = parents_from(parse, j);
    if j < k {
        lemma_parent_at(parse, j + 1, k, d);
        if all != rest {
            let here = seq![all[0]];
            assert(all =~= here + rest);
            lemma_behind(here, rest, d);
        }
    } else {
        assert(all[0] == d);
    }
}

/// An `Object` with a second word behind its name has that as its parent.
pub proof fn law_objects_have_parents(
    analyzer: &Analyzer,
    text: Seq<char>,
    tokens: Seq<SyntaxToken>,
    parse: &Parse,
    c: int,
)
    requires
        reads(analyzer, text, tokens, parse),
        0 < c < parse.nodes@.len(),
        parse.nodes@[c].parent == Some(0usize),
        parse.nodes@[c].head matches Some(kw) && same_ci(kw.text@, "Object"@),
        parse.nodes@[c].name is Some,
        parse.nodes@[c].tag is Some,
    ensures
        parse.nodes@[c].name matches Some(name) && parse.nodes@[c].tag matches Some(parent)
            && parents_from(parse, 0).contains((name.text@, parent.text@)),
{
    let node = parse.nodes@[c];
    let k = lemma_child(analyzer, text, tokens, parse, 0, c);
    lemma_parent_at(parse, 0, k, (node.name->Some_0.text@, node.tag->Some_0.text@));
}

proof fn lemma_declared_at(
    parse: &Parse,
    node: int,
    object: Seq<char>,
    j: int,
    k: int,
    c: int,
)
    requires
        0 <= j <= k < parse.nodes@[node].elements@.len(),
        parse.nodes@[node].elements@[k] matches Element::Node(x) && x == c,
        parse.nodes@[c].kind is Module,
        parse.nodes@[c].tag is Some,
    ensures
        exists|t: TagView| #[trigger]
            declared_tags(parse, node, object, j).contains(t) && tag_of(
                t,
                object,
                parse.nodes@[c].tag->Some_0,
                false,
            ),
    decreases k - j,
{
    let rest = declared_tags(parse, node, object, j + 1);
    let all = declared_tags(parse, node, object, j);
    let tag = parse.nodes@[c].tag->Some_0;
    if j < k {
        lemma_declared_at(parse, node, object, j + 1, k, c);
        let t = choose|t: TagView| #[trigger] rest.contains(t) && tag_of(t, object, tag, false);
        if all != rest {
            let here = seq![all[0]];
            assert(all =~= here + rest);
            lemma_behind(here, rest, t);
        }
        assert(all.contains(t));
    } else {
        assert(all[0].name == tag.text@);
        assert(all.contains(all[0]));
    }
}

proof fn lemma_removed_at(
    parse: &Parse,
    node: int,
    object: Seq<char>,
    j: int,
    k: int,
    c: int,
)
    requires
        0 <= j <= k < parse.nodes@[node].elements@.len(),
        parse.nodes@[node].elements@[k] matches Element::Node(x) && x == c,
        parse.nodes@[c].kind is Field,
        parse.nodes@[c].head matches Some(key) && same_ci(key.text@, "RemoveModule"@),
        parse.nodes@[c].values@.len() > 0,
    ensures
        exists|t: TagView| #[trigger]
            removed_tags(parse, node, object, j).contains(t) && t.object == object && t.name
                == unquoted(parse.nodes@[c].values@[0].text@) && t.span
                == parse.nodes@[c].values@[0].span && t.is_reference,
    decreases k - j,
{
    let rest = removed_tags(parse, node, object, j + 1);
    let all = removed_tags(parse, node, object, j);
    let value = parse.nodes@[c].values@[0];
    if j < k {
        lemma_removed_at(parse, node, object, j + 1, k, c);
        let t = choose|t: TagView| #[trigger]
            rest.contains(t) && t.object == object && t.name == unquoted(value.text@) && t.span
                == value.span && t.is_reference;
        if all != rest {
            let here = seq![all[0]];
            assert(all =~= here + rest);
            lemma_behind(here, rest, t);
        }
        assert(all.contains(t));
    } else {
        assert(all.contains(all[0]));
    }
}

/// A tag that a token spells, of an object by its name in lower case.
pub open spec fn tag_of(t: TagView, object: Seq<char>, token: SyntaxToken, refers: bool) -> bool {
    t.object == object && t.name == token.text@ && t.span == token.span && t.is_reference == refers
}

proof fn lemma_tags_at(parse: &Parse, j: int, k: int, c: int, t: TagView)
    requires
        0 <= j <= k < parse.nodes@[0].elements@.len(),
        parse.nodes@[0].elements@[k] matches Element::Node(x) && x == c,
        node_tags(parse, c).contains(t),
    ensures
        tags_from(parse, j).contains(t),
    decreases k - j,
{
    let here = match parse.nodes@[0].elements@[j] {
        Element::Node(x) => node_tags(parse, x as int),
        Element::Token(_) => Seq::empty(),
    };
    let rest = tags_from(parse, j + 1);
    assert(tags_from(parse, j) == here + rest);
    if j < k {
        lemma_tags_at(parse, j + 1, k, c, t);
        lemma_behind(here, rest, t);
    } else {
        lemma_front(here, rest, t);
    }
}

/// A module of an `Object` with a tag declares the tag, at its place, for the
/// object.
pub proof fn law_module_tags_are_declared(
    analyzer: &Analyzer,
    text: Seq<char>,
    tokens: Seq<SyntaxToken>,
    parse: &Parse,
    o: int,
    c: int,
)
    requires
        reads(analyzer, text, tokens, parse),
        0 < o < c < parse.nodes@.len(),
        parse.nodes@[o].kind is Block,
        parse.nodes@[o].parent == Some(0usize),
        parse.nodes@[o].head matches Some(kw) && same_ci(kw.text@, "Object"@),
        parse.nodes@[o].name is Some,
        parse.nodes@[c].kind is Module,
        parse.nodes@[c].parent matches Some(q) && q == o,
        parse.nodes@[c].tag is Some,
    ensures
        exists|t: TagView| #[trigger]
            tags_from(parse, 0).contains(t) && tag_of(
                t,
                lower(parse.nodes@[o].name->Some_0.text@),
                parse.nodes@[c].tag->Some_0,
                false,
            ),
{
    let object = lower(parse.nodes@[o].name->Some_0.text@);
    let tag = parse.nodes@[c].tag->Some_0;
    let k = lemma_child(analyzer, text, tokens, parse, o, c);
    let top = lemma_child(analyzer, text, tokens, parse, 0, o);
    lemma_declared_at(parse, o, object, 0, k, c);
    let declared = declared_tags(parse, o, object, 0);
    let t = choose|t: TagView| #[trigger] declared.contains(t) && tag_of(t, object, tag, false);
    lemma_front(declared, removed_tags(parse, o, object, 0), t);
    lemma_tags_at(parse, 0, top, o, t);
}

/// A `RemoveModule` of an `Object` refers to the tag that it writes.
pub proof fn law_removed_tags_are_references(
    analyzer: &Analyzer,
    text: Seq<char>,
    tokens: Seq<SyntaxToken>,
    parse: &Parse,
    o: int,
    c: int,
    name: Seq<char>,
)
    requires
        reads(analyzer, text, tokens, parse),
        0 < o < c < parse.nodes@.len(),
        parse.nodes@[o].kind is Block,
        parse.nodes@[o].parent == Some(0usize),
        parse.nodes@[o].head matches Some(kw) && same_ci(kw.text@, "Object"@),
        parse.nodes@[o].name is Some,
        parse.nodes@[c].kind is Field,
        parse.nodes@[c].parent matches Some(q) && q == o,
        parse.nodes@[c].head matches Some(key) && same_ci(key.text@, "RemoveModule"@),
        parse.nodes@[c].values@.len() > 0,
        name.len() > 0,
        writes(parse.nodes@[c].values@[0].text@, name),
    ensures
        exists|t: TagView| #[trigger]
            tags_from(parse, 0).contains(t) && t.object == lower(
                parse.nodes@[o].name->Some_0.text@,
            ) && t.name == name && t.span == parse.nodes@[c].values@[0].span && t.is_reference,
{
    let object = lower(parse.nodes@[o].name->Some_0.text@);
    let value = parse.nodes@[c].values@[0];
    let k = lemma_child(analyzer, text, tokens, parse, o, c);
    let top = lemma_child(analyzer, text, tokens, parse, 0, o);
    crate::laws::references::lemma_unquoted(value.text@, name);
    lemma_removed_at(parse, o, object, 0, k, c);
    let removed = removed_tags(parse, o, object, 0);
    let t = choose|t: TagView| #[trigger]
        removed.contains(t) && t.object == object && t.name == unquoted(value.text@) && t.span
            == value.span && t.is_reference;
    lemma_behind(declared_tags(parse, o, object, 0), removed, t);
    lemma_tags_at(parse, 0, top, o, t);
}

proof fn lemma_models_under(
    analyzer: &Analyzer,
    parse: &Parse,
    node: int,
    j: int,
    k: int,
    c: int,
    name: Seq<char>,
)
    requires
        parse.wf(),
        0 <= node < parse.nodes@.len(),
        0 <= j <= k < parse.nodes@[node].elements@.len(),
        parse.nodes@[node].elements@[k] matches Element::Node(x) && x == c,
        if parse.nodes@[c].kind is Field {
            declared_models(scope_of(analyzer, parse, node), parse.nodes@[c]).contains(name)
        } else {
            !(parse.nodes@[c].kind is Root) && object_subtree_models(
                analyzer,
                parse,
                c,
                0,
            ).contains(name)
        },
    ensures
        object_subtree_models(analyzer, parse, node, j).contains(name),
    decreases k - j,
{
    let here = match parse.nodes@[node].elements@[j] {
        Element::Node(x) => match parse.nodes@[x as int].kind {
            SyntaxKind::Field => declared_models(
                scope_of(analyzer, parse, node),
                parse.nodes@[x as int],
            ),
            SyntaxKind::Root => Seq::empty(),
            _ => object_subtree_models(analyzer, parse, x as int, 0),
        },
        Element::Token(_) => Seq::empty(),
    };
    let rest = object_subtree_models(analyzer, parse, node, j + 1);
    assert(object_subtree_models(analyzer, parse, node, j) == here + rest);
    if j < k {
        lemma_models_under(analyzer, parse, node, j + 1, k, c, name);
        lemma_behind(here, rest, name);
    } else {
        lemma_front(here, rest, name);
    }
}

/// A node that lies in another, at any depth.
pub open spec fn lies_in(parse: &Parse, c: int, o: int) -> bool
    decreases c,
{
    match parse.nodes@[c].parent {
        Some(p) => p == o || o < p < c && lies_in(parse, p as int, o),
        None => false,
    }
}

proof fn lemma_models_in(
    analyzer: &Analyzer,
    text: Seq<char>,
    tokens: Seq<SyntaxToken>,
    parse: &Parse,
    o: int,
    c: int,
    name: Seq<char>,
)
    requires
        reads(analyzer, text, tokens, parse),
        0 < o < c < parse.nodes@.len(),
        lies_in(parse, c, o),
        parse.nodes@[c].parent matches Some(q) && if parse.nodes@[c].kind is Field {
            declared_models(scope_of(analyzer, parse, q as int), parse.nodes@[c]).contains(name)
        } else {
            !(parse.nodes@[c].kind is Root) && object_subtree_models(
                analyzer,
                parse,
                c,
                0,
            ).contains(name)
        },
    ensures
        object_subtree_models(analyzer, parse, o, 0).contains(name),
    decreases c,
{
    let q = parse.nodes@[c].parent->Some_0 as int;
    let k = lemma_child(analyzer, text, tokens, parse, q, c);
    lemma_models_under(analyzer, parse, q, 0, k, c, name);
    if q != o {
        law_nodes_lie_in_scopes(analyzer, text, tokens, parse, c);
        law_nodes_lie_in_scopes(analyzer, text, tokens, parse, q);
        lemma_models_in(analyzer, text, tokens, parse, o, q, name);
    }
}

/// A model that a field anywhere in an object names is one of the object's: the
/// first value of a model field, and every value of a list of models.
pub proof fn law_objects_hold_their_models(
    analyzer: &Analyzer,
    text: Seq<char>,
    tokens: Seq<SyntaxToken>,
    parse: &Parse,
    o: int,
    p: int,
    c: int,
    field: crate::schema::Field,
    i: int,
    name: Seq<char>,
)
    requires
        declared_line(analyzer, text, tokens, parse, p, c, field),
        0 < o < c,
        lies_in(parse, c, o),
        0 <= i < parse.nodes@[c].values@.len(),
        field.value_type is W3dModel && i == 0 || field.value_type is W3dModelList,
        name.len() > 0,
        writes(parse.nodes@[c].values@[i].text@, name),
    ensures
        object_subtree_models(analyzer, parse, o, 0).contains(name),
{
    let node = parse.nodes@[c];
    let scope = scope_of(analyzer, parse, p);
    let found = declared_models(scope, node);
    crate::laws::references::lemma_unquoted(node.values@[i].text@, name);
    assert(found[i] == name);
    assert(found.contains(name));
    lemma_models_in(analyzer, text, tokens, parse, o, c, name);
}

} // verus!
