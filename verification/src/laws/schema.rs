//! What a schema declares for the lines of a scope.

use vstd::prelude::*;

use crate::analyzer::Analyzer;
use crate::model::{field_named, scope_of, ScopeSchema};
use crate::schema::{block_named, module_named, value_set_named, BlockType, Field, ModuleType, ValueSet};
use crate::syntax::Parse;

verus! {

/// Block `i` is the one that a name stands for: the last of that name.
pub open spec fn last_block(blocks: Seq<BlockType>, name: Seq<char>, i: int) -> bool {
    &&& 0 <= i < blocks.len()
    &&& blocks[i].name@ == name
    &&& forall|j: int| i < j < blocks.len() ==> (#[trigger] blocks[j]).name@ != name
}

/// Module `i` is the one that a name stands for: the last of that name.
pub open spec fn last_module(modules: Seq<ModuleType>, name: Seq<char>, i: int) -> bool {
    &&& 0 <= i < modules.len()
    &&& modules[i].name@ == name
    &&& forall|j: int| i < j < modules.len() ==> (#[trigger] modules[j]).name@ != name
}

/// Field `i` is the one that a key stands for: the first of that name.
pub open spec fn first_field(fields: Seq<Field>, name: Seq<char>, i: int) -> bool {
    &&& 0 <= i < fields.len()
    &&& fields[i].name@ == name
    &&& forall|j: int| 0 <= j < i ==> (#[trigger] fields[j]).name@ != name
}

/// A name stands for the last block type that the schema declares under it, and
/// for none where it declares none.
pub proof fn law_block_types_are_found(blocks: Seq<BlockType>, name: Seq<char>, i: int)
    ensures
        last_block(blocks, name, i) ==> block_named(blocks, name) == Some(blocks[i]),
        (forall|j: int| 0 <= j < blocks.len() ==> (#[trigger] blocks[j]).name@ != name)
            ==> block_named(blocks, name) is None,
    decreases blocks.len(),
{
    if blocks.len() > 0 {
        let front = blocks.drop_last();
        assert forall|j: int| 0 <= j < front.len() implies #[trigger] front[j] == blocks[j] by {}
        assert(blocks.last() == blocks[blocks.len() - 1]);
        law_block_types_are_found(front, name, i);
    }
}

/// A name stands for the last module type that the schema declares under it, and
/// for none where it declares none.
pub proof fn law_module_types_are_found(modules: Seq<ModuleType>, name: Seq<char>, i: int)
    ensures
        last_module(modules, name, i) ==> module_named(modules, name) == Some(modules[i]),
        (forall|j: int| 0 <= j < modules.len() ==> (#[trigger] modules[j]).name@ != name)
            ==> module_named(modules, name) is None,
    decreases modules.len(),
{
    if modules.len() > 0 {
        let front = modules.drop_last();
        assert forall|j: int| 0 <= j < front.len() implies #[trigger] front[j] == modules[j] by {}
        assert(modules.last() == modules[modules.len() - 1]);
        law_module_types_are_found(front, name, i);
    }
}

/// An id stands for the last value set that the schema declares under it, and for
/// none where it declares none.
pub proof fn law_value_sets_are_found(sets: Seq<ValueSet>, id: Seq<char>, i: int)
    ensures
        0 <= i < sets.len() && sets[i].id@ == id && (forall|j: int|
            i < j < sets.len() ==> (#[trigger] sets[j]).id@ != id) ==> value_set_named(sets, id)
            == Some(sets[i]),
        (forall|j: int| 0 <= j < sets.len() ==> (#[trigger] sets[j]).id@ != id)
            ==> value_set_named(sets, id) is None,
    decreases sets.len(),
{
    if sets.len() > 0 {
        let front = sets.drop_last();
        assert forall|j: int| 0 <= j < front.len() implies #[trigger] front[j] == sets[j] by {}
        assert(sets.last() == sets[sets.len() - 1]);
        law_value_sets_are_found(front, id, i);
    }
}

proof fn lemma_field_found(fields: Seq<Field>, name: Seq<char>, from: int, i: int)
    requires
        0 <= from <= i,
        first_field(fields, name, i),
    ensures
        field_named(fields, name, from) == Some(fields[i]),
    decreases i - from,
{
    if from < i {
        assert(fields[from].name@ != name);
        lemma_field_found(fields, name, from + 1, i);
    }
}

pub proof fn lemma_field_missing(fields: Seq<Field>, name: Seq<char>, from: int)
    requires
        0 <= from,
        forall|j: int| 0 <= j < fields.len() ==> (#[trigger] fields[j]).name@ != name,
    ensures
        field_named(fields, name, from) is None,
    decreases fields.len() - from,
{
    if from < fields.len() {
        assert(fields[from].name@ != name);
        lemma_field_missing(fields, name, from + 1);
    }
}

/// In a block the keys are those of the last block type of its keyword, each the
/// first field of its name; a block of no declared type declares none.
pub proof fn law_blocks_declare_their_fields(
    analyzer: &Analyzer,
    parse: &Parse,
    node: int,
    name: Seq<char>,
    b: int,
    i: int,
)
    requires
        parse.nodes@[node].kind is Block,
        parse.nodes@[node].head matches Some(kw) && last_block(
            analyzer.schema.blocks@,
            kw.text@,
            b,
        ),
    ensures
        scope_of(analyzer, parse, node) == ScopeSchema::Block(&analyzer.schema.blocks@[b]),
        first_field(analyzer.schema.blocks@[b].fields@, name, i) ==> scope_of(
            analyzer,
            parse,
            node,
        ).field_of(name) == Some(analyzer.schema.blocks@[b].fields@[i]),
        (forall|j: int|
            0 <= j < analyzer.schema.blocks@[b].fields@.len() ==> (
            #[trigger] analyzer.schema.blocks@[b].fields@[j]).name@ != name) ==> scope_of(
            analyzer,
            parse,
            node,
        ).field_of(name) is None,
{
    let kw = parse.nodes@[node].head->Some_0;
    let fields = analyzer.schema.blocks@[b].fields@;
    law_block_types_are_found(analyzer.schema.blocks@, kw.text@, b);
    if first_field(fields, name, i) {
        lemma_field_found(fields, name, 0, i);
    }
    if forall|j: int| 0 <= j < fields.len() ==> (#[trigger] fields[j]).name@ != name {
        lemma_field_missing(fields, name, 0);
    }
}

/// In a module the keys are those of the last module type of its name, each the
/// first field of its name.
pub proof fn law_modules_declare_their_fields(
    analyzer: &Analyzer,
    parse: &Parse,
    node: int,
    name: Seq<char>,
    m: int,
    i: int,
)
    requires
        parse.nodes@[node].kind is Module,
        parse.nodes@[node].name matches Some(t) && last_module(
            analyzer.schema.modules@,
            t.text@,
            m,
        ),
    ensures
        scope_of(analyzer, parse, node) == ScopeSchema::Module(&analyzer.schema.modules@[m]),
        first_field(analyzer.schema.modules@[m].fields@, name, i) ==> scope_of(
            analyzer,
            parse,
            node,
        ).field_of(name) == Some(analyzer.schema.modules@[m].fields@[i]),
        (forall|j: int|
            0 <= j < analyzer.schema.modules@[m].fields@.len() ==> (
            #[trigger] analyzer.schema.modules@[m].fields@[j]).name@ != name) ==> scope_of(
            analyzer,
            parse,
            node,
        ).field_of(name) is None,
{
    let t = parse.nodes@[node].name->Some_0;
    let fields = analyzer.schema.modules@[m].fields@;
    law_module_types_are_found(analyzer.schema.modules@, t.text@, m);
    if first_field(fields, name, i) {
        lemma_field_found(fields, name, 0, i);
    }
    if forall|j: int| 0 <= j < fields.len() ==> (#[trigger] fields[j]).name@ != name {
        lemma_field_missing(fields, name, 0);
    }
}

/// A field found in a scope bears the key's name, and is one of those that the
/// scope declares.
pub proof fn law_found_fields_are_declared(fields: Seq<Field>, name: Seq<char>, from: int)
    requires
        0 <= from,
    ensures
        field_named(fields, name, from) matches Some(f) ==> f.name@ == name && fields.contains(f),
    decreases fields.len() - from,
{
    if from < fields.len() {
        if fields[from].name@ == name {
            assert(fields.contains(fields[from]));
        } else {
            law_found_fields_are_declared(fields, name, from + 1);
        }
    }
}

/// A block in a scope that is of no module's name has the fields of the first
/// sub-block of its keyword that the scope around declares; one that goes back into
/// that scope has the scope's own fields.
pub proof fn law_sub_blocks_declare_their_fields(
    analyzer: &Analyzer,
    parse: &Parse,
    node: int,
    outer: int,
    s: int,
)
    requires
        0 < outer < node < parse.nodes@.len(),
        parse.nodes@[node].kind is Module,
        parse.nodes@[node].parent == Some(outer as usize),
        outer <= usize::MAX,
        parse.nodes@[outer].kind is Block || parse.nodes@[outer].kind is Module,
        match parse.nodes@[node].name {
            Some(t) => forall|j: int|
                0 <= j < analyzer.schema.modules@.len() ==> (
                #[trigger] analyzer.schema.modules@[j]).name@ != t.text@,
            None => true,
        },
        0 <= s < scope_of(analyzer, parse, outer).sub_list().len(),
        parse.nodes@[node].head matches Some(head) && scope_of(
            analyzer,
            parse,
            outer,
        ).sub_list()[s].keyword@ == head.text@ && forall|j: int|
            0 <= j < s ==> (#[trigger] scope_of(analyzer, parse, outer).sub_list()[j]).keyword@
                != head.text@,
    ensures
        scope_of(analyzer, parse, node) == if scope_of(
            analyzer,
            parse,
            outer,
        ).sub_list()[s].reenters_parent {
            scope_of(analyzer, parse, outer)
        } else {
            ScopeSchema::SubBlock(&scope_of(analyzer, parse, outer).sub_list()[s])
        },
{
    let subs = scope_of(analyzer, parse, outer).sub_list();
    let head = parse.nodes@[node].head->Some_0;
    if let Some(t) = parse.nodes@[node].name {
        law_module_types_are_found(analyzer.schema.modules@, t.text@, 0);
    }
    lemma_sub_found(subs, head.text@, 0, s);
    assert(parse.outer_scope(node) == Some(outer));
}

proof fn lemma_sub_found(
    subs: Seq<crate::schema::SubBlock>,
    keyword: Seq<char>,
    from: int,
    s: int,
)
    requires
        0 <= from <= s < subs.len(),
        subs[s].keyword@ == keyword,
        forall|j: int| 0 <= j < s ==> (#[trigger] subs[j]).keyword@ != keyword,
    ensures
        crate::model::sub_block_at(subs, keyword, from) == s,
    decreases s - from,
{
    if from < s {
        assert(subs[from].keyword@ != keyword);
        lemma_sub_found(subs, keyword, from + 1, s);
    }
}

} // verus!
