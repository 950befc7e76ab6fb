//! When what is known of a workspace counts as changed.

use vstd::prelude::*;

use crate::index::{asset_flips, asset_known, def_names, next_generation, AssetView};
use crate::schema::RefKind;
use crate::table::{others, owned, tagged, EntryView};
use crate::text::lower;
use crate::workspace::{
    site_names, stepped, stored_parents, supplied_generation, told_generation, Facts, IndexView,
};

verus! {

proof fn lemma_owned<V>(rows: Seq<EntryView<V>>, file: Seq<char>, i: int) -> (k: int)
    requires
        0 <= i < owned(rows, file).len(),
    ensures
        0 <= k < rows.len(),
        rows[k].file == file,
        rows[k].item == owned(rows, file)[i],
    decreases rows.len(),
{
    let rest = owned(rows.drop_last(), file);
    if i < rest.len() {
        lemma_owned(rows.drop_last(), file, i)
    } else {
        rows.len() - 1
    }
}

proof fn lemma_owns<V>(rows: Seq<EntryView<V>>, k: int) -> (i: int)
    requires
        0 <= k < rows.len(),
    ensures
        0 <= i < owned(rows, rows[k].file).len(),
        owned(rows, rows[k].file)[i] == rows[k].item,
    decreases rows.len(),
{
    let front = rows.drop_last();
    let rest = owned(front, rows[k].file);
    if k < front.len() {
        assert(front[k] == rows[k]);
        lemma_owns(front, k)
    } else {
        rest.len() as int
    }
}

proof fn lemma_steps(g: u64, a: bool, b: bool, c: bool, d: bool)
    ensures
        stepped(stepped(stepped(stepped(g, a), b), c), d) == g <==> !a && !b && !c && !d,
{
}

/// A name that a file defines now and did not before, or the other way round, moves
/// the generation on.
pub proof fn law_new_names_move_the_generation(
    index: IndexView,
    file: Seq<char>,
    facts: Facts,
    kind: RefKind,
    key: Seq<char>,
)
    requires
        (exists|i: int|
            0 <= i < facts.definitions.len() && (#[trigger] facts.definitions[i]).kind == kind
                && lower(facts.definitions[i].name) == key) != (exists|k: int|
            0 <= k < index.defs.len() && (#[trigger] index.defs[k]).file == file
                && index.defs[k].item.kind == kind && index.defs[k].item.key == key),
    ensures
        told_generation(index, file, facts) != index.generation,
{
    let mine = owned(index.defs, file);
    let before = def_names(mine);
    let after = site_names(facts.definitions);
    if before == after {
        assert(before.len() == mine.len());
        assert(after.len() == facts.definitions.len());
        if exists|i: int|
            0 <= i < facts.definitions.len() && (#[trigger] facts.definitions[i]).kind == kind
                && lower(facts.definitions[i].name) == key {
            let i = choose|i: int|
                0 <= i < facts.definitions.len() && (#[trigger] facts.definitions[i]).kind == kind
                    && lower(facts.definitions[i].name) == key;
            assert(after[i] == (kind, key));
            assert(before[i] == (mine[i].kind, mine[i].key));
            let k = lemma_owned(index.defs, file, i);
            assert(index.defs[k].file == file);
        } else {
            let k = choose|k: int|
                0 <= k < index.defs.len() && (#[trigger] index.defs[k]).file == file
                    && index.defs[k].item.kind == kind && index.defs[k].item.key == key;
            let i = lemma_owns(index.defs, k);
            assert(before[i] == (mine[i].kind, mine[i].key));
            assert(after[i] == (facts.definitions[i].kind, lower(facts.definitions[i].name)));
            assert(facts.definitions[i].kind == kind);
        }
    }
    lemma_steps(
        index.generation,
        before != after,
        crate::index::normal_tags(owned(index.tags, file)) != crate::index::normal_tags(
            crate::workspace::stored_tags(facts.tags),
        ),
        crate::index::normal_objects(owned(index.objects, file)) != crate::index::normal_objects(
            crate::workspace::stored_objects(facts.object_models),
        ),
        owned(index.parents, file) != stored_parents(facts.object_parents),
    );
}

/// Another parent of an object moves the generation on.
pub proof fn law_new_parents_move_the_generation(
    index: IndexView,
    file: Seq<char>,
    facts: Facts,
    i: int,
)
    requires
        0 <= i < facts.object_parents.len(),
        forall|k: int|
            0 <= k < index.parents.len() && (#[trigger] index.parents[k]).file == file
                && index.parents[k].item.child == lower(facts.object_parents[i].0)
                ==> index.parents[k].item.parent != lower(facts.object_parents[i].1),
    ensures
        told_generation(index, file, facts) != index.generation,
{
    let before = owned(index.parents, file);
    let after = stored_parents(facts.object_parents);
    if before == after {
        assert(after[i].child == lower(facts.object_parents[i].0));
        let k = lemma_owned(index.parents, file, i);
        assert(index.parents[k].file == file);
    }
    lemma_steps(
        index.generation,
        def_names(owned(index.defs, file)) != site_names(facts.definitions),
        crate::index::normal_tags(owned(index.tags, file)) != crate::index::normal_tags(
            crate::workspace::stored_tags(facts.tags),
        ),
        crate::index::normal_objects(owned(index.objects, file)) != crate::index::normal_objects(
            crate::workspace::stored_objects(facts.object_models),
        ),
        before != after,
    );
}

/// An asset that no file had moves the generation on when it comes; assets that were
/// known already, where the file had none, do not.
pub proof fn law_new_assets_move_the_generation(
    generation: u64,
    rows: Seq<EntryView<AssetView>>,
    file: Seq<char>,
    assets: Seq<AssetView>,
    i: int,
)
    requires
        0 <= i < assets.len(),
    ensures
        (forall|k: int|
            0 <= k < rows.len() && (#[trigger] rows[k]).item.kind == assets[i].kind ==> lower(
                rows[k].item.name,
            ) != lower(assets[i].name)) ==> supplied_generation(generation, rows, file, assets)
            != generation,
        (forall|k: int| 0 <= k < rows.len() ==> (#[trigger] rows[k]).file != file) && (forall|
            j: int,
        |
            0 <= j < assets.len() ==> asset_known(
                rows,
                (#[trigger] assets[j]).kind,
                lower(assets[j].name),
            )) ==> supplied_generation(generation, rows, file, assets) == generation,
{
    let after = others(rows, file) + tagged(file, assets);
    let touched = owned(rows, file) + assets;
    let n = owned(rows, file).len();
    let m = others(rows, file).len();
    assert forall|j: int| 0 <= j < assets.len() implies asset_known(
        after,
        (#[trigger] assets[j]).kind,
        lower(assets[j].name),
    ) by {
        assert(after[m + j].item == assets[j]);
    }
    if forall|k: int|
        0 <= k < rows.len() && (#[trigger] rows[k]).item.kind == assets[i].kind ==> lower(
            rows[k].item.name,
        ) != lower(assets[i].name) {
        assert(!asset_known(rows, assets[i].kind, lower(assets[i].name)));
        assert(touched[n + i] == assets[i]);
        assert(asset_flips(rows, after, touched));
    }
    if (forall|k: int| 0 <= k < rows.len() ==> (#[trigger] rows[k]).file != file) && (forall|
        j: int,
    |
        0 <= j < assets.len() ==> asset_known(
            rows,
            (#[trigger] assets[j]).kind,
            lower(assets[j].name),
        )) {
        assert(n == 0) by {
            if n > 0 {
                let k = lemma_owned(rows, file, 0);
                assert(rows[k].file != file);
            }
        }
        assert(touched =~= assets);
        assert(!asset_flips(rows, after, touched));
    }
}

/// No generation is its own successor.
pub proof fn law_generations_move(generation: u64)
    ensures
        next_generation(generation) != generation,
        generation < u64::MAX ==> next_generation(generation) == generation + 1,
{
}

} // verus!
