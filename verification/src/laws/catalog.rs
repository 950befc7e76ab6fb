//! What a model file offers: its names, the members of its models and their skeletons.

use vstd::prelude::*;

use super::lists::{lemma_behind, lemma_front};
use super::text::{around, lacks, law_texts_part_at_the_last};
use super::w3d::{lemma_dedup, lemma_unblank, listed, unblank};
use crate::index::dedup_ci;
use crate::scan::{w3d_contribution, w3d_offer};
use crate::text::{lower, same_ci};
use crate::w3d::{
    bone_names, hierarchy_names, hlod_members, hlod_names, hlod_skeleton,
    law_models_keep_their_own_skeleton, lod_members, mesh_names, part_names, pushed,
    skeleton_members, skeleton_named, CatalogView, FileView, HierarchyView, HlodView, LodView,
    MeshView, PivotView, SubObjectView,
};

verus! {

/// A part goes by its name, and by what stands behind the last dot of it; `front` is
/// what stands before.
pub open spec fn goes_by(name: Seq<char>, t: Seq<char>, front: Seq<char>) -> bool {
    unblank(name) && (t == name || (t.len() > 0 && lacks(t, '.') && name == around(front, '.', t)))
}

proof fn lemma_goes_by(name: Seq<char>, t: Seq<char>, front: Seq<char>)
    requires
        goes_by(name, t, front),
    ensures
        pushed(name).contains(t),
{
    lemma_unblank(name);
    if t == name {
        assert(pushed(name)[0] == t);
    } else {
        law_texts_part_at_the_last(front, '.', t);
        assert(pushed(name)[1] == t);
    }
}

proof fn lemma_mesh(list: Seq<MeshView>, from: int, i: int, t: Seq<char>)
    requires
        0 <= from <= i < list.len(),
        pushed(list[i].name).contains(t),
    ensures
        mesh_names(list, from).contains(t),
    decreases i - from,
{
    let here = pushed(list[from].name);
    let rest = mesh_names(list, from + 1);
    if from < i {
        lemma_mesh(list, from + 1, i, t);
        lemma_behind(here, rest, t);
    } else {
        lemma_front(here, rest, t);
    }
}

proof fn lemma_hierarchy(list: Seq<HierarchyView>, from: int, i: int, t: Seq<char>)
    requires
        0 <= from <= i < list.len(),
        pushed(list[i].name).contains(t),
    ensures
        hierarchy_names(list, from).contains(t),
    decreases i - from,
{
    let here = pushed(list[from].name);
    let rest = hierarchy_names(list, from + 1);
    if from < i {
        lemma_hierarchy(list, from + 1, i, t);
        lemma_behind(here, rest, t);
    } else {
        lemma_front(here, rest, t);
    }
}

proof fn lemma_hlod(list: Seq<HlodView>, from: int, i: int, t: Seq<char>)
    requires
        0 <= from <= i < list.len(),
        pushed(list[i].name).contains(t),
    ensures
        hlod_names(list, from).contains(t),
    decreases i - from,
{
    let here = pushed(list[from].name);
    let rest = hlod_names(list, from + 1);
    if from < i {
        lemma_hlod(list, from + 1, i, t);
        lemma_behind(here, rest, t);
    } else {
        lemma_front(here, rest, t);
    }
}

proof fn lemma_bone(list: Seq<PivotView>, from: int, i: int, t: Seq<char>)
    requires
        0 <= from <= i < list.len(),
        pushed(list[i].name).contains(t),
    ensures
        bone_names(list, from).contains(t),
    decreases i - from,
{
    let here = pushed(list[from].name);
    let rest = bone_names(list, from + 1);
    if from < i {
        lemma_bone(list, from + 1, i, t);
        lemma_behind(here, rest, t);
    } else {
        lemma_front(here, rest, t);
    }
}

proof fn lemma_part(list: Seq<SubObjectView>, from: int, i: int, t: Seq<char>)
    requires
        0 <= from <= i < list.len(),
        pushed(list[i].name).contains(t),
    ensures
        part_names(list, from).contains(t),
    decreases i - from,
{
    let here = pushed(list[from].name);
    let rest = part_names(list, from + 1);
    if from < i {
        lemma_part(list, from + 1, i, t);
        lemma_behind(here, rest, t);
    } else {
        lemma_front(here, rest, t);
    }
}

proof fn lemma_skeleton(list: Seq<HierarchyView>, from: int, i: int, t: Seq<char>)
    requires
        0 <= from <= i < list.len(),
        bone_names(list[i].pivots, 0).contains(t),
    ensures
        skeleton_members(list, from).contains(t),
    decreases i - from,
{
    let here = bone_names(list[from].pivots, 0);
    let rest = skeleton_members(list, from + 1);
    if from < i {
        lemma_skeleton(list, from + 1, i, t);
        lemma_behind(here, rest, t);
    } else {
        lemma_front(here, rest, t);
    }
}

proof fn lemma_level(list: Seq<LodView>, from: int, i: int, t: Seq<char>)
    requires
        0 <= from <= i < list.len(),
        part_names(list[i].subobjects, 0).contains(t),
    ensures
        lod_members(list, from).contains(t),
    decreases i - from,
{
    let here = part_names(list[from].subobjects, 0);
    let rest = lod_members(list, from + 1);
    if from < i {
        lemma_level(list, from + 1, i, t);
        lemma_behind(here, rest, t);
    } else {
        lemma_front(here, rest, t);
    }
}

proof fn lemma_assembly(list: Seq<HlodView>, from: int, i: int, t: Seq<char>)
    requires
        0 <= from <= i < list.len(),
        (lod_members(list[i].lods, 0) + part_names(list[i].aggregates, 0)).contains(t),
    ensures
        hlod_members(list, from).contains(t),
    decreases i - from,
{
    let here = (lod_members(list[from].lods, 0) + part_names(list[from].aggregates, 0));
    let rest = hlod_members(list, from + 1);
    if from < i {
        lemma_assembly(list, from + 1, i, t);
        lemma_behind(here, rest, t);
    } else {
        lemma_front(here, rest, t);
    }
}

/// A model goes by a name, in any ASCII case.
pub open spec fn offered(models: Seq<CatalogView>, name: Seq<char>) -> bool {
    exists|e: int| 0 <= e < models.len() && same_ci((#[trigger] models[e]).name, name)
}

proof fn lemma_entry(
    file: FileView,
    names: Seq<Seq<char>>,
    members: Seq<Seq<char>>,
    fallback: Seq<char>,
    from: int,
    n: int,
)
    requires
        0 <= from <= n < names.len(),
        names[n].len() > 0,
    ensures
        offered(file.entries(names, members, fallback, from), names[n]),
    decreases n - from,
{
    let all = file.entries(names, members, fallback, from);
    let rest = file.entries(names, members, fallback, from + 1);
    if from < n {
        lemma_entry(file, names, members, fallback, from + 1, n);
        let e = choose|e: int|
            0 <= e < rest.len() && same_ci((#[trigger] rest[e]).name, names[n]);
        if names[from].len() == 0 {
            assert(all == rest);
        } else {
            assert(all[e + 1] == rest[e]);
        }
    } else {
        assert(all[0].name == names[n]);
    }
}

proof fn lemma_offered(file: FileView, fallback: Seq<char>, t: Seq<char>)
    requires
        file.all_names(fallback).contains(t),
        t.len() > 0,
        !file.only_animates(),
    ensures
        offered(file.models(fallback), t),
{
    let names = dedup_ci(file.all_names(fallback));
    lemma_dedup(file.all_names(fallback), t);
    let n = choose|n: int| 0 <= n < names.len() && same_ci(#[trigger] names[n], t);
    assert(lower(names[n]).len() == names[n].len());
    assert(lower(t).len() == t.len());
    lemma_entry(file, names, dedup_ci(file.all_members()), fallback, 0, n);
    let models = file.models(fallback);
    let e = choose|e: int| 0 <= e < models.len() && same_ci((#[trigger] models[e]).name, names[n]);
    assert(same_ci(models[e].name, t));
}

proof fn lemma_listed(file: FileView, fallback: Seq<char>, t: Seq<char>, e: int)
    requires
        file.all_members().contains(t),
        0 <= e < file.models(fallback).len(),
    ensures
        listed(file.models(fallback)[e].members, t),
{
    law_models_keep_their_own_skeleton(file, fallback, e);
    lemma_dedup(file.all_members(), t);
}

/// A file with a mesh offers a model by the mesh's name, and each of its models has
/// the mesh as a member.
pub proof fn law_meshes_are_offered(
    file: FileView,
    fallback: Seq<char>,
    i: int,
    t: Seq<char>,
    front: Seq<char>,
    e: int,
)
    requires
        0 <= i < file.meshes.len(),
        goes_by(file.meshes[i].name, t, front),
    ensures
        offered(file.models(fallback), t),
        0 <= e < file.models(fallback).len() ==> listed(file.models(fallback)[e].members, t),
{
    lemma_goes_by(file.meshes[i].name, t, front);
    lemma_mesh(file.meshes, 0, i, t);
    let meshes = mesh_names(file.meshes, 0);
    let before = pushed(fallback) + file.extra_names;
    let bones = hierarchy_names(file.hierarchies, 0);
    lemma_behind(before, meshes, t);
    lemma_front(before + meshes, bones, t);
    lemma_front(before + meshes + bones, hlod_names(file.hlods, 0), t);
    lemma_offered(file, fallback, t);
    let members = file.extra_members;
    let pivots = skeleton_members(file.hierarchies, 0);
    lemma_behind(members, meshes, t);
    lemma_front(members + meshes, pivots, t);
    lemma_front(members + meshes + pivots, hlod_members(file.hlods, 0), t);
    if 0 <= e < file.models(fallback).len() {
        lemma_listed(file, fallback, t, e);
    }
}

/// A file with a skeleton offers a model by the skeleton's name.
pub proof fn law_skeletons_are_offered(
    file: FileView,
    fallback: Seq<char>,
    i: int,
    t: Seq<char>,
    front: Seq<char>,
)
    requires
        0 <= i < file.hierarchies.len(),
        goes_by(file.hierarchies[i].name, t, front),
    ensures
        offered(file.models(fallback), t),
{
    lemma_goes_by(file.hierarchies[i].name, t, front);
    lemma_hierarchy(file.hierarchies, 0, i, t);
    let before = pushed(fallback) + file.extra_names + mesh_names(file.meshes, 0);
    let bones = hierarchy_names(file.hierarchies, 0);
    lemma_behind(before, bones, t);
    lemma_front(before + bones, hlod_names(file.hlods, 0), t);
    lemma_offered(file, fallback, t);
}

/// A file with a model of levels offers it by its name.
pub proof fn law_assemblies_are_offered(
    file: FileView,
    fallback: Seq<char>,
    i: int,
    t: Seq<char>,
    front: Seq<char>,
)
    requires
        0 <= i < file.hlods.len(),
        goes_by(file.hlods[i].name, t, front),
    ensures
        offered(file.models(fallback), t),
{
    lemma_goes_by(file.hlods[i].name, t, front);
    lemma_hlod(file.hlods, 0, i, t);
    let before = pushed(fallback) + file.extra_names + mesh_names(file.meshes, 0) + hierarchy_names(
        file.hierarchies,
        0,
    );
    lemma_behind(before, hlod_names(file.hlods, 0), t);
    lemma_offered(file, fallback, t);
}

/// A file goes by its own name too, unless it holds animations and nothing else; then
/// it offers no model at all.
pub proof fn law_files_go_by_their_name(file: FileView, fallback: Seq<char>)
    requires
        unblank(fallback),
    ensures
        file.animations.len() == 0 ==> offered(file.models(fallback), fallback),
        file.meshes.len() > 0 || file.hierarchies.len() > 0 || file.hlods.len() > 0
            || file.extra_names.len() > 0 ==> offered(file.models(fallback), fallback),
        file.animations.len() > 0 && file.meshes.len() == 0 && file.hierarchies.len() == 0
            && file.hlods.len() == 0 && file.extra_names.len() == 0 ==> file.models(fallback).len()
            == 0,
{
    if !file.only_animates() {
        lemma_goes_by(fallback, fallback, Seq::empty());
        let own = pushed(fallback);
        let a = file.extra_names;
        let b = mesh_names(file.meshes, 0);
        let c = hierarchy_names(file.hierarchies, 0);
        lemma_front(own, a, fallback);
        lemma_front(own + a, b, fallback);
        lemma_front(own + a + b, c, fallback);
        lemma_front(own + a + b + c, hlod_names(file.hlods, 0), fallback);
        lemma_offered(file, fallback, fallback);
    }
}

/// Every pivot of a skeleton is a member of each model of the file.
pub proof fn law_bones_are_members(
    file: FileView,
    fallback: Seq<char>,
    i: int,
    j: int,
    t: Seq<char>,
    front: Seq<char>,
    e: int,
)
    requires
        0 <= i < file.hierarchies.len(),
        0 <= j < file.hierarchies[i].pivots.len(),
        goes_by(file.hierarchies[i].pivots[j].name, t, front),
        0 <= e < file.models(fallback).len(),
    ensures
        listed(file.models(fallback)[e].members, t),
{
    lemma_goes_by(file.hierarchies[i].pivots[j].name, t, front);
    lemma_bone(file.hierarchies[i].pivots, 0, j, t);
    lemma_skeleton(file.hierarchies, 0, i, t);
    let before = file.extra_members + mesh_names(file.meshes, 0);
    let pivots = skeleton_members(file.hierarchies, 0);
    lemma_behind(before, pivots, t);
    lemma_front(before + pivots, hlod_members(file.hlods, 0), t);
    lemma_listed(file, fallback, t, e);
}

/// Every part of a level, and every aggregate, is a member of each model of the file.
pub proof fn law_parts_are_members(
    file: FileView,
    fallback: Seq<char>,
    i: int,
    l: int,
    j: int,
    t: Seq<char>,
    front: Seq<char>,
    e: int,
)
    requires
        0 <= i < file.hlods.len(),
        (0 <= l < file.hlods[i].lods.len() && 0 <= j < file.hlods[i].lods[l].subobjects.len()
            && goes_by(file.hlods[i].lods[l].subobjects[j].name, t, front)) || (0 <= j
            < file.hlods[i].aggregates.len() && goes_by(
            file.hlods[i].aggregates[j].name,
            t,
            front,
        )),
        0 <= e < file.models(fallback).len(),
    ensures
        listed(file.models(fallback)[e].members, t),
{
    let hlod = file.hlods[i];
    let levels = lod_members(hlod.lods, 0);
    let added = part_names(hlod.aggregates, 0);
    if 0 <= j < hlod.aggregates.len() && goes_by(hlod.aggregates[j].name, t, front) {
        lemma_goes_by(hlod.aggregates[j].name, t, front);
        lemma_part(hlod.aggregates, 0, j, t);
        lemma_behind(levels, added, t);
    } else {
        lemma_goes_by(hlod.lods[l].subobjects[j].name, t, front);
        lemma_part(hlod.lods[l].subobjects, 0, j, t);
        lemma_level(hlod.lods, 0, l, t);
        lemma_front(levels, added, t);
    }
    lemma_assembly(file.hlods, 0, i, t);
    let before = file.extra_members + mesh_names(file.meshes, 0) + skeleton_members(
        file.hierarchies,
        0,
    );
    lemma_behind(before, hlod_members(file.hlods, 0), t);
    lemma_listed(file, fallback, t, e);
}

proof fn lemma_hlod_skeleton(list: Seq<HlodView>, from: int, i: int, name: Seq<char>)
    requires
        0 <= from <= i < list.len(),
        same_ci(list[i].name, name),
        forall|j: int| from <= j < i ==> !same_ci((#[trigger] list[j]).name, name),
    ensures
        hlod_skeleton(list, from, name) == Some(list[i].hierarchy),
    decreases i - from,
{
    if from < i {
        assert(!same_ci(list[from].name, name));
        lemma_hlod_skeleton(list, from + 1, i, name);
    }
}

proof fn lemma_skeleton_named(list: Seq<HierarchyView>, from: int, i: int, name: Seq<char>)
    requires
        0 <= from <= i < list.len(),
        same_ci(list[i].name, name),
        forall|j: int| from <= j < i ==> !same_ci((#[trigger] list[j]).name, name),
    ensures
        skeleton_named(list, from, name) == Some(list[i].name),
    decreases i - from,
{
    if from < i {
        assert(!same_ci(list[from].name, name));
        lemma_skeleton_named(list, from + 1, i, name);
    }
}

/// A model of levels stands on the skeleton that it names.
pub proof fn law_assemblies_name_their_skeleton(
    file: FileView,
    fallback: Seq<char>,
    i: int,
    e: int,
)
    requires
        0 <= e < file.models(fallback).len(),
        0 <= i < file.hlods.len(),
        same_ci(file.hlods[i].name, file.models(fallback)[e].name),
        forall|j: int|
            0 <= j < i ==> !same_ci(
                (#[trigger] file.hlods[j]).name,
                file.models(fallback)[e].name,
            ),
    ensures
        file.models(fallback)[e].hierarchy == (if file.hlods[i].hierarchy.len() > 0 {
            Some(file.hlods[i].hierarchy)
        } else {
            None
        }),
{
    law_models_keep_their_own_skeleton(file, fallback, e);
    lemma_hlod_skeleton(file.hlods, 0, i, file.models(fallback)[e].name);
}

/// In a file without models of levels a model by a skeleton's name stands on that
/// skeleton.
pub proof fn law_skeletons_carry_their_name(
    file: FileView,
    fallback: Seq<char>,
    i: int,
    e: int,
)
    requires
        0 <= e < file.models(fallback).len(),
        file.hlods.len() == 0,
        0 <= i < file.hierarchies.len(),
        file.hierarchies[i].name.len() > 0,
        same_ci(file.hierarchies[i].name, file.models(fallback)[e].name),
        forall|j: int|
            0 <= j < i ==> !same_ci(
                (#[trigger] file.hierarchies[j]).name,
                file.models(fallback)[e].name,
            ),
    ensures
        file.models(fallback)[e].hierarchy == Some(file.hierarchies[i].name),
{
    law_models_keep_their_own_skeleton(file, fallback, e);
    lemma_skeleton_named(file.hierarchies, 0, i, file.models(fallback)[e].name);
}

/// What a file offers is contributed to the index as it is, models and animations; a
/// file that cannot be read contributes a model by its own name and nothing else.
pub proof fn law_model_files_contribute(
    uri: Seq<char>,
    file: FileView,
    problem: Seq<char>,
    fallback: Seq<char>,
    m: int,
    a: int,
)
    ensures
        0 <= m < file.models(fallback).len() ==> (w3d_contribution(
            uri,
            w3d_offer(Ok(file), fallback),
        ) matches Some(v) && v.file == uri && v.models.len() == file.models(fallback).len()
            && v.models[m].name == file.models(fallback)[m].name && v.models[m].members
            == file.models(fallback)[m].members && v.models[m].hierarchy == file.models(
            fallback,
        )[m].hierarchy),
        0 <= a < file.animations.len() ==> (w3d_contribution(
            uri,
            w3d_offer(Ok(file), fallback),
        ) matches Some(v) && v.file == uri && v.animations.len() == file.animations.len()
            && v.animations[a].name == file.animations[a].name && v.animations[a].hierarchy
            == file.animations[a].hierarchy),
        unblank(fallback) ==> (w3d_contribution(
            uri,
            w3d_offer(Err(problem), fallback),
        ) matches Some(v) && v.file == uri && v.models.len() == 1 && v.models[0].name == fallback
            && v.models[0].members.len() == 0 && v.models[0].hierarchy is None
            && v.animations.len() == 0),
{
    if unblank(fallback) {
        lemma_unblank(fallback);
    }
}

} // verus!
