//! What the workspace index finds of what was put into it.

use vstd::prelude::*;

use crate::index::{
    animation_on, def_known, def_location, display_of, effective_model, effective_texture, keys_of,
    models_of, override_layer, parent_of, picked, site_items, site_location, symbol_for, tag_items,
    tag_location, visible_tag, walk, with_defs, AssetKind, AssetView, DefView, Definition,
    LocationView, ModelView, ModuleTagDefinition, ObjectModelsView, ParentView, ReferenceSite,
    SiteView, SymbolView, TagView, WorkspaceIndex,
};
use crate::laws::lists::{lemma_behind, lemma_either, lemma_front};
use crate::laws::objects::{lemma_picked, lemma_picks};
use crate::schema::RefKind;
use crate::table::{tagged, EntryView};
use crate::text::{lower, same_ci};

verus! {

proof fn lemma_added(rows: Seq<EntryView<DefView>>, file: Seq<char>, defs: Seq<Definition>, i: int)
    requires
        0 <= i < defs.len(),
    ensures
        ({
            let all = with_defs(rows, file, defs);
            &&& all.len() == rows.len() + defs.len()
            &&& all.take(rows.len() as int) == rows
            &&& all[rows.len() + i].file == file
            &&& all[rows.len() + i].item.kind == defs[i].kind
            &&& all[rows.len() + i].item.key == lower(defs[i].name@)
            &&& all[rows.len() + i].item.span == defs[i].span
        }),
    decreases defs.len(),
{
    let front = defs.drop_last();
    let before = with_defs(rows, file, front);
    let all = with_defs(rows, file, defs);
    lemma_added_len(rows, file, front);
    if i < front.len() {
        lemma_added(rows, file, front, i);
        assert(all[rows.len() + i] == before[rows.len() + i]);
        assert(front[i] == defs[i]);
    }
    assert(all.take(rows.len() as int) =~= rows);
}

proof fn lemma_added_len(rows: Seq<EntryView<DefView>>, file: Seq<char>, defs: Seq<Definition>)
    ensures
        with_defs(rows, file, defs).len() == rows.len() + defs.len(),
        with_defs(rows, file, defs).take(rows.len() as int) == rows,
    decreases defs.len(),
{
    let all = with_defs(rows, file, defs);
    if defs.len() > 0 {
        lemma_added_len(rows, file, defs.drop_last());
    }
    assert(all.take(rows.len() as int) =~= rows);
}

/// A definition that a file adds is found by its kind and its name, in any ASCII
/// case, at its place in the file; and what was known before stays known.
pub proof fn law_added_definitions_are_found(
    rows: Seq<EntryView<DefView>>,
    file: Seq<char>,
    defs: Seq<Definition>,
    i: int,
    name: Seq<char>,
)
    requires
        0 <= i < defs.len(),
        same_ci(defs[i].name@, name),
    ensures
        ({
            let all = with_defs(rows, file, defs);
            &&& def_known(all, defs[i].kind, lower(name))
            &&& picked(all, def_location(defs[i].kind, lower(name))).contains(
                LocationView { file, span: defs[i].span },
            )
        }),
{
    let all = with_defs(rows, file, defs);
    lemma_added(rows, file, defs, i);
    let at = rows.len() + i;
    assert(all[at].item.kind == defs[i].kind);
    lemma_picks(
        all,
        def_location(defs[i].kind, lower(name)),
        at,
        LocationView { file, span: defs[i].span },
    );
}

/// What is found was there before, or is a definition that the file adds.
pub proof fn law_nothing_else_is_found(
    rows: Seq<EntryView<DefView>>,
    file: Seq<char>,
    defs: Seq<Definition>,
    kind: RefKind,
    key: Seq<char>,
)
    ensures
        def_known(with_defs(rows, file, defs), kind, key) <==> def_known(rows, kind, key)
            || exists|i: int|
            0 <= i < defs.len() && (#[trigger] defs[i]).kind == kind && lower(defs[i].name@) == key,
{
    let all = with_defs(rows, file, defs);
    lemma_added_len(rows, file, defs);
    if def_known(all, kind, key) {
        let j = choose|j: int|
            0 <= j < all.len() && (#[trigger] all[j]).item.kind == kind && all[j].item.key == key;
        if j < rows.len() {
            assert(all.take(rows.len() as int)[j] == rows[j]);
            assert(rows[j].item.kind == kind);
        } else {
            lemma_added(rows, file, defs, j - rows.len());
            assert(defs[j - rows.len()].kind == kind);
        }
    }
    if def_known(rows, kind, key) {
        let j = choose|j: int|
            0 <= j < rows.len() && (#[trigger] rows[j]).item.kind == kind && rows[j].item.key
                == key;
        assert(all.take(rows.len() as int)[j] == rows[j]);
        assert(all[j].item.kind == kind);
    }
    if exists|i: int|
        0 <= i < defs.len() && (#[trigger] defs[i]).kind == kind && lower(defs[i].name@) == key {
        let i = choose|i: int|
            0 <= i < defs.len() && (#[trigger] defs[i]).kind == kind && lower(defs[i].name@)
                == key;
        lemma_added(rows, file, defs, i);
        assert(all[rows.len() + i].item.kind == kind);
    }
}

/// The locations of a name are exactly those of its definitions.
pub proof fn law_locations_are_those_of_definitions(
    rows: Seq<EntryView<DefView>>,
    kind: RefKind,
    name: Seq<char>,
    l: LocationView,
)
    ensures
        picked(rows, def_location(kind, lower(name))).contains(l) <==> exists|i: int|
            0 <= i < rows.len() && (#[trigger] rows[i]).item.kind == kind && rows[i].item.key
                == lower(name) && rows[i].file == l.file && rows[i].item.span == l.span,
{
    let f = def_location(kind, lower(name));
    if picked(rows, f).contains(l) {
        let i = lemma_picked(rows, f, l);
        assert(rows[i].item.kind == kind && rows[i].file == l.file);
    }
    if exists|i: int|
        0 <= i < rows.len() && (#[trigger] rows[i]).item.kind == kind && rows[i].item.key == lower(
            name,
        ) && rows[i].file == l.file && rows[i].item.span == l.span {
        let i = choose|i: int|
            0 <= i < rows.len() && (#[trigger] rows[i]).item.kind == kind && rows[i].item.key
                == lower(name) && rows[i].file == l.file && rows[i].item.span == l.span;
        lemma_picks(rows, f, i, l);
    }
}

/// A name is displayed as one of its definitions spells it.
pub proof fn law_names_are_displayed_as_spelled(
    rows: Seq<EntryView<DefView>>,
    file: Seq<char>,
    defs: Seq<Definition>,
    i: int,
)
    requires
        forall|j: int|
            0 <= j < rows.len() ==> lower((#[trigger] rows[j]).item.display) == rows[j].item.key,
        0 <= i < with_defs(rows, file, defs).len(),
    ensures
        lower(with_defs(rows, file, defs)[i].item.display) == with_defs(
            rows,
            file,
            defs,
        )[i].item.key,
    decreases defs.len(),
{
    if defs.len() > 0 {
        let before = with_defs(rows, file, defs.drop_last());
        if i < before.len() {
            law_names_are_displayed_as_spelled(rows, file, defs.drop_last(), i);
        } else {
            let d = defs.last();
            assert forall|j: int| 0 <= j < before.len() implies lower(
                (#[trigger] before[j]).item.display,
            ) == before[j].item.key by {
                law_names_are_displayed_as_spelled(rows, file, defs.drop_last(), j);
            }
            lemma_display(before, d.kind, lower(d.name@), d.name@);
        }
    }
}

proof fn lemma_display(
    rows: Seq<EntryView<DefView>>,
    kind: RefKind,
    key: Seq<char>,
    written: Seq<char>,
)
    requires
        lower(written) == key,
        forall|j: int|
            0 <= j < rows.len() ==> lower((#[trigger] rows[j]).item.display) == rows[j].item.key,
    ensures
        lower(display_of(rows, kind, key, written)) == key,
    decreases rows.len(),
{
    if rows.len() > 0 {
        assert(rows.last() == rows[rows.len() - 1]);
        let front = rows.drop_last();
        assert forall|j: int| 0 <= j < front.len() implies lower(
            (#[trigger] front[j]).item.display,
        ) == front[j].item.key by {
            assert(front[j] == rows[j]);
        }
        lemma_display(front, kind, key, written);
    }
}

/// Each reference of a file is found by its kind and its name, in any ASCII case, at
/// its place in the file.
pub proof fn law_references_are_found(
    rows: Seq<EntryView<SiteView>>,
    file: Seq<char>,
    refs: Seq<ReferenceSite>,
    i: int,
    name: Seq<char>,
)
    requires
        0 <= i < refs.len(),
        same_ci(refs[i].name@, name),
    ensures
        picked(
            rows + tagged(file, site_items(refs)),
            site_location(refs[i].kind, lower(name)),
        ).contains(LocationView { file, span: refs[i].span }),
{
    let all = rows + tagged(file, site_items(refs));
    let at = rows.len() + i;
    assert(all[at].item == site_items(refs)[i] && all[at].file == file);
    lemma_picks(
        all,
        site_location(refs[i].kind, lower(name)),
        at,
        LocationView { file, span: refs[i].span },
    );
}

/// A name that holds what is searched for, in any ASCII case, is found with its
/// kind, its display and its place; and nothing is found that does not hold it.
pub proof fn law_symbols_hold_the_query(
    rows: Seq<EntryView<DefView>>,
    query: Seq<char>,
    i: int,
    front: Seq<char>,
    back: Seq<char>,
    s: SymbolView,
)
    requires
        0 <= i < rows.len(),
        rows[i].item.key == front + lower(query) + back,
    ensures
        picked(rows, symbol_for(lower(query))).contains(
            SymbolView {
                kind: rows[i].item.kind,
                name: rows[i].item.display,
                location: LocationView { file: rows[i].file, span: rows[i].item.span },
            },
        ),
        picked(rows, symbol_for(lower(query))).contains(s) ==> exists|j: int, at: int|
            0 <= j < rows.len() && 0 <= at <= rows[j].item.key.len() - query.len() && (
            #[trigger] rows[j]).item.display == s.name && #[trigger] rows[j].item.key.subrange(
                at,
                at + query.len(),
            ) == lower(query),
{
    let part = lower(query);
    let key = rows[i].item.key;
    let at = front.len() as int;
    assert(key.subrange(at, at + part.len()) =~= part);
    assert(crate::index::holds_part(key, part));
    let f = symbol_for(part);
    lemma_picks(
        rows,
        f,
        i,
        SymbolView {
            kind: rows[i].item.kind,
            name: rows[i].item.display,
            location: LocationView { file: rows[i].file, span: rows[i].item.span },
        },
    );
    if picked(rows, f).contains(s) {
        let j = lemma_picked(rows, f, s);
        let text = rows[j].item.key;
        assert(crate::index::holds_part(text, part));
        let k = choose|k: int|
            0 <= k <= text.len() - part.len() && #[trigger] text.subrange(k, k + part.len())
                == part;
        assert(part.len() == query.len());
        assert(rows[j].item.display == s.name && rows[j].item.key.subrange(k, k + query.len())
            == lower(query));
    }
}

/// A chain of objects, each with the next one as its parent.
pub open spec fn descends(parents: Seq<EntryView<ParentView>>, path: Seq<Seq<char>>) -> bool {
    &&& path.len() > 0
    &&& forall|i: int|
        0 <= i < path.len() - 1 ==> is_parent(parents, #[trigger] path[i], path[i + 1])
}

/// An object has that parent.
pub open spec fn is_parent(
    parents: Seq<EntryView<ParentView>>,
    child: Seq<char>,
    parent: Seq<char>,
) -> bool {
    exists|j: int|
        0 <= j < parents.len() && (#[trigger] parents[j]).item.child == child
            && parents[j].item.parent == parent
}

/// The parents of what was seen were seen, or are still to be.
spec fn open_parents(
    parents: Seq<EntryView<ParentView>>,
    pending: Seq<Seq<char>>,
    seen: Seq<Seq<char>>,
) -> bool {
    forall|s: Seq<char>, p: Seq<char>|
        seen.contains(s) && #[trigger] is_parent(parents, s, p) ==> seen.contains(p)
            || pending.contains(p)
}

proof fn lemma_all_seen(
    parents: Seq<EntryView<ParentView>>,
    seen: Seq<Seq<char>>,
    path: Seq<Seq<char>>,
    i: int,
)
    requires
        open_parents(parents, Seq::empty(), seen),
        descends(parents, path),
        seen.contains(path[0]),
        0 <= i < path.len(),
    ensures
        seen.contains(path[i]),
    decreases i,
{
    if i > 0 {
        lemma_all_seen(parents, seen, path, i - 1);
        assert(is_parent(parents, path[i - 1], path[i - 1 + 1]));
    }
}

proof fn lemma_walk(
    objects: Seq<EntryView<ObjectModelsView>>,
    parents: Seq<EntryView<ParentView>>,
    pending: Seq<Seq<char>>,
    seen: Seq<Seq<char>>,
    path: Seq<Seq<char>>,
    m: Seq<char>,
)
    requires
        open_parents(parents, pending, seen),
        descends(parents, path),
        seen.contains(path[0]) || pending.contains(path[0]),
        !seen.contains(path.last()),
        models_of(objects, path.last()).contains(m),
    ensures
        walk(objects, parents, pending, seen).contains(m),
    decreases crate::index::unseen(parents, seen), pending.len(),
{
    if pending.len() == 0 {
        assert(pending =~= Seq::empty());
        lemma_all_seen(parents, seen, path, path.len() - 1);
    } else {
        let o = pending.last();
        let front = pending.drop_last();
        assert(pending =~= front + seq![o]);
        if seen.contains(o) {
            assert(open_parents(parents, front, seen)) by {
                assert forall|s: Seq<char>, p: Seq<char>|
                    seen.contains(s) && #[trigger] is_parent(
                        parents,
                        s,
                        p,
                    ) implies seen.contains(p) || front.contains(p) by {
                    if !seen.contains(p) {
                        lemma_either(front, seq![o], p);
                    }
                }
            }
            if !seen.contains(path[0]) {
                lemma_either(front, seq![o], path[0]);
            }
            lemma_walk(objects, parents, front, seen, path, m);
        } else {
            crate::index::lemma_unseen(parents, seen, o);
            let above = picked(parents, parent_of(o));
            let next = front + above;
            let met = seen.push(o);
            let rest = walk(objects, parents, next, met);
            assert(met =~= seen + seq![o]);
            assert(seq![o].contains(o)) by {
                assert(seq![o][0] == o);
            }
            lemma_behind(seen, seq![o], o);
            if o == path.last() {
                lemma_front(models_of(objects, o), rest, m);
            } else {
                assert(open_parents(parents, next, met)) by {
                    assert forall|s: Seq<char>, p: Seq<char>|
                        met.contains(s) && #[trigger] is_parent(
                            parents,
                            s,
                            p,
                        ) implies met.contains(p) || next.contains(p) by {
                        lemma_either(seen, seq![o], s);
                        if seen.contains(s) {
                            if seen.contains(p) {
                                lemma_front(seen, seq![o], p);
                            } else {
                                lemma_either(front, seq![o], p);
                                if front.contains(p) {
                                    lemma_front(front, above, p);
                                }
                            }
                        } else {
                            let j = choose|j: int|
                                0 <= j < parents.len() && (#[trigger] parents[j]).item.child == s
                                    && parents[j].item.parent == p;
                            lemma_picks(parents, parent_of(o), j, p);
                            lemma_behind(front, above, p);
                        }
                    }
                }
                if seen.contains(path[0]) {
                    lemma_front(seen, seq![o], path[0]);
                } else {
                    lemma_either(front, seq![o], path[0]);
                    if front.contains(path[0]) {
                        lemma_front(front, above, path[0]);
                    }
                }
                assert(!met.contains(path.last())) by {
                    if met.contains(path.last()) {
                        lemma_either(seen, seq![o], path.last());
                    }
                }
                if pending.len() > 0 && above.len() == 0 {
                    assert(next =~= front);
                }
                lemma_walk(objects, parents, next, met, path, m);
                lemma_behind(models_of(objects, o), rest, m);
            }
        }
    }
}

/// An object has the models that it names itself, and those of every object it
/// descends from, through any number of parents.
pub proof fn law_objects_inherit_models(
    index: &WorkspaceIndex,
    name: Seq<char>,
    path: Seq<Seq<char>>,
    i: int,
    m: Seq<char>,
)
    requires
        descends(index.parent_rows(), path),
        path[0] == lower(name),
        0 <= i < index.object_rows().len(),
        index.object_rows()[i].item.object == path.last(),
        index.object_rows()[i].item.models.contains(m),
    ensures
        walk(
            index.object_rows(),
            index.parent_rows(),
            seq![lower(name)],
            Seq::empty(),
        ).contains(m),
{
    let pending = seq![lower(name)];
    assert(pending[0] == path[0]);
    lemma_models_of(index.object_rows(), path.last(), i, m);
    lemma_walk(index.object_rows(), index.parent_rows(), pending, Seq::empty(), path, m);
}

proof fn lemma_models_of(
    rows: Seq<EntryView<ObjectModelsView>>,
    object: Seq<char>,
    i: int,
    m: Seq<char>,
)
    requires
        0 <= i < rows.len(),
        rows[i].item.object == object,
        rows[i].item.models.contains(m),
    ensures
        models_of(rows, object).contains(m),
    decreases rows.len(),
{
    let front = rows.drop_last();
    let rest = models_of(front, object);
    if i < front.len() {
        assert(front[i] == rows[i]);
        lemma_models_of(front, object, i, m);
        if rows.last().item.object == object {
            lemma_front(rest, rows.last().item.models, m);
        }
    } else {
        lemma_behind(rest, rows.last().item.models, m);
    }
}

/// A tag that a module of an object declares can be removed from anywhere else, and
/// in its own document from behind it; a tag that is only removed is no declared one.
pub proof fn law_declared_tags_are_visible(
    rows: Seq<EntryView<TagView>>,
    object: Seq<char>,
    file: Seq<char>,
    at: u32,
    i: int,
    t: TagView,
)
    requires
        0 <= i < rows.len(),
    ensures
        rows[i].item.object == lower(object) && !rows[i].item.is_reference && (rows[i].file != file
            || rows[i].item.span.start < at) ==> picked(
            rows,
            visible_tag(lower(object), Some(file), Some(at)),
        ).contains(rows[i].item),
        picked(rows, visible_tag(lower(object), Some(file), Some(at))).contains(t) ==> !t.is_reference
            && t.object == lower(object),
{
    let f = visible_tag(lower(object), Some(file), Some(at));
    if rows[i].item.object == lower(object) && !rows[i].item.is_reference && (rows[i].file != file
        || rows[i].item.span.start < at) {
        lemma_picks(rows, f, i, rows[i].item);
    }
    if picked(rows, f).contains(t) {
        lemma_picked(rows, f, t);
    }
}

/// A tag of an object is found at its place by its name, in any ASCII case: where it is
/// declared, and where it is removed.
pub proof fn law_tags_are_found(
    rows: Seq<EntryView<TagView>>,
    file: Seq<char>,
    tags: Seq<ModuleTagDefinition>,
    i: int,
    object: Seq<char>,
    name: Seq<char>,
)
    requires
        0 <= i < tags.len(),
        same_ci(tags[i]@.object, object),
        same_ci(tags[i]@.name, name),
    ensures
        picked(
            rows + tagged(file, tag_items(tags)),
            tag_location(lower(object), name, tags[i]@.is_reference, None, None),
        ).contains(LocationView { file, span: tags[i]@.span }),
{
    let all = rows + tagged(file, tag_items(tags));
    let at = rows.len() + i;
    assert(all[at].item == tag_items(tags)[i] && all[at].file == file);
    lemma_picks(
        all,
        tag_location(lower(object), name, tags[i]@.is_reference, None, None),
        at,
        LocationView { file, span: tags[i]@.span },
    );
}

/// A new object of a file that is merged over others has the tags of the default
/// object as well; any other has only its own.
pub proof fn law_new_objects_have_default_tags(
    index: &WorkspaceIndex,
    name: Seq<char>,
    file: Seq<char>,
    at: u32,
    i: int,
)
    requires
        0 <= i < index.tag_rows().len(),
        override_layer(file),
        forall|j: int|
            0 <= j < index.def_rows().len() && (
            #[trigger] index.def_rows()[j]).item.kind == RefKind::Object
                && index.def_rows()[j].item.key == lower(name) ==> override_layer(
                index.def_rows()[j].file,
            ),
        index.tag_rows()[i].item.object == lower("DefaultThingTemplate"@),
        !index.tag_rows()[i].item.is_reference,
    ensures
        crate::index::tag_named(
            index.effective_tags(name, Some(file), Some(at)),
            index.tag_rows()[i].item.name,
        ),
{
    let rows = index.tag_rows();
    let own = picked(rows, visible_tag(lower(name), Some(file), Some(at)));
    let given = picked(rows, visible_tag(crate::index::default_object(), None, None));
    lemma_picks(rows, visible_tag(crate::index::default_object(), None, None), i, rows[i].item);
    lemma_behind(own, given, rows[i].item);
    assert(crate::index::new_override_in(index.def_rows(), name, Some(file)));
    lemma_tag_kept(own + given, rows[i].item);
}

proof fn lemma_tag_kept(tags: Seq<TagView>, t: TagView)
    requires
        tags.contains(t),
    ensures
        crate::index::tag_named(crate::index::dedup_tags(tags), t.name),
    decreases tags.len(),
{
    let front = tags.drop_last();
    let rest = crate::index::dedup_tags(front);
    let all = crate::index::dedup_tags(tags);
    if tags.last() == t {
        if crate::index::tag_named(rest, t.name) {
        } else {
            assert(all[rest.len() as int] == t);
            assert(same_ci(all[rest.len() as int].name, t.name));
        }
    } else {
        let j = choose|j: int| 0 <= j < tags.len() && tags[j] == t;
        assert(front[j] == t);
        lemma_tag_kept(front, t);
        let i = choose|i: int| 0 <= i < rest.len() && same_ci((#[trigger] rest[i]).name, t.name);
        assert(all[i] == rest[i]);
        assert(same_ci(all[i].name, t.name));
    }
}

/// A model has the animations that were made for its skeleton, by the last model of
/// its name.
pub proof fn law_models_have_their_animations(
    index: &WorkspaceIndex,
    model: Seq<char>,
    m: int,
    skeleton: Seq<char>,
    i: int,
)
    requires
        0 <= m < index.model_rows().len(),
        same_ci(index.model_rows()[m].item.name, model),
        forall|j: int|
            m < j < index.model_rows().len() ==> !same_ci(
                (#[trigger] index.model_rows()[j]).item.name,
                model,
            ),
        index.model_rows()[m].item.hierarchy == Some(skeleton),
        0 <= i < index.animation_rows().len(),
    ensures
        same_ci(index.animation_rows()[i].item.hierarchy, skeleton) ==> index.animations_for(
            model,
        ).contains(index.animation_rows()[i].item.name),
        forall|a: Seq<char>| #[trigger]
            index.animations_for(model).contains(a) ==> exists|j: int|
                0 <= j < index.animation_rows().len() && (
                #[trigger] index.animation_rows()[j]).item.name == a && same_ci(
                    index.animation_rows()[j].item.hierarchy,
                    skeleton,
                ),
{
    let rows = index.animation_rows();
    lemma_last_model(index.model_rows(), lower(model), m);
    let f = animation_on(skeleton);
    if same_ci(rows[i].item.hierarchy, skeleton) {
        lemma_picks(rows, f, i, rows[i].item.name);
    }
    assert forall|a: Seq<char>| #[trigger] index.animations_for(model).contains(a) implies exists|
        j: int,
    |
        0 <= j < rows.len() && (#[trigger] rows[j]).item.name == a && same_ci(
            rows[j].item.hierarchy,
            skeleton,
        ) by {
        let j = lemma_picked(rows, f, a);
        assert(rows[j].item.name == a);
    }
}

pub proof fn lemma_last_model(rows: Seq<EntryView<ModelView>>, key: Seq<char>, m: int)
    requires
        0 <= m < rows.len(),
        lower(rows[m].item.name) == key,
        forall|j: int| m < j < rows.len() ==> lower((#[trigger] rows[j]).item.name) != key,
    ensures
        effective_model(rows, key) == Some(rows[m]),
    decreases rows.len(),
{
    let front = rows.drop_last();
    assert(rows.last() == rows[rows.len() - 1]);
    if m < front.len() {
        assert(lower(rows[rows.len() - 1].item.name) != key);
        assert(front[m] == rows[m]);
        assert forall|j: int| m < j < front.len() implies lower((#[trigger] front[j]).item.name)
            != key by {
            assert(front[j] == rows[j]);
        }
        lemma_last_model(front, key, m);
    }
}

/// Of textures of one stem the last counts, whatever its extension.
pub proof fn law_last_texture_counts(rows: Seq<EntryView<AssetView>>, stem: Seq<char>, m: int)
    requires
        0 <= m < rows.len(),
        rows[m].item.kind == AssetKind::Texture,
        crate::index::stem_of(rows[m].item.name) == stem,
        forall|j: int|
            m < j < rows.len() ==> (#[trigger] rows[j]).item.kind != AssetKind::Texture
                || crate::index::stem_of(rows[j].item.name) != stem,
    ensures
        effective_texture(rows, stem) == Some(rows[m].item),
    decreases rows.len(),
{
    let front = rows.drop_last();
    assert(rows.last() == rows[rows.len() - 1]);
    if m < front.len() {
        assert(rows[rows.len() - 1].item.kind != AssetKind::Texture || crate::index::stem_of(
            rows[rows.len() - 1].item.name,
        ) != stem);
        assert(front[m] == rows[m]);
        assert forall|j: int| m < j < front.len() implies (#[trigger] front[j]).item.kind
            != AssetKind::Texture || crate::index::stem_of(front[j].item.name) != stem by {
            assert(front[j] == rows[j]);
        }
        law_last_texture_counts(front, stem, m);
    }
}

/// The stem of a file is its name without directories and without what stands behind
/// its last dot, in lower case.
pub proof fn law_stems(dir: Seq<char>, c: char, stem: Seq<char>, ext: Seq<char>)
    requires
        c == '/' || c == '\\',
        crate::laws::text::lacks(stem, '/'),
        crate::laws::text::lacks(stem, '\\'),
        crate::laws::text::lacks(ext, '/'),
        crate::laws::text::lacks(ext, '\\'),
        crate::laws::text::lacks(ext, '.'),
    ensures
        crate::index::stem_of(
            crate::laws::text::around(dir, c, crate::laws::text::around(stem, '.', ext)),
        ) == lower(stem),
        crate::index::stem_of(crate::laws::text::around(stem, '.', ext)) == lower(stem),
{
    let name = crate::laws::text::around(stem, '.', ext);
    assert(crate::laws::text::lacks(name, '/') && crate::laws::text::lacks(name, '\\')) by {
        assert forall|i: int| 0 <= i < name.len() implies #[trigger] name[i] != '/' && name[i]
            != '\\' by {
            if i < stem.len() {
                assert(name[i] == stem[i]);
            } else if i > stem.len() {
                assert(name[i] == ext[i - stem.len() - 1]);
            }
        }
    }
    crate::laws::text::law_last_parts(dir, c, name, '/', '\\');
    crate::laws::text::law_texts_part_at_the_last(stem, '.', ext);
}

/// The strings of a file are those that were set last for it.
pub proof fn law_string_keys_are_found(
    rows: Seq<EntryView<Seq<Seq<char>>>>,
    file: Seq<char>,
    keys: Seq<Seq<char>>,
)
    ensures
        keys_of(rows.push(EntryView { file, item: keys }), file) == keys,
{
    let all = rows.push(EntryView { file, item: keys });
    assert(all.last() == EntryView { file, item: keys });
}

} // verus!
