//! The workspace index as a whole: what a scan, an open document and an edit
//! put into it, and what a new scan leaves of the one before.

use vstd::prelude::*;

use crate::analyzer::Analyzer;
use crate::extract::{
    def_sites, definitions_from, definitions_in, module_tags_in, object_models_in,
    object_parents_in, object_texts, objects_from, pair_texts, parents_from, ref_sites,
    references_from, references_in, tags_from, SiteOf,
};
use crate::index::{
    asset_flips, def_known, def_names, dedup_model, display_of, new_models, new_names,
    next_generation, normal_models, normal_objects, normal_tags, object_items, parent_items,
    site_items, tag_items, with_defs, AnimationView, AssetKind, AssetView, DefView, Definition, ModelMemberStrictness, ModelView, ModuleTagDefinition, ObjectModelsView,
    ParentView, ReferenceSite, SiteView, TagView, WorkspaceIndex,
};
use crate::order::views;
use crate::scan::{ScanEntry, ScanEntryView};
use crate::schema::RefKind;
use crate::syntax::{Parse, Span};
use crate::table::{
    contributes, law_removal_keeps_other_files, law_removed_file_is_gone, law_replacement, others,
    owned, tagged, EntryView,
};
use crate::text::{lower, texts};

verus! {

/// The model of an index: every table, the strictness and the generation.
#[verifier::ext_equal]
pub struct IndexView {
    pub defs: Seq<EntryView<DefView>>,
    pub sites: Seq<EntryView<SiteView>>,
    pub tags: Seq<EntryView<TagView>>,
    pub models: Seq<EntryView<ModelView>>,
    pub animations: Seq<EntryView<AnimationView>>,
    pub assets: Seq<EntryView<AssetView>>,
    pub objects: Seq<EntryView<ObjectModelsView>>,
    pub parents: Seq<EntryView<ParentView>>,
    pub keys: Seq<EntryView<Seq<Seq<char>>>>,
    pub strictness: ModelMemberStrictness,
    pub generation: u64,
}

/// What an index holds.
pub open spec fn contents(index: &WorkspaceIndex) -> IndexView {
    IndexView {
        defs: index.def_rows(),
        sites: index.site_rows(),
        tags: index.tag_rows(),
        models: index.model_rows(),
        animations: index.animation_rows(),
        assets: index.asset_rows(),
        objects: index.object_rows(),
        parents: index.parent_rows(),
        keys: index.key_rows(),
        strictness: index.strictness,
        generation: index.generation,
    }
}

pub open spec fn empty_index(strictness: ModelMemberStrictness) -> IndexView {
    IndexView {
        defs: Seq::empty(),
        sites: Seq::empty(),
        tags: Seq::empty(),
        models: Seq::empty(),
        animations: Seq::empty(),
        assets: Seq::empty(),
        objects: Seq::empty(),
        parents: Seq::empty(),
        keys: Seq::empty(),
        strictness,
        generation: if strictness is Compatible {
            0
        } else {
            1
        },
    }
}

/// The generation after a step that changed something or changed nothing.
pub open spec fn stepped(generation: u64, changed: bool) -> u64 {
    if changed {
        next_generation(generation)
    } else {
        generation
    }
}

/// The kind and key of each definition.
pub open spec fn site_names(sites: Seq<SiteOf>) -> Seq<(RefKind, Seq<char>)> {
    sites.map_values(|s: SiteOf| (s.kind, lower(s.name)))
}

/// The definitions after `file` adds those named by `sites`.
pub open spec fn with_sites(
    rows: Seq<EntryView<DefView>>,
    file: Seq<char>,
    sites: Seq<SiteOf>,
) -> Seq<EntryView<DefView>>
    decreases sites.len(),
{
    if sites.len() == 0 {
        rows
    } else {
        let before = with_sites(rows, file, sites.drop_last());
        let s = sites.last();
        before.push(
            EntryView {
                file,
                item: DefView {
                    kind: s.kind,
                    key: lower(s.name),
                    display: display_of(before, s.kind, lower(s.name), s.name),
                    span: s.span,
                },
            },
        )
    }
}

pub open spec fn stored_sites(sites: Seq<SiteOf>) -> Seq<SiteView> {
    sites.map_values(|s: SiteOf| SiteView { kind: s.kind, key: lower(s.name), span: s.span })
}

pub open spec fn stored_tags(tags: Seq<TagView>) -> Seq<TagView> {
    tags.map_values(|t: TagView| TagView { object: lower(t.object), ..t })
}

pub open spec fn stored_objects(objects: Seq<(Seq<char>, Seq<Seq<char>>)>) -> Seq<
    ObjectModelsView,
> {
    objects.map_values(
        |o: (Seq<char>, Seq<Seq<char>>)| ObjectModelsView { object: lower(o.0), models: o.1 },
    )
}

pub open spec fn stored_parents(parents: Seq<(Seq<char>, Seq<char>)>) -> Seq<ParentView> {
    parents.map_values(
        |p: (Seq<char>, Seq<char>)| ParentView { child: lower(p.0), parent: lower(p.1) },
    )
}

pub open spec fn stored_models(models: Seq<ModelView>) -> Seq<ModelView> {
    models.map_values(|m: ModelView| dedup_model(m))
}

/// What the text of a document says.
#[verifier::ext_equal]
pub struct Facts {
    pub definitions: Seq<SiteOf>,
    pub references: Seq<SiteOf>,
    pub tags: Seq<TagView>,
    pub object_models: Seq<(Seq<char>, Seq<Seq<char>>)>,
    pub object_parents: Seq<(Seq<char>, Seq<char>)>,
}

/// What a parsed document says.
pub open spec fn facts_of(analyzer: &Analyzer, parse: &Parse) -> Facts {
    Facts {
        definitions: definitions_from(analyzer, parse, 0),
        references: references_from(analyzer, parse, 0),
        tags: tags_from(parse, 0),
        object_models: objects_from(analyzer, parse, 0),
        object_parents: parents_from(parse, 0),
    }
}

/// The generation after `file` says `facts`: it stays where the file said the
/// same names before, wherever they stood.
pub open spec fn told_generation(index: IndexView, file: Seq<char>, facts: Facts) -> u64 {
    let named = stepped(
        index.generation,
        def_names(owned(index.defs, file)) != site_names(facts.definitions),
    );
    let marked = stepped(
        named,
        normal_tags(owned(index.tags, file)) != normal_tags(stored_tags(facts.tags)),
    );
    let modelled = stepped(
        marked,
        normal_objects(owned(index.objects, file)) != normal_objects(
            stored_objects(facts.object_models),
        ),
    );
    stepped(modelled, owned(index.parents, file) != stored_parents(facts.object_parents))
}

/// The index after `file` says `facts` in place of what it said before.
pub open spec fn told(index: IndexView, file: Seq<char>, facts: Facts) -> IndexView {
    IndexView {
        defs: with_sites(others(index.defs, file), file, facts.definitions),
        sites: others(index.sites, file) + tagged(file, stored_sites(facts.references)),
        tags: others(index.tags, file) + tagged(file, stored_tags(facts.tags)),
        objects: others(index.objects, file) + tagged(file, stored_objects(facts.object_models)),
        parents: others(index.parents, file) + tagged(file, stored_parents(facts.object_parents)),
        generation: told_generation(index, file, facts),
        ..index
    }
}

/// The generation after `file` contributes `assets` in place of what it
/// contributed before: it changes where an asset appears or disappears.
pub open spec fn supplied_generation(
    generation: u64,
    rows: Seq<EntryView<AssetView>>,
    file: Seq<char>,
    assets: Seq<AssetView>,
) -> u64 {
    stepped(
        generation,
        asset_flips(rows, others(rows, file) + tagged(file, assets), owned(rows, file) + assets),
    )
}

/// The index after `file` has the string table `keys` beside it.
pub open spec fn keyed(index: IndexView, file: Seq<char>, keys: Seq<Seq<char>>) -> IndexView {
    IndexView {
        keys: if keys.len() == 0 {
            others(index.keys, file)
        } else {
            others(index.keys, file).push(EntryView { file, item: keys })
        },
        ..index
    }
}

/// The textual part of what a file contributes.
pub open spec fn entry_facts(entry: ScanEntryView) -> Facts {
    Facts {
        definitions: entry.definitions,
        references: entry.references,
        tags: entry.tags,
        object_models: entry.object_models,
        object_parents: entry.object_parents,
    }
}

/// The index after a scanned file replaced what it contributed before.
pub open spec fn with_entry(index: IndexView, entry: ScanEntryView) -> IndexView {
    IndexView {
        models: others(index.models, entry.file) + tagged(
            entry.file,
            stored_models(entry.models),
        ),
        animations: others(index.animations, entry.file) + tagged(entry.file, entry.animations),
        assets: others(index.assets, entry.file) + tagged(entry.file, entry.assets),
        generation: supplied_generation(
            stepped(
                told_generation(index, entry.file, entry_facts(entry)),
                normal_models(owned(index.models, entry.file)) != normal_models(entry.models),
            ),
            index.assets,
            entry.file,
            entry.assets,
        ),
        ..told(index, entry.file, entry_facts(entry))
    }
}

/// The index after a scanned file, whose models stand in no other entry and
/// name each member once, was put in.
pub open spec fn with_prepared(index: IndexView, entry: ScanEntryView) -> IndexView {
    IndexView {
        models: index.models + tagged(entry.file, entry.models),
        animations: others(index.animations, entry.file) + tagged(entry.file, entry.animations),
        assets: others(index.assets, entry.file) + tagged(entry.file, entry.assets),
        generation: supplied_generation(
            stepped(
                told_generation(index, entry.file, entry_facts(entry)),
                entry.models.len() > 0,
            ),
            index.assets,
            entry.file,
            entry.assets,
        ),
        ..told(index, entry.file, entry_facts(entry))
    }
}

proof fn lemma_defs_are_sites(
    rows: Seq<EntryView<DefView>>,
    file: Seq<char>,
    defs: Seq<Definition>,
)
    ensures
        with_defs(rows, file, defs) == with_sites(rows, file, def_sites(defs)),
    decreases defs.len(),
{
    if defs.len() > 0 {
        lemma_defs_are_sites(rows, file, defs.drop_last());
        assert(def_sites(defs).drop_last() =~= def_sites(defs.drop_last()));
    }
}

proof fn lemma_stored(
    refs: Seq<ReferenceSite>,
    tags: Seq<ModuleTagDefinition>,
    objects: Seq<(String, Vec<String>)>,
    parents: Seq<(String, String)>,
)
    ensures
        site_items(refs) == stored_sites(ref_sites(refs)),
        tag_items(tags) == stored_tags(views(tags)),
        object_items(objects) == stored_objects(object_texts(objects)),
        parent_items(parents) == stored_parents(pair_texts(parents)),
{
    assert(site_items(refs) =~= stored_sites(ref_sites(refs)));
    assert(tag_items(tags) =~= stored_tags(views(tags)));
    assert(object_items(objects) =~= stored_objects(object_texts(objects)));
    assert(parent_items(parents) =~= stored_parents(pair_texts(parents)));
}

fn tell(
    index: &mut WorkspaceIndex,
    file: &str,
    definitions: Vec<Definition>,
    references: Vec<ReferenceSite>,
    tags: Vec<ModuleTagDefinition>,
    object_models: Vec<(String, Vec<String>)>,
    object_parents: Vec<(String, String)>,
)
    ensures
        contents(final(index)) == told(
            contents(old(index)),
            file@,
            Facts {
                definitions: def_sites(definitions@),
                references: ref_sites(references@),
                tags: views(tags@),
                object_models: object_texts(object_models@),
                object_parents: pair_texts(object_parents@),
            },
        ),
{
    proof {
        lemma_defs_are_sites(others(index.def_rows(), file@), file@, definitions@);
        lemma_stored(references@, tags@, object_models@, object_parents@);
        assert(new_names(definitions@) =~= site_names(def_sites(definitions@)));
    }
    index.set_file(file, definitions);
    index.set_file_refs(file, references);
    index.set_file_tags(file, tags);
    index.set_file_object_models(file, object_models);
    index.set_file_object_parents(file, object_parents);
}

/// Puts what a document says into the index.
pub fn index_document(index: &mut WorkspaceIndex, analyzer: &Analyzer, parse: &Parse, file: &str)
    requires
        parse.wf(),
    ensures
        contents(final(index)) == told(contents(old(index)), file@, facts_of(analyzer, parse)),
{
    let definitions = definitions_in(analyzer, parse, file);
    let references = references_in(analyzer, parse);
    let tags = module_tags_in(analyzer, parse);
    let object_models = object_models_in(analyzer, parse);
    let object_parents = object_parents_in(parse);
    tell(index, file, definitions, references, tags, object_models, object_parents);
}

/// Puts what a document says, and the string table beside it, into the index.
pub fn commit_document(
    index: &mut WorkspaceIndex,
    analyzer: &Analyzer,
    parse: &Parse,
    file: &str,
    string_keys: Vec<String>,
)
    requires
        parse.wf(),
    ensures
        contents(final(index)) == keyed(
            told(contents(old(index)), file@, facts_of(analyzer, parse)),
            file@,
            texts(string_keys@),
        ),
{
    index_document(index, analyzer, parse, file);
    index.set_ini_string_keys(file, string_keys);
}

/// Puts what a scanned file contributes into the index, in place of what it
/// contributed before.
pub fn apply_entry(index: &mut WorkspaceIndex, entry: ScanEntry)
    ensures
        contents(final(index)) == with_entry(contents(old(index)), entry@),
{
    let file = entry.file;
    assert(new_models(entry.models@) =~= stored_models(views(entry.models@)));
    tell(
        index,
        file.as_str(),
        entry.definitions,
        entry.references,
        entry.tags,
        entry.object_models,
        entry.object_parents,
    );
    index.set_file_models(file.as_str(), entry.models);
    index.set_file_animations(file.as_str(), entry.animations);
    index.set_file_assets(file.as_str(), entry.assets);
}

fn apply_prepared(index: &mut WorkspaceIndex, entry: ScanEntry)
    ensures
        contents(final(index)) == with_prepared(contents(old(index)), entry@),
{
    let file = entry.file;
    tell(
        index,
        file.as_str(),
        entry.definitions,
        entry.references,
        entry.tags,
        entry.object_models,
        entry.object_parents,
    );
    index.insert_file_models_prepared(file.as_str(), entry.models);
    index.set_file_animations(file.as_str(), entry.animations);
    index.set_file_assets(file.as_str(), entry.assets);
}

/// Puts what a list of files contributes into the index, one after another.
pub open spec fn with_entry_list(index: IndexView, list: Seq<ScanEntryView>) -> IndexView
    decreases list.len(),
{
    if list.len() == 0 {
        index
    } else {
        with_entry(with_entry_list(index, list.drop_last()), list.last())
    }
}

/// Puts scanned files into the index, in order.
pub fn apply_entries(index: &mut WorkspaceIndex, list: Vec<ScanEntry>)
    ensures
        contents(final(index)) == with_entry_list(contents(old(index)), views(list@)),
{
    let ghost start = contents(index);
    let ghost whole = views(list@);
    assert(whole.take(0) =~= Seq::empty());
    for entry in it: list
        invariant
            views(it.seq()) == whole,
            contents(index) == with_entry_list(start, whole.take(it.index() as int)),
    {
        proof {
            let k = it.index() as int;
            assert(views(it.seq())[k] == entry@);
            assert(whole.take(k + 1).drop_last() =~= whole.take(k));
        }
        apply_entry(index, entry);
    }
    assert(whole.take(whole.len() as int) =~= whole);
}

/// A scanned file, and whether it belongs to the configured game data.
#[derive(Debug)]
pub struct Scanned {
    pub is_base: bool,
    pub entry: ScanEntry,
}

/// The model of a [`Scanned`] file.
pub struct ScannedView {
    pub is_base: bool,
    pub entry: ScanEntryView,
}

impl View for Scanned {
    type V = ScannedView;

    open spec fn view(&self) -> ScannedView {
        ScannedView { is_base: self.is_base, entry: self.entry@ }
    }
}

/// An open document.
#[derive(Clone, Copy)]
pub struct OpenDocument<'a> {
    pub file: &'a str,
    pub parse: &'a Parse,
    /// The keys of the string table beside it.
    pub string_keys: &'a Vec<String>,
}

pub open spec fn open_files(open: Seq<OpenDocument>) -> Seq<Seq<char>> {
    open.map_values(|d: OpenDocument| d.file@)
}

/// Puts the scanned files that are not open into the index, in order.
pub open spec fn with_scanned(
    index: IndexView,
    scanned: Seq<ScannedView>,
    open: Seq<Seq<char>>,
) -> IndexView
    decreases scanned.len(),
{
    if scanned.len() == 0 {
        index
    } else {
        let before = with_scanned(index, scanned.drop_last(), open);
        let entry = scanned.last().entry;
        if open.contains(entry.file) {
            before
        } else {
            with_prepared(before, entry)
        }
    }
}

/// Puts the open documents into the index, in order.
pub open spec fn with_open(analyzer: &Analyzer, index: IndexView, open: Seq<OpenDocument>) -> IndexView
    decreases open.len(),
{
    if open.len() == 0 {
        index
    } else {
        let before = with_open(analyzer, index, open.drop_last());
        let d = open.last();
        keyed(
            told(before, d.file@, facts_of(analyzer, d.parse)),
            d.file@,
            texts(d.string_keys@),
        )
    }
}

/// The index after a scan: the scanned files, and over them the documents as
/// they are open, and nothing else.
pub open spec fn rescanned(
    analyzer: &Analyzer,
    strictness: ModelMemberStrictness,
    scanned: Seq<ScannedView>,
    open: Seq<OpenDocument>,
) -> IndexView {
    with_open(
        analyzer,
        with_scanned(empty_index(strictness), scanned, open_files(open)),
        open,
    )
}

fn is_open(open: &Vec<OpenDocument>, file: &str) -> (r: bool)
    ensures
        r == open_files(open@).contains(file@),
{
    let ghost names = open_files(open@);
    let mut i: usize = 0;
    while i < open.len()
        invariant
            i <= open.len(),
            names == open_files(open@),
            forall|k: int| 0 <= k < i ==> names[k] != file@,
        decreases open.len() - i,
    {
        assert(names[i as int] == open@[i as int].file@);
        if crate::text::same(open[i].file, file) {
            return true;
        }
        i += 1;
    }
    false
}

/// Builds the index that takes the place of the one in use after a scan.
pub fn rebuilt_index(
    analyzer: &Analyzer,
    strictness: ModelMemberStrictness,
    scanned: Vec<Scanned>,
    open: &Vec<OpenDocument>,
) -> (r: WorkspaceIndex)
    requires
        forall|k: int| 0 <= k < open@.len() ==> (#[trigger] open@[k]).parse.wf(),
    ensures
        contents(&r) == rescanned(analyzer, strictness, views(scanned@), open@),
{
    let mut index = WorkspaceIndex::new();
    index.set_model_member_strictness(strictness);
    let ghost start = empty_index(strictness);
    assert(contents(&index) =~= start);
    let ghost whole = views(scanned@);
    let ghost names = open_files(open@);
    assert(whole.take(0) =~= Seq::empty());
    for next in it: scanned
        invariant
            views(it.seq()) == whole,
            names == open_files(open@),
            contents(&index) == with_scanned(start, whole.take(it.index() as int), names),
    {
        proof {
            let k = it.index() as int;
            assert(views(it.seq())[k] == next@);
            assert(whole.take(k + 1).drop_last() =~= whole.take(k));
        }
        if !is_open(open, next.entry.file.as_str()) {
            apply_prepared(&mut index, next.entry);
        }
    }
    assert(whole.take(whole.len() as int) =~= whole);
    let ghost base = contents(&index);
    let mut i: usize = 0;
    assert(open@.take(0) =~= Seq::empty());
    while i < open.len()
        invariant
            i <= open.len(),
            forall|k: int| 0 <= k < open@.len() ==> (#[trigger] open@[k]).parse.wf(),
            contents(&index) == with_open(analyzer, base, open@.take(i as int)),
        decreases open.len() - i,
    {
        assert(open@.take(i + 1).drop_last() =~= open@.take(i as int));
        let d = open[i];
        commit_document(&mut index, analyzer, d.parse, d.file, crate::index::copy_texts(d.string_keys));
        i += 1;
    }
    assert(open@.take(i as int) =~= open@);
    index
}

/// Whether `file` contributes to some table of the index.
pub open spec fn present(index: IndexView, file: Seq<char>) -> bool {
    ||| contributes(index.defs, file)
    ||| contributes(index.sites, file)
    ||| contributes(index.tags, file)
    ||| contributes(index.models, file)
    ||| contributes(index.animations, file)
    ||| contributes(index.assets, file)
    ||| contributes(index.objects, file)
    ||| contributes(index.parents, file)
    ||| contributes(index.keys, file)
}

proof fn lemma_others_contribute<V>(rows: Seq<EntryView<V>>, file: Seq<char>, other: Seq<char>)
    ensures
        contributes(others(rows, file), other) ==> contributes(rows, other),
    decreases rows.len(),
{
    if rows.len() > 0 {
        lemma_others_contribute(rows.drop_last(), file, other);
        let rest = others(rows.drop_last(), file);
        if contributes(others(rows, file), other) {
            let i = choose|i: int|
                0 <= i < others(rows, file).len() && (#[trigger] others(rows, file)[i]).file
                    == other;
            if rows.last().file != file && i == rest.len() {
                assert(rows[rows.len() - 1].file == other);
            } else {
                assert(rest[i].file == other);
                let j = choose|j: int|
                    0 <= j < rows.drop_last().len() && (#[trigger] rows.drop_last()[j]).file
                        == other;
                assert(rows[j].file == other);
            }
        }
    }
}

proof fn lemma_replaced_contribute<V>(
    rows: Seq<EntryView<V>>,
    file: Seq<char>,
    items: Seq<V>,
    other: Seq<char>,
)
    ensures
        contributes(others(rows, file) + tagged(file, items), other) ==> contributes(rows, other)
            || other == file,
        contributes(rows + tagged(file, items), other) ==> contributes(rows, other) || other
            == file,
{
    lemma_others_contribute(rows, file, other);
    let kept = others(rows, file);
    let added = tagged(file, items);
    if contributes(kept + added, other) {
        let i = choose|i: int|
            0 <= i < (kept + added).len() && (#[trigger] (kept + added)[i]).file == other;
        if i < kept.len() {
            assert(kept[i].file == other);
        } else {
            assert(added[i - kept.len()].file == other);
        }
    }
    if contributes(rows + added, other) {
        let i = choose|i: int|
            0 <= i < (rows + added).len() && (#[trigger] (rows + added)[i]).file == other;
        if i < rows.len() {
            assert(rows[i].file == other);
        } else {
            assert(added[i - rows.len()].file == other);
        }
    }
}

proof fn lemma_sites_contribute(
    rows: Seq<EntryView<DefView>>,
    file: Seq<char>,
    sites: Seq<SiteOf>,
    other: Seq<char>,
)
    ensures
        contributes(with_sites(rows, file, sites), other) ==> contributes(rows, other) || other
            == file,
    decreases sites.len(),
{
    if sites.len() > 0 {
        lemma_sites_contribute(rows, file, sites.drop_last(), other);
        let before = with_sites(rows, file, sites.drop_last());
        let after = with_sites(rows, file, sites);
        if contributes(after, other) {
            let i = choose|i: int| 0 <= i < after.len() && (#[trigger] after[i]).file == other;
            if i < before.len() {
                assert(before[i].file == other);
            }
        }
    }
}

proof fn lemma_told_present(index: IndexView, file: Seq<char>, facts: Facts, other: Seq<char>)
    ensures
        present(told(index, file, facts), other) ==> present(index, other) || other == file,
{
    lemma_sites_contribute(others(index.defs, file), file, facts.definitions, other);
    lemma_others_contribute(index.defs, file, other);
    lemma_replaced_contribute(index.sites, file, stored_sites(facts.references), other);
    lemma_replaced_contribute(index.tags, file, stored_tags(facts.tags), other);
    lemma_replaced_contribute(index.objects, file, stored_objects(facts.object_models), other);
    lemma_replaced_contribute(index.parents, file, stored_parents(facts.object_parents), other);
}

proof fn lemma_keyed_present(
    index: IndexView,
    file: Seq<char>,
    keys: Seq<Seq<char>>,
    other: Seq<char>,
)
    ensures
        present(keyed(index, file, keys), other) ==> present(index, other) || other == file,
{
    lemma_others_contribute(index.keys, file, other);
    let kept = others(index.keys, file);
    let after = keyed(index, file, keys).keys;
    if keys.len() > 0 && contributes(after, other) {
        let i = choose|i: int| 0 <= i < after.len() && (#[trigger] after[i]).file == other;
        if i < kept.len() {
            assert(kept[i].file == other);
        }
    }
}

proof fn lemma_scanned_present(
    index: IndexView,
    scanned: Seq<ScannedView>,
    open: Seq<Seq<char>>,
    file: Seq<char>,
)
    requires
        !present(index, file),
        present(with_scanned(index, scanned, open), file),
    ensures
        !open.contains(file),
        exists|k: int| 0 <= k < scanned.len() && (#[trigger] scanned[k]).entry.file == file,
    decreases scanned.len(),
{
    if scanned.len() > 0 {
        let before = with_scanned(index, scanned.drop_last(), open);
        let entry = scanned.last().entry;
        if present(before, file) {
            lemma_scanned_present(index, scanned.drop_last(), open, file);
            let k = choose|k: int|
                0 <= k < scanned.drop_last().len() && (
                #[trigger] scanned.drop_last()[k]).entry.file == file;
            assert(scanned[k].entry.file == file);
        } else {
            lemma_told_present(before, entry.file, entry_facts(entry), file);
            lemma_replaced_contribute(before.models, entry.file, entry.models, file);
            lemma_replaced_contribute(before.animations, entry.file, entry.animations, file);
            lemma_replaced_contribute(before.assets, entry.file, entry.assets, file);
            assert(scanned[scanned.len() - 1].entry.file == file);
        }
    }
}

proof fn lemma_open_present(
    analyzer: &Analyzer,
    index: IndexView,
    open: Seq<OpenDocument>,
    file: Seq<char>,
)
    requires
        !present(index, file),
        present(with_open(analyzer, index, open), file),
    ensures
        open_files(open).contains(file),
    decreases open.len(),
{
    if open.len() > 0 {
        let before = with_open(analyzer, index, open.drop_last());
        let d = open.last();
        if present(before, file) {
            lemma_open_present(analyzer, index, open.drop_last(), file);
            let k = choose|k: int|
                0 <= k < open.drop_last().len() && open_files(open.drop_last())[k] == file;
            assert(open_files(open)[k] == file);
        } else {
            let facts = facts_of(analyzer, d.parse);
            lemma_told_present(before, d.file@, facts, file);
            lemma_keyed_present(told(before, d.file@, facts), d.file@, texts(d.string_keys@), file);
            assert(open_files(open)[open.len() - 1] == file);
        }
    }
}

/// A new scan leaves nothing of a file that it did not find and that is not
/// open.
pub proof fn law_rescan_leaves_nothing_stale(
    analyzer: &Analyzer,
    strictness: ModelMemberStrictness,
    scanned: Seq<ScannedView>,
    open: Seq<OpenDocument>,
    file: Seq<char>,
)
    requires
        present(rescanned(analyzer, strictness, scanned, open), file),
    ensures
        open_files(open).contains(file) || exists|k: int|
            0 <= k < scanned.len() && (#[trigger] scanned[k]).entry.file == file,
{
    let base = with_scanned(empty_index(strictness), scanned, open_files(open));
    if present(base, file) {
        lemma_scanned_present(empty_index(strictness), scanned, open_files(open), file);
    } else {
        lemma_open_present(analyzer, base, open, file);
    }
}

/// What definitions say, whatever casing they are displayed under.
pub open spec fn plain_defs(items: Seq<DefView>) -> Seq<(RefKind, Seq<char>, Span)> {
    items.map_values(|d: DefView| (d.kind, d.key, d.span))
}

/// What a document's definitions say.
pub open spec fn said_defs(sites: Seq<SiteOf>) -> Seq<(RefKind, Seq<char>, Span)> {
    sites.map_values(|s: SiteOf| (s.kind, lower(s.name), s.span))
}

proof fn lemma_with_sites_owned(
    rows: Seq<EntryView<DefView>>,
    file: Seq<char>,
    sites: Seq<SiteOf>,
    who: Seq<char>,
)
    ensures
        who == file ==> plain_defs(owned(with_sites(rows, file, sites), who)) == plain_defs(
            owned(rows, who),
        ) + said_defs(sites),
        who != file ==> owned(with_sites(rows, file, sites), who) == owned(rows, who),
    decreases sites.len(),
{
    if sites.len() == 0 {
        assert(plain_defs(owned(rows, who)) + said_defs(sites) =~= plain_defs(owned(rows, who)));
    } else {
        let rest = sites.drop_last();
        lemma_with_sites_owned(rows, file, rest, who);
        let before = with_sites(rows, file, rest);
        let after = with_sites(rows, file, sites);
        assert(after.drop_last() =~= before);
        if who == file {
            let item = after.last().item;
            assert(owned(after, who) == owned(before, who).push(item));
            assert(plain_defs(owned(after, who)) =~= plain_defs(owned(before, who)).push(
                (item.kind, item.key, item.span),
            ));
            assert(said_defs(sites) =~= said_defs(rest).push(
                (item.kind, item.key, item.span),
            ));
            assert(plain_defs(owned(after, who)) =~= plain_defs(owned(rows, who)) + said_defs(
                sites,
            ));
        }
    }
}

/// What the index holds of an open document is what its text says, not what was
/// found on disk.
pub proof fn law_open_document_wins(
    analyzer: &Analyzer,
    index: IndexView,
    open: Seq<OpenDocument>,
    at: int,
)
    requires
        0 <= at < open.len(),
        forall|i: int, j: int|
            0 <= i < j < open.len() ==> (#[trigger] open[i]).file@ != (#[trigger] open[j]).file@,
    ensures
        ({
            let after = with_open(analyzer, index, open);
            let file = open[at].file@;
            let facts = facts_of(analyzer, open[at].parse);
            &&& plain_defs(owned(after.defs, file)) == said_defs(facts.definitions)
            &&& owned(after.sites, file) == stored_sites(facts.references)
            &&& owned(after.tags, file) == stored_tags(facts.tags)
            &&& owned(after.objects, file) == stored_objects(facts.object_models)
            &&& owned(after.parents, file) == stored_parents(facts.object_parents)
        }),
    decreases open.len(),
{
    let rest = open.drop_last();
    let before = with_open(analyzer, index, rest);
    let d = open.last();
    let file = open[at].file@;
    let said = facts_of(analyzer, d.parse);
    if at == open.len() - 1 {
        // Any other name serves to state what the replacement leaves alone.
        let other = file.push('x');
        assert(other.len() != file.len());
        law_removed_file_is_gone(before.defs, file);
        lemma_with_sites_owned(others(before.defs, file), file, said.definitions, file);
        assert(plain_defs(owned(others(before.defs, file), file)) + said_defs(said.definitions)
            =~= said_defs(said.definitions));
        law_replacement(before.sites, file, stored_sites(said.references), other);
        law_replacement(before.tags, file, stored_tags(said.tags), other);
        law_replacement(before.objects, file, stored_objects(said.object_models), other);
        law_replacement(before.parents, file, stored_parents(said.object_parents), other);
    } else {
        assert forall|i: int, j: int| 0 <= i < j < rest.len() implies (#[trigger] rest[i]).file@
            != (#[trigger] rest[j]).file@ by {
            assert(rest[i] == open[i] && rest[j] == open[j]);
        }
        assert(rest[at] == open[at]);
        law_open_document_wins(analyzer, index, rest, at);
        assert(open[at].file@ != open[open.len() - 1].file@);
        law_removal_keeps_other_files(before.defs, d.file@, file);
        lemma_with_sites_owned(others(before.defs, d.file@), d.file@, said.definitions, file);
        law_replacement(before.sites, d.file@, stored_sites(said.references), file);
        law_replacement(before.tags, d.file@, stored_tags(said.tags), file);
        law_replacement(before.objects, d.file@, stored_objects(said.object_models), file);
        law_replacement(before.parents, d.file@, stored_parents(said.object_parents), file);
    }
}

/// What one file says changes nothing that other files say.
pub proof fn law_other_files_are_untouched(
    index: IndexView,
    file: Seq<char>,
    facts: Facts,
    other: Seq<char>,
)
    requires
        other != file,
    ensures
        ({
            let after = told(index, file, facts);
            &&& owned(after.defs, other) == owned(index.defs, other)
            &&& owned(after.sites, other) == owned(index.sites, other)
            &&& owned(after.tags, other) == owned(index.tags, other)
            &&& owned(after.objects, other) == owned(index.objects, other)
            &&& owned(after.parents, other) == owned(index.parents, other)
            &&& after.models == index.models
            &&& after.animations == index.animations
            &&& after.assets == index.assets
        }),
{
    law_removal_keeps_other_files(index.defs, file, other);
    lemma_with_sites_owned(others(index.defs, file), file, facts.definitions, other);
    law_replacement(index.sites, file, stored_sites(facts.references), other);
    law_replacement(index.tags, file, stored_tags(facts.tags), other);
    law_replacement(index.objects, file, stored_objects(facts.object_models), other);
    law_replacement(index.parents, file, stored_parents(facts.object_parents), other);
}

proof fn lemma_others_again<V>(rows: Seq<EntryView<V>>, file: Seq<char>)
    ensures
        others(others(rows, file), file) == others(rows, file),
    decreases rows.len(),
{
    if rows.len() > 0 {
        lemma_others_again(rows.drop_last(), file);
        let rest = others(rows.drop_last(), file);
        if rows.last().file != file {
            assert(rest.push(rows.last()).drop_last() =~= rest);
        }
    }
}

/// Splits a table into what `file` added and the rest.
proof fn lemma_defs_split(
    rows: Seq<EntryView<DefView>>,
    file: Seq<char>,
    defs: Seq<Definition>,
)
    requires
        others(rows, file) == rows,
        owned(rows, file) == Seq::<DefView>::empty(),
    ensures
        others(with_defs(rows, file, defs), file) == rows,
        def_names(owned(with_defs(rows, file, defs), file)) == new_names(defs),
    decreases defs.len(),
{
    let after = with_defs(rows, file, defs);
    if defs.len() == 0 {
        assert(def_names(owned(after, file)) =~= new_names(defs));
    } else {
        lemma_defs_split(rows, file, defs.drop_last());
        let before = with_defs(rows, file, defs.drop_last());
        assert(after.drop_last() =~= before);
        assert(new_names(defs) =~= new_names(defs.drop_last()).push(
            (defs.last().kind, lower(defs.last().name@)),
        ));
        assert(def_names(owned(after, file)) =~= def_names(owned(before, file)).push(
            (defs.last().kind, lower(defs.last().name@)),
        ));
    }
}

proof fn lemma_known_split(
    rows: Seq<EntryView<DefView>>,
    file: Seq<char>,
    kind: RefKind,
    key: Seq<char>,
)
    ensures
        def_known(rows, kind, key) <==> def_known(others(rows, file), kind, key) || def_names(
            owned(rows, file),
        ).contains((kind, key)),
    decreases rows.len(),
{
    if rows.len() == 0 {
        assert(def_names(owned(rows, file)) =~= Seq::empty());
    } else {
        let front = rows.drop_last();
        let last = rows.last();
        lemma_known_split(front, file, kind, key);
        assert(def_known(rows, kind, key) <==> def_known(front, kind, key) || (last.item.kind
            == kind && last.item.key == key)) by {
            if def_known(front, kind, key) {
                let i = choose|i: int|
                    0 <= i < front.len() && (#[trigger] front[i]).item.kind == kind
                        && front[i].item.key == key;
                assert(rows[i].item.key == key);
            }
            if last.item.kind == kind && last.item.key == key {
                assert(rows[rows.len() - 1].item.key == key);
            }
            if def_known(rows, kind, key) {
                let i = choose|i: int|
                    0 <= i < rows.len() && (#[trigger] rows[i]).item.kind == kind
                        && rows[i].item.key == key;
                if i < front.len() {
                    assert(front[i].item.key == key);
                }
            }
        }
        if last.file == file {
            let mine = owned(front, file);
            assert(def_names(mine.push(last.item)) =~= def_names(mine).push(
                (last.item.kind, last.item.key),
            ));
            let names = def_names(mine);
            let grown = names.push((last.item.kind, last.item.key));
            if names.contains((kind, key)) {
                let i = choose|i: int| 0 <= i < names.len() && names[i] == (kind, key);
                assert(grown[i] == (kind, key));
            }
            if last.item.kind == kind && last.item.key == key {
                assert(grown[names.len() as int] == (kind, key));
            }
            if grown.contains((kind, key)) {
                let i = choose|i: int| 0 <= i < grown.len() && grown[i] == (kind, key);
                if i < names.len() {
                    assert(names[i] == (kind, key));
                }
            }
        } else {
            let kept = others(front, file);
            let grown = kept.push(last);
            if def_known(kept, kind, key) {
                let i = choose|i: int|
                    0 <= i < kept.len() && (#[trigger] kept[i]).item.kind == kind
                        && kept[i].item.key == key;
                assert(grown[i].item.key == key);
            }
            if last.item.kind == kind && last.item.key == key {
                assert(grown[kept.len() as int].item.key == key);
            }
            if def_known(grown, kind, key) {
                let i = choose|i: int|
                    0 <= i < grown.len() && (#[trigger] grown[i]).item.kind == kind
                        && grown[i].item.key == key;
                if i < kept.len() {
                    assert(kept[i].item.key == key);
                }
            }
        }
    }
}

/// After a file's definitions were replaced, a name is defined exactly where
/// another file defines it or the file now does.
pub proof fn law_definitions_follow_the_file(
    rows: Seq<EntryView<DefView>>,
    file: Seq<char>,
    defs: Seq<Definition>,
    kind: RefKind,
    key: Seq<char>,
)
    ensures
        def_known(with_defs(others(rows, file), file, defs), kind, key) <==> def_known(
            others(rows, file),
            kind,
            key,
        ) || new_names(defs).contains((kind, key)),
{
    lemma_others_again(rows, file);
    law_removed_file_is_gone(rows, file);
    lemma_defs_split(others(rows, file), file, defs);
    lemma_known_split(with_defs(others(rows, file), file, defs), file, kind, key);
}

/// An edit that keeps a file's list of names, and so the generation, leaves
/// every name as defined or undefined as it was.
pub proof fn law_same_names_resolve_alike(
    rows: Seq<EntryView<DefView>>,
    file: Seq<char>,
    defs: Seq<Definition>,
    kind: RefKind,
    key: Seq<char>,
)
    requires
        def_names(owned(rows, file)) == new_names(defs),
    ensures
        def_known(with_defs(others(rows, file), file, defs), kind, key) == def_known(
            rows,
            kind,
            key,
        ),
{
    law_definitions_follow_the_file(rows, file, defs, kind, key);
    lemma_known_split(rows, file, kind, key);
}

proof fn lemma_told_names(rows: Seq<EntryView<DefView>>, file: Seq<char>, sites: Seq<SiteOf>)
    requires
        owned(rows, file).len() == 0,
    ensures
        def_names(owned(with_sites(rows, file, sites), file)) == site_names(sites),
    decreases sites.len(),
{
    if sites.len() > 0 {
        let before = with_sites(rows, file, sites.drop_last());
        let all = with_sites(rows, file, sites);
        lemma_told_names(rows, file, sites.drop_last());
        assert(all.drop_last() =~= before);
        let mine = owned(before, file);
        assert(owned(all, file) == mine.push(all.last().item));
        let last = sites.last();
        assert(def_names(mine.push(all.last().item)) =~= def_names(mine).push(
            (last.kind, lower(last.name)),
        ));
        assert(site_names(sites) =~= site_names(sites.drop_last()).push(
            (last.kind, lower(last.name)),
        ));
    } else {
        assert(def_names(owned(rows, file)) =~= site_names(sites));
    }
}

/// A file that says the same again leaves the generation.
pub proof fn law_saying_the_same_keeps_the_generation(
    index: IndexView,
    file: Seq<char>,
    facts: Facts,
)
    ensures
        told(told(index, file, facts), file, facts).generation == told(
            index,
            file,
            facts,
        ).generation,
{
    let other = file.push('a');
    assert(other.len() != file.len());
    law_removed_file_is_gone(index.defs, file);
    lemma_told_names(others(index.defs, file), file, facts.definitions);
    law_replacement(index.tags, file, stored_tags(facts.tags), other);
    law_replacement(index.objects, file, stored_objects(facts.object_models), other);
    law_replacement(index.parents, file, stored_parents(facts.object_parents), other);
}

/// A file without models, assets and animations counts as INI.
pub open spec fn is_ini(entry: ScanEntryView) -> bool {
    entry.models.len() == 0 && entry.assets.len() == 0 && entry.animations.len() == 0
}

/// How many of the scanned files are INI files; with `base_only`, of those
/// that belong to the game data.
pub open spec fn ini_count(scanned: Seq<ScannedView>, base_only: bool) -> nat
    decreases scanned.len(),
{
    if scanned.len() == 0 {
        0
    } else {
        let s = scanned.last();
        ini_count(scanned.drop_last(), base_only) + (if is_ini(s.entry) && (s.is_base
            || !base_only) {
            1nat
        } else {
            0nat
        })
    }
}

pub open spec fn model_count(scanned: Seq<ScannedView>) -> nat
    decreases scanned.len(),
{
    if scanned.len() == 0 {
        0
    } else {
        model_count(scanned.drop_last()) + scanned.last().entry.models.len()
    }
}

pub open spec fn kind_count(assets: Seq<AssetView>, kind: AssetKind) -> nat
    decreases assets.len(),
{
    if assets.len() == 0 {
        0
    } else {
        kind_count(assets.drop_last(), kind) + (if assets.last().kind == kind {
            1nat
        } else {
            0nat
        })
    }
}

pub open spec fn asset_count(scanned: Seq<ScannedView>, kind: AssetKind) -> nat
    decreases scanned.len(),
{
    if scanned.len() == 0 {
        0
    } else {
        asset_count(scanned.drop_last(), kind) + kind_count(scanned.last().entry.assets, kind)
    }
}

/// What a scan found, by kind.
#[derive(Debug, Clone, Copy, PartialEq, Eq, Structural)]
pub struct ScanTotals {
    pub base_ini: usize,
    pub ini: usize,
    pub models: usize,
    pub audio: usize,
    pub textures: usize,
}

proof fn lemma_counts_grow(scanned: Seq<ScannedView>, k: int)
    requires
        0 <= k <= scanned.len(),
    ensures
        ini_count(scanned.take(k), true) <= ini_count(scanned.take(k), false) <= k,
        model_count(scanned.take(k)) <= model_count(scanned),
        asset_count(scanned.take(k), AssetKind::Audio) <= asset_count(scanned, AssetKind::Audio),
        asset_count(scanned.take(k), AssetKind::Texture) <= asset_count(
            scanned,
            AssetKind::Texture,
        ),
    decreases scanned.len(), k,
{
    if k < scanned.len() {
        lemma_counts_grow(scanned.drop_last(), k);
        assert(scanned.drop_last().take(k) =~= scanned.take(k));
    } else {
        assert(scanned.take(k) =~= scanned);
        if k > 0 {
            lemma_counts_grow(scanned.drop_last(), k - 1);
            assert(scanned.drop_last().take(k - 1) =~= scanned.drop_last());
        }
    }
}

fn count_kind(assets: &Vec<crate::index::FileAsset>, kind: AssetKind) -> (r: usize)
    ensures
        r == kind_count(views(assets@), kind),
        r <= assets@.len(),
{
    let ghost all = views(assets@);
    let mut n: usize = 0;
    let mut i: usize = 0;
    assert(all.take(0) =~= Seq::empty());
    while i < assets.len()
        invariant
            i <= assets.len(),
            n <= i,
            all == views(assets@),
            n == kind_count(all.take(i as int), kind),
        decreases assets.len() - i,
    {
        assert(all.take(i + 1).drop_last() =~= all.take(i as int));
        if assets[i].kind == kind {
            n += 1;
        }
        i += 1;
    }
    assert(all.take(i as int) =~= all);
    n
}

/// Counts what a scan found.
pub fn scan_totals(scanned: &Vec<Scanned>) -> (r: ScanTotals)
    requires
        model_count(views(scanned@)) <= usize::MAX,
        asset_count(views(scanned@), AssetKind::Audio) <= usize::MAX,
        asset_count(views(scanned@), AssetKind::Texture) <= usize::MAX,
    ensures
        r.base_ini == ini_count(views(scanned@), true),
        r.ini == ini_count(views(scanned@), false),
        r.models == model_count(views(scanned@)),
        r.audio == asset_count(views(scanned@), AssetKind::Audio),
        r.textures == asset_count(views(scanned@), AssetKind::Texture),
{
    let ghost all = views(scanned@);
    let mut t = ScanTotals { base_ini: 0, ini: 0, models: 0, audio: 0, textures: 0 };
    let mut i: usize = 0;
    assert(all.take(0) =~= Seq::empty());
    while i < scanned.len()
        invariant
            i <= scanned.len(),
            all == views(scanned@),
            model_count(all) <= usize::MAX,
            asset_count(all, AssetKind::Audio) <= usize::MAX,
            asset_count(all, AssetKind::Texture) <= usize::MAX,
            t.base_ini <= t.ini <= i,
            t.base_ini == ini_count(all.take(i as int), true),
            t.ini == ini_count(all.take(i as int), false),
            t.models == model_count(all.take(i as int)),
            t.audio == asset_count(all.take(i as int), AssetKind::Audio),
            t.textures == asset_count(all.take(i as int), AssetKind::Texture),
        decreases scanned.len() - i,
    {
        proof {
            assert(all.take(i + 1).drop_last() =~= all.take(i as int));
            assert(all[i as int] == scanned@[i as int]@);
            lemma_counts_grow(all, i + 1);
        }
        let entry = &scanned[i].entry;
        if entry.models.len() == 0 && entry.assets.len() == 0 && entry.animations.len() == 0 {
            t.ini = t.ini + 1;
            if scanned[i].is_base {
                t.base_ini = t.base_ini + 1;
            }
        }
        t.models = t.models + entry.models.len();
        t.audio = t.audio + count_kind(&entry.assets, AssetKind::Audio);
        t.textures = t.textures + count_kind(&entry.assets, AssetKind::Texture);
        i += 1;
    }
    assert(all.take(i as int) =~= all);
    t
}

/// The texts of scanned files that have no document of their own, in order.
pub open spec fn virtual_texts(scanned: Seq<ScannedView>) -> Seq<(Seq<char>, Seq<char>)>
    decreases scanned.len(),
{
    if scanned.len() == 0 {
        Seq::empty()
    } else {
        let entry = scanned.last().entry;
        match entry.text {
            Some(text) => virtual_texts(scanned.drop_last()).push((entry.file, text)),
            None => virtual_texts(scanned.drop_last()),
        }
    }
}

/// Collects the texts that can be read without a file.
pub fn virtual_files(scanned: &Vec<Scanned>) -> (r: Vec<(String, String)>)
    ensures
        pair_texts(r@) == virtual_texts(views(scanned@)),
{
    let ghost all = views(scanned@);
    let mut out: Vec<(String, String)> = Vec::new();
    let mut i: usize = 0;
    assert(all.take(0) =~= Seq::empty());
    assert(pair_texts(out@) =~= Seq::empty());
    while i < scanned.len()
        invariant
            i <= scanned.len(),
            all == views(scanned@),
            pair_texts(out@) == virtual_texts(all.take(i as int)),
        decreases scanned.len() - i,
    {
        assert(all.take(i + 1).drop_last() =~= all.take(i as int));
        let ghost before = pair_texts(out@);
        let entry = &scanned[i].entry;
        if let Some(text) = &entry.text {
            out.push((entry.file.clone(), text.clone()));
            assert(pair_texts(out@) =~= before.push((entry.file@, text@)));
        }
        i += 1;
    }
    assert(all.take(i as int) =~= all);
    out
}

} // verus!
