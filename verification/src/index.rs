//! Cross-file symbol index: which named definitions exist across the
//! workspace, and where. Powers reference diagnostics, reference completions
//! and navigation.
//!
//! Every table holds contributions in the order in which they were made, so
//! one file's part can be replaced on its own. Names are looked up without
//! regard to ASCII case, as the engine does.

use vstd::prelude::*;
use vstd::string::*;

use crate::model::contains_text;
use crate::order::{
    deduped, dedup_neighbours, le_list, le_text, list_le, sort, sorted, text_le, views, Ranked,
};
use crate::schema::RefKind;
use crate::syntax::Span;
use crate::table::{
    contributes, drop_file, entries, has_file, others, owned, push_entry, tagged, Entry, EntryView,
};
use crate::text::{
    eq_ci, last_part, last_part_of, lower, lowers_to, rsplit_once, same, same_ci, split_at_last,
    texts, to_lower,
};

verus! {

#[derive(Debug, Clone, Copy, PartialEq, Eq, Hash, Structural)]
pub enum AssetKind {
    Audio,
    Texture,
}

/// A raw asset file.
#[derive(Debug, PartialEq, Eq)]
pub struct FileAsset {
    pub kind: AssetKind,
    pub name: String,
    pub uri: String,
}

/// The model of a [`FileAsset`].
pub struct AssetView {
    pub kind: AssetKind,
    pub name: Seq<char>,
    pub uri: Seq<char>,
}

impl View for FileAsset {
    type V = AssetView;

    open spec fn view(&self) -> AssetView {
        AssetView { kind: self.kind, name: self.name@, uri: self.uri@ }
    }
}

impl FileAsset {
    pub fn copy(&self) -> (r: FileAsset)
        ensures
            r@ == self@,
    {
        FileAsset { kind: self.kind, name: self.name.clone(), uri: self.uri.clone() }
    }
}

/// Model data discovered from a W3D asset.
#[derive(Debug, PartialEq, Eq)]
pub struct ModelAsset {
    pub name: String,
    pub members: Vec<String>,
    /// The skeleton that the model is bound to.
    pub hierarchy: Option<String>,
}

/// The model of a [`ModelAsset`].
pub struct ModelView {
    pub name: Seq<char>,
    pub members: Seq<Seq<char>>,
    pub hierarchy: Option<Seq<char>>,
}

/// The view of an optional string.
pub open spec fn opt_text(text: Option<String>) -> Option<Seq<char>> {
    match text {
        Some(t) => Some(t@),
        None => None,
    }
}

impl View for ModelAsset {
    type V = ModelView;

    open spec fn view(&self) -> ModelView {
        ModelView {
            name: self.name@,
            members: texts(self.members@),
            hierarchy: opt_text(self.hierarchy),
        }
    }
}

/// An animation discovered from a W3D asset.
#[derive(Debug, PartialEq, Eq)]
pub struct AnimationAsset {
    pub name: String,
    /// The skeleton that the animation moves.
    pub hierarchy: String,
}

/// The model of an [`AnimationAsset`].
pub struct AnimationView {
    pub name: Seq<char>,
    pub hierarchy: Seq<char>,
}

impl View for AnimationAsset {
    type V = AnimationView;

    open spec fn view(&self) -> AnimationView {
        AnimationView { name: self.name@, hierarchy: self.hierarchy@ }
    }
}

/// A definition's location within a file.
#[derive(Debug, PartialEq, Eq)]
pub struct Location {
    pub file: String,
    pub span: Span,
}

/// The model of a [`Location`].
pub struct LocationView {
    pub file: Seq<char>,
    pub span: Span,
}

impl View for Location {
    type V = LocationView;

    open spec fn view(&self) -> LocationView {
        LocationView { file: self.file@, span: self.span }
    }
}

/// A named definition discovered in a document.
#[derive(Debug)]
pub struct Definition {
    pub name: String,
    pub kind: RefKind,
    pub span: Span,
}

/// A place where a definition is referenced.
#[derive(Debug)]
pub struct ReferenceSite {
    pub name: String,
    pub kind: RefKind,
    pub span: Span,
}

/// A module tag declared on an Object, or named by its `RemoveModule`.
#[derive(Debug)]
pub struct ModuleTagDefinition {
    pub object: String,
    pub name: String,
    pub span: Span,
    pub is_reference: bool,
    /// The header of the module that declares the tag.
    pub snippet: String,
}

/// The model of a [`ModuleTagDefinition`].
pub struct TagView {
    pub object: Seq<char>,
    pub name: Seq<char>,
    pub span: Span,
    pub is_reference: bool,
    pub snippet: Seq<char>,
}

impl View for ModuleTagDefinition {
    type V = TagView;

    open spec fn view(&self) -> TagView {
        TagView {
            object: self.object@,
            name: self.name@,
            span: self.span,
            is_reference: self.is_reference,
            snippet: self.snippet@,
        }
    }
}

#[derive(Debug, Clone, Copy, PartialEq, Eq, Structural)]
pub enum ModelMemberStrictness {
    Off,
    Compatible,
    Strict,
}

impl Default for ModelMemberStrictness {
    fn default() -> (r: ModelMemberStrictness)
        ensures
            r == ModelMemberStrictness::Compatible,
    {
        ModelMemberStrictness::Compatible
    }
}

/// A stored definition: its lookup key and the casing to display.
pub struct DefItem {
    pub kind: RefKind,
    pub key: String,
    pub display: String,
    pub span: Span,
}

/// The model of a [`DefItem`].
pub struct DefView {
    pub kind: RefKind,
    pub key: Seq<char>,
    pub display: Seq<char>,
    pub span: Span,
}

impl View for DefItem {
    type V = DefView;

    open spec fn view(&self) -> DefView {
        DefView { kind: self.kind, key: self.key@, display: self.display@, span: self.span }
    }
}

/// A stored reference site.
pub struct SiteItem {
    pub kind: RefKind,
    pub key: String,
    pub span: Span,
}

/// The model of a [`SiteItem`].
pub struct SiteView {
    pub kind: RefKind,
    pub key: Seq<char>,
    pub span: Span,
}

impl View for SiteItem {
    type V = SiteView;

    open spec fn view(&self) -> SiteView {
        SiteView { kind: self.kind, key: self.key@, span: self.span }
    }
}

/// The models that one Object definition names. The object is in lower case.
pub struct ObjectModels {
    pub object: String,
    pub models: Vec<String>,
}

/// The model of an [`ObjectModels`].
pub struct ObjectModelsView {
    pub object: Seq<char>,
    pub models: Seq<Seq<char>>,
}

impl View for ObjectModels {
    type V = ObjectModelsView;

    open spec fn view(&self) -> ObjectModelsView {
        ObjectModelsView { object: self.object@, models: texts(self.models@) }
    }
}

/// An Object definition's parent, both in lower case.
pub struct ObjectParent {
    pub child: String,
    pub parent: String,
}

/// The model of an [`ObjectParent`].
pub struct ParentView {
    pub child: Seq<char>,
    pub parent: Seq<char>,
}

impl View for ObjectParent {
    type V = ParentView;

    open spec fn view(&self) -> ParentView {
        ParentView { child: self.child@, parent: self.parent@ }
    }
}

/// String keys that one INI file gets from its companion table.
pub struct StringKeys {
    pub keys: Vec<String>,
}

impl View for StringKeys {
    type V = Seq<Seq<char>>;

    open spec fn view(&self) -> Seq<Seq<char>> {
        texts(self.keys@)
    }
}

/// The results of `f` on the rows that have one, in order.
pub open spec fn picked<A, B>(rows: Seq<A>, f: spec_fn(A) -> Option<B>) -> Seq<B>
    decreases rows.len(),
{
    if rows.len() == 0 {
        Seq::empty()
    } else {
        let rest = picked(rows.drop_last(), f);
        match f(rows.last()) {
            Some(b) => rest.push(b),
            None => rest,
        }
    }
}

/// The value that counts after a change.
pub open spec fn next_generation(generation: u64) -> u64 {
    if generation == u64::MAX {
        0
    } else {
        (generation + 1) as u64
    }
}

fn bump(generation: u64) -> (r: u64)
    ensures
        r == next_generation(generation),
{
    if generation == u64::MAX {
        0
    } else {
        generation + 1
    }
}

/// Workspace-wide symbol table.
pub struct WorkspaceIndex {
    pub defs: Vec<Entry<DefItem>>,
    pub sites: Vec<Entry<SiteItem>>,
    pub tags: Vec<Entry<ModuleTagDefinition>>,
    pub string_keys: Vec<Entry<StringKeys>>,
    pub models: Vec<Entry<ModelAsset>>,
    pub animations: Vec<Entry<AnimationAsset>>,
    pub assets: Vec<Entry<FileAsset>>,
    pub object_models: Vec<Entry<ObjectModels>>,
    pub object_parents: Vec<Entry<ObjectParent>>,
    pub strictness: ModelMemberStrictness,
    pub generation: u64,
}

/// The location of an entry of that kind and key.
pub open spec fn def_location(kind: RefKind, key: Seq<char>) -> spec_fn(
    EntryView<DefView>,
) -> Option<LocationView> {
    |e: EntryView<DefView>|
        if e.item.kind == kind && e.item.key == key {
            Some(LocationView { file: e.file, span: e.item.span })
        } else {
            None
        }
}

/// The location of a reference site of that kind and key.
pub open spec fn site_location(kind: RefKind, key: Seq<char>) -> spec_fn(
    EntryView<SiteView>,
) -> Option<LocationView> {
    |e: EntryView<SiteView>|
        if e.item.kind == kind && e.item.key == key {
            Some(LocationView { file: e.file, span: e.item.span })
        } else {
            None
        }
}

/// The kind and key of each definition.
pub open spec fn def_names(items: Seq<DefView>) -> Seq<(RefKind, Seq<char>)> {
    items.map_values(|d: DefView| (d.kind, d.key))
}

/// The kind and key that each new definition gets.
pub open spec fn new_names(defs: Seq<Definition>) -> Seq<(RefKind, Seq<char>)> {
    defs.map_values(|d: Definition| (d.kind, lower(d.name@)))
}

/// The casing under which a kind and key are displayed: that of the entry
/// present, else the one now written.
pub open spec fn display_of(
    rows: Seq<EntryView<DefView>>,
    kind: RefKind,
    key: Seq<char>,
    written: Seq<char>,
) -> Seq<char>
    decreases rows.len(),
{
    if rows.len() == 0 {
        written
    } else if rows.last().item.kind == kind && rows.last().item.key == key {
        rows.last().item.display
    } else {
        display_of(rows.drop_last(), kind, key, written)
    }
}

/// The definitions after `file` adds `defs`.
pub open spec fn with_defs(
    rows: Seq<EntryView<DefView>>,
    file: Seq<char>,
    defs: Seq<Definition>,
) -> Seq<EntryView<DefView>>
    decreases defs.len(),
{
    if defs.len() == 0 {
        rows
    } else {
        let before = with_defs(rows, file, defs.drop_last());
        let d = defs.last();
        before.push(
            EntryView {
                file,
                item: DefView {
                    kind: d.kind,
                    key: lower(d.name@),
                    display: display_of(before, d.kind, lower(d.name@), d.name@),
                    span: d.span,
                },
            },
        )
    }
}

/// The items that reference sites are stored as.
pub open spec fn site_items(refs: Seq<ReferenceSite>) -> Seq<SiteView> {
    refs.map_values(
        |r: ReferenceSite| SiteView { kind: r.kind, key: lower(r.name@), span: r.span },
    )
}

/// `s` without later repetitions up to ASCII case.
pub open spec fn dedup_ci(s: Seq<Seq<char>>) -> Seq<Seq<char>>
    decreases s.len(),
{
    if s.len() == 0 {
        s
    } else {
        let rest = dedup_ci(s.drop_last());
        if crate::model::any_ci(rest, s.last()) {
            rest
        } else {
            rest.push(s.last())
        }
    }
}

/// A model with its members free of repetitions.
pub open spec fn dedup_model(m: ModelView) -> ModelView {
    ModelView { members: dedup_ci(m.members), ..m }
}

/// A name with its sorted, distinct values, all in lower case.
pub struct NamedSet {
    pub name: String,
    pub values: Vec<String>,
}

impl View for NamedSet {
    type V = (Seq<char>, Seq<Seq<char>>);

    open spec fn view(&self) -> (Seq<char>, Seq<Seq<char>>) {
        (self.name@, texts(self.values@))
    }
}

impl Ranked for NamedSet {
    open spec fn at_most(a: (Seq<char>, Seq<Seq<char>>), b: (Seq<char>, Seq<Seq<char>>)) -> bool {
        if a.0 == b.0 {
            list_le(a.1, b.1)
        } else {
            text_le(a.0, b.0)
        }
    }

    fn is_at_most(&self, other: &Self) -> (r: bool) {
        if same(self.name.as_str(), other.name.as_str()) {
            le_list(&self.values, &other.values)
        } else {
            le_text(self.name.as_str(), other.name.as_str())
        }
    }
}

/// Every text in lower case.
pub open spec fn lowers(s: Seq<Seq<char>>) -> Seq<Seq<char>> {
    s.map_values(|t: Seq<char>| lower(t))
}

/// A name with its values sorted, distinct and in lower case.
pub open spec fn named_set(name: Seq<char>, values: Seq<Seq<char>>) -> (
    Seq<char>,
    Seq<Seq<char>>,
) {
    (lower(name), deduped(sorted::<String>(lowers(values))))
}

/// Models up to the order and casing of names and members.
pub open spec fn normal_models(models: Seq<ModelView>) -> Seq<(Seq<char>, Seq<Seq<char>>)> {
    sorted::<NamedSet>(models.map_values(|m: ModelView| named_set(m.name, m.members)))
}

/// Objects' models up to the order and casing of names.
pub open spec fn normal_objects(objects: Seq<ObjectModelsView>) -> Seq<
    (Seq<char>, Seq<Seq<char>>),
> {
    sorted::<NamedSet>(objects.map_values(|o: ObjectModelsView| named_set(o.object, o.models)))
}

/// The items that an Object's models are stored as.
pub open spec fn object_items(objects: Seq<(String, Vec<String>)>) -> Seq<ObjectModelsView> {
    objects.map_values(
        |o: (String, Vec<String>)| ObjectModelsView { object: lower(o.0@), models: texts(o.1@) },
    )
}

/// The items that Object parents are stored as.
pub open spec fn parent_items(parents: Seq<(String, String)>) -> Seq<ParentView> {
    parents.map_values(
        |p: (String, String)| ParentView { child: lower(p.0@), parent: lower(p.1@) },
    )
}

/// The items that module tags are stored as.
pub open spec fn tag_items(tags: Seq<ModuleTagDefinition>) -> Seq<TagView> {
    tags.map_values(|t: ModuleTagDefinition| TagView { object: lower(t.object@), ..t@ })
}

/// The object and lower-case name of a declared tag.
pub open spec fn declared_tag() -> spec_fn(TagView) -> Option<(Seq<char>, Seq<Seq<char>>)> {
    |t: TagView|
        if t.is_reference {
            None
        } else {
            Some((t.object, seq![lower(t.name)]))
        }
}

/// Declared tags up to order and casing.
pub open spec fn normal_tags(tags: Seq<TagView>) -> Seq<(Seq<char>, Seq<Seq<char>>)> {
    sorted::<NamedSet>(picked(tags, declared_tag()))
}

/// Whether an asset of that kind and lower-case name is in the table.
pub open spec fn asset_known(
    rows: Seq<EntryView<AssetView>>,
    kind: AssetKind,
    key: Seq<char>,
) -> bool {
    exists|i: int|
        0 <= i < rows.len() && (#[trigger] rows[i]).item.kind == kind && lower(rows[i].item.name)
            == key
}

/// Whether some asset of the list is known to one table and not to the other.
pub open spec fn asset_flips(
    before: Seq<EntryView<AssetView>>,
    after: Seq<EntryView<AssetView>>,
    assets: Seq<AssetView>,
) -> bool {
    exists|i: int|
        0 <= i < assets.len() && asset_known(
            before,
            (#[trigger] assets[i]).kind,
            lower(assets[i].name),
        ) != asset_known(after, assets[i].kind, lower(assets[i].name))
}

/// The file name without directories and extension, in lower case.
pub open spec fn stem_of(name: Seq<char>) -> Seq<char> {
    let file = last_part(name, '/', '\\');
    match rsplit_once(file, '.') {
        Some((stem, _)) => lower(stem),
        None => lower(file),
    }
}

/// Files that the engine merges over existing definitions.
pub open spec fn override_layer(file: Seq<char>) -> bool {
    let name = last_part(file, '/', '\\');
    same_ci(name, "map.ini"@) || same_ci(name, "solo.ini"@)
}

/// Map-shipped `map.ini` and `solo.ini`: a block there that redefines an
/// existing name is merged over a copy of the existing definition.
pub fn is_override_layer(file: &str) -> (r: bool)
    ensures
        r == override_layer(file@),
{
    let name = last_part_of(file, '/', '\\');
    eq_ci(name, "map.ini") || eq_ci(name, "solo.ini")
}

/// The stem under which an asset is looked up.
pub fn asset_stem(name: &str) -> (r: String)
    ensures
        r@ == stem_of(name@),
{
    let file = last_part_of(name, '/', '\\');
    match split_at_last(file, '.') {
        Some((stem, _extension)) => to_lower(stem),
        None => to_lower(file),
    }
}

/// Drops later repetitions up to ASCII case.
pub fn dedup_case_insensitive(values: Vec<String>) -> (r: Vec<String>)
    ensures
        texts(r@) == dedup_ci(texts(values@)),
{
    let mut out: Vec<String> = Vec::new();
    let mut i: usize = 0;
    while i < values.len()
        invariant
            i <= values.len(),
            texts(out@) == dedup_ci(texts(values@).take(i as int)),
        decreases values.len() - i,
    {
        let ghost before = texts(out@);
        assert(texts(values@).take(i + 1).drop_last() =~= texts(values@).take(i as int));
        if !holds_ci(&out, values[i].as_str()) {
            out.push(values[i].clone());
            assert(texts(out@) =~= before.push(values@[i as int]@));
        }
        i += 1;
    }
    assert(texts(values@).take(i as int) =~= texts(values@));
    out
}

/// Whether the list holds the text up to ASCII case.
pub fn holds_ci(list: &Vec<String>, value: &str) -> (r: bool)
    ensures
        r == crate::model::any_ci(texts(list@), value@),
{
    let mut i: usize = 0;
    while i < list.len()
        invariant
            i <= list.len(),
            forall|k: int| 0 <= k < i ==> !same_ci(#[trigger] texts(list@)[k], value@),
        decreases list.len() - i,
    {
        if eq_ci(list[i].as_str(), value) {
            assert(same_ci(texts(list@)[i as int], value@));
            return true;
        }
        i += 1;
    }
    false
}

fn make_named_set(name: &str, values: &Vec<String>) -> (r: NamedSet)
    ensures
        r@ == named_set(name@, texts(values@)),
{
    let mut low: Vec<String> = Vec::new();
    let mut i: usize = 0;
    while i < values.len()
        invariant
            i <= values.len(),
            low.len() == i,
            forall|k: int| 0 <= k < i ==> (#[trigger] low@[k])@ == lower(values@[k]@),
        decreases values.len() - i,
    {
        low.push(to_lower(values[i].as_str()));
        i += 1;
    }
    assert(views(low@) =~= lowers(texts(values@)));
    let ordered = sort(low);
    assert(texts(ordered@) =~= views(ordered@));
    NamedSet { name: to_lower(name), values: dedup_neighbours(ordered) }
}

fn same_list(a: &Vec<String>, b: &Vec<String>) -> (r: bool)
    ensures
        r == (texts(a@) == texts(b@)),
{
    if a.len() != b.len() {
        assert(texts(a@).len() != texts(b@).len());
        return false;
    }
    let mut i: usize = 0;
    while i < a.len()
        invariant
            i <= a.len(),
            a.len() == b.len(),
            forall|k: int| 0 <= k < i ==> texts(a@)[k] == texts(b@)[k],
        decreases a.len() - i,
    {
        if !same(a[i].as_str(), b[i].as_str()) {
            assert(texts(a@)[i as int] != texts(b@)[i as int]);
            return false;
        }
        i += 1;
    }
    assert(texts(a@) =~= texts(b@));
    true
}

fn same_sets(a: &Vec<NamedSet>, b: &Vec<NamedSet>) -> (r: bool)
    ensures
        r == (views(a@) == views(b@)),
{
    if a.len() != b.len() {
        assert(views(a@).len() != views(b@).len());
        return false;
    }
    let mut i: usize = 0;
    while i < a.len()
        invariant
            i <= a.len(),
            a.len() == b.len(),
            forall|k: int| 0 <= k < i ==> views(a@)[k] == views(b@)[k],
        decreases a.len() - i,
    {
        if !(same(a[i].name.as_str(), b[i].name.as_str()) && same_list(
            &a[i].values,
            &b[i].values,
        )) {
            assert(views(a@)[i as int] != views(b@)[i as int]);
            return false;
        }
        i += 1;
    }
    assert(views(a@) =~= views(b@));
    true
}

/// Models up to the order and casing of names and members.
pub fn normalized_model_assets(models: &Vec<&ModelAsset>) -> (r: Vec<NamedSet>)
    ensures
        views(r@) == normal_models(models@.map_values(|m: &ModelAsset| m@)),
{
    let ghost list = models@.map_values(|m: &ModelAsset| m@);
    let mut out: Vec<NamedSet> = Vec::new();
    let mut i: usize = 0;
    while i < models.len()
        invariant
            i <= models.len(),
            out.len() == i,
            forall|k: int|
                0 <= k < i ==> (#[trigger] out@[k])@ == named_set(
                    models@[k].name@,
                    texts(models@[k].members@),
                ),
        decreases models.len() - i,
    {
        out.push(make_named_set(models[i].name.as_str(), &models[i].members));
        i += 1;
    }
    assert(views(out@) =~= list.map_values(|m: ModelView| named_set(m.name, m.members)));
    sort(out)
}

fn normalize_object_models(objects: &Vec<&ObjectModels>) -> (r: Vec<NamedSet>)
    ensures
        views(r@) == normal_objects(objects@.map_values(|o: &ObjectModels| o@)),
{
    let ghost list = objects@.map_values(|o: &ObjectModels| o@);
    let mut out: Vec<NamedSet> = Vec::new();
    let mut i: usize = 0;
    while i < objects.len()
        invariant
            i <= objects.len(),
            out.len() == i,
            forall|k: int|
                0 <= k < i ==> (#[trigger] out@[k])@ == named_set(
                    objects@[k].object@,
                    texts(objects@[k].models@),
                ),
        decreases objects.len() - i,
    {
        out.push(make_named_set(objects[i].object.as_str(), &objects[i].models));
        i += 1;
    }
    assert(views(out@) =~= list.map_values(
        |o: ObjectModelsView| named_set(o.object, o.models),
    ));
    sort(out)
}

fn normalize_object_tags(tags: &Vec<&ModuleTagDefinition>) -> (r: Vec<NamedSet>)
    ensures
        views(r@) == normal_tags(tags@.map_values(|t: &ModuleTagDefinition| t@)),
{
    let ghost list = tags@.map_values(|t: &ModuleTagDefinition| t@);
    let mut out: Vec<NamedSet> = Vec::new();
    let mut i: usize = 0;
    while i < tags.len()
        invariant
            i <= tags.len(),
            list == tags@.map_values(|t: &ModuleTagDefinition| t@),
            views(out@) == picked(list.take(i as int), declared_tag()),
        decreases tags.len() - i,
    {
        let ghost before = views(out@);
        assert(list.take(i + 1).drop_last() =~= list.take(i as int));
        if !tags[i].is_reference {
            let mut values: Vec<String> = Vec::new();
            values.push(to_lower(tags[i].name.as_str()));
            assert(texts(values@) =~= seq![lower(tags@[i as int].name@)]);
            let item = NamedSet { name: tags[i].object.clone(), values };
            out.push(item);
            assert(views(out@) =~= before.push(item@));
        }
        i += 1;
    }
    assert(list.take(i as int) =~= list);
    sort(out)
}

/// References to the items that one file contributed.
fn items_of<'a, T: View>(rows: &'a Vec<Entry<T>>, file: &str) -> (r: Vec<&'a T>)
    ensures
        r@.map_values(|x: &T| x@) == owned(entries(rows@), file@),
{
    let mut out: Vec<&'a T> = Vec::new();
    let mut i: usize = 0;
    while i < rows.len()
        invariant
            i <= rows.len(),
            out@.map_values(|x: &T| x@) == owned(entries(rows@).take(i as int), file@),
        decreases rows.len() - i,
    {
        let ghost before = out@.map_values(|x: &T| x@);
        assert(entries(rows@).take(i + 1).drop_last() =~= entries(rows@).take(i as int));
        if same(rows[i].file.as_str(), file) {
            out.push(&rows[i].item);
            assert(out@.map_values(|x: &T| x@) =~= before.push(rows@[i as int].item@));
        }
        i += 1;
    }
    assert(entries(rows@).take(i as int) =~= entries(rows@));
    out
}

impl WorkspaceIndex {
    pub open spec fn def_rows(&self) -> Seq<EntryView<DefView>> {
        entries(self.defs@)
    }

    pub open spec fn site_rows(&self) -> Seq<EntryView<SiteView>> {
        entries(self.sites@)
    }

    pub open spec fn tag_rows(&self) -> Seq<EntryView<TagView>> {
        entries(self.tags@)
    }

    pub open spec fn model_rows(&self) -> Seq<EntryView<ModelView>> {
        entries(self.models@)
    }

    pub open spec fn animation_rows(&self) -> Seq<EntryView<AnimationView>> {
        entries(self.animations@)
    }

    pub open spec fn asset_rows(&self) -> Seq<EntryView<AssetView>> {
        entries(self.assets@)
    }

    pub open spec fn object_rows(&self) -> Seq<EntryView<ObjectModelsView>> {
        entries(self.object_models@)
    }

    pub open spec fn parent_rows(&self) -> Seq<EntryView<ParentView>> {
        entries(self.object_parents@)
    }

    pub open spec fn key_rows(&self) -> Seq<EntryView<Seq<Seq<char>>>> {
        entries(self.string_keys@)
    }

    /// An index without contributions.
    pub fn new() -> (r: WorkspaceIndex)
        ensures
            r.defs@.len() == 0,
            r.sites@.len() == 0,
            r.tags@.len() == 0,
            r.string_keys@.len() == 0,
            r.models@.len() == 0,
            r.animations@.len() == 0,
            r.assets@.len() == 0,
            r.object_models@.len() == 0,
            r.object_parents@.len() == 0,
            r.strictness == ModelMemberStrictness::Compatible,
            r.generation == 0,
    {
        WorkspaceIndex {
            defs: Vec::new(),
            sites: Vec::new(),
            tags: Vec::new(),
            string_keys: Vec::new(),
            models: Vec::new(),
            animations: Vec::new(),
            assets: Vec::new(),
            object_models: Vec::new(),
            object_parents: Vec::new(),
            strictness: ModelMemberStrictness::Compatible,
            generation: 0,
        }
    }

    /// A counter that changes whenever reference resolution could change.
    /// Indexing a file again with the same definition names does not bump it.
    pub fn generation(&self) -> (r: u64)
        ensures
            r == self.generation,
    {
        self.generation
    }

    pub fn model_member_strictness(&self) -> (r: ModelMemberStrictness)
        ensures
            r == self.strictness,
    {
        self.strictness
    }

    /// Changes the strictness, and the generation with it.
    pub fn set_model_member_strictness(&mut self, value: ModelMemberStrictness)
        ensures
            *final(self) == (WorkspaceIndex {
                strictness: value,
                generation: if old(self).strictness == value {
                    old(self).generation
                } else {
                    next_generation(old(self).generation)
                },
                ..*old(self)
            }),
    {
        if self.strictness != value {
            self.strictness = value;
            self.generation = bump(self.generation);
        }
    }

    fn display_for(&self, kind: RefKind, key: &str, written: &str) -> (r: String)
        ensures
            r@ == display_of(self.def_rows(), kind, key@, written@),
    {
        let ghost rows = self.def_rows();
        let mut i: usize = self.defs.len();
        assert(rows.take(i as int) =~= rows);
        while i > 0
            invariant
                i <= self.defs.len(),
                rows == self.def_rows(),
                display_of(rows, kind, key@, written@) == display_of(
                    rows.take(i as int),
                    kind,
                    key@,
                    written@,
                ),
            decreases i,
        {
            assert(rows.take(i as int).drop_last() =~= rows.take(i - 1));
            i -= 1;
            if self.defs[i].item.kind == kind && same(self.defs[i].item.key.as_str(), key) {
                return self.defs[i].item.display.clone();
            }
        }
        written.to_owned()
    }

    fn names_changed(&self, file: &str, defs: &Vec<Definition>) -> (r: bool)
        ensures
            r == (def_names(owned(self.def_rows(), file@)) != new_names(defs@)),
    {
        let old_items = items_of(&self.defs, file);
        let ghost list = old_items@.map_values(|x: &DefItem| x@);
        if old_items.len() != defs.len() {
            assert(def_names(list).len() != new_names(defs@).len());
            return true;
        }
        let mut i: usize = 0;
        while i < defs.len()
            invariant
                i <= defs.len(),
                old_items.len() == defs.len(),
                list == old_items@.map_values(|x: &DefItem| x@),
                list == owned(self.def_rows(), file@),
                forall|k: int| 0 <= k < i ==> def_names(list)[k] == new_names(defs@)[k],
            decreases defs.len() - i,
        {
            let key = to_lower(defs[i].name.as_str());
            if !(old_items[i].kind == defs[i].kind && same(
                old_items[i].key.as_str(),
                key.as_str(),
            )) {
                assert(def_names(list)[i as int] != new_names(defs@)[i as int]);
                return true;
            }
            assert(def_names(list)[i as int] == new_names(defs@)[i as int]);
            i += 1;
        }
        assert(def_names(list) =~= new_names(defs@));
        false
    }

    /// Replace all definitions contributed by `file` with `defs`. The
    /// generation changes exactly when the file's list of names does.
    pub fn set_file(&mut self, file: &str, defs: Vec<Definition>)
        ensures
            final(self).def_rows() == with_defs(others(old(self).def_rows(), file@), file@, defs@),
            final(self).generation == if def_names(owned(old(self).def_rows(), file@))
                =~= new_names(defs@) {
                old(self).generation
            } else {
                next_generation(old(self).generation)
            },
            *final(self) == (WorkspaceIndex {
                defs: final(self).defs,
                generation: final(self).generation,
                ..*old(self)
            }),
    {
        if self.names_changed(file, &defs) {
            self.generation = bump(self.generation);
        }
        drop_file(&mut self.defs, file);
        let ghost base = self.def_rows();
        let ghost middle = *self;
        let mut i: usize = 0;
        while i < defs.len()
            invariant
                i <= defs.len(),
                self.def_rows() == with_defs(base, file@, defs@.take(i as int)),
                *self == (WorkspaceIndex { defs: self.defs, ..middle }),
            decreases defs.len() - i,
        {
            assert(defs@.take(i + 1).drop_last() =~= defs@.take(i as int));
            let key = to_lower(defs[i].name.as_str());
            let display = self.display_for(defs[i].kind, key.as_str(), defs[i].name.as_str());
            push_entry(
                &mut self.defs,
                file,
                DefItem { kind: defs[i].kind, key, display, span: defs[i].span },
            );
            i += 1;
        }
        assert(defs@.take(i as int) =~= defs@);
    }

    /// Replace all reference sites contributed by `file`. The generation
    /// stays: sites change with every keystroke.
    pub fn set_file_refs(&mut self, file: &str, refs: Vec<ReferenceSite>)
        ensures
            final(self).site_rows() == others(old(self).site_rows(), file@) + tagged(
                file@,
                site_items(refs@),
            ),
            *final(self) == (WorkspaceIndex { sites: final(self).sites, ..*old(self) }),
    {
        drop_file(&mut self.sites, file);
        let ghost base = self.site_rows();
        let ghost middle = *self;
        let ghost added = tagged(file@, site_items(refs@));
        let mut i: usize = 0;
        while i < refs.len()
            invariant
                i <= refs.len(),
                added == tagged(file@, site_items(refs@)),
                self.site_rows() == base + added.take(i as int),
                *self == (WorkspaceIndex { sites: self.sites, ..middle }),
            decreases refs.len() - i,
        {
            assert(added.take(i + 1) =~= added.take(i as int).push(added[i as int]));
            let key = to_lower(refs[i].name.as_str());
            push_entry(
                &mut self.sites,
                file,
                SiteItem { kind: refs[i].kind, key, span: refs[i].span },
            );
            assert(self.site_rows() =~= base + added.take(i + 1));
            i += 1;
        }
        assert(added.take(i as int) =~= added);
    }

    /// Drop everything that `file` contributed, but for its string keys and
    /// animations.
    pub fn remove_file(&mut self, file: &str)
        ensures
            final(self).def_rows() == others(old(self).def_rows(), file@),
            final(self).site_rows() == others(old(self).site_rows(), file@),
            final(self).model_rows() == others(old(self).model_rows(), file@),
            final(self).asset_rows() == others(old(self).asset_rows(), file@),
            final(self).object_rows() == others(old(self).object_rows(), file@),
            final(self).parent_rows() == others(old(self).parent_rows(), file@),
            final(self).tag_rows() == others(old(self).tag_rows(), file@),
            final(self).string_keys == old(self).string_keys,
            final(self).animations == old(self).animations,
            final(self).strictness == old(self).strictness,
            final(self).generation == ({
                let first = if contributes(old(self).def_rows(), file@) || contributes(
                    old(self).model_rows(),
                    file@,
                ) || contributes(old(self).object_rows(), file@) || contributes(
                    old(self).parent_rows(),
                    file@,
                ) || contributes(old(self).tag_rows(), file@) {
                    next_generation(old(self).generation)
                } else {
                    old(self).generation
                };
                if asset_flips(
                    old(self).asset_rows(),
                    others(old(self).asset_rows(), file@),
                    owned(old(self).asset_rows(), file@),
                ) {
                    next_generation(first)
                } else {
                    first
                }
            }),
    {
        let known = has_file(&self.defs, file) || has_file(&self.models, file) || has_file(
            &self.object_models,
            file,
        ) || has_file(&self.object_parents, file) || has_file(&self.tags, file);
        if known {
            self.generation = bump(self.generation);
        }
        drop_file(&mut self.defs, file);
        drop_file(&mut self.sites, file);
        drop_file(&mut self.models, file);
        let none: Vec<FileAsset> = Vec::new();
        let ghost before = self.asset_rows();
        self.set_file_assets(file, none);
        proof {
            assert(tagged(file@, views(none@)) =~= Seq::<EntryView<AssetView>>::empty());
            assert(self.asset_rows() =~= others(before, file@));
            assert(owned(before, file@) + views(none@) =~= owned(before, file@));
        }
        drop_file(&mut self.object_models, file);
        drop_file(&mut self.object_parents, file);
        drop_file(&mut self.tags, file);
    }

    /// Replace raw audio and texture assets contributed by `file`. The
    /// generation changes exactly when some asset name appears or vanishes.
    pub fn set_file_assets(&mut self, file: &str, assets: Vec<FileAsset>)
        ensures
            final(self).asset_rows() == others(old(self).asset_rows(), file@) + tagged(
                file@,
                views(assets@),
            ),
            final(self).generation == if asset_flips(
                old(self).asset_rows(),
                final(self).asset_rows(),
                owned(old(self).asset_rows(), file@) + views(assets@),
            ) {
                next_generation(old(self).generation)
            } else {
                old(self).generation
            },
            *final(self) == (WorkspaceIndex {
                assets: final(self).assets,
                generation: final(self).generation,
                ..*old(self)
            }),
    {
        let ghost before = self.asset_rows();
        let ghost affected = owned(before, file@) + views(assets@);
        let mut watched: Vec<(AssetKind, String, bool)> = Vec::new();
        let mine = items_of(&self.assets, file);
        let ghost mine_views = mine@.map_values(|x: &FileAsset| x@);
        let mut i: usize = 0;
        while i < mine.len()
            invariant
                i <= mine.len(),
                watched.len() == i,
                before == self.asset_rows(),
                mine_views == mine@.map_values(|x: &FileAsset| x@),
                mine_views == owned(before, file@),
                affected == mine_views + views(assets@),
                watches(watched@, affected, before),
            decreases mine.len() - i,
        {
            let key = to_lower(mine[i].name.as_str());
            let known = self.knows_asset(mine[i].kind, key.as_str());
            watched.push((mine[i].kind, key, known));
            assert(affected[i as int] == mine@[i as int]@);
            i += 1;
        }
        let mut j: usize = 0;
        while j < assets.len()
            invariant
                j <= assets.len(),
                before == self.asset_rows(),
                watched.len() == mine_views.len() + j,
                affected == mine_views + views(assets@),
                watches(watched@, affected, before),
            decreases assets.len() - j,
        {
            let key = to_lower(assets[j].name.as_str());
            let known = self.knows_asset(assets[j].kind, key.as_str());
            watched.push((assets[j].kind, key, known));
            assert(affected[mine_views.len() + j] == assets@[j as int]@);
            j += 1;
        }
        drop_file(&mut self.assets, file);
        let ghost base = self.asset_rows();
        let ghost middle = *self;
        let ghost added = tagged(file@, views(assets@));
        let mut k: usize = 0;
        while k < assets.len()
            invariant
                k <= assets.len(),
                added == tagged(file@, views(assets@)),
                self.asset_rows() == base + added.take(k as int),
                *self == (WorkspaceIndex { assets: self.assets, ..middle }),
            decreases assets.len() - k,
        {
            assert(added.take(k + 1) =~= added.take(k as int).push(added[k as int]));
            push_entry(&mut self.assets, file, assets[k].copy());
            assert(self.asset_rows() =~= base + added.take(k + 1));
            k += 1;
        }
        assert(added.take(k as int) =~= added);
        let ghost after = self.asset_rows();
        let mut m: usize = 0;
        let mut flipped: bool = false;
        while m < watched.len()
            invariant
                m <= watched.len(),
                after == self.asset_rows(),
                watched.len() == affected.len(),
                watches(watched@, affected, before),
                flipped == asset_flips(before, after, affected.take(m as int)),
            decreases watched.len() - m,
        {
            let now = self.knows_asset(watched[m].0, watched[m].1.as_str());
            proof {
                lemma_flip_step(before, after, affected, m as int);
            }
            if watched[m].2 != now {
                flipped = true;
            }
            m += 1;
        }
        assert(affected.take(m as int) =~= affected);
        if flipped {
            self.generation = bump(self.generation);
        }
    }

    fn knows_asset(&self, kind: AssetKind, key: &str) -> (r: bool)
        ensures
            r == asset_known(self.asset_rows(), kind, key@),
    {
        let ghost rows = self.asset_rows();
        let mut i: usize = 0;
        while i < self.assets.len()
            invariant
                i <= self.assets.len(),
                rows == self.asset_rows(),
                forall|k: int|
                    0 <= k < i ==> !((#[trigger] rows[k]).item.kind == kind && lower(
                        rows[k].item.name,
                    ) == key@),
            decreases self.assets.len() - i,
        {
            if self.assets[i].item.kind == kind && lowers_to(
                self.assets[i].item.name.as_str(),
                key,
            ) {
                assert(rows[i as int].item.kind == kind);
                return true;
            }
            i += 1;
        }
        false
    }

    /// Whether an asset of that name is indexed.
    pub fn is_asset(&self, kind: AssetKind, name: &str) -> (r: bool)
        ensures
            r == asset_known(self.asset_rows(), kind, lower(name@)),
    {
        let key = to_lower(name);
        self.knows_asset(kind, key.as_str())
    }

    /// Whether any asset of that kind is indexed.
    pub fn has_assets(&self, kind: AssetKind) -> (r: bool)
        ensures
            r == exists|i: int|
                0 <= i < self.asset_rows().len() && (#[trigger] self.asset_rows()[i]).item.kind
                    == kind,
    {
        let mut i: usize = 0;
        while i < self.assets.len()
            invariant
                i <= self.assets.len(),
                forall|k: int| 0 <= k < i ==> (#[trigger] self.asset_rows()[k]).item.kind != kind,
            decreases self.assets.len() - i,
        {
            if self.assets[i].item.kind == kind {
                assert(self.asset_rows()[i as int].item.kind == kind);
                return true;
            }
            i += 1;
        }
        false
    }
}

/// What was watched of each affected asset.
spec fn watches(
    watched: Seq<(AssetKind, String, bool)>,
    affected: Seq<AssetView>,
    before: Seq<EntryView<AssetView>>,
) -> bool {
    &&& watched.len() <= affected.len()
    &&& forall|k: int|
        0 <= k < watched.len() ==> {
            &&& (#[trigger] watched[k]).0 == affected[k].kind
            &&& watched[k].1@ == lower(affected[k].name)
            &&& watched[k].2 == asset_known(before, affected[k].kind, lower(affected[k].name))
        }
}

proof fn lemma_flip_step(
    before: Seq<EntryView<AssetView>>,
    after: Seq<EntryView<AssetView>>,
    assets: Seq<AssetView>,
    m: int,
)
    requires
        0 <= m < assets.len(),
    ensures
        asset_flips(before, after, assets.take(m + 1)) == (asset_flips(
            before,
            after,
            assets.take(m),
        ) || asset_known(before, assets[m].kind, lower(assets[m].name)) != asset_known(
            after,
            assets[m].kind,
            lower(assets[m].name),
        )),
{
    let short = assets.take(m);
    let long = assets.take(m + 1);
    if asset_flips(before, after, short) {
        let i = choose|i: int|
            0 <= i < short.len() && asset_known(
                before,
                (#[trigger] short[i]).kind,
                lower(short[i].name),
            ) != asset_known(after, short[i].kind, lower(short[i].name));
        assert(long[i] == short[i]);
    }
    if asset_flips(before, after, long) {
        let i = choose|i: int|
            0 <= i < long.len() && asset_known(
                before,
                (#[trigger] long[i]).kind,
                lower(long[i].name),
            ) != asset_known(after, long[i].kind, lower(long[i].name));
        if i < m {
            assert(long[i] == short[i]);
        }
    }
    assert(long[m] == assets[m]);
}

/// The models that the entries of one object name.
pub open spec fn models_of(rows: Seq<EntryView<ObjectModelsView>>, object: Seq<char>) -> Seq<
    Seq<char>,
>
    decreases rows.len(),
{
    if rows.len() == 0 {
        Seq::empty()
    } else {
        let rest = models_of(rows.drop_last(), object);
        if rows.last().item.object == object {
            rest + rows.last().item.models
        } else {
            rest
        }
    }
}

/// The parent of an entry for that child.
pub open spec fn parent_of(child: Seq<char>) -> spec_fn(EntryView<ParentView>) -> Option<
    Seq<char>,
> {
    |e: EntryView<ParentView>|
        if e.item.child == child {
            Some(e.item.parent)
        } else {
            None
        }
}

/// How many parent entries belong to objects not yet seen.
pub open spec fn unseen(rows: Seq<EntryView<ParentView>>, seen: Seq<Seq<char>>) -> nat
    decreases rows.len(),
{
    if rows.len() == 0 {
        0
    } else {
        unseen(rows.drop_last(), seen) + if seen.contains(rows.last().item.child) {
            0nat
        } else {
            1nat
        }
    }
}

pub proof fn lemma_unseen(rows: Seq<EntryView<ParentView>>, seen: Seq<Seq<char>>, object: Seq<char>)
    requires
        !seen.contains(object),
    ensures
        unseen(rows, seen.push(object)) <= unseen(rows, seen),
        picked(rows, parent_of(object)).len() > 0 ==> unseen(rows, seen.push(object)) < unseen(
            rows,
            seen,
        ),
    decreases rows.len(),
{
    if rows.len() > 0 {
        lemma_unseen(rows.drop_last(), seen, object);
        let child = rows.last().item.child;
        assert(seen.push(object).contains(object)) by {
            assert(seen.push(object)[seen.len() as int] == object);
        }
        if seen.contains(child) {
            let k = choose|k: int| 0 <= k < seen.len() && seen[k] == child;
            assert(seen.push(object)[k] == child);
        }
        if seen.push(object).contains(child) && child != object {
            let k = choose|k: int| 0 <= k < seen.push(object).len() && seen.push(object)[k]
                == child;
            assert(seen[k] == child);
        }
    }
}

/// The models met on a walk over pending objects and, after each, its
/// parents; every object is visited once.
pub open spec fn walk(
    objects: Seq<EntryView<ObjectModelsView>>,
    parents: Seq<EntryView<ParentView>>,
    pending: Seq<Seq<char>>,
    seen: Seq<Seq<char>>,
) -> Seq<Seq<char>>
    decreases unseen(parents, seen), pending.len(),
{
    if pending.len() == 0 {
        Seq::empty()
    } else {
        let object = pending.last();
        if seen.contains(object) {
            walk(objects, parents, pending.drop_last(), seen)
        } else {
            proof {
                lemma_unseen(parents, seen, object);
            }
            models_of(objects, object) + walk(
                objects,
                parents,
                pending.drop_last() + picked(parents, parent_of(object)),
                seen.push(object),
            )
        }
    }
}

/// The name of an animation that moves that skeleton.
pub open spec fn animation_on(hierarchy: Seq<char>) -> spec_fn(EntryView<AnimationView>) -> Option<
    Seq<char>,
> {
    |e: EntryView<AnimationView>|
        if same_ci(e.item.hierarchy, hierarchy) {
            Some(e.item.name)
        } else {
            None
        }
}

/// The last contribution of a model.
pub open spec fn effective_model(rows: Seq<EntryView<ModelView>>, key: Seq<char>) -> Option<
    EntryView<ModelView>,
>
    decreases rows.len(),
{
    if rows.len() == 0 {
        None
    } else if lower(rows.last().item.name) == key {
        Some(rows.last())
    } else {
        effective_model(rows.drop_last(), key)
    }
}

/// The last texture of that stem.
pub open spec fn effective_texture(rows: Seq<EntryView<AssetView>>, stem: Seq<char>) -> Option<
    AssetView,
>
    decreases rows.len(),
{
    if rows.len() == 0 {
        None
    } else if rows.last().item.kind is Texture && stem_of(rows.last().item.name) == stem {
        Some(rows.last().item)
    } else {
        effective_texture(rows.drop_last(), stem)
    }
}

/// The members that all contributions of a model have, in order.
pub open spec fn members_of(rows: Seq<EntryView<ModelView>>, key: Seq<char>) -> Seq<Seq<char>>
    decreases rows.len(),
{
    if rows.len() == 0 {
        Seq::empty()
    } else {
        let rest = members_of(rows.drop_last(), key);
        if lower(rows.last().item.name) == key {
            rest + rows.last().item.members
        } else {
            rest
        }
    }
}

/// Refs to the views of models.
pub open spec fn new_models(models: Seq<ModelAsset>) -> Seq<ModelView> {
    models.map_values(|m: ModelAsset| dedup_model(m@))
}

impl WorkspaceIndex {
    fn models_changed(&self, file: &str, models: &Vec<ModelAsset>) -> (r: bool)
        ensures
            r == (normal_models(owned(self.model_rows(), file@)) != normal_models(views(models@))),
    {
        let before = items_of(&self.models, file);
        let mut after: Vec<&ModelAsset> = Vec::new();
        let mut k: usize = 0;
        while k < models.len()
            invariant
                k <= models.len(),
                after.len() == k,
                forall|n: int| 0 <= n < k ==> *(#[trigger] after@[n]) == models@[n],
            decreases models.len() - k,
        {
            after.push(&models[k]);
            k += 1;
        }
        assert(after@.map_values(|m: &ModelAsset| m@) =~= views(models@));
        let a = normalized_model_assets(&before);
        let b = normalized_model_assets(&after);
        !same_sets(&a, &b)
    }

    /// Replace W3D model assets contributed by `file`. The generation changes
    /// unless the models stay the same up to order and casing.
    pub fn set_file_models(&mut self, file: &str, models: Vec<ModelAsset>)
        ensures
            final(self).model_rows() == others(old(self).model_rows(), file@) + tagged(
                file@,
                new_models(models@),
            ),
            final(self).generation == if normal_models(owned(old(self).model_rows(), file@))
                =~= normal_models(views(models@)) {
                old(self).generation
            } else {
                next_generation(old(self).generation)
            },
            *final(self) == (WorkspaceIndex {
                models: final(self).models,
                generation: final(self).generation,
                ..*old(self)
            }),
    {
        if self.models_changed(file, &models) {
            self.generation = bump(self.generation);
        }
        drop_file(&mut self.models, file);
        let ghost base = self.model_rows();
        let ghost middle = *self;
        let ghost added = tagged(file@, new_models(models@));
        let mut i: usize = 0;
        while i < models.len()
            invariant
                i <= models.len(),
                added == tagged(file@, new_models(models@)),
                self.model_rows() == base + added.take(i as int),
                *self == (WorkspaceIndex { models: self.models, ..middle }),
            decreases models.len() - i,
        {
            assert(added.take(i + 1) =~= added.take(i as int).push(added[i as int]));
            let members = dedup_case_insensitive(copy_texts(&models[i].members));
            let item = ModelAsset {
                name: models[i].name.clone(),
                members,
                hierarchy: copy_opt(&models[i].hierarchy),
            };
            assert(item@ == dedup_model(models@[i as int]@));
            push_entry(&mut self.models, file, item);
            assert(self.model_rows() =~= base + added.take(i + 1));
            i += 1;
        }
        assert(added.take(i as int) =~= added);
    }

    /// Insert W3D models whose members hold no repetitions, of a file that
    /// contributes none yet, without comparing.
    pub fn insert_file_models_prepared(&mut self, file: &str, models: Vec<ModelAsset>)
        ensures
            final(self).model_rows() == old(self).model_rows() + tagged(file@, views(models@)),
            final(self).generation == if models@.len() == 0 {
                old(self).generation
            } else {
                next_generation(old(self).generation)
            },
            *final(self) == (WorkspaceIndex {
                models: final(self).models,
                generation: final(self).generation,
                ..*old(self)
            }),
    {
        let ghost base = self.model_rows();
        let ghost added = tagged(file@, views(models@));
        if models.len() == 0 {
            assert(base + added =~= base);
            return;
        }
        self.generation = bump(self.generation);
        let ghost middle = *self;
        let mut i: usize = 0;
        while i < models.len()
            invariant
                i <= models.len(),
                added == tagged(file@, views(models@)),
                self.model_rows() == base + added.take(i as int),
                *self == (WorkspaceIndex { models: self.models, ..middle }),
            decreases models.len() - i,
        {
            assert(added.take(i + 1) =~= added.take(i as int).push(added[i as int]));
            let item = ModelAsset {
                name: models[i].name.clone(),
                members: copy_texts(&models[i].members),
                hierarchy: copy_opt(&models[i].hierarchy),
            };
            assert(item@ == models@[i as int]@);
            push_entry(&mut self.models, file, item);
            assert(self.model_rows() =~= base + added.take(i + 1));
            i += 1;
        }
        assert(added.take(i as int) =~= added);
    }

    /// Replace the animations contributed by `file`.
    pub fn set_file_animations(&mut self, file: &str, animations: Vec<AnimationAsset>)
        ensures
            final(self).animation_rows() == others(old(self).animation_rows(), file@) + tagged(
                file@,
                views(animations@),
            ),
            *final(self) == (WorkspaceIndex { animations: final(self).animations, ..*old(self) }),
    {
        drop_file(&mut self.animations, file);
        let ghost base = self.animation_rows();
        let ghost middle = *self;
        let ghost added = tagged(file@, views(animations@));
        let mut i: usize = 0;
        while i < animations.len()
            invariant
                i <= animations.len(),
                added == tagged(file@, views(animations@)),
                self.animation_rows() == base + added.take(i as int),
                *self == (WorkspaceIndex { animations: self.animations, ..middle }),
            decreases animations.len() - i,
        {
            assert(added.take(i + 1) =~= added.take(i as int).push(added[i as int]));
            let item = AnimationAsset {
                name: animations[i].name.clone(),
                hierarchy: animations[i].hierarchy.clone(),
            };
            push_entry(&mut self.animations, file, item);
            assert(self.animation_rows() =~= base + added.take(i + 1));
            i += 1;
        }
        assert(added.take(i as int) =~= added);
    }

    /// Replace the models that `file` gives to Objects. The generation changes
    /// unless the models stay the same up to order and casing.
    pub fn set_file_object_models(&mut self, file: &str, objects: Vec<(String, Vec<String>)>)
        ensures
            final(self).object_rows() == others(old(self).object_rows(), file@) + tagged(
                file@,
                object_items(objects@),
            ),
            final(self).generation == if normal_objects(owned(old(self).object_rows(), file@))
                =~= normal_objects(object_items(objects@)) {
                old(self).generation
            } else {
                next_generation(old(self).generation)
            },
            *final(self) == (WorkspaceIndex {
                object_models: final(self).object_models,
                generation: final(self).generation,
                ..*old(self)
            }),
    {
        let mut items: Vec<ObjectModels> = Vec::new();
        let mut i: usize = 0;
        while i < objects.len()
            invariant
                i <= objects.len(),
                items.len() == i,
                forall|k: int|
                    0 <= k < i ==> (#[trigger] items@[k])@ == object_items(objects@)[k],
            decreases objects.len() - i,
        {
            let item = ObjectModels {
                object: to_lower(objects[i].0.as_str()),
                models: copy_texts(&objects[i].1),
            };
            items.push(item);
            i += 1;
        }
        assert(views(items@) =~= object_items(objects@));
        let mine = items_of(&self.object_models, file);
        let a = normalize_object_models(&mine);
        let fresh = refs_to(&items);
        let b = normalize_object_models(&fresh);
        if !same_sets(&a, &b) {
            self.generation = bump(self.generation);
        }
        drop_file(&mut self.object_models, file);
        append_items(&mut self.object_models, file, items);
    }

    /// Replace the parents that `file` gives to Objects. The generation changes
    /// unless the file gave the same parents before, in the same order.
    pub fn set_file_object_parents(&mut self, file: &str, parents: Vec<(String, String)>)
        ensures
            final(self).parent_rows() == others(old(self).parent_rows(), file@) + tagged(
                file@,
                parent_items(parents@),
            ),
            final(self).generation == if owned(old(self).parent_rows(), file@) =~= parent_items(
                parents@,
            ) {
                old(self).generation
            } else {
                next_generation(old(self).generation)
            },
            *final(self) == (WorkspaceIndex {
                object_parents: final(self).object_parents,
                generation: final(self).generation,
                ..*old(self)
            }),
    {
        let mut items: Vec<ObjectParent> = Vec::new();
        let mut i: usize = 0;
        while i < parents.len()
            invariant
                i <= parents.len(),
                items.len() == i,
                forall|k: int|
                    0 <= k < i ==> (#[trigger] items@[k])@ == parent_items(parents@)[k],
            decreases parents.len() - i,
        {
            let item = ObjectParent {
                child: to_lower(parents[i].0.as_str()),
                parent: to_lower(parents[i].1.as_str()),
            };
            items.push(item);
            i += 1;
        }
        assert(views(items@) =~= parent_items(parents@));
        let mine = items_of(&self.object_parents, file);
        let ghost mine_views = mine@.map_values(|p: &ObjectParent| p@);
        let mut equal: bool = mine.len() == items.len();
        let mut k: usize = 0;
        while equal && k < items.len()
            invariant
                k <= items.len(),
                equal ==> mine.len() == items.len(),
                mine_views == mine@.map_values(|p: &ObjectParent| p@),
                equal ==> forall|n: int| 0 <= n < k ==> mine_views[n] == views(items@)[n],
                !equal ==> mine_views != views(items@),
            decreases items.len() - k,
        {
            if !(same(mine[k].child.as_str(), items[k].child.as_str()) && same(
                mine[k].parent.as_str(),
                items[k].parent.as_str(),
            )) {
                assert(mine_views[k as int] != views(items@)[k as int]);
                equal = false;
            }
            k += 1;
        }
        assert(equal ==> mine_views =~= views(items@));
        if !equal {
            self.generation = bump(self.generation);
        }
        drop_file(&mut self.object_parents, file);
        append_items(&mut self.object_parents, file, items);
    }

    /// The models that an Object's definitions and those of its ancestors
    /// name. Each ancestor counts once, also where parents form a cycle.
    pub fn models_for_object(&self, name: &str) -> (r: Vec<String>)
        ensures
            texts(r@) == walk(
                self.object_rows(),
                self.parent_rows(),
                seq![lower(name@)],
                Seq::empty(),
            ),
    {
        let ghost objects = self.object_rows();
        let ghost parents = self.parent_rows();
        let ghost whole = walk(objects, parents, seq![lower(name@)], Seq::empty());
        let mut out: Vec<String> = Vec::new();
        let mut pending: Vec<String> = Vec::new();
        let mut seen: Vec<String> = Vec::new();
        pending.push(to_lower(name));
        assert(texts(pending@) =~= seq![lower(name@)]);
        assert(texts(seen@) =~= Seq::<Seq<char>>::empty());
        assert(texts(out@) + whole =~= whole);
        while pending.len() > 0
            invariant
                objects == self.object_rows(),
                parents == self.parent_rows(),
                texts(out@) + walk(objects, parents, texts(pending@), texts(seen@)) == whole,
            decreases unseen(parents, texts(seen@)), pending.len(),
        {
            let ghost p0 = texts(pending@);
            let ghost s0 = texts(seen@);
            let ghost o0 = texts(out@);
            let popped = pending.pop();
            if let Some(object) = popped {
                assert(texts(pending@) =~= p0.drop_last());
                assert(object@ == p0.last());
                if !contains_text(&seen, object.as_str()) {
                    self.push_models(object.as_str(), &mut out);
                    self.push_parents(object.as_str(), &mut pending);
                    proof {
                        lemma_unseen(parents, s0, object@);
                    }
                    seen.push(object);
                    assert(texts(seen@) =~= s0.push(p0.last()));
                    assert(texts(out@) + walk(objects, parents, texts(pending@), texts(seen@))
                        =~= o0 + walk(objects, parents, p0, s0));
                }
            }
        }
        assert(texts(pending@) =~= Seq::<Seq<char>>::empty());
        assert(texts(out@) =~= whole);
        out
    }

    fn push_models(&self, object: &str, out: &mut Vec<String>)
        ensures
            texts(final(out)@) == texts(old(out)@) + models_of(self.object_rows(), object@),
    {
        let ghost rows = self.object_rows();
        let ghost start = texts(out@);
        let mut i: usize = 0;
        while i < self.object_models.len()
            invariant
                i <= self.object_models.len(),
                rows == self.object_rows(),
                texts(out@) == start + models_of(rows.take(i as int), object@),
            decreases self.object_models.len() - i,
        {
            let ghost o0 = texts(out@);
            assert(rows.take(i + 1).drop_last() =~= rows.take(i as int));
            if same(self.object_models[i].item.object.as_str(), object) {
                push_copies(out, &self.object_models[i].item.models);
                assert(texts(out@) =~= start + models_of(rows.take(i + 1), object@));
            }
            i += 1;
        }
        assert(rows.take(i as int) =~= rows);
    }

    fn push_parents(&self, object: &str, out: &mut Vec<String>)
        ensures
            texts(final(out)@) == texts(old(out)@) + picked(self.parent_rows(), parent_of(object@)),
    {
        let ghost rows = self.parent_rows();
        let ghost start = texts(out@);
        let mut i: usize = 0;
        while i < self.object_parents.len()
            invariant
                i <= self.object_parents.len(),
                rows == self.parent_rows(),
                texts(out@) == start + picked(rows.take(i as int), parent_of(object@)),
            decreases self.object_parents.len() - i,
        {
            let ghost o0 = texts(out@);
            assert(rows.take(i + 1).drop_last() =~= rows.take(i as int));
            if same(self.object_parents[i].item.child.as_str(), object) {
                out.push(self.object_parents[i].item.parent.clone());
                assert(parent_of(object@)(rows[i as int]) == Some(rows[i as int].item.parent));
                assert(texts(out@) =~= o0.push(rows[i as int].item.parent));
            } else {
                assert(parent_of(object@)(rows[i as int]) is None);
            }
            i += 1;
        }
        assert(rows.take(i as int) =~= rows);
    }
}

/// Appends a copy of each text.
pub fn push_copies(out: &mut Vec<String>, more: &Vec<String>)
    ensures
        texts(final(out)@) == texts(old(out)@) + texts(more@),
{
    let mut i: usize = 0;
    while i < more.len()
        invariant
            i <= more.len(),
            texts(out@) == texts(old(out)@) + texts(more@).take(i as int),
        decreases more.len() - i,
    {
        let ghost before = texts(out@);
        out.push(more[i].clone());
        assert(texts(out@) =~= before.push(more@[i as int]@));
        assert(texts(more@).take(i + 1) =~= texts(more@).take(i as int).push(more@[i as int]@));
        i += 1;
    }
    assert(texts(more@).take(i as int) =~= texts(more@));
}

/// A copy of a list of texts.
pub fn copy_texts(list: &Vec<String>) -> (r: Vec<String>)
    ensures
        texts(r@) == texts(list@),
{
    let mut out: Vec<String> = Vec::new();
    push_copies(&mut out, list);
    assert(texts(out@) =~= texts(list@));
    out
}

/// A copy of an optional text.
pub fn copy_opt(text: &Option<String>) -> (r: Option<String>)
    ensures
        opt_text(r) == opt_text(*text),
{
    match text {
        Some(t) => Some(t.clone()),
        None => None,
    }
}

fn refs_to<T: View>(list: &Vec<T>) -> (r: Vec<&T>)
    ensures
        r@.map_values(|x: &T| x@) == views(list@),
{
    let mut out: Vec<&T> = Vec::new();
    let mut i: usize = 0;
    while i < list.len()
        invariant
            i <= list.len(),
            out.len() == i,
            forall|n: int| 0 <= n < i ==> *(#[trigger] out@[n]) == list@[n],
        decreases list.len() - i,
    {
        out.push(&list[i]);
        i += 1;
    }
    assert(out@.map_values(|x: &T| x@) =~= views(list@));
    out
}

/// Appends items as contributions of one file.
fn append_items<T: View>(rows: &mut Vec<Entry<T>>, file: &str, items: Vec<T>)
    ensures
        entries(final(rows)@) == entries(old(rows)@) + tagged(file@, views(items@)),
{
    let ghost base = entries(rows@);
    let ghost whole = views(items@);
    let mut rest = items;
    let mut queue: Vec<T> = Vec::new();
    while rest.len() > 0
        invariant
            views(rest@) + views(queue@).reverse() == whole,
        decreases rest.len(),
    {
        let ghost r0 = rest@;
        let ghost q0 = queue@;
        if let Some(x) = rest.pop() {
            queue.push(x);
            assert(views(r0) =~= views(rest@).push(x@));
            assert(views(queue@).reverse() =~= seq![x@] + views(q0).reverse());
            assert(views(rest@) + views(queue@).reverse() =~= views(r0) + views(q0).reverse());
        }
    }
    assert(views(queue@).reverse() =~= whole);
    let ghost mut done: int = 0;
    while queue.len() > 0
        invariant
            0 <= done <= whole.len(),
            queue@.len() == whole.len() - done,
            views(queue@).reverse() == whole.skip(done),
            entries(rows@) == base + tagged(file@, whole.take(done)),
        decreases queue.len(),
    {
        let ghost q0 = queue@;
        if let Some(x) = queue.pop() {
            proof {
                assert(views(q0).reverse()[0] == x@);
                assert(whole[done] == whole.skip(done)[0]);
                assert(views(queue@) =~= views(q0).drop_last());
                assert(views(queue@).reverse() =~= views(q0).reverse().skip(1));
                assert(whole.skip(done + 1) =~= whole.skip(done).skip(1));
            }
            push_entry(rows, file, x);
            proof {
                assert(tagged(file@, whole.take(done + 1)) =~= tagged(
                    file@,
                    whole.take(done),
                ).push(EntryView { file: file@, item: whole[done] }));
                done = done + 1;
            }
        }
    }
    assert(whole.take(done) =~= whole);
}

/// Whether a definition of that kind and key is in the table.
pub open spec fn def_known(rows: Seq<EntryView<DefView>>, kind: RefKind, key: Seq<char>) -> bool {
    exists|i: int|
        0 <= i < rows.len() && (#[trigger] rows[i]).item.kind == kind && rows[i].item.key == key
}

/// Whether a definition of that kind and key stands outside the files that
/// are merged over others.
pub open spec fn def_in_base(
    rows: Seq<EntryView<DefView>>,
    kind: RefKind,
    key: Seq<char>,
) -> bool {
    exists|i: int|
        0 <= i < rows.len() && (#[trigger] rows[i]).item.kind == kind && rows[i].item.key == key
            && !override_layer(rows[i].file)
}

/// The displayed names of one kind among the first rows, one per key.
pub open spec fn names_of(rows: Seq<EntryView<DefView>>, kind: RefKind) -> Seq<Seq<char>>
    decreases rows.len(),
{
    if rows.len() == 0 {
        Seq::empty()
    } else {
        let rest = names_of(rows.drop_last(), kind);
        let d = rows.last().item;
        if d.kind == kind && !def_known(rows.drop_last(), kind, d.key) {
            rest.push(d.display)
        } else {
            rest
        }
    }
}

/// Those of [`names_of`] that `all` defines outside the override layers.
pub open spec fn base_names_of(
    all: Seq<EntryView<DefView>>,
    rows: Seq<EntryView<DefView>>,
    kind: RefKind,
) -> Seq<Seq<char>>
    decreases rows.len(),
{
    if rows.len() == 0 {
        Seq::empty()
    } else {
        let rest = base_names_of(all, rows.drop_last(), kind);
        let d = rows.last().item;
        if d.kind == kind && !def_known(rows.drop_last(), kind, d.key) && def_in_base(
            all,
            kind,
            d.key,
        ) {
            rest.push(d.display)
        } else {
            rest
        }
    }
}

/// Whether `text` holds `part` somewhere.
pub open spec fn holds_part(text: Seq<char>, part: Seq<char>) -> bool {
    exists|i: int|
        0 <= i <= text.len() - part.len() && #[trigger] text.subrange(i, i + part.len()) == part
}

/// A workspace symbol.
pub struct Symbol {
    pub kind: RefKind,
    pub name: String,
    pub location: Location,
}

/// The model of a [`Symbol`].
pub struct SymbolView {
    pub kind: RefKind,
    pub name: Seq<char>,
    pub location: LocationView,
}

impl View for Symbol {
    type V = SymbolView;

    open spec fn view(&self) -> SymbolView {
        SymbolView { kind: self.kind, name: self.name@, location: self.location@ }
    }
}

/// The symbol of a definition whose key holds the query.
pub open spec fn symbol_for(query: Seq<char>) -> spec_fn(EntryView<DefView>) -> Option<SymbolView> {
    |e: EntryView<DefView>|
        if holds_part(e.item.key, query) {
            Some(
                SymbolView {
                    kind: e.item.kind,
                    name: e.item.display,
                    location: LocationView { file: e.file, span: e.item.span },
                },
            )
        } else {
            None
        }
}

/// Whether a later row holds the model of row `i` too.
pub open spec fn model_superseded(rows: Seq<EntryView<ModelView>>, i: int) -> bool {
    exists|j: int|
        i < j < rows.len() && lower((#[trigger] rows[j]).item.name) == lower(rows[i].item.name)
}

/// The model names from row `i` on, each in the casing of its last
/// contribution.
pub open spec fn model_names_from(rows: Seq<EntryView<ModelView>>, i: int) -> Seq<Seq<char>>
    decreases rows.len() - i,
{
    if i < 0 || i >= rows.len() {
        Seq::empty()
    } else if model_superseded(rows, i) {
        model_names_from(rows, i + 1)
    } else {
        seq![rows[i].item.name] + model_names_from(rows, i + 1)
    }
}

/// The asset names of one kind, each in the casing of its first contribution.
pub open spec fn asset_names_of(rows: Seq<EntryView<AssetView>>, kind: AssetKind) -> Seq<Seq<char>>
    decreases rows.len(),
{
    if rows.len() == 0 {
        Seq::empty()
    } else {
        let rest = asset_names_of(rows.drop_last(), kind);
        let a = rows.last().item;
        if a.kind == kind && !asset_known(rows.drop_last(), kind, lower(a.name)) {
            rest.push(a.name)
        } else {
            rest
        }
    }
}

/// Whether a tag entry comes at or after the cursor of the document itself.
pub open spec fn after_cursor(
    e: EntryView<TagView>,
    file: Option<Seq<char>>,
    before: Option<u32>,
) -> bool {
    match (file, before) {
        (Some(f), Some(b)) => e.file == f && e.item.span.start >= b,
        _ => false,
    }
}

/// A tag declared on that object, unless it comes after the cursor.
pub open spec fn visible_tag(
    object: Seq<char>,
    file: Option<Seq<char>>,
    before: Option<u32>,
) -> spec_fn(EntryView<TagView>) -> Option<TagView> {
    |e: EntryView<TagView>|
        if !e.item.is_reference && e.item.object == object && !after_cursor(e, file, before) {
            Some(e.item)
        } else {
            None
        }
}

/// The location of such a tag of that name.
pub open spec fn tag_location(
    object: Seq<char>,
    tag: Seq<char>,
    reference: bool,
    file: Option<Seq<char>>,
    before: Option<u32>,
) -> spec_fn(EntryView<TagView>) -> Option<LocationView> {
    |e: EntryView<TagView>|
        if e.item.is_reference == reference && e.item.object == object && same_ci(
            e.item.name,
            tag,
        ) && !after_cursor(e, file, before) {
            Some(LocationView { file: e.file, span: e.item.span })
        } else {
            None
        }
}

/// Tags without later repetitions of a name up to ASCII case.
pub open spec fn dedup_tags(tags: Seq<TagView>) -> Seq<TagView>
    decreases tags.len(),
{
    if tags.len() == 0 {
        tags
    } else {
        let rest = dedup_tags(tags.drop_last());
        if tag_named(rest, tags.last().name) {
            rest
        } else {
            rest.push(tags.last())
        }
    }
}

pub open spec fn tag_named(tags: Seq<TagView>, name: Seq<char>) -> bool {
    exists|i: int| 0 <= i < tags.len() && same_ci((#[trigger] tags[i]).name, name)
}

/// The object whose modules every new map object starts with.
pub open spec fn default_object() -> Seq<char> {
    lower("DefaultThingTemplate"@)
}

/// The view of an optional file.
pub open spec fn opt_str(text: Option<&str>) -> Option<Seq<char>> {
    crate::schema::text_of(text)
}

/// The string keys that the last entry of a file holds.
pub open spec fn keys_of(rows: Seq<EntryView<Seq<Seq<char>>>>, file: Seq<char>) -> Seq<Seq<char>>
    decreases rows.len(),
{
    if rows.len() == 0 {
        Seq::empty()
    } else if rows.last().file == file {
        rows.last().item
    } else {
        keys_of(rows.drop_last(), file)
    }
}

/// Whether the object exists in override layers only.
pub open spec fn new_override(
    rows: Seq<EntryView<DefView>>,
    name: Seq<char>,
    file: Seq<char>,
) -> bool {
    override_layer(file) && !def_in_base(rows, RefKind::Object, lower(name))
}

pub open spec fn new_override_in(
    rows: Seq<EntryView<DefView>>,
    name: Seq<char>,
    file: Option<Seq<char>>,
) -> bool {
    match file {
        Some(f) => new_override(rows, name, f),
        None => false,
    }
}

impl WorkspaceIndex {
    /// The animations made for the skeleton of a model.
    pub open spec fn animations_for(&self, model: Seq<char>) -> Seq<Seq<char>> {
        match effective_model(self.model_rows(), lower(model)) {
            Some(e) => match e.item.hierarchy {
                Some(h) => picked(self.animation_rows(), animation_on(h)),
                None => Seq::empty(),
            },
            None => Seq::empty(),
        }
    }

    /// The module tags that `RemoveModule` can name at a position. New
    /// objects of an override layer start as a copy of the default object.
    pub open spec fn effective_tags(
        &self,
        name: Seq<char>,
        file: Option<Seq<char>>,
        before: Option<u32>,
    ) -> Seq<TagView> {
        let own = picked(self.tag_rows(), visible_tag(lower(name), file, before));
        if new_override_in(self.def_rows(), name, file) {
            dedup_tags(own + picked(self.tag_rows(), visible_tag(default_object(), None, None)))
        } else {
            own
        }
    }

    /// Replace module-tag entries contributed by `file`. The generation
    /// changes exactly when the declared tags do, up to order and casing.
    pub fn set_file_tags(&mut self, file: &str, tags: Vec<ModuleTagDefinition>)
        ensures
            final(self).tag_rows() == others(old(self).tag_rows(), file@) + tagged(
                file@,
                tag_items(tags@),
            ),
            final(self).generation == if normal_tags(owned(old(self).tag_rows(), file@))
                =~= normal_tags(tag_items(tags@)) {
                old(self).generation
            } else {
                next_generation(old(self).generation)
            },
            *final(self) == (WorkspaceIndex {
                tags: final(self).tags,
                generation: final(self).generation,
                ..*old(self)
            }),
    {
        let mut items: Vec<ModuleTagDefinition> = Vec::new();
        let mut i: usize = 0;
        while i < tags.len()
            invariant
                i <= tags.len(),
                items.len() == i,
                forall|k: int| 0 <= k < i ==> (#[trigger] items@[k])@ == tag_items(tags@)[k],
            decreases tags.len() - i,
        {
            let item = ModuleTagDefinition {
                object: to_lower(tags[i].object.as_str()),
                name: tags[i].name.clone(),
                span: tags[i].span,
                is_reference: tags[i].is_reference,
                snippet: tags[i].snippet.clone(),
            };
            items.push(item);
            i += 1;
        }
        assert(views(items@) =~= tag_items(tags@));
        let mine = items_of(&self.tags, file);
        let a = normalize_object_tags(&mine);
        let fresh = refs_to(&items);
        let b = normalize_object_tags(&fresh);
        if !same_sets(&a, &b) {
            self.generation = bump(self.generation);
        }
        drop_file(&mut self.tags, file);
        append_items(&mut self.tags, file, items);
    }

    fn visible_tags<'a>(
        &'a self,
        object: &str,
        file: Option<&str>,
        before: Option<u32>,
    ) -> (r: Vec<&'a ModuleTagDefinition>)
        ensures
            r@.map_values(|t: &ModuleTagDefinition| t@) == picked(
                self.tag_rows(),
                visible_tag(object@, opt_str(file), before),
            ),
    {
        let ghost rows = self.tag_rows();
        let ghost f = visible_tag(object@, opt_str(file), before);
        let mut out: Vec<&'a ModuleTagDefinition> = Vec::new();
        let mut i: usize = 0;
        while i < self.tags.len()
            invariant
                i <= self.tags.len(),
                rows == self.tag_rows(),
                f == visible_tag(object@, opt_str(file), before),
                out@.map_values(|t: &ModuleTagDefinition| t@) == picked(rows.take(i as int), f),
            decreases self.tags.len() - i,
        {
            let ghost o0 = out@.map_values(|t: &ModuleTagDefinition| t@);
            assert(rows.take(i + 1).drop_last() =~= rows.take(i as int));
            let tag = &self.tags[i].item;
            let hidden = entry_after_cursor(&self.tags[i], file, before);
            if !tag.is_reference && same(tag.object.as_str(), object) && !hidden {
                out.push(tag);
                assert(f(rows[i as int]) == Some(rows[i as int].item));
                assert(out@.map_values(|t: &ModuleTagDefinition| t@) =~= o0.push(
                    rows[i as int].item,
                ));
            } else {
                assert(f(rows[i as int]) is None);
            }
            i += 1;
        }
        assert(rows.take(i as int) =~= rows);
        out
    }

    fn tag_locations(
        &self,
        object: &str,
        tag: &str,
        reference: bool,
        file: Option<&str>,
        before: Option<u32>,
    ) -> (r: Vec<Location>)
        ensures
            views(r@) == picked(
                self.tag_rows(),
                tag_location(object@, tag@, reference, opt_str(file), before),
            ),
    {
        let ghost rows = self.tag_rows();
        let ghost f = tag_location(object@, tag@, reference, opt_str(file), before);
        let mut out: Vec<Location> = Vec::new();
        let mut i: usize = 0;
        while i < self.tags.len()
            invariant
                i <= self.tags.len(),
                rows == self.tag_rows(),
                f == tag_location(object@, tag@, reference, opt_str(file), before),
                views(out@) == picked(rows.take(i as int), f),
            decreases self.tags.len() - i,
        {
            let ghost o0 = views(out@);
            assert(rows.take(i + 1).drop_last() =~= rows.take(i as int));
            let item = &self.tags[i].item;
            let hidden = entry_after_cursor(&self.tags[i], file, before);
            if item.is_reference == reference && same(item.object.as_str(), object) && eq_ci(
                item.name.as_str(),
                tag,
            ) && !hidden {
                let location = Location { file: self.tags[i].file.clone(), span: item.span };
                assert(f(rows[i as int]) == Some(location@));
                out.push(location);
                assert(views(out@) =~= o0.push(location@));
            } else {
                assert(f(rows[i as int]) is None);
            }
            i += 1;
        }
        assert(rows.take(i as int) =~= rows);
        out
    }

    /// Module tags declared on an object across all indexed files.
    pub fn module_tags_for_object<'a>(&'a self, name: &str) -> (r: Vec<&'a ModuleTagDefinition>)
        ensures
            r@.map_values(|t: &ModuleTagDefinition| t@) == picked(
                self.tag_rows(),
                visible_tag(lower(name@), None, None),
            ),
    {
        let key = to_lower(name);
        self.visible_tags(key.as_str(), None, None)
    }

    /// Where a tag of an object is declared.
    pub fn module_tag_locations(&self, object: &str, tag: &str) -> (r: Vec<Location>)
        ensures
            views(r@) == picked(
                self.tag_rows(),
                tag_location(lower(object@), tag@, false, None, None),
            ),
    {
        let key = to_lower(object);
        self.tag_locations(key.as_str(), tag, false, None, None)
    }

    /// Where `RemoveModule` names a tag of an object.
    pub fn module_tag_reference_locations(&self, object: &str, tag: &str) -> (r: Vec<Location>)
        ensures
            views(r@) == picked(
                self.tag_rows(),
                tag_location(lower(object@), tag@, true, None, None),
            ),
    {
        let key = to_lower(object);
        self.tag_locations(key.as_str(), tag, true, None, None)
    }

    /// Whether an Object of an override layer has no base definition.
    pub fn is_new_override_object(&self, name: &str, file: &str) -> (r: bool)
        ensures
            r == new_override(self.def_rows(), name@, file@),
    {
        let key = to_lower(name);
        is_override_layer(file) && !self.in_base(RefKind::Object, key.as_str())
    }

    fn in_base(&self, kind: RefKind, key: &str) -> (r: bool)
        ensures
            r == def_in_base(self.def_rows(), kind, key@),
    {
        let ghost rows = self.def_rows();
        let mut i: usize = 0;
        while i < self.defs.len()
            invariant
                i <= self.defs.len(),
                rows == self.def_rows(),
                forall|k: int|
                    0 <= k < i ==> !((#[trigger] rows[k]).item.kind == kind && rows[k].item.key
                        == key@ && !override_layer(rows[k].file)),
            decreases self.defs.len() - i,
        {
            if self.defs[i].item.kind == kind && same(self.defs[i].item.key.as_str(), key)
                && !is_override_layer(self.defs[i].file.as_str()) {
                assert(rows[i as int].item.kind == kind);
                return true;
            }
            i += 1;
        }
        false
    }

    /// Whether a definition stands outside the override layers.
    pub fn has_base_definition(&self, kind: RefKind, name: &str) -> (r: bool)
        ensures
            r == def_in_base(self.def_rows(), kind, lower(name@)),
    {
        let key = to_lower(name);
        self.in_base(kind, key.as_str())
    }

    /// Module tags visible to `RemoveModule`. New map objects start as a copy
    /// of the default object, while existing objects use their own tags.
    pub fn effective_module_tags_for_object<'a>(
        &'a self,
        name: &str,
        file: Option<&str>,
        before: Option<u32>,
    ) -> (r: Vec<&'a ModuleTagDefinition>)
        ensures
            r@.map_values(|t: &ModuleTagDefinition| t@) == self.effective_tags(
                name@,
                opt_str(file),
                before,
            ),
    {
        let key = to_lower(name);
        let own = self.visible_tags(key.as_str(), file, before);
        let is_new = match file {
            Some(f) => self.is_new_override_object(name, f),
            None => false,
        };
        if !is_new {
            return own;
        }
        let base_key = to_lower("DefaultThingTemplate");
        let mut base = self.visible_tags(base_key.as_str(), None, None);
        let ghost all = own@.map_values(|t: &ModuleTagDefinition| t@) + base@.map_values(
            |t: &ModuleTagDefinition| t@,
        );
        let mut list = own;
        list.append(&mut base);
        assert(list@.map_values(|t: &ModuleTagDefinition| t@) =~= all);
        let mut out: Vec<&'a ModuleTagDefinition> = Vec::new();
        let mut i: usize = 0;
        while i < list.len()
            invariant
                i <= list.len(),
                all == list@.map_values(|t: &ModuleTagDefinition| t@),
                out@.map_values(|t: &ModuleTagDefinition| t@) == dedup_tags(all.take(i as int)),
            decreases list.len() - i,
        {
            let ghost o0 = out@.map_values(|t: &ModuleTagDefinition| t@);
            assert(all.take(i + 1).drop_last() =~= all.take(i as int));
            if !has_tag_named(&out, list[i].name.as_str()) {
                out.push(list[i]);
                assert(out@.map_values(|t: &ModuleTagDefinition| t@) =~= o0.push(all[i as int]));
            }
            i += 1;
        }
        assert(all.take(i as int) =~= all);
        out
    }

    /// Where a tag visible to `RemoveModule` is declared: on the object
    /// itself, else, for a new map object, on the default object.
    pub fn effective_module_tag_locations(
        &self,
        object: &str,
        tag: &str,
        file: Option<&str>,
        before: Option<u32>,
    ) -> (r: Vec<Location>)
        ensures
            views(r@) == ({
                let own = picked(
                    self.tag_rows(),
                    tag_location(lower(object@), tag@, false, opt_str(file), before),
                );
                if own.len() == 0 && new_override_in(self.def_rows(), object@, opt_str(file)) {
                    picked(
                        self.tag_rows(),
                        tag_location(default_object(), tag@, false, None, None),
                    )
                } else {
                    own
                }
            }),
    {
        let key = to_lower(object);
        let own = self.tag_locations(key.as_str(), tag, false, file, before);
        let is_new = match file {
            Some(f) => self.is_new_override_object(object, f),
            None => false,
        };
        assert(views(own@).len() == own@.len());
        if own.len() == 0 && is_new {
            let base_key = to_lower("DefaultThingTemplate");
            self.tag_locations(base_key.as_str(), tag, false, None, None)
        } else {
            own
        }
    }

    /// Store string table keys of the `.str` file beside `ini_file`. An empty
    /// list removes the entry.
    pub fn set_ini_string_keys(&mut self, ini_file: &str, keys: Vec<String>)
        ensures
            final(self).key_rows() == if keys@.len() == 0 {
                others(old(self).key_rows(), ini_file@)
            } else {
                others(old(self).key_rows(), ini_file@).push(
                    EntryView { file: ini_file@, item: texts(keys@) },
                )
            },
            *final(self) == (WorkspaceIndex { string_keys: final(self).string_keys, ..*old(self) }),
    {
        drop_file(&mut self.string_keys, ini_file);
        if keys.len() > 0 {
            push_entry(&mut self.string_keys, ini_file, StringKeys { keys });
        }
    }

    /// String table keys available to `ini_file`.
    pub fn string_keys_for_ini(&self, ini_file: &str) -> (r: Vec<String>)
        ensures
            texts(r@) == keys_of(self.key_rows(), ini_file@),
    {
        let ghost rows = self.key_rows();
        let mut i: usize = self.string_keys.len();
        assert(rows.take(i as int) =~= rows);
        while i > 0
            invariant
                i <= self.string_keys.len(),
                rows == self.key_rows(),
                keys_of(rows, ini_file@) == keys_of(rows.take(i as int), ini_file@),
            decreases i,
        {
            assert(rows.take(i as int).drop_last() =~= rows.take(i - 1));
            i -= 1;
            if same(self.string_keys[i].file.as_str(), ini_file) {
                return copy_texts(&self.string_keys[i].item.keys);
            }
        }
        let out: Vec<String> = Vec::new();
        assert(texts(out@) =~= Seq::<Seq<char>>::empty());
        out
    }

    /// Whether any W3D model asset has been indexed.
    pub fn has_model_assets(&self) -> (r: bool)
        ensures
            r == (self.model_rows().len() > 0),
    {
        self.models.len() > 0
    }

    fn last_model(&self, key: &str) -> (r: Option<usize>)
        ensures
            match r {
                Some(i) => i < self.models.len() && effective_model(self.model_rows(), key@)
                    == Some(self.model_rows()[i as int]),
                None => effective_model(self.model_rows(), key@) is None,
            },
    {
        let ghost rows = self.model_rows();
        let mut i: usize = self.models.len();
        assert(rows.take(i as int) =~= rows);
        while i > 0
            invariant
                i <= self.models.len(),
                rows == self.model_rows(),
                effective_model(rows, key@) == effective_model(rows.take(i as int), key@),
            decreases i,
        {
            assert(rows.take(i as int).drop_last() =~= rows.take(i - 1));
            i -= 1;
            if lowers_to(self.models[i].item.name.as_str(), key) {
                return Some(i);
            }
        }
        None
    }

    /// Is a W3D model known from indexed assets?
    pub fn is_model_asset(&self, name: &str) -> (r: bool)
        ensures
            r == (effective_model(self.model_rows(), lower(name@)) is Some),
    {
        let key = to_lower(name);
        self.last_model(key.as_str()).is_some()
    }

    /// Known W3D model names, in display casing.
    pub fn model_names(&self) -> (r: Vec<String>)
        ensures
            texts(r@) == model_names_from(self.model_rows(), 0),
    {
        let ghost rows = self.model_rows();
        let mut out: Vec<String> = Vec::new();
        let mut i: usize = 0;
        assert(texts(out@) + model_names_from(rows, 0) =~= model_names_from(rows, 0));
        while i < self.models.len()
            invariant
                i <= self.models.len(),
                rows == self.model_rows(),
                texts(out@) + model_names_from(rows, i as int) == model_names_from(rows, 0),
            decreases self.models.len() - i,
        {
            let ghost o0 = texts(out@);
            let key = to_lower(self.models[i].item.name.as_str());
            let mut later: bool = false;
            let mut j: usize = i + 1;
            while j < self.models.len()
                invariant
                    i < j <= self.models.len(),
                    rows == self.model_rows(),
                    key@ == lower(rows[i as int].item.name),
                    later == exists|k: int|
                        i < k < j && lower((#[trigger] rows[k]).item.name) == key@,
                decreases self.models.len() - j,
            {
                assert(rows[j as int].item.name == self.models@[j as int].item.name@);
                if lowers_to(self.models[j].item.name.as_str(), key.as_str()) {
                    later = true;
                }
                j += 1;
            }
            if !later {
                out.push(self.models[i].item.name.clone());
                assert(texts(out@) =~= o0.push(rows[i as int].item.name));
            }
            assert(texts(out@) + model_names_from(rows, i + 1) =~= o0 + model_names_from(
                rows,
                i as int,
            ));
            i += 1;
        }
        assert(texts(out@) =~= model_names_from(rows, 0));
        out
    }

    /// The file whose contribution of a model counts: the last one, since
    /// base roots are indexed first and workspace roots last.
    pub fn effective_model_source(&self, model: &str) -> (r: Option<String>)
        ensures
            opt_text(r) == match effective_model(self.model_rows(), lower(model@)) {
                Some(e) => Some(e.file),
                None => None,
            },
    {
        let key = to_lower(model);
        match self.last_model(key.as_str()) {
            Some(i) => Some(self.models[i].file.clone()),
            None => None,
        }
    }

    /// The texture that a name stands for: the last one of its stem.
    pub fn effective_texture_source(&self, texture: &str) -> (r: Option<&FileAsset>)
        ensures
            match r {
                Some(a) => effective_texture(self.asset_rows(), stem_of(texture@)) == Some(a@),
                None => effective_texture(self.asset_rows(), stem_of(texture@)) is None,
            },
    {
        let stem = asset_stem(texture);
        let ghost rows = self.asset_rows();
        let mut i: usize = self.assets.len();
        assert(rows.take(i as int) =~= rows);
        while i > 0
            invariant
                i <= self.assets.len(),
                rows == self.asset_rows(),
                stem@ == stem_of(texture@),
                effective_texture(rows, stem@) == effective_texture(rows.take(i as int), stem@),
            decreases i,
        {
            assert(rows.take(i as int).drop_last() =~= rows.take(i - 1));
            i -= 1;
            let own = asset_stem(self.assets[i].item.name.as_str());
            if self.assets[i].item.kind == AssetKind::Texture && same(own.as_str(), stem.as_str()) {
                return Some(&self.assets[i].item);
            }
        }
        None
    }

    /// User-addressable members of a model across every file that contributes
    /// it. May repeat a member.
    pub fn model_members(&self, model: &str) -> (r: Vec<String>)
        ensures
            texts(r@) == members_of(self.model_rows(), lower(model@)),
    {
        let key = to_lower(model);
        let ghost rows = self.model_rows();
        let mut out: Vec<String> = Vec::new();
        let mut i: usize = 0;
        while i < self.models.len()
            invariant
                i <= self.models.len(),
                rows == self.model_rows(),
                texts(out@) == members_of(rows.take(i as int), key@),
            decreases self.models.len() - i,
        {
            assert(rows.take(i + 1).drop_last() =~= rows.take(i as int));
            if lowers_to(self.models[i].item.name.as_str(), key.as_str()) {
                push_copies(&mut out, &self.models[i].item.members);
            }
            i += 1;
        }
        assert(rows.take(i as int) =~= rows);
        out
    }

    /// The animations that move the skeleton of a model.
    pub fn model_animations(&self, model: &str) -> (r: Vec<String>)
        ensures
            texts(r@) == self.animations_for(model@),
    {
        let key = to_lower(model);
        let mut out: Vec<String> = Vec::new();
        assert(texts(out@) =~= Seq::<Seq<char>>::empty());
        if let Some(at) = self.last_model(key.as_str()) {
            if let Some(hierarchy) = &self.models[at].item.hierarchy {
                let ghost rows = self.animation_rows();
                let ghost f = animation_on(hierarchy@);
                let mut i: usize = 0;
                while i < self.animations.len()
                    invariant
                        i <= self.animations.len(),
                        rows == self.animation_rows(),
                        f == animation_on(hierarchy@),
                        texts(out@) == picked(rows.take(i as int), f),
                    decreases self.animations.len() - i,
                {
                    let ghost o0 = texts(out@);
                    assert(rows.take(i + 1).drop_last() =~= rows.take(i as int));
                    let item = &self.animations[i].item;
                    if eq_ci(item.hierarchy.as_str(), hierarchy.as_str()) {
                        out.push(item.name.clone());
                        assert(f(rows[i as int]) == Some(rows[i as int].item.name));
                        assert(texts(out@) =~= o0.push(rows[i as int].item.name));
                    } else {
                        assert(f(rows[i as int]) is None);
                    }
                    i += 1;
                }
                assert(rows.take(i as int) =~= rows);
            }
        }
        out
    }

    /// The asset names of one kind.
    pub fn asset_names(&self, kind: AssetKind) -> (r: Vec<String>)
        ensures
            texts(r@) == asset_names_of(self.asset_rows(), kind),
    {
        let ghost rows = self.asset_rows();
        let mut out: Vec<String> = Vec::new();
        let mut i: usize = 0;
        while i < self.assets.len()
            invariant
                i <= self.assets.len(),
                rows == self.asset_rows(),
                texts(out@) == asset_names_of(rows.take(i as int), kind),
            decreases self.assets.len() - i,
        {
            let ghost o0 = texts(out@);
            let ghost front = rows.take(i as int);
            assert(rows.take(i + 1).drop_last() =~= front);
            if self.assets[i].item.kind == kind {
                let key = to_lower(self.assets[i].item.name.as_str());
                let mut known: bool = false;
                let mut j: usize = 0;
                while j < i
                    invariant
                        j <= i < self.assets.len(),
                        rows == self.asset_rows(),
                        front == rows.take(i as int),
                        known == exists|k: int|
                            0 <= k < j && (#[trigger] front[k]).item.kind == kind && lower(
                                front[k].item.name,
                            ) == key@,
                    decreases i - j,
                {
                    assert(front[j as int] == rows[j as int]);
                    if self.assets[j].item.kind == kind && lowers_to(
                        self.assets[j].item.name.as_str(),
                        key.as_str(),
                    ) {
                        known = true;
                    }
                    j += 1;
                }
                if !known {
                    out.push(self.assets[i].item.name.clone());
                    assert(texts(out@) =~= o0.push(rows[i as int].item.name));
                }
            }
            i += 1;
        }
        assert(rows.take(i as int) =~= rows);
        out
    }

    fn known_before(&self, kind: RefKind, key: &str, end: usize) -> (r: bool)
        requires
            end <= self.defs.len(),
        ensures
            r == def_known(self.def_rows().take(end as int), kind, key@),
    {
        let ghost rows = self.def_rows().take(end as int);
        let mut i: usize = 0;
        while i < end
            invariant
                i <= end <= self.defs.len(),
                rows == self.def_rows().take(end as int),
                forall|k: int|
                    0 <= k < i ==> !((#[trigger] rows[k]).item.kind == kind && rows[k].item.key
                        == key@),
            decreases end - i,
        {
            assert(rows[i as int] == self.defs@[i as int]@);
            if self.defs[i].item.kind == kind && same(self.defs[i].item.key.as_str(), key) {
                return true;
            }
            i += 1;
        }
        false
    }

    /// Is `name` defined for `kind` anywhere in the workspace?
    pub fn is_defined(&self, kind: RefKind, name: &str) -> (r: bool)
        ensures
            r == def_known(self.def_rows(), kind, lower(name@)),
    {
        let key = to_lower(name);
        assert(self.def_rows().take(self.defs@.len() as int) =~= self.def_rows());
        self.known_before(kind, key.as_str(), self.defs.len())
    }

    /// All definition locations for `name` of `kind`.
    pub fn locations(&self, kind: RefKind, name: &str) -> (r: Vec<Location>)
        ensures
            views(r@) == picked(self.def_rows(), def_location(kind, lower(name@))),
    {
        let key = to_lower(name);
        let ghost rows = self.def_rows();
        let ghost f = def_location(kind, key@);
        let mut out: Vec<Location> = Vec::new();
        let mut i: usize = 0;
        while i < self.defs.len()
            invariant
                i <= self.defs.len(),
                rows == self.def_rows(),
                f == def_location(kind, key@),
                views(out@) == picked(rows.take(i as int), f),
            decreases self.defs.len() - i,
        {
            let ghost o0 = views(out@);
            assert(rows.take(i + 1).drop_last() =~= rows.take(i as int));
            if self.defs[i].item.kind == kind && same(
                self.defs[i].item.key.as_str(),
                key.as_str(),
            ) {
                let location = Location {
                    file: self.defs[i].file.clone(),
                    span: self.defs[i].item.span,
                };
                assert(f(rows[i as int]) == Some(location@));
                out.push(location);
                assert(views(out@) =~= o0.push(location@));
            } else {
                assert(f(rows[i as int]) is None);
            }
            i += 1;
        }
        assert(rows.take(i as int) =~= rows);
        out
    }

    /// All known names for a kind, in display casing.
    pub fn names(&self, kind: RefKind) -> (r: Vec<String>)
        ensures
            texts(r@) == names_of(self.def_rows(), kind),
    {
        let ghost rows = self.def_rows();
        let mut out: Vec<String> = Vec::new();
        let mut i: usize = 0;
        while i < self.defs.len()
            invariant
                i <= self.defs.len(),
                rows == self.def_rows(),
                texts(out@) == names_of(rows.take(i as int), kind),
            decreases self.defs.len() - i,
        {
            let ghost o0 = texts(out@);
            assert(rows.take(i + 1).drop_last() =~= rows.take(i as int));
            if self.defs[i].item.kind == kind && !self.known_before(
                kind,
                self.defs[i].item.key.as_str(),
                i,
            ) {
                out.push(self.defs[i].item.display.clone());
                assert(texts(out@) =~= o0.push(rows[i as int].item.display));
            }
            i += 1;
        }
        assert(rows.take(i as int) =~= rows);
        out
    }

    /// Names with at least one definition outside an override layer: the
    /// valid targets of a map override.
    pub fn override_target_names(&self, kind: RefKind) -> (r: Vec<String>)
        ensures
            texts(r@) == base_names_of(self.def_rows(), self.def_rows(), kind),
    {
        let ghost rows = self.def_rows();
        let mut out: Vec<String> = Vec::new();
        let mut i: usize = 0;
        while i < self.defs.len()
            invariant
                i <= self.defs.len(),
                rows == self.def_rows(),
                texts(out@) == base_names_of(rows, rows.take(i as int), kind),
            decreases self.defs.len() - i,
        {
            let ghost o0 = texts(out@);
            assert(rows.take(i + 1).drop_last() =~= rows.take(i as int));
            if self.defs[i].item.kind == kind && !self.known_before(
                kind,
                self.defs[i].item.key.as_str(),
                i,
            ) && self.in_base(kind, self.defs[i].item.key.as_str()) {
                out.push(self.defs[i].item.display.clone());
                assert(texts(out@) =~= o0.push(rows[i as int].item.display));
            }
            i += 1;
        }
        assert(rows.take(i as int) =~= rows);
        out
    }

    /// All reference sites for `name` of `kind`.
    pub fn reference_sites(&self, kind: RefKind, name: &str) -> (r: Vec<Location>)
        ensures
            views(r@) == picked(self.site_rows(), site_location(kind, lower(name@))),
    {
        let key = to_lower(name);
        let ghost rows = self.site_rows();
        let ghost f = site_location(kind, key@);
        let mut out: Vec<Location> = Vec::new();
        let mut i: usize = 0;
        while i < self.sites.len()
            invariant
                i <= self.sites.len(),
                rows == self.site_rows(),
                f == site_location(kind, key@),
                views(out@) == picked(rows.take(i as int), f),
            decreases self.sites.len() - i,
        {
            let ghost o0 = views(out@);
            assert(rows.take(i + 1).drop_last() =~= rows.take(i as int));
            if self.sites[i].item.kind == kind && same(
                self.sites[i].item.key.as_str(),
                key.as_str(),
            ) {
                let location = Location {
                    file: self.sites[i].file.clone(),
                    span: self.sites[i].item.span,
                };
                assert(f(rows[i as int]) == Some(location@));
                out.push(location);
                assert(views(out@) =~= o0.push(location@));
            } else {
                assert(f(rows[i as int]) is None);
            }
            i += 1;
        }
        assert(rows.take(i as int) =~= rows);
        out
    }

    /// Is `name` of `kind` referenced anywhere in the workspace?
    pub fn is_referenced(&self, kind: RefKind, name: &str) -> (r: bool)
        ensures
            r == (picked(self.site_rows(), site_location(kind, lower(name@))).len() > 0),
    {
        let found = self.reference_sites(kind, name);
        assert(views(found@).len() == found@.len());
        found.len() > 0
    }

    /// Workspace symbols whose name holds `query` up to ASCII case, with each
    /// of their definition locations. An empty query matches everything.
    pub fn symbols(&self, query: &str) -> (r: Vec<Symbol>)
        ensures
            views(r@) == picked(self.def_rows(), symbol_for(lower(query@))),
    {
        let part = to_lower(query);
        let ghost rows = self.def_rows();
        let ghost f = symbol_for(part@);
        let mut out: Vec<Symbol> = Vec::new();
        let mut i: usize = 0;
        while i < self.defs.len()
            invariant
                i <= self.defs.len(),
                rows == self.def_rows(),
                f == symbol_for(part@),
                views(out@) == picked(rows.take(i as int), f),
            decreases self.defs.len() - i,
        {
            let ghost o0 = views(out@);
            assert(rows.take(i + 1).drop_last() =~= rows.take(i as int));
            let item = &self.defs[i].item;
            if has_part(item.key.as_str(), part.as_str()) {
                let symbol = Symbol {
                    kind: item.kind,
                    name: item.display.clone(),
                    location: Location { file: self.defs[i].file.clone(), span: item.span },
                };
                assert(f(rows[i as int]) == Some(symbol@));
                out.push(symbol);
                assert(views(out@) =~= o0.push(symbol@));
            } else {
                assert(f(rows[i as int]) is None);
            }
            i += 1;
        }
        assert(rows.take(i as int) =~= rows);
        out
    }
}

/// Decides [`holds_part`].
pub fn has_part(text: &str, part: &str) -> (r: bool)
    ensures
        r == holds_part(text@, part@),
{
    let n: usize = text.unicode_len();
    let m: usize = part.unicode_len();
    if m > n {
        return false;
    }
    let mut i: usize = 0;
    while i <= n - m
        invariant
            i <= n - m + 1,
            n == text@.len(),
            m == part@.len(),
            m <= n,
            forall|k: int| 0 <= k < i ==> #[trigger] text@.subrange(k, k + m) != part@,
        decreases n - m + 1 - i,
    {
        if same(text.substring_char(i, i + m), part) {
            assert(text@.subrange(i as int, i + m) == part@);
            return true;
        }
        if i == n - m {
            return false;
        }
        i += 1;
    }
    false
}

fn entry_after_cursor(
    entry: &Entry<ModuleTagDefinition>,
    file: Option<&str>,
    before: Option<u32>,
) -> (r: bool)
    ensures
        r == after_cursor(entry@, opt_str(file), before),
{
    match (file, before) {
        (Some(f), Some(b)) => same(entry.file.as_str(), f) && entry.item.span.start >= b,
        _ => false,
    }
}

pub fn has_tag_named(tags: &Vec<&ModuleTagDefinition>, name: &str) -> (r: bool)
    ensures
        r == tag_named(tags@.map_values(|t: &ModuleTagDefinition| t@), name@),
{
    let ghost list = tags@.map_values(|t: &ModuleTagDefinition| t@);
    let mut i: usize = 0;
    while i < tags.len()
        invariant
            i <= tags.len(),
            list == tags@.map_values(|t: &ModuleTagDefinition| t@),
            forall|k: int| 0 <= k < i ==> !same_ci((#[trigger] list[k]).name, name@),
        decreases tags.len() - i,
    {
        if eq_ci(tags[i].name.as_str(), name) {
            assert(same_ci(list[i as int].name, name@));
            return true;
        }
        i += 1;
    }
    false
}

} // verus!
