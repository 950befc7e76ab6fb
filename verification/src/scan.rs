//! Workspace scanning: which inputs count, what each one contributes, and in
//! which order.

use vstd::prelude::*;

use crate::analyzer::Analyzer;
use crate::extract::{
    def_sites, definitions_from, definitions_in, module_tags_in, object_models_in,
    object_parents_in, object_texts, objects_from, pair_texts, parents_from, ref_sites,
    references_from, references_in, tags_from, SiteOf,
};
use crate::index::{
    copy_texts, opt_text, AnimationAsset, AnimationView, AssetKind, AssetView, Definition,
    FileAsset, ModelAsset, ModelView, ModuleTagDefinition, ReferenceSite, TagView,
};
use crate::order::{
    in_order, le_text, lemma_text_le_antisym, lemma_text_le_total, lemma_text_le_trans, sort,
    sorted, text_le, views, Ranked,
};
use crate::reader::{read_text, tree_of};
use crate::scopes::{extension_is, has_extension};
use crate::syntax::Parse;
use crate::text::{
    chars_of, eq_ci, last_part, last_part_of, lower, rsplit_once, same, same_ci, split_at_last,
    string_from, texts, to_lower, trim, trim_both, CharClass,
};
use crate::uri::{big_uri, big_url, entry_path, fits_url};
use crate::w3d::{file_of, from_lossy, lossy_text, AnimationEntryView, CatalogView, FileView, W3dFile};

verus! {

/// What one file contributes to the index.
#[derive(Debug)]
pub struct ScanEntry {
    pub file: String,
    pub definitions: Vec<Definition>,
    pub references: Vec<ReferenceSite>,
    pub tags: Vec<ModuleTagDefinition>,
    pub object_models: Vec<(String, Vec<String>)>,
    pub object_parents: Vec<(String, String)>,
    pub models: Vec<ModelAsset>,
    pub assets: Vec<FileAsset>,
    /// The text of a file that has no document of its own on disk.
    pub text: Option<String>,
    pub animations: Vec<AnimationAsset>,
}

/// The model of a [`ScanEntry`].
pub struct ScanEntryView {
    pub file: Seq<char>,
    pub definitions: Seq<SiteOf>,
    pub references: Seq<SiteOf>,
    pub tags: Seq<TagView>,
    pub object_models: Seq<(Seq<char>, Seq<Seq<char>>)>,
    pub object_parents: Seq<(Seq<char>, Seq<char>)>,
    pub models: Seq<ModelView>,
    pub assets: Seq<AssetView>,
    pub text: Option<Seq<char>>,
    pub animations: Seq<AnimationView>,
}

impl View for ScanEntry {
    type V = ScanEntryView;

    open spec fn view(&self) -> ScanEntryView {
        ScanEntryView {
            file: self.file@,
            definitions: def_sites(self.definitions@),
            references: ref_sites(self.references@),
            tags: views(self.tags@),
            object_models: object_texts(self.object_models@),
            object_parents: pair_texts(self.object_parents@),
            models: views(self.models@),
            assets: views(self.assets@),
            text: opt_text(self.text),
            animations: views(self.animations@),
        }
    }
}

/// A file that contributes nothing.
pub open spec fn nothing_from(file: Seq<char>) -> ScanEntryView {
    ScanEntryView {
        file,
        definitions: Seq::empty(),
        references: Seq::empty(),
        tags: Seq::empty(),
        object_models: Seq::empty(),
        object_parents: Seq::empty(),
        models: Seq::empty(),
        assets: Seq::empty(),
        text: None,
        animations: Seq::empty(),
    }
}

fn empty_entry(file: &str) -> (r: ScanEntry)
    ensures
        r@ == nothing_from(file@),
{
    let r = ScanEntry {
        file: file.to_owned(),
        definitions: Vec::new(),
        references: Vec::new(),
        tags: Vec::new(),
        object_models: Vec::new(),
        object_parents: Vec::new(),
        models: Vec::new(),
        assets: Vec::new(),
        text: None,
        animations: Vec::new(),
    };
    assert(r@.definitions =~= Seq::<SiteOf>::empty());
    assert(r@.references =~= Seq::<SiteOf>::empty());
    assert(r@.tags =~= Seq::<TagView>::empty());
    assert(r@.object_models =~= Seq::<(Seq<char>, Seq<Seq<char>>)>::empty());
    assert(r@.object_parents =~= Seq::<(Seq<char>, Seq<char>)>::empty());
    assert(r@.models =~= Seq::<ModelView>::empty());
    assert(r@.assets =~= Seq::<AssetView>::empty());
    assert(r@.animations =~= Seq::<AnimationView>::empty());
    r
}

/// What an INI document contributes.
pub open spec fn ini_contribution(
    analyzer: &Analyzer,
    parse: &Parse,
    file: Seq<char>,
    text: Option<Seq<char>>,
) -> ScanEntryView {
    ScanEntryView {
        definitions: definitions_from(analyzer, parse, 0),
        references: references_from(analyzer, parse, 0),
        tags: tags_from(parse, 0),
        object_models: objects_from(analyzer, parse, 0),
        object_parents: parents_from(parse, 0),
        text,
        ..nothing_from(file)
    }
}

/// Collects what an INI document contributes.
pub fn ini_entry(analyzer: &Analyzer, parse: &Parse, file: &str, text: Option<String>) -> (r:
    ScanEntry)
    requires
        parse.wf(),
    ensures
        r@ == ini_contribution(analyzer, parse, file@, opt_text(text)),
{
    let mut entry = empty_entry(file);
    entry.definitions = definitions_in(analyzer, parse, file);
    entry.references = references_in(analyzer, parse);
    entry.tags = module_tags_in(analyzer, parse);
    entry.object_models = object_models_in(analyzer, parse);
    entry.object_parents = object_parents_in(parse);
    entry.text = text;
    entry
}

/// The stem of a path's file name.
pub open spec fn file_stem_of(path: Seq<char>) -> Seq<char> {
    crate::completion::stem(last_part(path, '/', '\\'))
}

/// The stem of a path's file name.
pub fn file_stem_str(path: &str) -> (r: String)
    ensures
        r@ == file_stem_of(path@),
{
    crate::completion::file_stem(last_part_of(path, '/', '\\')).to_owned()
}

/// The kind of asset that an extension stands for.
pub open spec fn kind_of_extension(extension: Seq<char>) -> Option<AssetKind> {
    if same_ci(extension, "wav"@) || same_ci(extension, "mp3"@) {
        Some(AssetKind::Audio)
    } else if same_ci(extension, "tga"@) || same_ci(extension, "dds"@) {
        Some(AssetKind::Texture)
    } else {
        None
    }
}

/// The raw asset at a path.
pub open spec fn asset_of(path: Seq<char>, uri: Seq<char>) -> Option<AssetView> {
    let name = last_part(path, '/', '\\');
    match rsplit_once(name, '.') {
        Some((_, extension)) => match kind_of_extension(extension) {
            Some(kind) => Some(AssetView { kind, name, uri }),
            None => None,
        },
        None => None,
    }
}

/// The raw asset at a path: an audio or a texture file.
pub fn raw_asset(path: &str, uri: &str) -> (r: Option<FileAsset>)
    ensures
        match (r, asset_of(path@, uri@)) {
            (Some(a), Some(v)) => a@ == v,
            (None, None) => true,
            _ => false,
        },
{
    let name = last_part_of(path, '/', '\\');
    match split_at_last(name, '.') {
        Some((_stem, extension)) => {
            let kind = if eq_ci(extension, "wav") || eq_ci(extension, "mp3") {
                AssetKind::Audio
            } else if eq_ci(extension, "tga") || eq_ci(extension, "dds") {
                AssetKind::Texture
            } else {
                return None;
            };
            Some(FileAsset { kind, name: name.to_owned(), uri: uri.to_owned() })
        },
        None => None,
    }
}

/// A catalog entry as the index holds it.
pub open spec fn indexed_model(entry: CatalogView) -> ModelView {
    ModelView { name: entry.name, members: entry.members, hierarchy: entry.hierarchy }
}

pub open spec fn indexed_models(entries: Seq<CatalogView>) -> Seq<ModelView> {
    entries.map_values(|e: CatalogView| indexed_model(e))
}

/// An animation as the index holds it.
pub open spec fn indexed_animation(entry: AnimationEntryView) -> AnimationView {
    AnimationView { name: entry.name, hierarchy: entry.hierarchy }
}

pub open spec fn indexed_animations(entries: Seq<AnimationEntryView>) -> Seq<AnimationView> {
    entries.map_values(|e: AnimationEntryView| indexed_animation(e))
}

/// The models and animations that a W3D file offers. A file that cannot be
/// read offers its own name, so that references to it resolve.
pub open spec fn w3d_offer(
    file: Result<FileView, Seq<char>>,
    fallback: Seq<char>,
) -> (Seq<ModelView>, Seq<AnimationView>) {
    match file {
        Ok(f) => (indexed_models(f.models(fallback)), indexed_animations(f.animations)),
        Err(_) => {
            let name = trim(fallback, CharClass::Space);
            if name.len() > 0 {
                (
                    seq![ModelView { name, members: Seq::empty(), hierarchy: None }],
                    Seq::empty(),
                )
            } else {
                (Seq::empty(), Seq::empty())
            }
        },
    }
}

/// Reads the models and animations that a W3D file offers.
pub fn parse_w3d_assets(bytes: &[u8], fallback_name: &str) -> (r: (
    Vec<ModelAsset>,
    Vec<AnimationAsset>,
))
    ensures
        (views(r.0@), views(r.1@)) == w3d_offer(file_of(bytes@), fallback_name@),
{
    let mut models: Vec<ModelAsset> = Vec::new();
    let mut animations: Vec<AnimationAsset> = Vec::new();
    assert(views(models@) =~= Seq::<ModelView>::empty());
    assert(views(animations@) =~= Seq::<AnimationView>::empty());
    match W3dFile::parse(bytes) {
        Ok(file) => {
            let catalog = file.catalog(fallback_name);
            let mut i: usize = 0;
            while i < catalog.len()
                invariant
                    i <= catalog.len(),
                    models.len() == i,
                    forall|k: int|
                        0 <= k < i ==> (#[trigger] models@[k])@ == indexed_model(catalog@[k]@),
                decreases catalog.len() - i,
            {
                models.push(
                    ModelAsset {
                        name: catalog[i].name.clone(),
                        members: copy_texts(&catalog[i].members),
                        hierarchy: crate::index::copy_opt(&catalog[i].hierarchy),
                    },
                );
                i += 1;
            }
            assert(views(models@) =~= indexed_models(views(catalog@)));
            let found = file.animations();
            let mut k: usize = 0;
            while k < found.len()
                invariant
                    k <= found.len(),
                    animations.len() == k,
                    forall|j: int|
                        0 <= j < k ==> (#[trigger] animations@[j])@ == indexed_animation(
                            found@[j]@,
                        ),
                decreases found.len() - k,
            {
                animations.push(
                    AnimationAsset {
                        name: found[k].name.clone(),
                        hierarchy: found[k].hierarchy.clone(),
                    },
                );
                k += 1;
            }
            assert(views(animations@) =~= indexed_animations(file@.animations));
        },
        Err(_) => {
            let name = trim_both(fallback_name, CharClass::Space);
            if !name.is_empty() {
                let model = ModelAsset {
                    name: name.to_owned(),
                    members: Vec::new(),
                    hierarchy: None,
                };
                assert(model@.members =~= Seq::<Seq<char>>::empty());
                let ghost view = model@;
                models.push(model);
                assert(views(models@) =~= seq![view]);
            }
        },
    }
    (models, animations)
}

/// What a W3D file contributes; nothing when it offers nothing.
pub open spec fn w3d_contribution(
    file: Seq<char>,
    offer: (Seq<ModelView>, Seq<AnimationView>),
) -> Option<ScanEntryView> {
    if offer.0.len() > 0 || offer.1.len() > 0 {
        Some(ScanEntryView { models: offer.0, animations: offer.1, ..nothing_from(file) })
    } else {
        None
    }
}

/// Whether an optional entry is as its model says.
pub open spec fn entry_is(r: Option<ScanEntry>, s: Option<ScanEntryView>) -> bool {
    match (r, s) {
        (Some(e), Some(v)) => e@ == v,
        (None, None) => true,
        _ => false,
    }
}

/// Collects what a W3D file contributes.
pub fn w3d_entry(file: &str, bytes: &[u8], stem: &str) -> (r: Option<ScanEntry>)
    ensures
        entry_is(r, w3d_contribution(file@, w3d_offer(file_of(bytes@), stem@))),
{
    let (models, animations) = parse_w3d_assets(bytes, stem);
    if models.len() > 0 || animations.len() > 0 {
        let mut entry = empty_entry(file);
        entry.models = models;
        entry.animations = animations;
        return Some(entry);
    }
    None
}

/// What a raw asset contributes.
pub open spec fn asset_contribution(path: Seq<char>, uri: Seq<char>) -> Option<ScanEntryView> {
    match asset_of(path, uri) {
        Some(asset) => Some(ScanEntryView { assets: seq![asset], ..nothing_from(uri) }),
        None => None,
    }
}

/// Collects what a raw asset contributes.
pub fn asset_entry(path: &str, uri: &str) -> (r: Option<ScanEntry>)
    ensures
        entry_is(r, asset_contribution(path@, uri@)),
{
    match raw_asset(path, uri) {
        Some(asset) => {
            let ghost view = asset@;
            let mut entry = empty_entry(uri);
            entry.assets.push(asset);
            assert(entry@.assets =~= seq![view]);
            Some(entry)
        },
        None => None,
    }
}

/// What an input is, by its extension.
#[derive(Debug, Clone, Copy, PartialEq, Eq, Structural)]
pub enum InputKind {
    Archive,
    Ini,
    Model,
    Asset,
    Other,
}

pub open spec fn input_kind_of(extension: Seq<char>) -> InputKind {
    if same_ci(extension, "big"@) {
        InputKind::Archive
    } else if same_ci(extension, "ini"@) {
        InputKind::Ini
    } else if same_ci(extension, "w3d"@) {
        InputKind::Model
    } else if kind_of_extension(extension) is Some {
        InputKind::Asset
    } else {
        InputKind::Other
    }
}

/// What an input is, by its extension. Discovery passes over other files.
pub fn input_kind(extension: &str) -> (r: InputKind)
    ensures
        r == input_kind_of(extension@),
{
    if eq_ci(extension, "big") {
        InputKind::Archive
    } else if eq_ci(extension, "ini") {
        InputKind::Ini
    } else if eq_ci(extension, "w3d") {
        InputKind::Model
    } else if eq_ci(extension, "wav") || eq_ci(extension, "mp3") || eq_ci(extension, "tga")
        || eq_ci(extension, "dds") {
        InputKind::Asset
    } else {
        InputKind::Other
    }
}

/// A path without the slashes and dots that end it: they name no other file.
pub open spec fn tidied(s: Seq<char>) -> Seq<char>
    decreases s.len(),
{
    if s.len() > 0 && s.last() == '/' {
        tidied(s.drop_last())
    } else if s.len() > 1 && s.last() == '.' && s[s.len() - 2] == '/' {
        tidied(s.drop_last())
    } else {
        s
    }
}

/// The extension of the file name of a path: what follows its last dot, unless
/// that dot starts the name.
pub open spec fn path_extension(path: Seq<char>) -> Seq<char> {
    let name = last_part(tidied(path), '/', '/');
    match rsplit_once(name, '.') {
        Some((front, extension)) => if front.len() > 0 {
            extension
        } else {
            Seq::empty()
        },
        None => Seq::empty(),
    }
}

/// The extension of the file name of a path.
pub fn extension_of(path: &str) -> (r: String)
    ensures
        r@ == path_extension(path@),
{
    let chars = chars_of(path);
    let mut end: usize = chars.len();
    assert(chars@.take(end as int) =~= path@);
    while end > 0 && (chars[end - 1] == '/' || (end > 1 && chars[end - 1] == '.' && chars[end - 2]
        == '/'))
        invariant
            end <= chars.len(),
            tidied(path@) == tidied(chars@.take(end as int)),
        decreases end,
    {
        assert(chars@.take(end as int).drop_last() =~= chars@.take(end - 1));
        end -= 1;
    }
    let tidy = string_from(&chars, 0, end);
    assert(tidy@ =~= chars@.take(end as int));
    let name = last_part_of(tidy.as_str(), '/', '/');
    match split_at_last(name, '.') {
        Some((front, extension)) => if front.is_empty() {
            let none = String::new();
            assert(none@ =~= Seq::<char>::empty());
            none
        } else {
            extension.to_owned()
        },
        None => {
            let none = String::new();
            assert(none@ =~= Seq::<char>::empty());
            none
        },
    }
}

/// A DDS texture stands after a TGA texture of the same stem.
pub open spec fn dds_rank(name: Seq<char>) -> int {
    if extension_is(name, "dds"@) {
        1
    } else {
        0
    }
}

/// Whether one stem and rank may stand before another.
pub open spec fn ranked_le(stem_a: Seq<char>, rank_a: int, stem_b: Seq<char>, rank_b: int) -> bool {
    if stem_a == stem_b {
        rank_a <= rank_b
    } else {
        text_le(stem_a, stem_b)
    }
}

proof fn lemma_ranked_le_total(a: Seq<char>, x: int, b: Seq<char>, y: int)
    ensures
        ranked_le(a, x, b, y) || ranked_le(b, y, a, x),
{
    lemma_text_le_total(a, b);
}

proof fn lemma_ranked_le_trans(a: Seq<char>, x: int, b: Seq<char>, y: int, c: Seq<char>, z: int)
    requires
        ranked_le(a, x, b, y),
        ranked_le(b, y, c, z),
    ensures
        ranked_le(a, x, c, z),
{
    if a != b && b != c {
        lemma_text_le_trans(a, b, c);
        if a == c {
            lemma_text_le_antisym(a, b);
        }
    }
}

/// The stem by which an asset is placed.
pub open spec fn asset_key(name: Seq<char>) -> Seq<char> {
    lower(file_stem_of(name))
}

impl Ranked for FileAsset {
    open spec fn at_most(a: AssetView, b: AssetView) -> bool {
        ranked_le(asset_key(a.name), dds_rank(a.name), asset_key(b.name), dds_rank(b.name))
    }

    fn is_at_most(&self, other: &Self) -> (r: bool) {
        let left = to_lower(file_stem_str(self.name.as_str()).as_str());
        let right = to_lower(file_stem_str(other.name.as_str()).as_str());
        if same(left.as_str(), right.as_str()) {
            !has_extension(self.name.as_str(), "dds") || has_extension(other.name.as_str(), "dds")
        } else {
            le_text(left.as_str(), right.as_str())
        }
    }
}

/// The assets of an archive are placed by stem, and TGA before DDS.
pub proof fn law_assets_are_placed(assets: Seq<AssetView>)
    ensures
        in_order::<FileAsset>(sorted::<FileAsset>(assets)),
        sorted::<FileAsset>(assets).to_multiset() == assets.to_multiset(),
{
    assert forall|a: AssetView, b: AssetView| #[trigger]
        FileAsset::at_most(a, b) || FileAsset::at_most(b, a) by {
        lemma_ranked_le_total(
            asset_key(a.name),
            dds_rank(a.name),
            asset_key(b.name),
            dds_rank(b.name),
        );
    }
    assert forall|a: AssetView, b: AssetView, c: AssetView| #[trigger]
        FileAsset::at_most(a, b) && #[trigger] FileAsset::at_most(b, c) implies FileAsset::at_most(
        a,
        c,
    ) by {
        lemma_ranked_le_trans(
            asset_key(a.name),
            dds_rank(a.name),
            asset_key(b.name),
            dds_rank(b.name),
            asset_key(c.name),
            dds_rank(c.name),
        );
    }
    crate::order::law_sorted::<FileAsset>(assets);
}

/// A discovered path, with its place in the caller's list.
#[derive(Debug)]
pub struct ScanPath {
    pub text: String,
    /// What separates the parts of a path on this machine, besides a slash.
    pub separator: char,
    pub id: usize,
}

/// The model of a [`ScanPath`].
pub struct ScanPathView {
    pub text: Seq<char>,
    pub separator: char,
    pub id: usize,
}

impl View for ScanPath {
    type V = ScanPathView;

    open spec fn view(&self) -> ScanPathView {
        ScanPathView { text: self.text@, separator: self.separator, id: self.id }
    }
}

/// A path without the extension of its file name.
pub open spec fn without_extension(path: Seq<char>, separator: char) -> Seq<char> {
    let name = last_part(path, '/', separator);
    match rsplit_once(name, '.') {
        Some((front, extension)) => if front.len() > 0 {
            path.take(path.len() - extension.len() - 1)
        } else {
            path
        },
        None => path,
    }
}

/// Whether a path names a DDS texture.
pub open spec fn dds_path(path: Seq<char>, separator: char) -> int {
    let name = last_part(path, '/', separator);
    match rsplit_once(name, '.') {
        Some((front, extension)) => if front.len() > 0 && same_ci(extension, "dds"@) {
            1
        } else {
            0
        },
        None => 0,
    }
}

/// Splits a path before the extension of its file name: how many scalars stand
/// before the dot, and whether the extension is that of a DDS texture.
fn split_path(path: &str, separator: char) -> (r: (String, bool))
    ensures
        r.0@ == without_extension(path@, separator),
        r.1 == (dds_path(path@, separator) == 1),
{
    let name = last_part_of(path, '/', separator);
    match split_at_last(name, '.') {
        Some((front, extension)) => {
            if front.is_empty() {
                return (path.to_owned(), false);
            }
            let chars = chars_of(path);
            let tail: usize = extension.unicode_len();
            proof {
                lemma_split_fits(path@, separator);
            }
            let cut: usize = chars.len() - tail - 1;
            let stem = string_from(&chars, 0, cut);
            assert(stem@ =~= path@.take(cut as int));
            (stem, eq_ci(extension, "dds"))
        },
        None => (path.to_owned(), false),
    }
}

proof fn lemma_split_fits(path: Seq<char>, separator: char)
    ensures
        match rsplit_once(last_part(path, '/', separator), '.') {
            Some((front, extension)) => front.len() + 1 + extension.len() <= path.len(),
            None => true,
        },
{
    crate::text::lemma_after_last_bounds(path, '/', separator);
    crate::text::lemma_after_last_bounds(last_part(path, '/', separator), '.', '.');
}

impl Ranked for ScanPath {
    open spec fn at_most(a: ScanPathView, b: ScanPathView) -> bool {
        ranked_le(
            lower(without_extension(a.text, a.separator)),
            dds_path(a.text, a.separator),
            lower(without_extension(b.text, b.separator)),
            dds_path(b.text, b.separator),
        )
    }

    fn is_at_most(&self, other: &Self) -> (r: bool) {
        let (left, left_dds) = split_path(self.text.as_str(), self.separator);
        let (right, right_dds) = split_path(other.text.as_str(), other.separator);
        let left = to_lower(left.as_str());
        let right = to_lower(right.as_str());
        if same(left.as_str(), right.as_str()) {
            !left_dds || right_dds
        } else {
            le_text(left.as_str(), right.as_str())
        }
    }
}

/// The paths with their places, on a machine with that separator.
pub open spec fn placed(paths: Seq<Seq<char>>, separator: char) -> Seq<ScanPathView> {
    Seq::new(paths.len(), |i: int| ScanPathView { text: paths[i], separator, id: i as usize })
}

/// The places of the paths of one root in scanning order: by path without
/// extension, in any ASCII case, and TGA before DDS. A slash separates the parts
/// of a path, and so does `separator`: a backslash where the machine reads it so.
pub fn scan_order(paths: &Vec<String>, separator: char) -> (r: Vec<usize>)
    ensures
        r@ == sorted::<ScanPath>(placed(texts(paths@), separator)).map_values(|p: ScanPathView| p.id),
{
    let ghost ps = texts(paths@);
    let mut list: Vec<ScanPath> = Vec::new();
    let mut i: usize = 0;
    while i < paths.len()
        invariant
            i <= paths.len(),
            ps == texts(paths@),
            list.len() == i,
            forall|k: int| 0 <= k < i ==> (#[trigger] list@[k])@ == placed(ps, separator)[k],
        decreases paths.len() - i,
    {
        list.push(ScanPath { text: paths[i].clone(), separator, id: i });
        i += 1;
    }
    assert(views(list@) =~= placed(ps, separator));
    let list = sort(list);
    let ghost sorted_views = sorted::<ScanPath>(placed(ps, separator));
    let mut out: Vec<usize> = Vec::new();
    let mut k: usize = 0;
    while k < list.len()
        invariant
            k <= list.len(),
            views(list@) == sorted_views,
            out.len() == k,
            forall|j: int| 0 <= j < k ==> #[trigger] out@[j] == sorted_views[j].id,
        decreases list.len() - k,
    {
        assert(sorted_views[k as int] == list@[k as int]@);
        out.push(list[k].id);
        k += 1;
    }
    assert(out@ =~= sorted_views.map_values(|p: ScanPathView| p.id));
    out
}

/// Scanning takes the paths of a root in order, each one once.
pub proof fn law_scan_order(paths: Seq<Seq<char>>, separator: char)
    ensures
        in_order::<ScanPath>(sorted::<ScanPath>(placed(paths, separator))),
        sorted::<ScanPath>(placed(paths, separator)).to_multiset() == placed(paths, separator).to_multiset(),
{
    assert forall|a: ScanPathView, b: ScanPathView| #[trigger]
        ScanPath::at_most(a, b) || ScanPath::at_most(b, a) by {
        lemma_ranked_le_total(
            lower(without_extension(a.text, a.separator)),
            dds_path(a.text, a.separator),
            lower(without_extension(b.text, b.separator)),
            dds_path(b.text, b.separator),
        );
    }
    assert forall|a: ScanPathView, b: ScanPathView, c: ScanPathView| #[trigger]
        ScanPath::at_most(a, b) && #[trigger] ScanPath::at_most(b, c) implies ScanPath::at_most(
        a,
        c,
    ) by {
        lemma_ranked_le_trans(
            lower(without_extension(a.text, a.separator)),
            dds_path(a.text, a.separator),
            lower(without_extension(b.text, b.separator)),
            dds_path(b.text, b.separator),
            lower(without_extension(c.text, c.separator)),
            dds_path(c.text, c.separator),
        );
    }
    crate::order::law_sorted::<ScanPath>(placed(paths, separator));
}

/// What was read of an archive entry.
pub enum ArchiveContent {
    /// The bytes of an INI file.
    Ini { bytes: Vec<u8> },
    /// The bytes of a W3D file.
    Model { bytes: Vec<u8> },
    /// Nothing: the name says it all.
    Unread,
}

/// An archive entry to be indexed.
pub struct ArchiveInput {
    pub name: String,
    pub content: ArchiveContent,
}

impl ArchiveInput {
    /// The entry was read as its name asks.
    pub open spec fn wf(&self) -> bool {
        match input_kind_of(path_extension(self.name@)) {
            InputKind::Ini => self.content is Ini,
            InputKind::Model => self.content is Model,
            _ => self.content is Unread,
        }
    }
}

/// The URI of an entry of an archive.
pub open spec fn entry_uri(archive: Seq<char>, name: Seq<char>) -> Seq<char> {
    big_url(entry_path(archive, name))
}

/// Whether the URI of an entry is not too long to be made.
pub open spec fn entry_fits(archive: Seq<char>, name: Seq<char>) -> bool {
    fits_url(entry_path(archive, name))
}

/// The tree that goes with an entry is that of its text, where it is an INI
/// file.
pub open spec fn entry_read(
    analyzer: &Analyzer,
    input: ArchiveInput,
    tree: Option<(String, Parse)>,
) -> bool {
    match input.content {
        ArchiveContent::Ini { bytes } => tree matches Some((text, parse)) && {
            &&& text@ == lossy_text(bytes@)
            &&& parse.wf()
            &&& tree_of(analyzer, lossy_text(bytes@), &parse)
        },
        _ => true,
    }
}

/// Every tree is that of the entry at its place.
pub open spec fn entries_read(
    analyzer: &Analyzer,
    inputs: Seq<ArchiveInput>,
    trees: Seq<Option<(String, Parse)>>,
) -> bool {
    &&& trees.len() == inputs.len()
    &&& forall|i: int|
        0 <= i < inputs.len() ==> entry_read(analyzer, #[trigger] inputs[i], trees[i])
}

/// What an entry contributes on its own.
pub open spec fn own_contribution(
    analyzer: &Analyzer,
    archive: Seq<char>,
    input: ArchiveInput,
    tree: Option<(String, Parse)>,
) -> Seq<ScanEntryView> {
    let uri = entry_uri(archive, input.name@);
    match input.content {
        ArchiveContent::Ini { bytes } => seq![
            ini_contribution(analyzer, &tree->Some_0.1, uri, Some(lossy_text(bytes@))),
        ],
        ArchiveContent::Model { bytes } => match w3d_contribution(
            uri,
            w3d_offer(file_of(bytes@), file_stem_of(input.name@)),
        ) {
            Some(v) => seq![v],
            None => Seq::empty(),
        },
        ArchiveContent::Unread => Seq::empty(),
    }
}

/// The raw asset that an unread entry is.
pub open spec fn unread_asset(archive: Seq<char>, input: ArchiveInput) -> Seq<AssetView> {
    match input.content {
        ArchiveContent::Unread => match asset_of(input.name@, entry_uri(archive, input.name@)) {
            Some(asset) => seq![asset],
            None => Seq::empty(),
        },
        _ => Seq::empty(),
    }
}

/// What the entries from `i` on contribute on their own.
pub open spec fn own_contributions(
    analyzer: &Analyzer,
    archive: Seq<char>,
    inputs: Seq<ArchiveInput>,
    trees: Seq<Option<(String, Parse)>>,
    i: int,
) -> Seq<ScanEntryView>
    decreases inputs.len() - i,
{
    if i < 0 || i >= inputs.len() {
        Seq::empty()
    } else {
        own_contribution(analyzer, archive, inputs[i], trees[i]) + own_contributions(
            analyzer,
            archive,
            inputs,
            trees,
            i + 1,
        )
    }
}

/// The raw assets among the entries from `i` on.
pub open spec fn unread_assets(archive: Seq<char>, inputs: Seq<ArchiveInput>, i: int) -> Seq<
    AssetView,
>
    decreases inputs.len() - i,
{
    if i < 0 || i >= inputs.len() {
        Seq::empty()
    } else {
        unread_asset(archive, inputs[i]) + unread_assets(archive, inputs, i + 1)
    }
}

/// Whether no URI of an archive's entries is too long, nor that of its raw
/// assets where it has any.
pub open spec fn archive_fits(archive: Seq<char>, inputs: Seq<ArchiveInput>) -> bool {
    &&& forall|i: int| 0 <= i < inputs.len() ==> entry_fits(archive, (#[trigger] inputs[i]).name@)
    &&& unread_assets(archive, inputs, 0).len() > 0 ==> entry_fits(archive, "__assets__"@)
}

/// What an archive contributes: its INI and W3D files one by one, and its raw
/// assets together under a URI of their own.
pub open spec fn archive_contribution(
    analyzer: &Analyzer,
    archive: Seq<char>,
    inputs: Seq<ArchiveInput>,
    trees: Seq<Option<(String, Parse)>>,
) -> Seq<ScanEntryView> {
    let own = own_contributions(analyzer, archive, inputs, trees, 0);
    let raw = unread_assets(archive, inputs, 0);
    if raw.len() > 0 {
        own.push(
            ScanEntryView {
                assets: sorted::<FileAsset>(raw),
                ..nothing_from(entry_uri(archive, "__assets__"@))
            },
        )
    } else {
        own
    }
}

/// Reads the bytes of an INI file leniently: old files hold comments that are
/// no UTF-8.
pub fn decode_ini(bytes: &[u8]) -> (r: String)
    ensures
        r@ == lossy_text(bytes@),
{
    from_lossy(bytes)
}

/// Decodes the bytes of an INI file and reads the text.
pub fn read_file(analyzer: &Analyzer, bytes: &[u8]) -> (r: (String, Parse))
    ensures
        r.0@ == lossy_text(bytes@),
        r.1.wf(),
        tree_of(analyzer, lossy_text(bytes@), &r.1),
{
    let text = decode_ini(bytes);
    let parse = read_text(analyzer, text.as_str());
    (text, parse)
}

/// What an INI file on disk contributes.
pub fn file_entry(analyzer: &Analyzer, bytes: &[u8], uri: &str) -> (r: ScanEntry)
    ensures
        exists|parse: Parse| #[trigger]
            tree_of(analyzer, lossy_text(bytes@), &parse) && r@ == ini_contribution(
                analyzer,
                &parse,
                uri@,
                None,
            ),
{
    let (_, parse) = read_file(analyzer, bytes);
    ini_entry(analyzer, &parse, uri, None)
}

fn read_entries(analyzer: &Analyzer, inputs: &Vec<ArchiveInput>) -> (r: Vec<
    Option<(String, Parse)>,
>)
    ensures
        entries_read(analyzer, inputs@, r@),
{
    let mut trees: Vec<Option<(String, Parse)>> = Vec::new();
    let mut i: usize = 0;
    while i < inputs.len()
        invariant
            i <= inputs.len(),
            trees@.len() == i,
            forall|k: int|
                0 <= k < i ==> entry_read(analyzer, #[trigger] inputs@[k], trees@[k]),
        decreases inputs.len() - i,
    {
        match &inputs[i].content {
            ArchiveContent::Ini { bytes } => {
                trees.push(Some(read_file(analyzer, bytes.as_slice())));
            },
            _ => {
                trees.push(None);
            },
        }
        i += 1;
    }
    trees
}

/// What has to be read of an archive entry before it can be indexed.
pub fn entry_kind(name: &str) -> (r: InputKind)
    ensures
        r == input_kind_of(path_extension(name@)),
{
    input_kind(extension_of(name).as_str())
}

/// Collects what an archive contributes; nothing when a URI of it would be too
/// long.
pub fn scan_big(analyzer: &Analyzer, archive: &str, inputs: Vec<ArchiveInput>) -> (r: Option<
    Vec<ScanEntry>,
>)
    requires
        forall|i: int| 0 <= i < inputs@.len() ==> (#[trigger] inputs@[i]).wf(),
    ensures
        match r {
            Some(list) => archive_fits(archive@, inputs@) && exists|trees: Seq<
                Option<(String, Parse)>,
            >| #[trigger]
                entries_read(analyzer, inputs@, trees) && views(list@) == archive_contribution(
                    analyzer,
                    archive@,
                    inputs@,
                    trees,
                ),
            None => !archive_fits(archive@, inputs@),
        },
{
    let trees = read_entries(analyzer, &inputs);
    let ghost own = own_contributions(analyzer, archive@, inputs@, trees@, 0);
    let ghost raw = unread_assets(archive@, inputs@, 0);
    let mut out: Vec<ScanEntry> = Vec::new();
    let mut assets: Vec<FileAsset> = Vec::new();
    assert(views(out@) + own =~= own);
    assert(views(assets@) + raw =~= raw);
    let mut i: usize = 0;
    while i < inputs.len()
        invariant
            forall|k: int| 0 <= k < inputs@.len() ==> (#[trigger] inputs@[k]).wf(),
            i <= inputs.len(),
            entries_read(analyzer, inputs@, trees@),
            forall|k: int| 0 <= k < i ==> entry_fits(archive@, (#[trigger] inputs@[k]).name@),
            views(out@) + own_contributions(analyzer, archive@, inputs@, trees@, i as int) == own,
            views(assets@) + unread_assets(archive@, inputs@, i as int) == raw,
        decreases inputs.len() - i,
    {
        let ghost o0 = views(out@);
        let ghost a0 = views(assets@);
        let input = &inputs[i];
        assert(inputs@[i as int].wf());
        let uri = match big_uri(archive, input.name.as_str()) {
            Some(uri) => uri,
            None => {
                assert(!entry_fits(archive@, inputs@[i as int].name@));
                return None;
            },
        };
        match &input.content {
            ArchiveContent::Ini { .. } => {
                assert(entry_read(analyzer, inputs@[i as int], trees@[i as int]));
                if let Some((text, parse)) = &trees[i] {
                    let entry = ini_entry(analyzer, parse, uri.as_str(), Some(text.clone()));
                    out.push(entry);
                }
            },
            ArchiveContent::Model { bytes } => {
                let stem = file_stem_str(input.name.as_str());
                if let Some(entry) = w3d_entry(uri.as_str(), bytes.as_slice(), stem.as_str()) {
                    out.push(entry);
                }
            },
            ArchiveContent::Unread => {
                if let Some(asset) = raw_asset(input.name.as_str(), uri.as_str()) {
                    assets.push(asset);
                }
            },
        }
        assert(views(out@) =~= o0 + own_contribution(analyzer, archive@, inputs@[i as int], trees@[i as int]));
        assert(views(assets@) =~= a0 + unread_asset(archive@, inputs@[i as int]));
        assert(views(out@) + own_contributions(analyzer, archive@, inputs@, trees@, i + 1) =~= o0
            + own_contributions(analyzer, archive@, inputs@, trees@, i as int));
        assert(views(assets@) + unread_assets(archive@, inputs@, i + 1) =~= a0 + unread_assets(
            archive@,
            inputs@,
            i as int,
        ));
        i += 1;
    }
    assert(views(out@) + own_contributions(analyzer, archive@, inputs@, trees@, i as int) =~= views(out@));
    assert(views(assets@) + unread_assets(archive@, inputs@, i as int) =~= views(assets@));
    assert(views(assets@).len() == assets@.len());
    if assets.len() > 0 {
        let uri = match big_uri(archive, "__assets__") {
            Some(uri) => uri,
            None => {
                return None;
            },
        };
        let mut entry = empty_entry(uri.as_str());
        entry.assets = sort(assets);
        let ghost item = entry@;
        out.push(entry);
        assert(views(out@) =~= own.push(item));
    }
    Some(out)
}

/// The end of the line that starts at `from`.
pub open spec fn line_end(s: Seq<char>, from: int) -> int {
    crate::text::find(s, '\n', from)
}

/// The keys of a string table, from the line at `from` on. A key is the first
/// line of an entry; blank lines and comments do not count, and `END` closes
/// an entry.
pub open spec fn keys_from(s: Seq<char>, from: int, expect: bool) -> Seq<Seq<char>>
    decreases s.len() + 1 - from,
{
    if from < 0 || from >= s.len() {
        Seq::empty()
    } else {
        let end = line_end(s, from);
        let line = trim(s.subrange(from, end), CharClass::Space);
        if end < from || end > s.len() {
            Seq::empty()
        } else if line.len() == 0 || line[0] == ';' {
            keys_from(s, end + 1, expect)
        } else if same_ci(line, "END"@) {
            keys_from(s, end + 1, true)
        } else if expect {
            seq![line] + keys_from(s, end + 1, false)
        } else {
            keys_from(s, end + 1, false)
        }
    }
}

/// Reads the keys of a Generals string table.
pub fn parse_str_keys(content: &str) -> (r: Vec<String>)
    ensures
        texts(r@) == keys_from(content@, 0, true),
{
    let chars = chars_of(content);
    let ghost s = content@;
    let ghost whole = keys_from(s, 0, true);
    let mut out: Vec<String> = Vec::new();
    assert(texts(out@) + whole =~= whole);
    let mut expect = true;
    let mut from: usize = 0;
    while from < chars.len()
        invariant
            s == content@,
            chars@ == s,
            whole == keys_from(s, 0, true),
            texts(out@) + keys_from(s, from as int, expect) == whole,
        decreases chars.len() - from,
    {
        let ghost before = texts(out@);
        let ghost expected = expect;
        proof {
            crate::text::lemma_find_bounds(s, '\n', from as int);
        }
        let end: usize = crate::text::find_char(&chars, '\n', from);
        let line = string_from(&chars, from, end);
        let trimmed = trim_both(line.as_str(), CharClass::Space);
        if !trimmed.is_empty() && trimmed.get_char(0) != ';' {
            if eq_ci(trimmed, "END") {
                expect = true;
            } else if expect {
                out.push(trimmed.to_owned());
                expect = false;
            }
        }
        if end == chars.len() {
            assert(texts(out@) + keys_from(s, end + 1, expect) =~= before + keys_from(
                s,
                from as int,
                expected,
            ));
            assert(texts(out@) + keys_from(s, end + 1, expect) =~= texts(out@));
            return out;
        }
        assert(texts(out@) + keys_from(s, end + 1, expect) =~= before + keys_from(
            s,
            from as int,
            expected,
        ));
        from = end + 1;
    }
    assert(texts(out@) + keys_from(s, from as int, expect) =~= texts(out@));
    out
}

} // verus!
