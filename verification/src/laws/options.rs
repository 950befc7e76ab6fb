//! How a client's options become settings, and what is counted of a scan.

use vstd::prelude::*;

use super::lists::{lemma_behind, lemma_either};
use super::w3d::{lemma_unblank, unblank};
use crate::convert::{kind_index, legend_name};
use crate::index::{AssetKind, AssetView};
use crate::progress::ProgressMode;
use crate::semantic::SemKind;
use crate::settings::{get_of, member, roots_from, settings_of, Json};
use crate::workspace::{asset_count, ini_count, kind_count, model_count, ScannedView};

verus! {

/// An object with a member of that name and value, the first of its name.
pub open spec fn holds(value: Json, key: Seq<char>, inner: Json) -> bool {
    value matches Json::Object(items) && exists|i: int|
        0 <= i < items@.len() && (#[trigger] items@[i]).0@ == key && items@[i].1 == inner && (
        forall|j: int| 0 <= j < i ==> (#[trigger] items@[j]).0@ != key)
}

/// A value without a member of that name.
pub open spec fn misses(value: Json, key: Seq<char>) -> bool {
    value matches Json::Object(items) ==> forall|i: int|
        0 <= i < items@.len() ==> (#[trigger] items@[i]).0@ != key
}

proof fn lemma_member(items: Seq<(String, Json)>, key: Seq<char>, from: int, i: int)
    requires
        0 <= from <= i < items.len(),
        items[i].0@ == key,
        forall|j: int| 0 <= j < i ==> (#[trigger] items[j]).0@ != key,
    ensures
        member(items, key, from) == Some(items[i].1),
    decreases i - from,
{
    if from < i {
        assert(items[from].0@ != key);
        lemma_member(items, key, from + 1, i);
    }
}

proof fn lemma_no_member(items: Seq<(String, Json)>, key: Seq<char>, from: int)
    requires
        0 <= from,
        forall|j: int| 0 <= j < items.len() ==> (#[trigger] items[j]).0@ != key,
    ensures
        member(items, key, from) is None,
    decreases items.len() - from,
{
    if from < items.len() {
        assert(items[from].0@ != key);
        lemma_no_member(items, key, from + 1);
    }
}

proof fn lemma_holds(value: Json, key: Seq<char>, inner: Json)
    requires
        holds(value, key, inner),
    ensures
        get_of(Some(value), key) == Some(inner),
{
    if let Json::Object(items) = value {
        let i = choose|i: int|
            0 <= i < items@.len() && (#[trigger] items@[i]).0@ == key && items@[i].1 == inner && (
            forall|j: int| 0 <= j < i ==> (#[trigger] items@[j]).0@ != key);
        lemma_member(items@, key, 0, i);
    }
}

proof fn lemma_misses(value: Json, key: Seq<char>)
    requires
        misses(value, key),
    ensures
        get_of(Some(value), key) is None,
{
    if let Json::Object(items) = value {
        lemma_no_member(items@, key, 0);
    }
}

/// The analysis options are read under their own names; a time to wait beyond five
/// seconds counts as five, and one below zero as none.
pub proof fn law_analysis_options_are_read(
    root: Json,
    analysis: Json,
    bare: bool,
    ordered: bool,
    wait: i128,
)
    requires
        misses(root, "zerosyntax"@),
        holds(root, "analysis"@, analysis),
        holds(analysis, "allowPercentagesWithoutSign"@, Json::Bool(bare)),
        holds(analysis, "mapOrderingDiagnostics"@, Json::Bool(ordered)),
        holds(analysis, "debounceMs"@, Json::Integer(wait)),
    ensures
        ({
            let s = settings_of(Some(root));
            &&& s.allow_bare_percentages == bare
            &&& s.map_ordering_diagnostics == ordered
            &&& 0 <= wait <= 5000 ==> s.debounce_ms == wait
            &&& wait < 0 ==> s.debounce_ms == 0
            &&& wait > 5000 ==> s.debounce_ms == 5000
        }),
{
    lemma_misses(root, "zerosyntax"@);
    lemma_holds(root, "analysis"@, analysis);
    lemma_holds(analysis, "allowPercentagesWithoutSign"@, Json::Bool(bare));
    lemma_holds(analysis, "mapOrderingDiagnostics"@, Json::Bool(ordered));
    lemma_holds(analysis, "debounceMs"@, Json::Integer(wait));
}

/// The strictness is read by its name, and anything else is the middle one.
pub proof fn law_strictness_is_read(root: Json, analysis: Json, name: String)
    requires
        misses(root, "zerosyntax"@),
        holds(root, "analysis"@, analysis),
        holds(analysis, "modelMemberStrictness"@, Json::Text(name)),
    ensures
        ({
            let strictness = settings_of(Some(root)).model_member_strictness;
            &&& name@ == "off"@ <==> strictness is Off
            &&& name@ == "strict"@ <==> strictness is Strict
            &&& name@ == "compatible"@ ==> strictness is Compatible
        }),
{
    lemma_misses(root, "zerosyntax"@);
    lemma_holds(root, "analysis"@, analysis);
    lemma_holds(analysis, "modelMemberStrictness"@, Json::Text(name));
    reveal_strlit("off");
    reveal_strlit("strict");
    reveal_strlit("compatible");
    assert("off"@.len() == 3 && "strict"@.len() == 6 && "compatible"@.len() == 10);
}

/// The options of previews, formatting and progress are read under their own names;
/// sizes are moved into their ranges.
pub proof fn law_display_options_are_read(
    root: Json,
    format: Json,
    preview: Json,
    progress: Json,
    formats: bool,
    shows: bool,
    width: i128,
    zoom: i128,
    mode: String,
)
    requires
        misses(root, "zerosyntax"@),
        holds(root, "format"@, format),
        holds(format, "enable"@, Json::Bool(formats)),
        holds(root, "preview"@, preview),
        holds(preview, "enable"@, Json::Bool(shows)),
        holds(preview, "imageWidth"@, Json::Integer(width)),
        holds(preview, "zoomPercent"@, Json::Integer(zoom)),
        holds(root, "progress"@, progress),
        holds(progress, "mode"@, Json::Text(mode)),
    ensures
        ({
            let s = settings_of(Some(root));
            &&& s.format_enabled == formats
            &&& s.preview_enabled == shows
            &&& 80 <= width <= 640 ==> s.preview_image_width == width
            &&& width < 80 ==> s.preview_image_width == 80
            &&& width > 640 ==> s.preview_image_width == 640
            &&& 25 <= zoom <= 400 ==> s.preview_zoom_percent == zoom
            &&& zoom < 25 ==> s.preview_zoom_percent == 25
            &&& zoom > 400 ==> s.preview_zoom_percent == 400
            &&& mode@ == "off"@ <==> s.progress_mode == ProgressMode::Off
            &&& mode@ == "verbose"@ <==> s.progress_mode == ProgressMode::Verbose
        }),
{
    lemma_misses(root, "zerosyntax"@);
    lemma_holds(root, "format"@, format);
    lemma_holds(format, "enable"@, Json::Bool(formats));
    lemma_holds(root, "preview"@, preview);
    lemma_holds(preview, "enable"@, Json::Bool(shows));
    lemma_holds(preview, "imageWidth"@, Json::Integer(width));
    lemma_holds(preview, "zoomPercent"@, Json::Integer(zoom));
    lemma_holds(root, "progress"@, progress);
    lemma_holds(progress, "mode"@, Json::Text(mode));
    reveal_strlit("off");
    reveal_strlit("verbose");
    assert("off"@.len() == 3 && "verbose"@.len() == 7);
}

/// Settings under the product's name are read as they are by themselves.
pub proof fn law_named_section_is_read(root: Json, inner: Json)
    requires
        holds(root, "zerosyntax"@, inner),
        misses(inner, "zerosyntax"@),
    ensures
        settings_of(Some(root)) == settings_of(Some(inner)),
{
    lemma_holds(root, "zerosyntax"@, inner);
    lemma_misses(inner, "zerosyntax"@);
}

/// The schema's path is read in both of its spellings, the short one first.
pub proof fn law_schema_paths_are_read(root: Json, schema: Json, path: String)
    requires
        misses(root, "zerosyntax"@),
        unblank(path@),
    ensures
        holds(root, "schemaPath"@, Json::Text(path)) ==> settings_of(Some(root)).schema_path
            == path@,
        misses(root, "schemaPath"@) && holds(root, "schema"@, schema) && holds(
            schema,
            "path"@,
            Json::Text(path),
        ) ==> settings_of(Some(root)).schema_path == path@,
{
    lemma_misses(root, "zerosyntax"@);
    lemma_unblank(path@);
    if holds(root, "schemaPath"@, Json::Text(path)) {
        lemma_holds(root, "schemaPath"@, Json::Text(path));
    }
    if misses(root, "schemaPath"@) && holds(root, "schema"@, schema) && holds(
        schema,
        "path"@,
        Json::Text(path),
    ) {
        lemma_misses(root, "schemaPath"@);
        lemma_holds(root, "schema"@, schema);
        lemma_holds(schema, "path"@, Json::Text(path));
    }
}

proof fn lemma_roots(items: Seq<Json>, from: int, i: int, path: String)
    requires
        0 <= from <= i < items.len(),
        items[i] == Json::Text(path),
        unblank(path@),
    ensures
        roots_from(items, from).contains(path@),
    decreases i - from,
{
    let all = roots_from(items, from);
    let rest = roots_from(items, from + 1);
    let here = all.take(all.len() - rest.len());
    assert(all =~= here + rest);
    if from < i {
        lemma_roots(items, from + 1, i, path);
        lemma_behind(here, rest, path@);
    } else {
        lemma_unblank(path@);
        assert(all[0] == path@);
    }
}

proof fn lemma_roots_back(items: Seq<Json>, from: int, path: Seq<char>)
    requires
        0 <= from,
        roots_from(items, from).contains(path),
    ensures
        exists|i: int| 0 <= i < items.len() && (#[trigger] items[i] matches Json::Text(t) && t@ == path),
    decreases items.len() - from,
{
    let all = roots_from(items, from);
    let rest = roots_from(items, from + 1);
    let here = all.take(all.len() - rest.len());
    assert(all =~= here + rest);
    lemma_either(here, rest, path);
    if rest.contains(path) {
        lemma_roots_back(items, from + 1, path);
    } else {
        assert(here.len() == 1);
        assert(here[0] == path);
        assert(items[from] matches Json::Text(t) && t@ == path);
    }
}

/// The base roots are the texts of their list that are not blank.
pub proof fn law_base_roots_are_read(root: Json, list: Vec<Json>, i: int, path: String)
    requires
        misses(root, "zerosyntax"@),
        holds(root, "baseIniRoots"@, Json::List(list)),
        unblank(path@),
    ensures
        0 <= i < list@.len() && list@[i] == Json::Text(path) ==> settings_of(
            Some(root),
        ).base_ini_roots.contains(path@),
        settings_of(Some(root)).base_ini_roots.contains(path@) ==> exists|k: int|
            0 <= k < list@.len() && (#[trigger] list@[k] matches Json::Text(t) && t@ == path@),
{
    lemma_misses(root, "zerosyntax"@);
    lemma_holds(root, "baseIniRoots"@, Json::List(list));
    if 0 <= i < list@.len() && list@[i] == Json::Text(path) {
        lemma_roots(list@, 0, i, path);
    }
    if settings_of(Some(root)).base_ini_roots.contains(path@) {
        lemma_roots_back(list@, 0, path@);
    }
}

/// One more scanned file adds its models and its assets to the totals; it counts as an
/// INI file where it has neither, nor animations.
pub proof fn law_totals_follow_the_files(
    scanned: Seq<ScannedView>,
    s: ScannedView,
    base_only: bool,
    kind: AssetKind,
)
    ensures
        model_count(scanned.push(s)) == model_count(scanned) + s.entry.models.len(),
        asset_count(scanned.push(s), kind) == asset_count(scanned, kind) + kind_count(
            s.entry.assets,
            kind,
        ),
        ini_count(scanned.push(s), base_only) == ini_count(scanned, base_only) + (if (s.is_base
            || !base_only) && s.entry.models.len() == 0 && s.entry.assets.len() == 0
            && s.entry.animations.len() == 0 {
            1nat
        } else {
            0nat
        }),
{
    assert(scanned.push(s).drop_last() =~= scanned);
}

/// Assets are counted by their kind.
pub proof fn law_assets_are_counted_by_kind(assets: Seq<AssetView>, a: AssetView, kind: AssetKind)
    ensures
        kind_count(assets.push(a), kind) == kind_count(assets, kind) + (if a.kind == kind {
            1nat
        } else {
            0nat
        }),
        kind_count(Seq::empty(), kind) == 0,
{
    assert(assets.push(a).drop_last() =~= assets);
}

/// Every class of tokens has its own place in the legend and its own name.
pub proof fn law_classes_are_told_apart(a: SemKind, b: SemKind)
    ensures
        kind_index(a) < 10,
        kind_index(a) == kind_index(b) <==> a == b,
        legend_name(a) == legend_name(b) <==> a == b,
{
    reveal_strlit("keyword");
    reveal_strlit("class");
    reveal_strlit("property");
    reveal_strlit("type");
    reveal_strlit("enumMember");
    reveal_strlit("operator");
    reveal_strlit("number");
    reveal_strlit("string");
    reveal_strlit("variable");
    reveal_strlit("comment");
    assert("keyword"@[0] == 'k' && "class"@[0] == 'c' && "property"@[0] == 'p');
    assert("type"@[0] == 't' && "enumMember"@[0] == 'e' && "operator"@[0] == 'o');
    assert("number"@[0] == 'n' && "string"@[0] == 's' && "variable"@[0] == 'v');
    assert("comment"@[0] == 'c' && "comment"@.len() == 7 && "class"@.len() == 5);
}

} // verus!
