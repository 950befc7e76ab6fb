//! The editor's settings: how they are read from the client's JSON, and what
//! a change of them sets in motion.

use vstd::prelude::*;

use crate::index::ModelMemberStrictness;
use crate::progress::{ProgressMode, ProgressWork};
use crate::scopes::{join_slices, joined};
use crate::text::{
    decimal, join3, number, number64, same, slices, texts, trim, trim_both, CharClass,
};

verus! {

pub const DEFAULT_ANALYSIS_DEBOUNCE_MS: u64 = 250;

pub const MAX_ANALYSIS_DEBOUNCE_MS: u64 = 5_000;

pub const DEFAULT_PREVIEW_IMAGE_WIDTH: u32 = 160;

pub const MIN_PREVIEW_IMAGE_WIDTH: u32 = 80;

pub const MAX_PREVIEW_IMAGE_WIDTH: u32 = 640;

pub const DEFAULT_PREVIEW_ZOOM_PERCENT: u32 = 100;

pub const MIN_PREVIEW_ZOOM_PERCENT: u32 = 25;

pub const MAX_PREVIEW_ZOOM_PERCENT: u32 = 400;

/// A JSON value as the settings read it.
#[derive(Debug)]
pub enum Json {
    Null,
    Bool(bool),
    Integer(i128),
    /// A number with a fraction or an exponent.
    Fraction,
    Text(String),
    List(Vec<Json>),
    Object(Vec<(String, Json)>),
}

/// The value of the first member named `key`, from member `from` on.
pub open spec fn member(items: Seq<(String, Json)>, key: Seq<char>, from: int) -> Option<Json>
    decreases items.len() - from,
{
    if from < 0 || from >= items.len() {
        None
    } else if items[from].0@ == key {
        Some(items[from].1)
    } else {
        member(items, key, from + 1)
    }
}

/// The member `key` of an object; nothing of any other value.
pub open spec fn get_of(value: Option<Json>, key: Seq<char>) -> Option<Json> {
    match value {
        Some(Json::Object(items)) => member(items@, key, 0),
        _ => None,
    }
}

pub open spec fn bool_of(value: Option<Json>) -> Option<bool> {
    match value {
        Some(Json::Bool(b)) => Some(b),
        _ => None,
    }
}

pub open spec fn text_of(value: Option<Json>) -> Option<Seq<char>> {
    match value {
        Some(Json::Text(s)) => Some(s@),
        _ => None,
    }
}

pub open spec fn integer_of(value: Option<Json>) -> Option<int> {
    match value {
        Some(Json::Integer(n)) => Some(n as int),
        _ => None,
    }
}

pub open spec fn list_of(value: Option<Json>) -> Seq<Json> {
    match value {
        Some(Json::List(items)) => items@,
        _ => Seq::empty(),
    }
}

pub open spec fn flag_or(value: Option<Json>, default: bool) -> bool {
    match bool_of(value) {
        Some(b) => b,
        None => default,
    }
}

/// `n` moved into the range `min..=max`.
pub open spec fn clamped(n: int, min: int, max: int) -> int {
    if n < min {
        min
    } else if n > max {
        max
    } else {
        n
    }
}

pub open spec fn clamped_or(value: Option<Json>, default: int, min: int, max: int) -> int {
    match integer_of(value) {
        Some(n) => clamped(n, min, max),
        None => default,
    }
}

/// The list's texts that are not blank, from item `i` on.
pub open spec fn roots_from(items: Seq<Json>, i: int) -> Seq<Seq<char>>
    decreases items.len() - i,
{
    if i < 0 || i >= items.len() {
        Seq::empty()
    } else {
        (match text_of(Some(items[i])) {
            Some(s) => if trim(s, CharClass::Space).len() > 0 {
                seq![s]
            } else {
                Seq::empty()
            },
            None => Seq::empty(),
        }) + roots_from(items, i + 1)
    }
}

pub open spec fn opt_json(value: Option<&Json>) -> Option<Json> {
    match value {
        Some(j) => Some(*j),
        None => None,
    }
}

/// The member `key` of `value`, where `value` is an object that has one.
pub fn get<'a>(value: Option<&'a Json>, key: &str) -> (r: Option<&'a Json>)
    ensures
        opt_json(r) == get_of(opt_json(value), key@),
{
    match value {
        Some(Json::Object(items)) => {
            let mut i: usize = 0;
            while i < items.len()
                invariant
                    i <= items.len(),
                    member(items@, key@, i as int) == member(items@, key@, 0),
                    opt_json(value) == Some(Json::Object(*items)),
                decreases items.len() - i,
            {
                if same(items[i].0.as_str(), key) {
                    return Some(&items[i].1);
                }
                i += 1;
            }
            None
        },
        _ => None,
    }
}

fn as_bool_or(value: Option<&Json>, default: bool) -> (r: bool)
    ensures
        r == flag_or(opt_json(value), default),
{
    match value {
        Some(Json::Bool(b)) => *b,
        _ => default,
    }
}

fn as_text<'a>(value: Option<&'a Json>) -> (r: Option<&'a str>)
    ensures
        (match r {
            Some(s) => Some(s@),
            None => None,
        }) == text_of(opt_json(value)),
{
    match value {
        Some(Json::Text(s)) => Some(s.as_str()),
        _ => None,
    }
}

/// The integer of `value` moved into `min..=max`; `default` where `value` is
/// no integer.
pub fn normalized_u32(value: Option<&Json>, default: u32, min: u32, max: u32) -> (r: u32)
    requires
        min <= max,
    ensures
        r == clamped_or(opt_json(value), default as int, min as int, max as int),
{
    match value {
        Some(Json::Integer(n)) => {
            if *n < min as i128 {
                min
            } else if *n > max as i128 {
                max
            } else {
                *n as u32
            }
        },
        _ => default,
    }
}

/// The delay before a refresh, in milliseconds.
pub fn normalized_debounce_ms(value: Option<&Json>) -> (r: u64)
    ensures
        r == clamped_or(
            opt_json(value),
            DEFAULT_ANALYSIS_DEBOUNCE_MS as int,
            0,
            MAX_ANALYSIS_DEBOUNCE_MS as int,
        ),
{
    match value {
        Some(Json::Integer(n)) => {
            if *n < 0 {
                0
            } else if *n > MAX_ANALYSIS_DEBOUNCE_MS as i128 {
                MAX_ANALYSIS_DEBOUNCE_MS
            } else {
                *n as u64
            }
        },
        _ => DEFAULT_ANALYSIS_DEBOUNCE_MS,
    }
}

/// The settings that the server runs under.
#[derive(Debug, PartialEq, Eq)]
pub struct RuntimeSettings {
    pub format_enabled: bool,
    /// The path of a schema to use in place of the built-in one; empty for none.
    pub schema_path: String,
    pub base_ini_roots: Vec<String>,
    pub model_member_strictness: ModelMemberStrictness,
    pub allow_bare_percentages: bool,
    pub map_ordering_diagnostics: bool,
    pub debounce_ms: u64,
    pub preview_enabled: bool,
    pub preview_image_width: u32,
    pub preview_zoom_percent: u32,
    pub progress_mode: ProgressMode,
}

/// The model of [`RuntimeSettings`].
#[verifier::ext_equal]
pub struct SettingsView {
    pub format_enabled: bool,
    pub schema_path: Seq<char>,
    pub base_ini_roots: Seq<Seq<char>>,
    pub model_member_strictness: ModelMemberStrictness,
    pub allow_bare_percentages: bool,
    pub map_ordering_diagnostics: bool,
    pub debounce_ms: int,
    pub preview_enabled: bool,
    pub preview_image_width: int,
    pub preview_zoom_percent: int,
    pub progress_mode: ProgressMode,
}

impl View for RuntimeSettings {
    type V = SettingsView;

    open spec fn view(&self) -> SettingsView {
        SettingsView {
            format_enabled: self.format_enabled,
            schema_path: self.schema_path@,
            base_ini_roots: texts(self.base_ini_roots@),
            model_member_strictness: self.model_member_strictness,
            allow_bare_percentages: self.allow_bare_percentages,
            map_ordering_diagnostics: self.map_ordering_diagnostics,
            debounce_ms: self.debounce_ms as int,
            preview_enabled: self.preview_enabled,
            preview_image_width: self.preview_image_width as int,
            preview_zoom_percent: self.preview_zoom_percent as int,
            progress_mode: self.progress_mode,
        }
    }
}

/// The settings of a client that sends none.
pub open spec fn default_settings() -> SettingsView {
    SettingsView {
        format_enabled: false,
        schema_path: Seq::empty(),
        base_ini_roots: Seq::empty(),
        model_member_strictness: ModelMemberStrictness::Compatible,
        allow_bare_percentages: false,
        map_ordering_diagnostics: true,
        debounce_ms: DEFAULT_ANALYSIS_DEBOUNCE_MS as int,
        preview_enabled: true,
        preview_image_width: DEFAULT_PREVIEW_IMAGE_WIDTH as int,
        preview_zoom_percent: DEFAULT_PREVIEW_ZOOM_PERCENT as int,
        progress_mode: ProgressMode::Indexing,
    }
}

/// The strictness that a name stands for; any other name is the default.
pub open spec fn strictness_named(name: Option<Seq<char>>) -> ModelMemberStrictness {
    if name == Some("off"@) {
        ModelMemberStrictness::Off
    } else if name == Some("strict"@) {
        ModelMemberStrictness::Strict
    } else {
        ModelMemberStrictness::Compatible
    }
}

/// The object that holds the settings: the member `zerosyntax`, or the value
/// itself where it has none.
pub open spec fn section_of(value: Json) -> Option<Json> {
    match get_of(Some(value), "zerosyntax"@) {
        Some(inner) => Some(inner),
        None => Some(value),
    }
}

/// The schema's path: `schemaPath` where that member exists, else
/// `schema.path`, without surrounding white space.
pub open spec fn schema_path_of(section: Option<Json>) -> Seq<char> {
    let named = match get_of(section, "schemaPath"@) {
        Some(j) => Some(j),
        None => get_of(get_of(section, "schema"@), "path"@),
    };
    match text_of(named) {
        Some(s) => trim(s, CharClass::Space),
        None => Seq::empty(),
    }
}

/// The settings that a JSON value stands for.
pub open spec fn settings_of(value: Option<Json>) -> SettingsView {
    match value {
        None => default_settings(),
        Some(v) => {
            let section = section_of(v);
            let analysis = get_of(section, "analysis"@);
            let preview = get_of(section, "preview"@);
            SettingsView {
                format_enabled: flag_or(get_of(get_of(section, "format"@), "enable"@), false),
                schema_path: schema_path_of(section),
                base_ini_roots: roots_from(list_of(get_of(section, "baseIniRoots"@)), 0),
                model_member_strictness: strictness_named(
                    text_of(get_of(analysis, "modelMemberStrictness"@)),
                ),
                allow_bare_percentages: flag_or(
                    get_of(analysis, "allowPercentagesWithoutSign"@),
                    false,
                ),
                map_ordering_diagnostics: flag_or(get_of(analysis, "mapOrderingDiagnostics"@), true),
                debounce_ms: clamped_or(
                    get_of(analysis, "debounceMs"@),
                    DEFAULT_ANALYSIS_DEBOUNCE_MS as int,
                    0,
                    MAX_ANALYSIS_DEBOUNCE_MS as int,
                ),
                preview_enabled: flag_or(get_of(preview, "enable"@), true),
                preview_image_width: clamped_or(
                    get_of(preview, "imageWidth"@),
                    DEFAULT_PREVIEW_IMAGE_WIDTH as int,
                    MIN_PREVIEW_IMAGE_WIDTH as int,
                    MAX_PREVIEW_IMAGE_WIDTH as int,
                ),
                preview_zoom_percent: clamped_or(
                    get_of(preview, "zoomPercent"@),
                    DEFAULT_PREVIEW_ZOOM_PERCENT as int,
                    MIN_PREVIEW_ZOOM_PERCENT as int,
                    MAX_PREVIEW_ZOOM_PERCENT as int,
                ),
                progress_mode: crate::progress::mode_named(
                    text_of(get_of(get_of(section, "progress"@), "mode"@)),
                ),
            }
        },
    }
}

impl Default for RuntimeSettings {
    fn default() -> (r: RuntimeSettings)
        ensures
            r@ == default_settings(),
    {
        let r = RuntimeSettings {
            format_enabled: false,
            schema_path: String::new(),
            base_ini_roots: Vec::new(),
            model_member_strictness: ModelMemberStrictness::Compatible,
            allow_bare_percentages: false,
            map_ordering_diagnostics: true,
            debounce_ms: DEFAULT_ANALYSIS_DEBOUNCE_MS,
            preview_enabled: true,
            preview_image_width: DEFAULT_PREVIEW_IMAGE_WIDTH,
            preview_zoom_percent: DEFAULT_PREVIEW_ZOOM_PERCENT,
            progress_mode: ProgressMode::Indexing,
        };
        assert(r@ =~= default_settings());
        r
    }
}

fn roots_in(value: Option<&Json>) -> (r: Vec<String>)
    ensures
        texts(r@) == roots_from(list_of(opt_json(value)), 0),
{
    let mut out: Vec<String> = Vec::new();
    match value {
        Some(Json::List(items)) => {
            let ghost whole = roots_from(items@, 0);
            let mut i: usize = 0;
            assert(texts(out@) + roots_from(items@, 0) =~= whole);
            while i < items.len()
                invariant
                    i <= items.len(),
                    whole == roots_from(items@, 0),
                    texts(out@) + roots_from(items@, i as int) == whole,
                decreases items.len() - i,
            {
                let ghost before = texts(out@);
                match &items[i] {
                    Json::Text(s) => {
                        if trim_both(s.as_str(), CharClass::Space).unicode_len() > 0 {
                            out.push(s.clone());
                            assert(texts(out@) =~= before.push(s@));
                        }
                    },
                    _ => {},
                }
                assert(texts(out@) + roots_from(items@, i + 1) =~= before + roots_from(
                    items@,
                    i as int,
                ));
                i += 1;
            }
            assert(texts(out@) + roots_from(items@, i as int) =~= texts(out@));
        },
        _ => {
            assert(texts(out@) =~= Seq::empty());
        },
    }
    out
}

fn strictness_from(value: Option<&Json>) -> (r: ModelMemberStrictness)
    ensures
        r == strictness_named(text_of(opt_json(value))),
{
    match as_text(value) {
        Some(name) => {
            if same(name, "off") {
                ModelMemberStrictness::Off
            } else if same(name, "strict") {
                ModelMemberStrictness::Strict
            } else {
                ModelMemberStrictness::Compatible
            }
        },
        None => ModelMemberStrictness::Compatible,
    }
}

fn schema_path_from(section: Option<&Json>) -> (r: String)
    ensures
        r@ == schema_path_of(opt_json(section)),
{
    let named = match get(section, "schemaPath") {
        Some(j) => Some(j),
        None => get(get(section, "schema"), "path"),
    };
    match as_text(named) {
        Some(s) => trim_both(s, CharClass::Space).to_string(),
        None => String::new(),
    }
}

impl RuntimeSettings {
    /// Reads the settings that a client sent.
    pub fn from_value(value: Option<&Json>) -> (r: RuntimeSettings)
        ensures
            r@ == settings_of(opt_json(value)),
    {
        let section = match value {
            None => {
                return RuntimeSettings::default();
            },
            Some(v) => match get(Some(v), "zerosyntax") {
                Some(inner) => Some(inner),
                None => Some(v),
            },
        };
        let analysis = get(section, "analysis");
        let preview = get(section, "preview");
        let r = RuntimeSettings {
            format_enabled: as_bool_or(get(get(section, "format"), "enable"), false),
            schema_path: schema_path_from(section),
            base_ini_roots: roots_in(get(section, "baseIniRoots")),
            model_member_strictness: strictness_from(get(analysis, "modelMemberStrictness")),
            allow_bare_percentages: as_bool_or(get(analysis, "allowPercentagesWithoutSign"), false),
            map_ordering_diagnostics: as_bool_or(get(analysis, "mapOrderingDiagnostics"), true),
            debounce_ms: normalized_debounce_ms(get(analysis, "debounceMs")),
            preview_enabled: as_bool_or(get(preview, "enable"), true),
            preview_image_width: normalized_u32(
                get(preview, "imageWidth"),
                DEFAULT_PREVIEW_IMAGE_WIDTH,
                MIN_PREVIEW_IMAGE_WIDTH,
                MAX_PREVIEW_IMAGE_WIDTH,
            ),
            preview_zoom_percent: normalized_u32(
                get(preview, "zoomPercent"),
                DEFAULT_PREVIEW_ZOOM_PERCENT,
                MIN_PREVIEW_ZOOM_PERCENT,
                MAX_PREVIEW_ZOOM_PERCENT,
            ),
            progress_mode: ProgressMode::from_value(as_text(get(get(section, "progress"), "mode"))),
        };
        assert(r@ =~= settings_of(opt_json(value)));
        r
    }
}

/// Whatever a client sends, the numbers stay in their ranges.
pub proof fn law_settings_are_in_range(value: Option<Json>)
    ensures
        0 <= settings_of(value).debounce_ms <= MAX_ANALYSIS_DEBOUNCE_MS,
        MIN_PREVIEW_IMAGE_WIDTH <= settings_of(value).preview_image_width <= MAX_PREVIEW_IMAGE_WIDTH,
        MIN_PREVIEW_ZOOM_PERCENT <= settings_of(value).preview_zoom_percent
            <= MAX_PREVIEW_ZOOM_PERCENT,
{
}

/// Settings mean the same with and without the section that clients put around
/// them.
pub proof fn law_section_makes_no_difference(bare: Json, wrapped: Json)
    requires
        get_of(Some(wrapped), "zerosyntax"@) == Some(bare),
        get_of(Some(bare), "zerosyntax"@) is None,
    ensures
        settings_of(Some(wrapped)) == settings_of(Some(bare)),
{
}

/// An object without members is as good as no value.
pub proof fn law_empty_object_gives_defaults(items: Vec<(String, Json)>)
    requires
        items@.len() == 0,
    ensures
        settings_of(Some(Json::Object(items))) == default_settings(),
{
    let section = Some(Json::Object(items));
    assert(roots_from(list_of(get_of(section, "baseIniRoots"@)), 0) =~= Seq::empty());
    assert(settings_of(section) =~= default_settings());
}

/// Where the analyzer of a reload comes from.
#[derive(Debug, Clone, Copy, PartialEq, Eq, Structural)]
pub enum AnalyzerSource {
    /// The one in use, as it is.
    Current,
    /// A new one over the schema in use, with the new options.
    CurrentSchema,
    /// A new one over the built-in schema.
    Embedded,
    /// A new one over the schema at the configured path.
    Custom,
}

/// What a change of settings sets in motion, besides storing the new values.
#[derive(Debug, Clone, Copy, PartialEq, Eq, Structural)]
pub enum SettingsWork {
    /// Scan again.
    Reload {
        work: ProgressWork,
        source: AnalyzerSource,
        /// Put the analyzer in use before the scan.
        store_now: bool,
        /// Put the analyzer in use, and parse the open documents again, once the scan is done.
        replace_analyzer: bool,
    },
    /// Keep the index.
    Keep {
        /// Take a new analyzer over the schema in use, and forget cached diagnostics.
        renew_analyzer: bool,
        set_strictness: bool,
        /// Analyse the open documents again.
        refresh_open: bool,
    },
}

/// The settings in which two differ.
#[derive(Debug, Clone, Copy, PartialEq, Eq, Structural)]
pub struct Differences {
    pub format: bool,
    pub schema: bool,
    pub roots: bool,
    pub strictness: bool,
    pub bare: bool,
    pub ordering: bool,
    pub debounce: bool,
    pub preview: bool,
    pub progress: bool,
}

/// The settings in which two differ. Two lists of roots that name the same paths
/// do not differ, however they are spelled: `same_paths` says whether they do.
pub open spec fn differences_of(
    a: SettingsView,
    b: SettingsView,
    same_paths: bool,
) -> Differences {
    Differences {
        format: a.format_enabled != b.format_enabled,
        schema: a.schema_path != b.schema_path,
        roots: a.base_ini_roots != b.base_ini_roots && !same_paths,
        strictness: a.model_member_strictness != b.model_member_strictness,
        bare: a.allow_bare_percentages != b.allow_bare_percentages,
        ordering: a.map_ordering_diagnostics != b.map_ordering_diagnostics,
        debounce: a.debounce_ms != b.debounce_ms,
        preview: a.preview_enabled != b.preview_enabled || a.preview_image_width
            != b.preview_image_width || a.preview_zoom_percent != b.preview_zoom_percent,
        progress: a.progress_mode != b.progress_mode,
    }
}

pub open spec fn named_if(differs: bool, name: Seq<char>) -> Seq<Seq<char>> {
    if differs {
        seq![name]
    } else {
        Seq::empty()
    }
}

impl Differences {
    pub open spec fn some(self) -> bool {
        self.format || self.schema || self.roots || self.strictness || self.bare || self.ordering
            || self.debounce || self.preview || self.progress
    }

    /// The names of the settings that differ.
    pub open spec fn names(self) -> Seq<Seq<char>> {
        named_if(self.format, "format.enable"@) + named_if(self.schema, "schemaPath"@) + named_if(
            self.roots,
            "baseIniRoots"@,
        ) + named_if(self.strictness, "analysis.modelMemberStrictness"@) + named_if(
            self.bare,
            "analysis.allowPercentagesWithoutSign"@,
        ) + named_if(self.ordering, "analysis.mapOrderingDiagnostics"@) + named_if(
            self.debounce,
            "analysis.debounceMs"@,
        ) + named_if(self.preview, "preview"@) + named_if(self.progress, "progress.mode"@)
    }

    /// A new schema or new roots ask for a scan; everything else keeps the
    /// index. `built_in` says that the new settings name no schema.
    pub open spec fn work(self, built_in: bool, has_open: bool) -> SettingsWork {
        if self.schema || self.roots {
            SettingsWork::Reload {
                work: if self.schema {
                    ProgressWork::SchemaReload
                } else {
                    ProgressWork::GameDataReload
                },
                source: if self.schema && built_in {
                    AnalyzerSource::Embedded
                } else if self.schema {
                    AnalyzerSource::Custom
                } else if self.bare {
                    AnalyzerSource::CurrentSchema
                } else {
                    AnalyzerSource::Current
                },
                store_now: self.bare && !self.schema,
                replace_analyzer: self.schema,
            }
        } else {
            SettingsWork::Keep {
                renew_analyzer: self.bare,
                set_strictness: self.strictness,
                refresh_open: has_open && (self.bare || self.strictness || self.ordering),
            }
        }
    }
}

/// The outcome of comparing two settings.
#[derive(Debug)]
pub struct SettingsChange {
    /// The names of the settings that differ.
    pub changed: Vec<&'static str>,
    /// The line that tells the user of the change.
    pub summary: String,
    /// Formatting has to be switched.
    pub switch_formatting: bool,
    pub clear_previews: bool,
    pub work: SettingsWork,
}

/// Comparison of two lists of texts.
pub fn same_texts(a: &Vec<String>, b: &Vec<String>) -> (r: bool)
    ensures
        r == (texts(a@) == texts(b@)),
{
    if a.len() != b.len() {
        assert(texts(a@).len() != texts(b@).len());
        return false;
    }
    let mut i: usize = 0;
    while i < a.len()
        invariant
            i <= a.len(),
            a.len() == b.len(),
            forall|k: int| 0 <= k < i ==> a@[k]@ == b@[k]@,
        decreases a.len() - i,
    {
        if !same(a[i].as_str(), b[i].as_str()) {
            assert(texts(a@)[i as int] != texts(b@)[i as int]);
            return false;
        }
        i += 1;
    }
    assert(texts(a@) =~= texts(b@));
    true
}

fn push_if(list: &mut Vec<&'static str>, differs: bool, name: &'static str)
    ensures
        slices(final(list)@) == slices(old(list)@) + named_if(
            differs,
            name@,
        ),
{
    let ghost before = slices(list@);
    if differs {
        list.push(name);
    }
    assert(slices(list@) =~= before + named_if(differs, name@));
}

/// The names that go with the differences found.
fn changed_names(d: Differences) -> (r: Vec<&'static str>)
    ensures
        slices(r@) == d.names(),
{
    let mut changed: Vec<&'static str> = Vec::new();
    push_if(&mut changed, d.format, "format.enable");
    assert(slices(changed@) =~= named_if(d.format, "format.enable"@));
    push_if(&mut changed, d.schema, "schemaPath");
    push_if(&mut changed, d.roots, "baseIniRoots");
    push_if(&mut changed, d.strictness, "analysis.modelMemberStrictness");
    push_if(&mut changed, d.bare, "analysis.allowPercentagesWithoutSign");
    push_if(&mut changed, d.ordering, "analysis.mapOrderingDiagnostics");
    push_if(&mut changed, d.debounce, "analysis.debounceMs");
    push_if(&mut changed, d.preview, "preview");
    push_if(&mut changed, d.progress, "progress.mode");
    changed
}

fn work_for(d: Differences, built_in: bool, has_open: bool) -> (r: SettingsWork)
    ensures
        r == d.work(built_in, has_open),
{
    if d.schema || d.roots {
        SettingsWork::Reload {
            work: if d.schema {
                ProgressWork::SchemaReload
            } else {
                ProgressWork::GameDataReload
            },
            source: if d.schema && built_in {
                AnalyzerSource::Embedded
            } else if d.schema {
                AnalyzerSource::Custom
            } else if d.bare {
                AnalyzerSource::CurrentSchema
            } else {
                AnalyzerSource::Current
            },
            store_now: d.bare && !d.schema,
            replace_analyzer: d.schema,
        }
    } else {
        SettingsWork::Keep {
            renew_analyzer: d.bare,
            set_strictness: d.strictness,
            refresh_open: has_open && (d.bare || d.strictness || d.ordering),
        }
    }
}

fn differences(
    previous: &RuntimeSettings,
    settings: &RuntimeSettings,
    same_paths: bool,
) -> (r: Differences)
    ensures
        r == differences_of(previous@, settings@, same_paths),
{
    Differences {
        format: previous.format_enabled != settings.format_enabled,
        schema: !same(previous.schema_path.as_str(), settings.schema_path.as_str()),
        roots: !same_texts(&previous.base_ini_roots, &settings.base_ini_roots) && !same_paths,
        strictness: previous.model_member_strictness != settings.model_member_strictness,
        bare: previous.allow_bare_percentages != settings.allow_bare_percentages,
        ordering: previous.map_ordering_diagnostics != settings.map_ordering_diagnostics,
        debounce: previous.debounce_ms != settings.debounce_ms,
        preview: previous.preview_enabled != settings.preview_enabled
            || previous.preview_image_width != settings.preview_image_width
            || previous.preview_zoom_percent != settings.preview_zoom_percent,
        progress: previous.progress_mode != settings.progress_mode,
    }
}

pub open spec fn truth(b: bool) -> Seq<char> {
    if b {
        "true"@
    } else {
        "false"@
    }
}

fn truth_text(b: bool) -> (r: &'static str)
    ensures
        r@ == truth(b),
{
    if b {
        "true"
    } else {
        "false"
    }
}

pub open spec fn strictness_name(strictness: ModelMemberStrictness) -> Seq<char> {
    match strictness {
        ModelMemberStrictness::Off => "Off"@,
        ModelMemberStrictness::Compatible => "Compatible"@,
        ModelMemberStrictness::Strict => "Strict"@,
    }
}

fn strictness_text(strictness: ModelMemberStrictness) -> (r: &'static str)
    ensures
        r@ == strictness_name(strictness),
{
    match strictness {
        ModelMemberStrictness::Off => "Off",
        ModelMemberStrictness::Compatible => "Compatible",
        ModelMemberStrictness::Strict => "Strict",
    }
}

/// The line that tells the user which settings changed, and what they are now.
pub open spec fn change_summary(names: Seq<Seq<char>>, s: SettingsView) -> Seq<char> {
    "ZeroSyntax: settings updated ("@ + joined(names, ", "@) + ") — formatting="@ + truth(
        s.format_enabled,
    ) + ", schema="@ + (if s.schema_path.len() == 0 {
        "built-in"@
    } else {
        "custom"@
    }) + ", base roots="@ + decimal(s.base_ini_roots.len()) + ", model strictness="@
        + strictness_name(s.model_member_strictness) + ", bare percentages="@ + truth(
        s.allow_bare_percentages,
    ) + ", map ordering="@ + truth(s.map_ordering_diagnostics) + ", debounce="@ + decimal(
        s.debounce_ms as nat,
    ) + " ms, progress="@ + s.progress_mode.name() + "."@
}

fn summary_of(changed: &Vec<&'static str>, settings: &RuntimeSettings) -> (r: String)
    ensures
        r@ == change_summary(slices(changed@), settings@),
{
    let mut out = join3(
        "ZeroSyntax: settings updated (",
        join_slices(changed, ", ").as_str(),
        ") — formatting=",
    );
    out.append(truth_text(settings.format_enabled));
    out.append(", schema=");
    if settings.schema_path.as_str().unicode_len() == 0 {
        out.append("built-in");
    } else {
        out.append("custom");
    }
    out.append(", base roots=");
    assert(texts(settings.base_ini_roots@).len() == settings.base_ini_roots@.len());
    out.append(number(settings.base_ini_roots.len()).as_str());
    out.append(", model strictness=");
    out.append(strictness_text(settings.model_member_strictness));
    out.append(", bare percentages=");
    out.append(truth_text(settings.allow_bare_percentages));
    out.append(", map ordering=");
    out.append(truth_text(settings.map_ordering_diagnostics));
    out.append(", debounce=");
    out.append(number64(settings.debounce_ms).as_str());
    out.append(" ms, progress=");
    out.append(settings.progress_mode.as_str());
    out.append(".");
    out
}

/// Compares the settings in use with new ones. Nothing is to be done where
/// they are the same; `same_paths` says whether the two lists of roots name the
/// same paths, and `has_open` whether documents are open.
pub fn settings_change(
    previous: &RuntimeSettings,
    settings: &RuntimeSettings,
    same_paths: bool,
    has_open: bool,
) -> (r: Option<SettingsChange>)
    ensures
        ({
            let d = differences_of(previous@, settings@, same_paths);
            match r {
                None => !d.some(),
                Some(change) => {
                    &&& d.some()
                    &&& slices(change.changed@) == d.names()
                    &&& change.summary@ == change_summary(d.names(), settings@)
                    &&& change.switch_formatting == d.format
                    &&& change.clear_previews == d.preview
                    &&& change.work == d.work(settings@.schema_path.len() == 0, has_open)
                },
            }
        }),
{
    let d = differences(previous, settings, same_paths);
    if !(d.format || d.schema || d.roots || d.strictness || d.bare || d.ordering || d.debounce
        || d.preview || d.progress) {
        return None;
    }
    let built_in: bool = settings.schema_path.as_str().unicode_len() == 0;
    let changed = changed_names(d);
    let summary = summary_of(&changed, settings);
    Some(
        SettingsChange {
            changed,
            summary,
            switch_formatting: d.format,
            clear_previews: d.preview,
            work: work_for(d, built_in, has_open),
        },
    )
}

pub open spec fn bit(b: bool) -> nat {
    if b {
        1
    } else {
        0
    }
}

/// As many names are listed as settings differ.
pub proof fn law_differences_are_counted(d: Differences)
    ensures
        d.names().len() == bit(d.format) + bit(d.schema) + bit(d.roots) + bit(d.strictness) + bit(
            d.bare,
        ) + bit(d.ordering) + bit(d.debounce) + bit(d.preview) + bit(d.progress),
{
}

/// Two settings are the same exactly where they differ in nothing.
pub proof fn law_changes_are_found(a: SettingsView, b: SettingsView)
    ensures
        a == b <==> !differences_of(a, b, false).some(),
{
    if !differences_of(a, b, false).some() {
        assert(a.base_ini_roots == b.base_ini_roots);
        assert(a.schema_path == b.schema_path);
    }
}

/// A change that leaves the schema, the roots and the rules of the diagnostics
/// alone asks for no work on the documents.
pub proof fn law_cosmetic_changes_need_no_work(
    a: SettingsView,
    b: SettingsView,
    same_paths: bool,
    has_open: bool,
)
    requires
        a.schema_path == b.schema_path,
        a.base_ini_roots == b.base_ini_roots || same_paths,
        a.allow_bare_percentages == b.allow_bare_percentages,
        a.model_member_strictness == b.model_member_strictness,
        a.map_ordering_diagnostics == b.map_ordering_diagnostics,
    ensures
        differences_of(a, b, same_paths).work(b.schema_path.len() == 0, has_open) == (SettingsWork::Keep {
            renew_analyzer: false,
            set_strictness: false,
            refresh_open: false,
        }),
{
}

/// Where the analyzer comes from when the server starts: a configured schema,
/// or the built-in one.
pub fn initial_source(settings: &RuntimeSettings) -> (r: AnalyzerSource)
    ensures
        r == (if settings@.schema_path.len() > 0 {
            AnalyzerSource::Custom
        } else {
            AnalyzerSource::Embedded
        }),
{
    if settings.schema_path.as_str().unicode_len() > 0 {
        AnalyzerSource::Custom
    } else {
        AnalyzerSource::Embedded
    }
}

} // verus!
