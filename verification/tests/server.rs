//! The decisions of the server and of the command line: settings, progress,
//! previews, edits, the scan plan, the cache and URIs.

use ropey::Rope;
use tower_lsp::lsp_types::Url;
use zerosyntax::archive::{big_entries, find_asset, fits_preview, AssetError, BigEntry, BigError};
use zerosyntax::cache::{
    as_sql_int, is_legacy_cache_name, oldest_kept, producer_id, prune_count, CacheSession,
    CommitOutcome, CommitStep, TOUCH_INTERVAL_SECS,
};
use zerosyntax::cli::{
    check_fails, check_root, check_targets, fail_level, human_line, summary_line, LineIndex,
    OutputDiagnostic, OutputPosition, OutputRange, OutputSeverity, RootKind,
};
use zerosyntax::convert::{Position, PositionEnc, Range, SemanticToken};
use zerosyntax::course::{CourseStep, Lookup, ScanCourse};
use zerosyntax::index::{is_override_layer, ModelAsset, ModelMemberStrictness, WorkspaceIndex};
use zerosyntax::keyset::KeySet;
use zerosyntax::navigation::{check_new_name, symbol_at, SymbolAt};
use zerosyntax::plan::{
    finish_scan, payload_fits, plan_inputs, stability, BoundedVec, BufferFull, CommitResult,
    Fingerprint, FoundInput, ScanPlan, ScanRun, ScanStats, Stability,
};
use zerosyntax::preview::{
    markdown_text, preview_markdown, preview_unavailable, resolve_preview, PreviewCache,
    PreviewStep, PREVIEW_CACHE_SIZE,
};
use zerosyntax::progress::{
    refresh_report, refreshed_message, scan_report, IndexSummary, ProgressMode, ProgressWork,
    ScanProgress, Throttle,
};
use zerosyntax::scan::{
    decode_ini, extension_of, input_kind, parse_str_keys, scan_order, InputKind, ScanEntry,
};
use zerosyntax::schema::RefKind;
use zerosyntax::session::{
    after_clear, announces_formatting, apply_changes, apply_step, base_data_hint, block_hover,
    bulk_change, command_named, field_hover, filter_map_ordering_diagnostics, indent_unit,
    refresh_version, schema_warning, semantic_reply, still_current, workspace_roots, BaseDataHint,
    Command, CommandStep, ContentChange, Edit, ScanState, SemanticReply,
};
use zerosyntax::settings::{
    initial_source, normalized_debounce_ms, settings_change, AnalyzerSource, Json,
    RuntimeSettings, SettingsWork,
};
use zerosyntax::syntax::Span;
use zerosyntax::uri::{big_uri, canonical_form, canonical_uri, is_url_sized, split_big_path};
use zerosyntax::values::{Diagnostic, Severity};
use zerosyntax::workspace::Scanned;

fn s(text: &str) -> String {
    text.to_string()
}

fn converted(value: serde_json::Value) -> Json {
    match value {
        serde_json::Value::Null => Json::Null,
        serde_json::Value::Bool(b) => Json::Bool(b),
        serde_json::Value::Number(n) => {
            if let Some(i) = n.as_i64() {
                Json::Integer(i128::from(i))
            } else if let Some(u) = n.as_u64() {
                Json::Integer(i128::from(u))
            } else {
                Json::Fraction
            }
        }
        serde_json::Value::String(text) => Json::Text(text),
        serde_json::Value::Array(items) => Json::List(items.into_iter().map(converted).collect()),
        serde_json::Value::Object(members) => {
            Json::Object(members.into_iter().map(|(k, v)| (k, converted(v))).collect())
        }
    }
}

fn json(text: &str) -> Json {
    converted(serde_json::from_str(text).unwrap())
}

fn settings(text: &str) -> RuntimeSettings {
    RuntimeSettings::from_value(Some(&json(text)))
}

fn finding(code: &'static str) -> Diagnostic {
    Diagnostic {
        span: Span::new(0, 1),
        severity: Severity::Warning,
        code,
        message: String::new(),
    }
}

// ---------------------------------------------------------------------------
// Settings

#[test]
fn map_ordering_diagnostics_can_be_disabled() {
    assert!(RuntimeSettings::from_value(None).map_ordering_diagnostics);
    assert!(
        !settings(r#"{"zerosyntax": {"analysis": {"mapOrderingDiagnostics": false}}}"#)
            .map_ordering_diagnostics
    );

    let list = vec![finding("map-forward-reference"), finding("map-projectile-object")];
    let kept = filter_map_ordering_diagnostics(list, false);
    assert_eq!(kept.len(), 1);
    assert_eq!(kept[0].code, "map-projectile-object");

    let list = vec![finding("map-forward-reference"), finding("map-projectile-object")];
    assert_eq!(filter_map_ordering_diagnostics(list, true).len(), 2);
}

#[test]
fn analysis_debounce_defaults_overrides_and_clamps() {
    assert_eq!(normalized_debounce_ms(None), 250);
    assert_eq!(normalized_debounce_ms(Some(&json("0"))), 0);
    assert_eq!(normalized_debounce_ms(Some(&json("400"))), 400);
    assert_eq!(normalized_debounce_ms(Some(&json("-1"))), 0);
    assert_eq!(normalized_debounce_ms(Some(&json("9000"))), 5000);
    assert_eq!(normalized_debounce_ms(Some(&json("12.5"))), 250);
    assert_eq!(normalized_debounce_ms(Some(&json("18446744073709551615"))), 5000);
}

#[test]
fn preview_settings_default_and_clamp() {
    let defaults = RuntimeSettings::default();
    assert!(defaults.preview_enabled);
    assert_eq!(defaults.preview_image_width, 160);
    assert_eq!(defaults.preview_zoom_percent, 100);

    let settings =
        settings(r#"{"preview": {"enable": false, "imageWidth": 10000, "zoomPercent": 0}}"#);
    assert!(!settings.preview_enabled);
    assert_eq!(settings.preview_image_width, 640);
    assert_eq!(settings.preview_zoom_percent, 25);
}

#[test]
fn progress_mode_defaults_and_parses() {
    assert_eq!(RuntimeSettings::default().progress_mode, ProgressMode::Indexing);
    assert_eq!(settings(r#"{"progress": {"mode": "off"}}"#).progress_mode, ProgressMode::Off);
    assert_eq!(
        settings(r#"{"zerosyntax": {"progress": {"mode": "verbose"}}}"#).progress_mode,
        ProgressMode::Verbose
    );
    assert_eq!(
        settings(r#"{"progress": {"mode": "future-value"}}"#).progress_mode,
        ProgressMode::Indexing
    );
    assert!(!ProgressMode::Off.allows(false));
    assert!(ProgressMode::Indexing.allows(false));
    assert!(!ProgressMode::Indexing.allows(true));
    assert!(ProgressMode::Verbose.allows(true));
}

#[test]
fn runtime_settings_accept_startup_and_vscode_shapes() {
    let startup = settings(
        r#"{
            "format": {"enable": true},
            "schemaPath": "schema.json",
            "baseIniRoots": ["base"],
            "progress": {"mode": "verbose"},
            "preview": {"enable": false, "imageWidth": 320, "zoomPercent": 150},
            "analysis": {"modelMemberStrictness": "strict", "debounceMs": 9000}
        }"#,
    );
    let notification = settings(
        r#"{
            "zerosyntax": {
                "format": {"enable": true},
                "schema": {"path": "schema.json"},
                "baseIniRoots": ["base"],
                "progress": {"mode": "verbose"},
                "preview": {"enable": false, "imageWidth": 320, "zoomPercent": 150},
                "analysis": {"modelMemberStrictness": "strict", "debounceMs": 9000}
            }
        }"#,
    );
    assert_eq!(startup, notification);
    assert_eq!(startup.debounce_ms, 5000);
    assert!(!startup.preview_enabled);
    assert_eq!(startup.preview_image_width, 320);
    assert_eq!(startup.preview_zoom_percent, 150);
    assert_eq!(startup.progress_mode, ProgressMode::Verbose);
    assert_eq!(startup.model_member_strictness, ModelMemberStrictness::Strict);
    assert_eq!(startup.base_ini_roots, vec!["base"]);
}

#[test]
fn blank_roots_and_paths_are_dropped() {
    let read = settings(r#"{"schemaPath": "  a b  ", "baseIniRoots": [" ", 3, "x", " y "]}"#);
    assert_eq!(read.schema_path, "a b");
    assert_eq!(read.base_ini_roots, vec!["x", " y "]);
    // A path of the wrong type hides the older name.
    let read = settings(r#"{"schemaPath": 1, "schema": {"path": "p"}}"#);
    assert_eq!(read.schema_path, "");
    assert_eq!(settings("{}"), RuntimeSettings::default());
    assert_eq!(settings("[]"), RuntimeSettings::default());
}

#[test]
fn settings_changes_are_named_and_planned() {
    let base = RuntimeSettings::default();
    assert!(settings_change(&base, &RuntimeSettings::default(), false, true).is_none());

    let bare = settings(r#"{"analysis": {"allowPercentagesWithoutSign": true}}"#);
    let change = settings_change(&base, &bare, false, true).unwrap();
    assert_eq!(change.changed, vec!["analysis.allowPercentagesWithoutSign"]);
    assert_eq!(
        change.work,
        SettingsWork::Keep { renew_analyzer: true, set_strictness: false, refresh_open: true }
    );
    let change = settings_change(&base, &bare, false, false).unwrap();
    assert_eq!(
        change.work,
        SettingsWork::Keep { renew_analyzer: true, set_strictness: false, refresh_open: false }
    );

    let roots = settings(
        r#"{"baseIniRoots": ["b"], "analysis": {"allowPercentagesWithoutSign": true}}"#,
    );
    let change = settings_change(&base, &roots, false, true).unwrap();
    assert_eq!(
        change.work,
        SettingsWork::Reload {
            work: ProgressWork::GameDataReload,
            source: AnalyzerSource::CurrentSchema,
            store_now: true,
            replace_analyzer: false,
        }
    );

    assert_eq!(
        change.summary,
        "ZeroSyntax: settings updated (baseIniRoots, analysis.allowPercentagesWithoutSign) — formatting=false, schema=built-in, base roots=1, model strictness=Compatible, bare percentages=true, map ordering=true, debounce=250 ms, progress=indexing."
    );
    // Roots that name the same paths are the same, however they are spelled.
    let spelled = settings(r#"{"baseIniRoots": ["b/"], "analysis": {"allowPercentagesWithoutSign": true}}"#);
    assert!(settings_change(&roots, &spelled, true, true).is_none());
    assert_eq!(settings_change(&roots, &spelled, false, true).unwrap().changed, vec!["baseIniRoots"]);

    let schema = settings(r#"{"schemaPath": "x.json", "format": {"enable": true}}"#);
    let change = settings_change(&base, &schema, false, true).unwrap();
    assert_eq!(change.changed, vec!["format.enable", "schemaPath"]);
    assert!(change.switch_formatting);
    assert_eq!(
        change.work,
        SettingsWork::Reload {
            work: ProgressWork::SchemaReload,
            source: AnalyzerSource::Custom,
            store_now: false,
            replace_analyzer: true,
        }
    );
    let change = settings_change(&schema, &base, false, true).unwrap();
    assert!(matches!(
        change.work,
        SettingsWork::Reload { source: AnalyzerSource::Embedded, .. }
    ));
    assert_eq!(initial_source(&schema), AnalyzerSource::Custom);
    assert_eq!(initial_source(&base), AnalyzerSource::Embedded);

    let zoom = settings(r#"{"preview": {"zoomPercent": 50}}"#);
    let change = settings_change(&base, &zoom, false, true).unwrap();
    assert!(change.clear_previews);
    assert_eq!(change.changed, vec!["preview"]);
}

// ---------------------------------------------------------------------------
// Progress

fn no_stats() -> ScanStats {
    ScanStats {
        discovered_inputs: 0,
        discovery_failures: 0,
        cache_hits: 0,
        cache_misses: 0,
        fingerprint_failures: 0,
        scan_failures: 0,
        cache_written: false,
        cache_updated: false,
    }
}

#[test]
fn index_completion_distinguishes_empty_success_and_warnings() {
    let summary = |stats| IndexSummary {
        ini_total: 2,
        model_total: 1,
        audio_total: 0,
        texture_total: 0,
        stats,
    };
    assert_eq!(
        summary(no_stats()).completion_message("Ready"),
        "Ready — no indexable game data found"
    );
    assert!(summary(ScanStats { discovered_inputs: 2, cache_written: true, ..no_stats() })
        .completion_message("Ready")
        .starts_with("Ready — 2 INI files"));
    assert!(summary(ScanStats { discovered_inputs: 2, scan_failures: 1, ..no_stats() })
        .completion_message("Ready")
        .contains("Ready with warnings"));
    assert!(summary(ScanStats { discovery_failures: 1, cache_written: true, ..no_stats() })
        .completion_message("Ready")
        .contains("1 input skipped"));
    assert_eq!(
        summary(ScanStats { discovered_inputs: 9, scan_failures: 2, ..no_stats() })
            .completion_message("Index updated"),
        "Index updated with warnings — 2 INI files, 1 W3D models, 0 audio files, 0 textures indexed; 2 inputs skipped, persistent cache not saved"
    );
}

#[test]
fn scan_reports_name_their_phase() {
    assert_eq!(
        scan_report(ScanProgress::Discovering),
        (s("Discovering workspace and game data"), None)
    );
    assert_eq!(
        scan_report(ScanProgress::InputsDiscovered { total: 0, skipped: 0 }),
        (s("No indexable game data found"), Some(85))
    );
    assert_eq!(
        scan_report(ScanProgress::InputsDiscovered { total: 0, skipped: 3 }),
        (s("No readable inputs found — 3 skipped"), Some(85))
    );
    assert_eq!(
        scan_report(ScanProgress::InputsDiscovered { total: 7, skipped: 1 }),
        (s("Checking 0/7 inputs — 1 skipped during discovery"), None)
    );
    assert_eq!(
        scan_report(ScanProgress::Indexing { done: 1, total: 2, cache_hits: 1, cache_misses: 0 }),
        (s("Checking 1/2 inputs — 1 cached, 0 reparsed"), Some(42))
    );
    assert_eq!(
        scan_report(ScanProgress::WritingCache),
        (s("Saving the persistent index cache"), Some(88))
    );
    assert_eq!(refresh_report(92, 8, 1, 2), (s("Refreshing diagnostics 1/2"), 96));
    assert_eq!(refresh_report(92, 8, 2, 2).1, 100);
    assert_eq!(refreshed_message(1), "Diagnostics refreshed for 1 open document");
    assert_eq!(refreshed_message(2), "Diagnostics refreshed for 2 open documents");
}

#[test]
fn repeated_percentages_are_not_reported() {
    let mut throttle = Throttle::new();
    let passed = (1..=1000).filter(|done| throttle.passes(*done, 1000)).count();
    assert_eq!(passed, 86);
    assert!(throttle.passes(1000, 1000), "the last report always passes");
    assert_eq!(ProgressWork::Startup.title(), "Starting ZeroSyntax");
    assert_eq!(ProgressWork::SchemaReload.initial_message(), "loading the configured schema");
    assert!(ProgressWork::DiagnosticsRefresh.verbose_only());
    assert_eq!(ProgressMode::Verbose.as_str(), "verbose");
}

// ---------------------------------------------------------------------------
// Previews

#[test]
fn invalidated_preview_is_not_cached_again() {
    let mut cache = PreviewCache::default();
    let generation = cache.generation();
    cache.clear();
    cache.insert(generation, s("model"), s("stale"));

    assert!(cache.get("model").is_none());
}

#[test]
fn the_oldest_preview_makes_room() {
    let mut cache = PreviewCache::new();
    for i in 0..PREVIEW_CACHE_SIZE {
        cache.insert(0, format!("k{i}"), format!("v{i}"));
    }
    cache.insert(0, s("k0"), s("new"));
    assert_eq!(cache.get("k0").as_deref(), Some("new"));
    cache.insert(0, s("extra"), s("x"));
    assert_eq!(cache.get("k0"), None);
    assert_eq!(cache.get("k1").as_deref(), Some("v1"));
    assert_eq!(cache.get("extra").as_deref(), Some("x"));
}

#[test]
fn previews_are_written_in_markdown() {
    assert_eq!(markdown_text("a\\[b]`c"), "a\\\\\\[b\\]\\`c");
    assert_eq!(
        preview_markdown("Tank", &[1, 2, 3, 255], 160, &vec![]),
        "![Tank model preview](data:image/png;base64,AQID/w==|width=160)\n\n`Tank`"
    );
    let missing: Vec<String> = ["a", "b", "c", "d", "e"].iter().map(|n| s(n)).collect();
    assert!(preview_markdown("T", b"hi", 80, &missing)
        .ends_with("aGk=|width=80)\n\n`T`\n\nMissing textures: `a`, `b`, `c` and 2 more"));
    assert!(preview_markdown("T", b"", 80, &vec![s("a")])
        .ends_with("base64,|width=80)\n\n`T`\n\nMissing texture: `a`"));
    assert!(preview_unavailable().starts_with("_Preview unavailable"));
}

#[test]
fn previews_are_drawn_once_per_size() {
    let mut index = WorkspaceIndex::new();
    index.set_file_models(
        "file:///tank.w3d",
        vec![ModelAsset { name: s("Tank"), members: vec![], hierarchy: None }],
    );
    let mut cache = PreviewCache::new();
    let request = Some(("w3d-model-preview", "TANK"));
    let PreviewStep::Render { source, key, generation } =
        resolve_preview(&index, &cache, request, true, 160, 100)
    else {
        panic!("nothing is kept yet");
    };
    assert_eq!(source, "file:///tank.w3d");
    assert_eq!(key, "tank\0file:///tank.w3d\0160\0100");
    cache.insert(generation, key, s("drawn"));
    assert!(matches!(
        resolve_preview(&index, &cache, request, true, 160, 100),
        PreviewStep::Show(markdown) if markdown == "drawn"
    ));
    assert!(matches!(
        resolve_preview(&index, &cache, request, true, 320, 100),
        PreviewStep::Render { .. }
    ));
    assert!(matches!(
        resolve_preview(&index, &cache, request, false, 160, 100),
        PreviewStep::NoDocumentation
    ));
    let long = "x".repeat(257);
    for other in [None, Some(("other", "Tank")), Some(("w3d-model-preview", "")),
        Some(("w3d-model-preview", "Jet")), Some(("w3d-model-preview", long.as_str()))]
    {
        assert!(matches!(
            resolve_preview(&index, &cache, other, true, 160, 100),
            PreviewStep::Unchanged
        ));
    }
}

// ---------------------------------------------------------------------------
// Sessions

fn change(range: Option<((u32, u32), (u32, u32))>, text: &str) -> ContentChange {
    ContentChange {
        range: range.map(|(a, b)| Range {
            start: Position { line: a.0, character: a.1 },
            end: Position { line: b.0, character: b.1 },
        }),
        text: s(text),
    }
}

#[test]
fn batches_and_single_edits_give_the_same_text() {
    let changes = vec![
        change(Some(((0, 0), (0, 6))), "Object"),
        change(Some(((1, 0), (1, 0))), "; c\n"),
        change(Some(((0, 7), (0, 8))), "Tank"),
    ];
    let mut whole = Rope::from_str("Weapon A\nEnd\n");
    apply_changes(&mut whole, &changes, PositionEnc::Utf16);
    assert_eq!(whole.to_string(), "Object Tank\n; c\nEnd\n");

    let mut step = Rope::from_str("Weapon A\nEnd\n");
    let mut edits = Vec::new();
    for change in &changes {
        edits.push(apply_step(&mut step, change, PositionEnc::Utf16));
    }
    assert_eq!(step.to_string(), whole.to_string());
    assert_eq!(edits[0], Some(Edit { start: 0, old_end: 6, new_len: 6 }));
    assert_eq!(apply_step(&mut step, &change(None, "x"), PositionEnc::Utf8), None);
    assert_eq!(step.to_string(), "x");
}

#[test]
fn large_batches_are_applied_at_once() {
    let small = |n: usize| (0..n).map(|_| change(Some(((0, 0), (0, 0))), "x")).collect::<Vec<_>>();
    assert!(!bulk_change(&small(8)));
    assert!(bulk_change(&small(9)));
    let mut replaced = small(9);
    replaced.push(change(None, ""));
    assert!(!bulk_change(&replaced));
    let big = "x".repeat(32 * 1024 + 1);
    assert!(!bulk_change(&vec![change(Some(((0, 0), (0, 0))), &big)]));
    assert!(bulk_change(&vec![
        change(Some(((0, 0), (0, 0))), &big),
        change(Some(((0, 0), (0, 0))), ""),
    ]));
}

#[test]
fn superseded_work_is_dropped() {
    assert_eq!(refresh_version(Some(3), None), Some(3));
    assert_eq!(refresh_version(Some(3), Some(3)), Some(3));
    assert_eq!(refresh_version(Some(4), Some(3)), None);
    assert_eq!(refresh_version(None, None), None);
    assert!(still_current(Some(3), 3));
    assert!(!still_current(Some(4), 3));
    assert!(!still_current(None, 3));
}

#[test]
fn token_deltas_need_the_exact_result() {
    let token = |n| SemanticToken {
        delta_line: n,
        delta_start: 0,
        length: 1,
        token_type: 0,
        token_modifiers_bitset: 0,
    };
    let prev = [token(0), token(1)];
    let next = [token(0), token(2)];
    match semantic_reply(Some((7, &prev)), "7", &next) {
        SemanticReply::Delta(edit) => {
            assert_eq!((edit.start, edit.delete_count), (5, 5));
            assert_eq!(edit.data, vec![token(2)]);
        }
        SemanticReply::Tokens => panic!("the client holds result 7"),
    }
    assert!(matches!(semantic_reply(Some((7, &prev)), "8", &next), SemanticReply::Tokens));
    assert!(matches!(semantic_reply(Some((7, &prev)), "07", &next), SemanticReply::Tokens));
    assert!(matches!(semantic_reply(None, "7", &next), SemanticReply::Tokens));
}

#[test]
fn commands_answer_or_fail() {
    assert_eq!(command_named("zerosyntax.clearIndexCache"), Some(Command::ClearCache));
    assert_eq!(command_named("zerosyntax.rebuildIndexCache"), Some(Command::RebuildCache));
    assert_eq!(command_named("other"), None);
    assert_eq!(after_clear(Command::RebuildCache, Some(true)), CommandStep::Rebuild);
    assert_eq!(
        after_clear(Command::ClearCache, Some(false)),
        CommandStep::Answer { message: "ZeroSyntax index cache is already clear." }
    );
    assert!(matches!(
        after_clear(Command::ClearCache, None),
        CommandStep::Fail { progress: None, .. }
    ));
    assert!(matches!(
        after_clear(Command::RebuildCache, None),
        CommandStep::Fail { progress: Some(_), .. }
    ));
    let before = ScanState { finished: true, base_indexed: 4 };
    assert_eq!(before.after_rebuild(None), before);
    assert_eq!(before.after_rebuild(Some(9)), ScanState { finished: true, base_indexed: 9 });
}

#[test]
fn missing_game_data_is_hinted_once() {
    let empty = ScanState { finished: true, base_indexed: 0 };
    let map = "file:///maps/map.ini";
    assert_eq!(base_data_hint(map, empty, true, false, false), BaseDataHint::LogAndShow);
    assert_eq!(base_data_hint(map, empty, true, true, false), BaseDataHint::Log);
    assert_eq!(base_data_hint(map, empty, false, true, false), BaseDataHint::LogAndShow);
    assert_eq!(base_data_hint(map, empty, true, false, true), BaseDataHint::Nothing);
    assert_eq!(base_data_hint("a.ini", empty, true, false, false), BaseDataHint::Nothing);
    let found = ScanState { base_indexed: 1, ..empty };
    assert_eq!(base_data_hint(map, found, true, false, false), BaseDataHint::Nothing);
    let unfinished = ScanState { finished: false, ..empty };
    assert_eq!(base_data_hint(map, unfinished, true, false, false), BaseDataHint::Nothing);
}

#[test]
fn detects_map_layer_filenames() {
    assert!(is_override_layer("file:///C:/Maps/Foo/map.ini"));
    assert!(is_override_layer("C:\\Maps\\Foo\\solo.ini"));
    assert!(!is_override_layer("C:/Data/INI/Object.ini"));
}

#[test]
fn small_answers_are_exact() {
    assert_eq!(indent_unit(true, 2), "  ");
    assert_eq!(indent_unit(false, 2), "\t");
    assert!(announces_formatting(false, true));
    assert!(!announces_formatting(true, true));
    assert_eq!(block_hover("Object", None), "**block** `Object`\n\nTop-level block `Object`.");
    assert_eq!(block_hover("Object", Some("Doc.")), "**block** `Object`\n\nDoc.");
    assert_eq!(
        field_hover("ClipSize", "Int", "parseInt"),
        "**field** `ClipSize`\n\ntype: `Int`\n\nengine: `parseInt`"
    );
    assert_eq!(schema_warning("bad"), "ZeroSyntax: bad; using the built-in schema.");
    assert_eq!(workspace_roots(Some(vec![Some(s("/a")), None]), Some(s("/r"))), vec!["/a"]);
    assert_eq!(workspace_roots(None, Some(s("/r"))), vec!["/r"]);
    assert!(workspace_roots(None, None).is_empty());
}

#[test]
fn new_names_are_single_tokens() {
    assert!(check_new_name("Tank_01").is_ok());
    for bad in ["", "a b", "a\tb", "a=b", "a;b", "\"a\"", "a\n", "a\r"] {
        assert_eq!(
            check_new_name(bad),
            Err("name must be a single token (no whitespace, `=`, `;` or quotes)")
        );
    }
}

#[test]
fn the_cursor_prefers_references() {
    let span = Span::new(3, 7);
    let other = Span::new(9, 9);
    let reference = Some((RefKind::Weapon, "Gun", span));
    let tag = Some(("Tank", "Tag", other));
    assert!(matches!(
        symbol_at(reference, None, tag, tag),
        Some(SymbolAt::Reference { kind: RefKind::Weapon, name: "Gun", .. })
    ));
    let used = symbol_at(None, None, tag, tag).unwrap();
    assert!(matches!(used, SymbolAt::ModuleTag { before: Some(9), .. }));
    assert_eq!(used.span(), other);
    assert!(matches!(
        symbol_at(None, None, None, tag),
        Some(SymbolAt::ModuleTag { before: None, .. })
    ));
    assert!(symbol_at(None, None, None, None).is_none());
}

// ---------------------------------------------------------------------------
// URIs

fn canonical(uri: &Url) -> Url {
    Url::parse(&canonical_uri(uri.as_str())).unwrap()
}

#[test]
fn canonical_uri_pass_through_other_schemes() {
    let u = Url::parse("untitled:///buffer").unwrap();
    assert_eq!(canonical(&u), u);
}

#[test]
fn canonical_uri_normalises_big_uri_path() {
    let scanner = Url::parse("big:///C:/Game%20Folder/Base%23.big!/Data/INI/Object.ini").unwrap();
    for client in [
        "big:///C%3A/Game%20Folder/Base%23.big!/Data/INI/Object.ini",
        "big:/c%3A/Game%20Folder/Base%23.big%21/Data/INI/Object.ini",
    ] {
        assert_eq!(canonical(&Url::parse(client).unwrap()), scanner);
    }
}

#[test]
fn canonical_uri_keeps_scanner_big_uri() {
    let scanner = Url::parse("big:///C:/Game%20Folder/Base%23.big!/Data/INI/Object.ini").unwrap();
    assert_eq!(canonical(&scanner), scanner);
}

#[test]
fn malformed_or_unknown_big_uri_has_no_virtual_content() {
    let known = "big:///C:/Game%20Folder/Base.big!/Data/INI/Object.ini";
    let malformed = Url::parse("big:///C%3A/Game%FF/Base.big!/Data/INI/Object.ini").unwrap();
    let unknown = Url::parse("big:///C%3A/Game%20Folder/Base.big!/Data/INI/Unknown.ini").unwrap();
    assert_eq!(canonical(&malformed), malformed);
    assert_ne!(canonical(&malformed).as_str(), known);
    assert_ne!(canonical(&unknown).as_str(), known);
}

#[test]
fn a_file_uri_takes_the_form_of_its_path() {
    let form = Some(s("file:///C:/mod/Object.ini"));
    assert_eq!(
        canonical_form("file", "/c%3A/mod/Object.ini", form).as_deref(),
        Some("file:///C:/mod/Object.ini")
    );
    assert_eq!(canonical_form("file", "/c%3A/mod/Object.ini", None), None);
    let plain = if std::path::MAIN_SEPARATOR == '\\' {
        "file:///C:/mod/Object.ini"
    } else {
        "file:///mod/Object.ini"
    };
    let escaped = plain.replace("Object", "%4Fbject");
    assert_eq!(canonical_uri(&escaped), plain);
    assert_eq!(canonical_uri("not a URI"), "not a URI");
    assert_eq!(canonical_uri("file:///a/%62.ini"), "file:///a/b.ini");
    assert!(is_url_sized("file:///a/b.ini"));
}

#[test]
fn archive_uris_can_be_split_again() {
    let uri = big_uri("C:\\Game Folder\\Base#.big", "Data/INI/Object.ini").unwrap();
    assert_eq!(uri, "big:///C:/Game%20Folder/Base%23.big!/Data/INI/Object.ini");
    let path = "/C:/Game%20Folder/Base%23.big!/Data/INI/Object.ini";
    assert_eq!(
        split_big_path(path, true),
        Some((s("C:/Game Folder/Base#.big"), s("Data/INI/Object.ini")))
    );
    assert_eq!(
        split_big_path(path, false),
        Some((s("/C:/Game Folder/Base#.big"), s("Data/INI/Object.ini")))
    );
    assert_eq!(split_big_path("/C:/plain.big", true), None);
}

// ---------------------------------------------------------------------------
// Scanning

#[test]
fn inputs_are_known_by_extension() {
    assert_eq!(extension_of("/a/b.c/Object.INI"), "INI");
    assert_eq!(extension_of("/a/.hidden"), "");
    assert_eq!(input_kind("Big"), InputKind::Archive);
    assert_eq!(input_kind("INI"), InputKind::Ini);
    assert_eq!(input_kind("w3d"), InputKind::Model);
    assert_eq!(input_kind("dds"), InputKind::Asset);
    assert_eq!(input_kind("txt"), InputKind::Other);
}

#[test]
fn paths_are_scanned_by_stem_with_dds_last() {
    let paths: Vec<String> =
        ["/b.ini", "/A.dds", "/a.tga", "/B.W3D"].iter().map(|p| s(p)).collect();
    assert_eq!(scan_order(&paths, '/'), vec![2, 1, 0, 3]);
}

#[test]
fn a_backslash_separates_only_where_the_machine_says_so() {
    let paths: Vec<String> = ["/a.x\\b", "/a"].iter().map(|p| s(p)).collect();
    assert_eq!(scan_order(&paths, '\\'), vec![1, 0]);
    assert_eq!(scan_order(&paths, '/'), vec![0, 1]);
}

#[test]
fn ini_bytes_are_read_leniently() {
    assert_eq!(decode_ini(b"Weapon A"), "Weapon A");
    assert_eq!(decode_ini(&[b'a', 0x92, b'b']), "a\u{fffd}b");
}

#[test]
fn string_tables_list_their_keys() {
    let keys = parse_str_keys("OBJECT:Tank\n\"Tank\"\nEND\n\nCONTROLBAR:Build\n\"x\"\nEnd\n");
    assert_eq!(keys, vec!["OBJECT:Tank", "CONTROLBAR:Build"]);
}

const F1: Fingerprint = Fingerprint { len: 1, modified_secs: 2, modified_nanos: 3 };
const F2: Fingerprint = Fingerprint { len: 9, modified_secs: 2, modified_nanos: 3 };

#[test]
fn each_path_is_planned_once_and_base_comes_first() {
    let mut plan = ScanPlan::new();
    plan.add_input(0, "a", Some(F1), true);
    plan.add_input(1, "a", Some(F1), false);
    plan.add_input(2, "b", None, false);
    plan.add_input(3, "c", Some(F2), false);
    assert_eq!(plan.discovered_inputs(), 3);
    assert_eq!(plan.inputs.iter().map(|i| (i.id, i.is_base)).collect::<Vec<_>>(), vec![
        (0, true),
        (3, false)
    ]);
    let mut run = ScanRun::new(plan.inputs.len());
    run.hit();
    run.miss(false);
    let stats = finish_scan(&plan, 4, &run, CommitResult::Done { updated: true });
    assert_eq!(
        stats,
        ScanStats {
            discovered_inputs: 3,
            discovery_failures: 4,
            cache_hits: 1,
            cache_misses: 1,
            fingerprint_failures: 1,
            scan_failures: 1,
            cache_written: true,
            cache_updated: true,
        }
    );
    assert_eq!(stats.skipped_inputs(), 6);
    assert!(!finish_scan(&plan, 0, &run, CommitResult::Failed).cache_written);
}

#[test]
fn base_inputs_are_planned_before_workspace_inputs() {
    let found = |key: &str, fingerprint| FoundInput { key: s(key), fingerprint };
    let base = vec![found("base", Some(F1)), found("gone", None)];
    let own = vec![found("own", Some(F2)), found("base", Some(F2))];
    let plan = plan_inputs(&base, &own);
    let planned: Vec<(usize, &str, bool)> =
        plan.inputs.iter().map(|i| (i.id, i.key.as_str(), i.is_base)).collect();
    assert_eq!(planned, vec![(0, "base", true), (2, "own", false)]);
    assert_eq!(plan.fingerprint_failures, 1);
    assert_eq!(plan.discovered_inputs(), 3);
}

#[test]
fn unstable_inputs_are_decided() {
    assert_eq!(stability(F1, F1, 0), Stability::Stable);
    assert_eq!(stability(F1, F2, 0), Stability::Retry);
    assert_eq!(stability(F1, F2, 1), Stability::GiveUp);
    assert!(payload_fits(256 * 1024 * 1024));
    assert!(!payload_fits(256 * 1024 * 1024 + 1));
}

fn scan_entry(file: &str) -> ScanEntry {
    ScanEntry {
        file: s(file),
        definitions: vec![],
        references: vec![],
        tags: vec![],
        object_models: vec![],
        object_parents: vec![],
        models: vec![],
        assets: vec![],
        text: None,
        animations: vec![],
    }
}

fn course(cache: Option<CacheSession>) -> ScanCourse {
    let mut plan = ScanPlan::new();
    plan.add_input(0, "base", Some(F1), true);
    plan.add_input(1, "own", Some(F2), false);
    ScanCourse::new(plan, cache)
}

fn given(entries: &[Scanned]) -> Vec<(bool, String)> {
    entries.iter().map(|scanned| (scanned.is_base, scanned.entry.file.clone())).collect()
}

#[test]
fn warm_and_cold_scans_agree_and_a_warm_one_writes_nothing() {
    let now = 10 * TOUCH_INTERVAL_SECS;
    let mut cold = course(Some(CacheSession::open(1, now)));
    assert_eq!(cold.next_step(), CourseStep::Input(0));
    assert!(!cold.take_lookup(Lookup::Miss));
    cold.take_scan(Some((F1, vec![scan_entry("a"), scan_entry("b")])), Some(vec![1, 2]));
    assert_eq!(cold.next_step(), CourseStep::Input(1));
    assert!(!cold.take_lookup(Lookup::Miss));
    cold.take_scan(Some((F2, vec![scan_entry("c")])), Some(vec![3]));
    assert_eq!(cold.next_step(), CourseStep::Commit { announce: true });
    let session = cold.cache.as_ref().unwrap();
    assert_eq!(session.pending.len(), 2);
    assert_eq!(session.pending[1].path, "own");
    assert_eq!(session.pending[1].payload, vec![3]);
    assert_eq!(session.commit_step(1), CommitStep::Write);

    let mut warm = course(Some(CacheSession::open(1, now)));
    let entries = vec![scan_entry("a"), scan_entry("b")];
    assert!(warm.take_lookup(Lookup::Hit { last_used: now, entries }));
    assert!(warm.take_lookup(Lookup::Hit { last_used: now, entries: vec![scan_entry("c")] }));
    assert_eq!(warm.next_step(), CourseStep::Commit { announce: false });
    assert_eq!(warm.cache.as_ref().unwrap().commit_step(1), CommitStep::Nothing);

    let (cold, read) = cold.finish(0, CommitResult::Done { updated: true });
    let (warm, reused) = warm.finish(0, CommitResult::Done { updated: false });
    assert_eq!(given(&cold), vec![(true, s("a")), (true, s("b")), (false, s("c"))]);
    assert_eq!(given(&cold), given(&warm));
    assert_eq!((read.cache_hits, read.cache_misses, read.cache_updated), (0, 2, true));
    assert_eq!((reused.cache_hits, reused.cache_misses, reused.cache_updated), (2, 0, false));
    assert!(reused.cache_written);
}

#[test]
fn corrupt_payloads_and_failed_inputs_concern_one_record() {
    let mut scan = course(Some(CacheSession::open(1, 2 * TOUCH_INTERVAL_SECS)));
    assert!(!scan.take_lookup(Lookup::Corrupt { last_used: 0 }));
    scan.take_scan(None, None);
    assert!(!scan.take_lookup(Lookup::Miss));
    scan.take_scan(Some((F2, vec![scan_entry("c")])), None);
    let session = scan.cache.as_ref().unwrap();
    assert_eq!(session.invalid.keys, vec![s("base")]);
    assert_eq!(session.touches.keys, vec![s("base")]);
    assert!(session.pending.is_empty());
    let (entries, stats) = scan.finish(3, CommitResult::Failed);
    assert_eq!(given(&entries), vec![(false, s("c"))]);
    assert_eq!((stats.scan_failures, stats.cache_misses), (1, 2));
    assert_eq!(stats.skipped_inputs(), 4);
    assert!(!stats.cache_written);
}

#[test]
fn a_cache_that_fails_is_not_asked_again() {
    let mut scan = course(Some(CacheSession::open(1, 0)));
    assert!(!scan.take_lookup(Lookup::Failed));
    assert!(!scan.caches());
    scan.take_scan(Some((F1, vec![])), Some(vec![1]));
    let entries = vec![scan_entry("c")];
    assert!(!scan.take_lookup(Lookup::Hit { last_used: 0, entries }));
    scan.take_scan(Some((F2, vec![scan_entry("d")])), Some(vec![2]));
    assert!(scan.cache.is_none());
    assert_eq!(scan.next_step(), CourseStep::Finish);
    assert_eq!(given(&scan.scanned), vec![(false, s("d"))]);
}

struct Bounded(BoundedVec);

impl postcard::ser_flavors::Flavor for Bounded {
    type Output = Vec<u8>;

    fn try_push(&mut self, data: u8) -> postcard::Result<()> {
        self.0.try_push(data).map_err(|BufferFull| postcard::Error::SerializeBufferFull)
    }

    fn try_extend(&mut self, data: &[u8]) -> postcard::Result<()> {
        self.0.try_extend(data).map_err(|BufferFull| postcard::Error::SerializeBufferFull)
    }

    fn finalize(self) -> postcard::Result<Vec<u8>> {
        Ok(self.0.finalize())
    }
}

fn serialize_bounded(value: &Vec<u8>, limit: usize) -> postcard::Result<Vec<u8>> {
    postcard::serialize_with_flavor(value, Bounded(BoundedVec::new(limit)))
}

#[test]
fn cache_serialization_stops_at_the_payload_limit() {
    let value = vec![7u8; 128];
    assert_eq!(
        serialize_bounded(&value, 64).unwrap_err(),
        postcard::Error::SerializeBufferFull
    );

    let payload = serialize_bounded(&value, 256).unwrap();
    assert_eq!(postcard::from_bytes::<Vec<u8>>(&payload).unwrap(), value);
}

// ---------------------------------------------------------------------------
// The cache

#[test]
fn a_cleared_cache_takes_no_late_writes() {
    let mut session = CacheSession::open(1, 1_000_000);
    assert_eq!(session.commit_step(1), CommitStep::Nothing);
    session.queue_store(s("a"), F1, vec![1]);
    assert!(session.has_pending_writes());
    assert_eq!(session.commit_step(1), CommitStep::Write);
    assert_eq!(session.commit_step(2), CommitStep::Discard);
    assert_eq!(
        session.finish(CommitStep::Discard, 5),
        CommitOutcome { updated: false, pruned: 0 }
    );
    assert!(!session.has_queue());
}

#[test]
fn fresh_records_are_not_touched_again() {
    let now = 10_000_000;
    let mut session = CacheSession::open(1, now);
    session.found("a", now);
    assert!(!session.has_queue());
    session.found("a", now - 86_401);
    assert!(session.has_queue() && !session.has_pending_writes());
    session.invalidate("a");
    assert_eq!(session.finish(CommitStep::Write, 2), CommitOutcome { updated: true, pruned: 2 });
    assert_eq!(oldest_kept(now), now - 30 * 86_400);
}

#[test]
fn the_least_recent_records_are_pruned() {
    assert_eq!(prune_count(10, 10, &vec![4, 3, 3]), 0);
    assert_eq!(prune_count(10, 9, &vec![4, 3, 3]), 1);
    assert_eq!(prune_count(10, 5, &vec![4, 3, 3]), 2);
    assert_eq!(prune_count(10, 0, &vec![4, 3, 3]), 3);
}

#[test]
fn only_old_cache_files_count_as_legacy() {
    assert!(is_legacy_cache_name("index-v7-0123456789abcDEF.json"));
    assert!(!is_legacy_cache_name("index-v-0123456789abcdef.json"));
    assert!(!is_legacy_cache_name("index-v7-0123456789abcde.json"));
    assert!(!is_legacy_cache_name("index-v4294967296-0123456789abcdef.json"));
    assert!(!is_legacy_cache_name("notes.txt"));
}

#[test]
fn producers_differ_by_schema() {
    assert_eq!(producer_id(b"{}"), producer_id(b"{}"));
    assert_ne!(producer_id(b"{}"), producer_id(b"[]"));
    assert_ne!(&producer_id(b"{}")[..2], b"{}");
    assert_eq!(as_sql_int(7), Ok(7));
    assert!(as_sql_int(u64::MAX).is_err());
}

#[test]
fn key_sets_hold_each_key_once() {
    let mut set = KeySet::new();
    assert!(set.insert("b"));
    assert!(set.insert("a"));
    assert!(!set.insert("b"));
    assert_eq!(set.len(), 2);
    assert!(set.contains("a") && !set.contains("c"));
    set.clear();
    assert_eq!(set.len(), 0);
}

// ---------------------------------------------------------------------------
// Archives

fn archive(entries: &[(&str, &[u8])]) -> Vec<u8> {
    let data_offset = 0x10 + entries.iter().map(|(name, _)| 8 + name.len() + 1).sum::<usize>();
    let size = data_offset + entries.iter().map(|(_, data)| data.len()).sum::<usize>();
    let mut bytes = Vec::new();
    bytes.extend_from_slice(b"BIGF");
    bytes.extend_from_slice(&(size as u32).to_be_bytes());
    bytes.extend_from_slice(&(entries.len() as u32).to_be_bytes());
    bytes.extend_from_slice(&0u32.to_be_bytes());
    let mut offset = data_offset;
    for (name, data) in entries {
        bytes.extend_from_slice(&(offset as u32).to_be_bytes());
        bytes.extend_from_slice(&(data.len() as u32).to_be_bytes());
        bytes.extend_from_slice(name.as_bytes());
        bytes.push(0);
        offset += data.len();
    }
    for (_, data) in entries {
        bytes.extend_from_slice(data);
    }
    bytes
}

#[test]
fn directories_list_every_entry() {
    let bytes = archive(&[("Data\\INI\\Test.ini", b"abc"), ("Art\\Good.w3d", b"")]);
    let entries = big_entries(&bytes).unwrap();
    assert_eq!(entries.len(), 2);
    assert_eq!(entries[0].size, 3);
    let start = entries[0].offset as usize;
    assert_eq!(&bytes[start..start + 3], b"abc");
    let name = entries[1].name.clone();
    assert_eq!(find_asset(&entries, &name.to_uppercase()), Ok(1));
    assert_eq!(find_asset(&entries, "none"), Err(AssetError::NotFound));

    let mut wrong = bytes.clone();
    wrong[0] = b'X';
    assert_eq!(big_entries(&wrong), Err(BigError::NotAnArchive));
    assert_eq!(big_entries(&bytes[..20]), Err(BigError::Truncated));
    let large = vec![BigEntry { name: s("a"), offset: 0, size: 1 << 30 }];
    assert_eq!(find_asset(&large, "A"), Err(AssetError::TooLarge));
    assert!(fits_preview(1));
}

// ---------------------------------------------------------------------------
// The command line

#[test]
fn unicode_scalar_positions_are_one_based() {
    let text = "; é🚀\nWeapon X\n";
    let index = LineIndex::new(text);
    assert_eq!(index.position(text, "; é".len()).line, 1);
    assert_eq!(index.position(text, "; é".len()).column, 4);
    assert_eq!(index.position(text, text.find("Weapon").unwrap()).line, 2);
    assert_eq!(index.position(text, text.find("Weapon").unwrap()).column, 1);
}

#[test]
fn targets_and_roots_are_checked() {
    assert_eq!(check_targets(&vec![s("a")], false), Ok(false));
    assert_eq!(check_targets(&vec![s("-")], true), Ok(true));
    assert_eq!(
        check_targets(&vec![s("-"), s("-")], false),
        Err("stdin target '-' may only be specified once")
    );
    assert_eq!(
        check_targets(&vec![s("a")], true),
        Err("--stdin-filename requires the '-' target")
    );
    assert!(check_root(true, "", RootKind::Base).is_ok());
    assert!(check_root(false, "BIG", RootKind::Base).is_ok());
    assert_eq!(check_root(false, "ini", RootKind::Base), Err("a directory or .big archive"));
    assert_eq!(check_root(false, "big", RootKind::Target), Err("a directory or .ini file"));
}

#[test]
fn findings_are_printed_and_counted() {
    let place = OutputPosition { line: 2, column: 3 };
    let d = |severity, code| OutputDiagnostic {
        file: s("a.ini"),
        range: OutputRange { start: place, end: place },
        severity,
        code,
        message: s("text"),
    };
    let list = vec![d(OutputSeverity::Warning, "x"), d(OutputSeverity::Hint, "y")];
    assert_eq!(human_line(&list[0]), "a.ini:2:3: warning[x]: text");
    assert_eq!(summary_line(&list), "0 error(s), 1 warning(s), 1 hint(s)");
    assert!(!check_fails(&list, fail_level("error").unwrap()));
    assert!(check_fails(&list, fail_level("warning").unwrap()));
    assert_eq!(fail_level("never"), None);
}
