//! The analyses of one document against the workspace: diagnostics,
//! completion, indexing and highlighting.

use zerosyntax::analyzer::Analyzer;
use zerosyntax::cli::{check_documents, TargetDocument};
use zerosyntax::completion::{complete, Completion};
use zerosyntax::convert::PositionEnc;
use zerosyntax::diagnostics::{diagnose, diagnose_with_cache, pragma_words, DiagnosticsCache};
use zerosyntax::extract::{
    definitions_in, module_tags_in, object_models_in, object_parents_in, references_in,
};
use zerosyntax::index::{
    AssetKind, FileAsset, ModelAsset, ModelMemberStrictness, ModuleTagDefinition, WorkspaceIndex,
};
use zerosyntax::maplayer::{eager_map_reference, reference_tokens};
use zerosyntax::model::ScopeSchema;
use zerosyntax::navigation::{
    declarations, origin_copy_fix, origin_targets, places, segment_of, short_name_of,
    workspace_symbols, SymbolAt,
};
use zerosyntax::reader::read_ini;
use zerosyntax::scan::{
    asset_entry, file_entry, ini_entry, read_file, scan_big, w3d_entry, ArchiveContent,
    ArchiveInput,
};
use zerosyntax::schema::{
    AudioExtension, BlockType, Field, ModelMemberMode, ModelSource, ModuleSlot, ModuleType,
    RefKind, Schema,
    SubBlock, ValueMember, ValueSet, ValueType,
};
use zerosyntax::semantic::{semantic_tokens, semantic_tokens_range, SemKind, SemToken};
use zerosyntax::session::document_report;
use zerosyntax::syntax::{Element, Parse, Span, SyntaxKind, SyntaxToken, TokenKind};
use zerosyntax::values::{Ctx, Diagnostic, Severity};
use zerosyntax::workspace::{
    apply_entries, apply_entry, index_document, rebuilt_index, scan_totals, virtual_files,
    OpenDocument, Scanned,
};

// ---------------------------------------------------------------------------
// A small schema.

fn s(text: &str) -> String {
    text.to_string()
}

fn field(name: &str, value_type: ValueType) -> Field {
    parsed_field(name, value_type, "parse")
}

fn parsed_field(name: &str, value_type: ValueType, parse_fn: &str) -> Field {
    Field {
        name: s(name),
        value_type,
        parse_fn: s(parse_fn),
        doc: None,
        model_source: None,
        model_member_mode: None,
    }
}

fn member_field(name: &str, value_type: ValueType, source: ModelSource) -> Field {
    Field { model_source: Some(source), ..field(name, value_type) }
}

fn damage_field(name: &str, prefix: &str, kind: RefKind) -> Field {
    Field {
        model_source: Some(ModelSource::EnclosingObject),
        model_member_mode: Some(ModelMemberMode::RandomBone),
        ..field(name, bone_or_place(prefix, kind))
    }
}

fn reference(ref_kind: RefKind) -> ValueType {
    ValueType::Reference { ref_kind }
}

fn token_list(tokens: Vec<ValueType>) -> ValueType {
    ValueType::TokenList { tokens }
}

fn prefixed(prefix: &str, value_type: ValueType) -> ValueType {
    ValueType::Prefixed { prefix: s(prefix), value_type: Box::new(value_type) }
}

fn enum_type(set: &str) -> ValueType {
    ValueType::Enum { value_set: s(set) }
}

fn bit_flags(set: &str) -> ValueType {
    ValueType::BitFlags { value_set: s(set) }
}

fn value_set(id: &str, names: &[&str]) -> ValueSet {
    ValueSet {
        id: s(id),
        members: names
            .iter()
            .enumerate()
            .map(|(value, name)| ValueMember { name: s(name), value: value as i64 })
            .collect(),
    }
}

fn block(name: &str, defines: Option<RefKind>, fields: Vec<Field>) -> BlockType {
    BlockType {
        name: s(name),
        parse_fn: s("parse"),
        named: true,
        terminated: true,
        defines,
        fields,
        module_slots: vec![],
        sub_blocks: vec![],
        doc: None,
    }
}

fn sub_block(keyword: &str, fields: Vec<Field>) -> SubBlock {
    SubBlock {
        keyword: s(keyword),
        fields,
        sub_blocks: vec![],
        reenters_parent: false,
        argument_type: None,
        doc: None,
    }
}

fn module(name: &str, interface: &str, fields: Vec<Field>) -> ModuleType {
    ModuleType {
        name: s(name),
        interfaces: vec![s(interface)],
        fields,
        sub_blocks: vec![],
        doc: None,
    }
}

fn slot(keyword: &str, interface: &str) -> ModuleSlot {
    ModuleSlot { keyword: s(keyword), accepts: vec![s(interface)], doc: None }
}

fn bone_or_place(prefix: &str, kind: RefKind) -> ValueType {
    ValueType::OneOf {
        variants: vec![
            token_list(vec![
                prefixed("Bone", ValueType::W3dModelMember),
                prefixed("RandomBone", ValueType::Bool),
                prefixed(prefix, reference(kind)),
            ]),
            token_list(vec![
                prefixed("Loc", ValueType::AsciiString),
                prefixed("Y", ValueType::Real),
                prefixed("Z", ValueType::Real),
                prefixed(prefix, reference(kind)),
            ]),
        ],
    }
}

fn state_fields() -> Vec<Field> {
    let weapon_bone = || token_list(vec![enum_type("weapon_slot"), ValueType::W3dModelMember]);
    vec![
        field("Model", ValueType::W3dModel),
        field("HideSubObject", ValueType::W3dModelMember),
        field("ShowSubObject", ValueType::W3dModelMember),
        field("WeaponFireFXBone", weapon_bone()),
        field("WeaponLaunchBone", weapon_bone()),
        field("WeaponRecoilBone", weapon_bone()),
        parsed_field("Animation", ValueType::AsciiStringList, "parseAnimation"),
        parsed_field("IdleAnimation", ValueType::AsciiStringList, "parseAnimation"),
    ]
}

fn draw_module(name: &str) -> ModuleType {
    let mut states = vec![sub_block("DefaultConditionState", state_fields())];
    for keyword in ["ConditionState", "TransitionState"] {
        let mut state = sub_block(keyword, state_fields());
        state.argument_type = Some(bit_flags("model_condition"));
        states.push(state);
    }
    ModuleType { sub_blocks: states, ..module(name, "draw", vec![]) }
}

fn object_block(name: &str) -> BlockType {
    let mut object = block(
        name,
        Some(RefKind::Object),
        vec![
            field("DisplayName", ValueType::AsciiString),
            parsed_field(
                "ButtonImage",
                reference(RefKind::MappedImage),
                "INI::parseAsciiString",
            ),
            parsed_field("RemoveModule", ValueType::AsciiString, "parseRemoveModule"),
        ],
    );
    object.module_slots =
        vec![slot("Draw", "draw"), slot("Body", "body"), slot("Behavior", "behavior")];
    let weapon_set = sub_block(
        "WeaponSet",
        vec![
            field("Conditions", bit_flags("weapon_set_conditions")),
            field("Weapon", token_list(vec![enum_type("weapon_slot"), reference(RefKind::Weapon)])),
        ],
    );
    let mut add = sub_block("AddModule", vec![]);
    add.reenters_parent = true;
    object.sub_blocks = vec![weapon_set, add];
    object
}

fn test_schema() -> Schema {
    let mut list = block("ObjectCreationList", Some(RefKind::ObjectCreationList), vec![]);
    let transport = || ModelSource::ObjectReferenceField { field: s("Transport") };
    list.sub_blocks = vec![
        sub_block(
            "CreateObject",
            vec![field("ObjectNames", ValueType::ReferenceList { ref_kind: RefKind::Object })],
        ),
        sub_block("CreateDebris", vec![field("ModelNames", ValueType::W3dModelList)]),
        sub_block(
            "DeliverPayload",
            vec![
                field("Transport", reference(RefKind::Object)),
                member_field("VisibleDropBoneBaseName", ValueType::W3dModelMember, transport()),
                member_field("VisibleSubObjectBaseName", ValueType::W3dModelMember, transport()),
            ],
        ),
    ];
    Schema {
        format_version: 1,
        engine_revision: s("test"),
        blocks: vec![
            object_block("Object"),
            object_block("ObjectReskin"),
            block(
                "Weapon",
                Some(RefKind::Weapon),
                vec![
                    field("PrimaryDamage", ValueType::Real),
                    field("ClipSize", ValueType::Int),
                    field("ScaleWeaponSpeed", ValueType::Bool),
                    field("DeathType", enum_type("death_type")),
                ],
            ),
            block(
                "Armor",
                Some(RefKind::Armor),
                vec![field(
                    "Armor",
                    token_list(vec![enum_type("damage_type"), ValueType::Percent]),
                )],
            ),
            block(
                "CommandSet",
                Some(RefKind::CommandSet),
                vec![parsed_field(
                    "1",
                    reference(RefKind::CommandButton),
                    "CommandSet::parseCommandButton",
                )],
            ),
            block(
                "CommandButton",
                Some(RefKind::CommandButton),
                vec![
                    field("Command", ValueType::AsciiString),
                    parsed_field(
                        "ButtonImage",
                        reference(RefKind::MappedImage),
                        "INI::parseAsciiString",
                    ),
                ],
            ),
            block(
                "Upgrade",
                Some(RefKind::Upgrade),
                vec![parsed_field(
                    "ButtonImage",
                    reference(RefKind::MappedImage),
                    "INI::parseAsciiString",
                )],
            ),
            block(
                "ParticleSystem",
                Some(RefKind::ParticleSystem),
                vec![
                    field("Alpha1", ValueType::RandomKeyframe),
                    field("Color1", ValueType::ColorKeyframe),
                ],
            ),
            block("FXList", Some(RefKind::FxList), vec![]),
            list,
            block(
                "DialogEvent",
                Some(RefKind::AudioEvent),
                vec![field("Filename", ValueType::AudioFile { extension: AudioExtension::Any })],
            ),
            block(
                "MappedImage",
                Some(RefKind::MappedImage),
                vec![field("Texture", ValueType::TextureFile)],
            ),
        ],
        modules: vec![
            module("ActiveBody", "body", vec![field("MaxHealth", ValueType::Real)]),
            module(
                "WeaponSetUpgrade",
                "behavior",
                vec![field("TriggeredBy", ValueType::ReferenceList { ref_kind: RefKind::Upgrade })],
            ),
            module(
                "StatusBitsUpgrade",
                "behavior",
                vec![
                    field("TriggeredBy", ValueType::ReferenceList { ref_kind: RefKind::Upgrade }),
                    field("FXListUpgrade", reference(RefKind::FxList)),
                ],
            ),
            module("OverlordContain", "behavior", vec![]),
            module("DestroyDie", "behavior", vec![]),
            module("PhysicsBehavior", "behavior", vec![]),
            module("SlowDeathBehavior", "behavior", vec![]),
            module("AutoHealBehavior", "behavior", vec![]),
            module(
                "DefaultProductionExitUpdate",
                "behavior",
                vec![field("NaturalRallyPoint", ValueType::Coord3D)],
            ),
            module(
                "TransitionDamageFX",
                "behavior",
                vec![
                    damage_field("DamagedParticleSystem1", "PSys", RefKind::ParticleSystem),
                    damage_field("DamagedFXList1", "FXList", RefKind::FxList),
                    damage_field("ReallyDamagedFXList1", "FXList", RefKind::FxList),
                    damage_field("DamagedOCL10", "OCL", RefKind::ObjectCreationList),
                ],
            ),
            module(
                "BoneFXUpdate",
                "behavior",
                vec![member_field(
                    "PristineFXList1",
                    token_list(vec![
                        prefixed("Bone", ValueType::W3dModelMember),
                        prefixed("OnlyOnce", ValueType::Bool),
                        ValueType::Duration,
                        ValueType::Duration,
                        prefixed("FXList", reference(RefKind::FxList)),
                    ]),
                    ModelSource::EnclosingObject,
                )],
            ),
            module(
                "OCLUpdate",
                "behavior",
                vec![parsed_field(
                    "FactionOCL",
                    token_list(vec![
                        prefixed("Faction", enum_type("ai_side")),
                        prefixed("OCL", reference(RefKind::ObjectCreationList)),
                    ]),
                    "parseFactionObjectCreationList",
                )],
            ),
            draw_module("W3DModelDraw"),
            draw_module("W3DTankDraw"),
            draw_module("W3DTruckDraw"),
        ],
        value_sets: vec![
            value_set("death_type", &["NORMAL", "NONE", "CRUSHED", "BURNED"]),
            value_set("damage_type", &["EXPLOSION", "ARMOR_PIERCING"]),
            value_set("weapon_slot", &["PRIMARY", "SECONDARY", "TERTIARY"]),
            value_set("weapon_set_conditions", &["NONE", "VETERAN", "PLAYER_UPGRADE"]),
            value_set("model_condition", &["DAMAGED", "REALLYDAMAGED", "MOVING", "TRANS_A", "TRANS_B"]),
            value_set("ai_side", &["America", "China", "GLA"]),
        ],
        builtins: vec![],
    }
}

fn test_analyzer() -> Analyzer {
    Analyzer::new(test_schema())
}

// ---------------------------------------------------------------------------
// Diagnostics

fn found(
    analyzer: &Analyzer,
    parse: &Parse,
    index: Option<&WorkspaceIndex>,
    file: Option<&str>,
) -> Vec<Diagnostic> {
    diagnose(analyzer, parse, index, file)
}

fn diags(src: &str) -> Vec<Diagnostic> {
    let a = test_analyzer();
    let parse = read_ini(&a, src);
    found(&a, &parse, None, None)
}

fn codes(src: &str) -> Vec<&'static str> {
    diags(src).into_iter().map(|d| d.code).collect()
}

fn text_at<'a>(src: &'a str, d: &Diagnostic) -> &'a str {
    &src[d.span.start as usize..d.span.end as usize]
}

fn define(index: &mut WorkspaceIndex, a: &Analyzer, file: &str, src: &str) {
    index.set_file(file, definitions_in(a, &read_ini(a, src), file));
}

fn model(name: &str, members: &[&str]) -> ModelAsset {
    ModelAsset {
        name: s(name),
        members: members.iter().map(|m| s(m)).collect(),
        hierarchy: None,
    }
}

#[test]
fn clean_weapon_has_no_diagnostics() {
    let src = "Weapon AK47\n  PrimaryDamage = 50.0\n  ClipSize = 30\nEnd\n";
    assert!(diags(src).is_empty(), "{:?}", diags(src));
}

#[test]
fn bare_percentages_are_opt_in() {
    let src = "Armor A\n  Armor = ARMOR_PIERCING 2.5\nEnd\n";
    assert!(codes(src).contains(&"bad-percent"));

    let mut analyzer = test_analyzer();
    analyzer.set_allow_bare_percentages(true);
    let parse = read_ini(&analyzer, src);
    assert!(!found(&analyzer, &parse, None, None).iter().any(|d| d.code == "bad-percent"));

    let malformed = read_ini(&analyzer, "Armor A\n  Armor = ARMOR_PIERCING nope\nEnd\n");
    assert!(found(&analyzer, &malformed, None, None).iter().any(|d| d.code == "bad-percent"));
}

#[test]
fn unknown_block_is_error() {
    assert!(codes("Wepon AK47\nEnd\n").contains(&"unknown-block"));
}

#[test]
fn set_reachability_flags_only_untriggered_player_upgrade_sets() {
    let upgrade_set =
        "  WeaponSet\n    Conditions = PLAYER_UPGRADE\n    Weapon = PRIMARY G\n  End\n";
    let trigger = "  Behavior = WeaponSetUpgrade ModuleTag_01\n    TriggeredBy = Upgrade_X\n  End\n";

    let dead = format!("Object T\n{upgrade_set}End\n");
    assert_eq!(codes(&dead).iter().filter(|c| **c == "unreachable-set").count(), 1);

    let alive = format!("Object T\n{upgrade_set}{trigger}End\n");
    assert!(!codes(&alive).contains(&"unreachable-set"), "module triggers the set");

    // The TransportContain family can set the flag without an upgrade.
    let transport =
        format!("Object T\n{upgrade_set}  Behavior = OverlordContain ModuleTag_02\n  End\nEnd\n");
    assert!(!codes(&transport).contains(&"unreachable-set"));

    // Override patches are partial: silent.
    let patched = format!("Object T\n  RemoveModule ModuleTag_99\n{upgrade_set}End\n");
    assert!(!codes(&patched).contains(&"unreachable-set"));

    // ObjectReskin inherits the parent's modules: silent.
    let reskin = format!("ObjectReskin T P\n{upgrade_set}End\n");
    assert!(!codes(&reskin).contains(&"unreachable-set"));

    // Other conditions are set by other means: silent.
    let vet =
        "Object T\n  WeaponSet\n    Conditions = VETERAN\n    Weapon = PRIMARY G\n  End\nEnd\n";
    assert!(!codes(vet).contains(&"unreachable-set"));
}

#[test]
fn weapon_set_upgrade_without_player_upgrade_weapon_set_warns() {
    let src = "\
Object T
  WeaponSet
    Conditions = NONE
    Weapon = PRIMARY G
  End
  Behavior = WeaponSetUpgrade ModuleTag_01
    TriggeredBy = Upgrade_X
  End
End
";
    let d = diags(src);
    assert!(d.iter().any(|d| {
        d.code == "unreachable-set"
            && d.severity == Severity::Warning
            && text_at(src, d) == "WeaponSetUpgrade"
    }));
}

#[test]
fn unknown_field_is_warning() {
    let src = "Weapon AK47\n  PrimaryDamg = 50.0\nEnd\n";
    let d = diags(src);
    assert!(d.iter().any(|d| d.code == "unknown-field" && d.severity == Severity::Warning));
}

#[test]
fn bad_bool_and_number_are_errors() {
    let src = "Weapon AK47\n  ScaleWeaponSpeed = Maybe\n  ClipSize = lots\nEnd\n";
    let c = codes(src);
    assert!(c.contains(&"bad-bool"), "{c:?}");
    assert!(c.contains(&"bad-number"), "{c:?}");
}

#[test]
fn bad_enum_member_is_error() {
    let ok = "Weapon AK47\n  DeathType = BURNED\nEnd\n";
    assert!(!codes(ok).contains(&"bad-enum"), "{:?}", diags(ok));
    let bad = "Weapon AK47\n  DeathType = NONSENSE\nEnd\n";
    assert!(codes(bad).contains(&"bad-enum"));
}

#[test]
fn unterminated_block_is_syntax_error() {
    assert!(codes("Weapon AK47\n  ClipSize = 30\n").contains(&"syntax"));
}

#[test]
fn object_module_fields_are_validated() {
    let src = "\
Object Tank
  Body = ActiveBody Tag01
    MaxHealth = lots
    Bogus = 1
  End
End
";
    let c = codes(src);
    assert!(c.contains(&"bad-number"), "{c:?}");
    assert!(c.contains(&"unknown-field"), "{c:?}");
}

#[test]
fn transition_damage_particle_tokens_are_validated() {
    let ok = "\
Object Tank
  Behavior = TransitionDamageFX ModuleTag_01
    DamagedParticleSystem1 = Bone:NONE RandomBone:No PSys:StructureTransitionMediumSmoke
  End
End
";
    let ok_codes = codes(ok);
    assert!(!ok_codes.contains(&"bad-prefixed"), "{ok_codes:?}");
    assert!(!ok_codes.contains(&"bad-bool"), "{ok_codes:?}");

    let bad = "\
Object Tank
  Behavior = TransitionDamageFX ModuleTag_01
    DamagedParticleSystem1 = Bone:NONE RandomBone:Maybe ParticleSystem:StructureTransitionMediumSmoke
  End
End
";
    let bad_codes = codes(bad);
    assert!(bad_codes.contains(&"bad-bool"), "{bad_codes:?}");
    assert!(bad_codes.contains(&"bad-prefixed"), "{bad_codes:?}");
}

#[test]
fn transition_damage_loc_tokens_are_validated() {
    let ok = "\
Object Tank
  Behavior = TransitionDamageFX ModuleTag_01
    DamagedFXList1 = Loc:X:0.0 Y:0.0 Z:0.0 FXList:FX_TankDamageTransition
  End
End
";
    let ok_codes = codes(ok);
    assert!(!ok_codes.contains(&"bad-prefixed"), "{ok_codes:?}");
    assert!(!ok_codes.contains(&"bad-number"), "{ok_codes:?}");

    let bad = "\
Object Tank
  Behavior = TransitionDamageFX ModuleTag_01
    DamagedFXList1 = Loc:X:0.0 Y:nope Z:0.0 FXList:FX_TankDamageTransition
  End
End
";
    assert!(codes(bad).contains(&"bad-number"));
}

#[test]
fn unknown_module_warns() {
    let src = "Object Tank\n  Body = NotARealModule Tag01\n  End\nEnd\n";
    assert!(codes(src).contains(&"unknown-module"));
}

#[test]
fn pragma_suppresses_listed_codes_file_wide() {
    let src = "; zerosyntax-disable: bad-bool, unknown-field\nWeapon AK47\n  ScaleWeaponSpeed = Maybe\n  ClipSize = lots\n  PrimaryDamg = 1\nEnd\n";
    let c = codes(src);
    assert!(!c.contains(&"bad-bool"), "{c:?}");
    assert!(!c.contains(&"unknown-field"), "{c:?}");
    assert!(c.contains(&"bad-number"), "unlisted codes survive: {c:?}");
}

#[test]
fn pragma_words_are_byte_ranges() {
    let rest = " bad-enum,\té\r bad-flag";
    let words: Vec<&str> =
        pragma_words(rest).into_iter().map(|(start, end)| &rest[start..end]).collect();
    assert_eq!(words, ["bad-enum", "é", "bad-flag"]);
    assert_eq!(pragma_words(" ,\t\r"), []);
}

#[test]
fn pragma_typo_hints_and_suppresses_nothing() {
    let src = "; zerosyntax-disable: bad-bol\nWeapon AK47\n  ScaleWeaponSpeed = Maybe\nEnd\n";
    let d = diags(src);
    assert!(d.iter().any(|d| d.code == "bad-bool"), "{d:?}");
    let hint = d
        .iter()
        .find(|d| d.code == "unknown-suppression" && d.severity == Severity::Hint)
        .unwrap_or_else(|| panic!("expected unknown-suppression hint: {d:?}"));
    assert_eq!(text_at(src, hint), "bad-bol");
}

#[test]
fn pragma_inside_a_block_is_ignored() {
    let src = "Weapon AK47\n  ; zerosyntax-disable: bad-bool\n  ScaleWeaponSpeed = Maybe\nEnd\n";
    assert!(codes(src).contains(&"bad-bool"));
}

#[test]
fn pragma_filters_over_cached_blocks() {
    // Warm the cache without a pragma, then put one on top: the untouched
    // blocks keep their cached findings, and the filter still applies to them.
    let a = test_analyzer();
    let src = "Weapon A\n  ScaleWeaponSpeed = Maybe\nEnd\nWeapon B\n  ClipSize = lots\nEnd\n";
    let parse = read_ini(&a, src);
    let mut cache = DiagnosticsCache::new();
    let first = diagnose_with_cache(&a, &parse, None, None, &mut cache);
    assert!(first.iter().any(|d| d.code == "bad-bool"));
    assert!(first.iter().any(|d| d.code == "bad-number"));

    let edited = format!("; zerosyntax-disable: bad-number\n{src}");
    let parse = read_ini(&a, &edited);
    let second = diagnose_with_cache(&a, &parse, None, None, &mut cache);
    assert!(!second.iter().any(|d| d.code == "bad-number"), "{second:?}");
    assert!(second.iter().any(|d| d.code == "bad-bool"));
    assert_eq!(second, found(&a, &parse, None, None));
    assert_eq!(cache.stats(), (2, 2));
}

#[test]
fn cached_diagnose_matches_and_reuses_blocks() {
    let a = test_analyzer();
    let src = "Weapon AK47\n  ClipSize = lots\nEnd\nWeapon B\nEnd\nWeapon C\nEnd\nWeapon D\n  PrimaryDamg = 1\nEnd\n";
    let parse = read_ini(&a, src);
    let mut cache = DiagnosticsCache::new();
    assert_eq!(diagnose_with_cache(&a, &parse, None, None, &mut cache), found(&a, &parse, None, None));
    assert_eq!(cache.stats().0, 0, "first run is all misses");

    // Edit inside the last block; the others must come from the cache.
    let edited = src.replace("PrimaryDamg = 1", "PrimaryDamg = 2");
    let parse = read_ini(&a, &edited);
    assert_eq!(diagnose_with_cache(&a, &parse, None, None, &mut cache), found(&a, &parse, None, None));
    assert!(cache.stats().0 >= 1, "unchanged block must hit the cache");
}

#[test]
fn cache_invalidates_when_index_generation_changes() {
    let a = test_analyzer();
    let mut index = WorkspaceIndex::new();
    let src = "Weapon AK47\n  ClipSize = 30\nEnd\n";
    let parse = read_ini(&a, src);
    let mut cache = DiagnosticsCache::new();
    let g0 = index.generation();
    let first = diagnose_with_cache(&a, &parse, Some(&index), None, &mut cache);
    define(&mut index, &a, "other.ini", "Object X\nEnd\n");
    assert_ne!(index.generation(), g0);
    let second = diagnose_with_cache(&a, &parse, Some(&index), None, &mut cache);
    assert_eq!(first, second);
    let (hits, _) = cache.stats();
    assert_eq!(hits, 0, "generation bump must clear the cache");
}

fn cached(
    a: &Analyzer,
    src: &str,
    index: Option<&WorkspaceIndex>,
    file: Option<&str>,
    cache: &mut DiagnosticsCache,
) -> Vec<Diagnostic> {
    let parse = read_ini(a, src);
    let got = diagnose_with_cache(a, &parse, index, file, cache);
    assert_eq!(got, found(a, &parse, index, file), "cached findings of {src:?}");
    got
}

#[test]
fn cached_findings_follow_a_moved_block() {
    let a = test_analyzer();
    let mut index = WorkspaceIndex::new();
    let mut cache = DiagnosticsCache::new();
    let file = Some("maps/map.ini");
    let remover = "Object Tank\n  RemoveModule ModuleTag_Later\nEnd\n";
    let owner = "Object Tank\n  Behavior = DestroyDie ModuleTag_Later\n  End\nEnd\n";
    let unknown = |found: &[Diagnostic]| found.iter().any(|d| d.code == "unknown-module-tag");
    let early = format!("{remover}{owner}");
    let late = format!("{owner}{remover}");
    for src in [&early, &late, &early] {
        let parse = read_ini(&a, src);
        index.set_file("maps/map.ini", definitions_in(&a, &parse, "maps/map.ini"));
        index.set_file_tags("maps/map.ini", module_tags_in(&a, &parse));
        let got = cached(&a, src, Some(&index), file, &mut cache);
        assert_eq!(unknown(&got), src == &early);
    }
    let got = cached(&a, &format!("; moved\n{late}"), Some(&index), file, &mut cache);
    assert!(got.iter().all(|d| d.span.start > 0));
    assert!(cache.stats().0 >= 2, "a moved block is still found");
}

#[test]
fn only_unchanged_blocks_come_from_the_cache() {
    let a = test_analyzer();
    let mut cache = DiagnosticsCache::new();
    cached(&a, "Weapon A ; x\nEnd\nWeapon B\nEnd\n", None, None, &mut cache);
    assert_eq!(cache.stats(), (0, 2));
    cached(&a, "\nWeapon A ; y\nEnd\nWeapon B\nEnd\n", None, None, &mut cache);
    assert_eq!(cache.stats(), (1, 3), "a comment is part of its block");
}

#[test]
fn cached_findings_follow_the_index() {
    let a = test_analyzer();
    let mut index = WorkspaceIndex::new();
    let mut cache = DiagnosticsCache::new();
    let src = "Object Tank\n  Bogus = 1\n  WeaponSet\n    Weapon = PRIMARY Gun\n  End\nEnd\n";
    let gun = |found: &[Diagnostic]| found.iter().any(|d| d.code == "unresolved-reference");
    assert!(gun(&cached(&a, src, Some(&index), None, &mut cache)));
    define(&mut index, &a, "guns.ini", "Weapon Gun\nEnd\n");
    assert!(!gun(&cached(&a, src, Some(&index), None, &mut cache)));
    assert!(!gun(&cached(&a, src, None, None, &mut cache)));
}

#[test]
fn every_token_of_a_text_stands_in_the_tree() {
    fn text_of(parse: &Parse, node: usize) -> String {
        parse.nodes[node]
            .elements
            .iter()
            .map(|element| match element {
                Element::Node(child) => text_of(parse, *child),
                Element::Token(token) => token.text.clone(),
            })
            .collect()
    }
    let a = test_analyzer();
    for src in [
        "",
        "Weapon A ; note\n  ClipSize = 3\r\nEnd extra\n\nEnd\n\"open",
        "Object T\n  Behavior = DestroyDie Tag\n  End\n  WeaponSet\n    Weapon = PRIMARY \"a b\"",
        "ClipSize = 3\n\u{e9}t\u{e9} Foo\n",
    ] {
        assert_eq!(text_of(&read_ini(&a, src), 0), src);
    }
}

#[test]
fn the_schema_says_what_a_line_opens() {
    let mut schema = test_schema();
    let mut directive = block("BenchProfile", None, vec![]);
    directive.terminated = false;
    schema.blocks.push(directive);
    let a = Analyzer::new(schema);
    let src = "BenchProfile = 1\nWeapon A\n  ClipSize = 3\nEnd\nNovelty B\nEnd\nClipSize = 4\nEnd\n";
    let parse = read_ini(&a, src);
    let shape: Vec<(SyntaxKind, Option<usize>, &str)> = parse
        .nodes
        .iter()
        .skip(1)
        .map(|n| (n.kind, n.parent, n.head.as_ref().unwrap().text.as_str()))
        .collect();
    assert_eq!(
        shape,
        vec![
            (SyntaxKind::Field, Some(0), "BenchProfile"),
            (SyntaxKind::Block, Some(0), "Weapon"),
            (SyntaxKind::Field, Some(2), "ClipSize"),
            (SyntaxKind::Block, Some(0), "Novelty"),
            (SyntaxKind::Field, Some(0), "ClipSize"),
        ]
    );
    assert_eq!(parse.errors.len(), 1);
    assert_eq!(parse.errors[0].message, "`End` outside any block");
    let found = found(&a, &parse, None, None);
    let codes: Vec<&str> = found.iter().map(|d| d.code).collect();
    assert_eq!(codes, vec!["syntax", "unknown-block", "stray-field"]);
}

#[test]
fn empty_lists_leave_the_generation() {
    let mut index = WorkspaceIndex::new();
    index.set_file_object_parents("a.ini", vec![]);
    index.set_file_object_parents("a.ini", vec![]);
    index.set_file_object_models("a.ini", vec![]);
    index.set_file_models("a.w3d", vec![]);
    assert_eq!(index.generation(), 0);
    let a = test_analyzer();
    let parse = read_ini(&a, "Weapon Gun\nEnd\n");
    index_document(&mut index, &a, &parse, "a.ini");
    let once = index.generation();
    assert_ne!(once, 0);
    index_document(&mut index, &a, &parse, "a.ini");
    assert_eq!(index.generation(), once);
}

#[test]
fn map_override_redefinition_hints_and_suppresses_reachability() {
    let a = test_analyzer();
    let mut index = WorkspaceIndex::new();
    let base = "Object AmericaInfantryRanger\nEnd\n";
    define(&mut index, &a, "data/AmericaInfantry.ini", base);
    let src = "Object AmericaInfantryRanger\n  WeaponSet\n    Conditions = PLAYER_UPGRADE\n    Weapon = PRIMARY DefaultRangerCombatRifle\n  End\nEnd\n";
    let parse = read_ini(&a, src);
    define(&mut index, &a, "maps/Map.ini", src);

    let diags = found(&a, &parse, Some(&index), Some("maps/Map.ini"));
    assert!(
        diags.iter().any(|d| d.code == "overrides" && d.severity == Severity::Hint),
        "expected `overrides` hint: {diags:?}"
    );
    assert!(
        !diags.iter().any(|d| d.code == "unreachable-set"),
        "override redefinition must skip reachability: {diags:?}"
    );

    let base_parse = read_ini(&a, base);
    let base_diags = found(&a, &base_parse, Some(&index), Some("data/AmericaInfantry.ini"));
    assert!(
        !base_diags.iter().any(|d| d.code == "overrides" || d.code == "duplicate-definition"),
        "base definition must stay clean: {base_diags:?}"
    );
}

#[test]
fn solo_remove_module_includes_default_object_tags() {
    let a = test_analyzer();
    let mut index = WorkspaceIndex::new();
    let base = "Object DefaultThingTemplate\n  Behavior = DestroyDie ModuleTag_DefaultDestroyDie\n  End\nEnd\n";
    let base_parse = read_ini(&a, base);
    index.set_file_tags("data/INI/Default/Object.ini", module_tags_in(&a, &base_parse));
    assert_eq!(
        index.effective_module_tag_locations(
            "NewMapObject",
            "ModuleTag_DefaultDestroyDie",
            Some("maps/solo.ini"),
            None,
        )[0]
        .file,
        "data/INI/Default/Object.ini"
    );

    let src = "Object NewMapObject\n  RemoveModule ModuleTag_DefaultDestroyDie\n  RemoveModule ModuleTag_Missing\nEnd\n";
    let parse = read_ini(&a, src);
    let diags = found(&a, &parse, Some(&index), Some("maps/solo.ini"));
    let unknown: Vec<_> = diags.iter().filter(|d| d.code == "unknown-module-tag").collect();
    assert_eq!(unknown.len(), 1, "{diags:?}");
    assert_eq!(text_at(src, unknown[0]), "ModuleTag_Missing");
    assert!(
        !diags.iter().any(|diag| diag.code == "default-modules-not-removed"),
        "{diags:?}"
    );

    let unremoved = read_ini(&a, "Object AnotherMapObject\nEnd\n");
    let diags = found(&a, &unremoved, Some(&index), Some("maps/solo.ini"));
    assert!(
        diags.iter().any(|diag| diag.code == "default-modules-not-removed"),
        "{diags:?}"
    );
}

#[test]
fn remove_module_rejects_tags_declared_later_in_the_same_map() {
    let a = test_analyzer();
    let src = "Object Tank\n  RemoveModule ModuleTag_Later\n  Behavior = DestroyDie ModuleTag_Later\n  End\nEnd\n";
    let parse = read_ini(&a, src);
    let mut index = WorkspaceIndex::new();
    index.set_file_tags("maps/map.ini", module_tags_in(&a, &parse));
    let diags = found(&a, &parse, Some(&index), Some("maps/map.ini"));
    assert!(diags.iter().any(|diag| diag.code == "unknown-module-tag"), "{diags:?}");
}

#[test]
fn map_forward_reference_allows_base_game_definition() {
    let a = test_analyzer();
    let mut index = WorkspaceIndex::new();
    let base = "CommandButton Command_ConstructTank\n  Command = UNIT_BUILD\nEnd\n";
    define(&mut index, &a, "Data/INI/CommandButton.ini", base);

    let src = "\
CommandSet MapSet
  1 = Command_ConstructTank
End

CommandButton Command_ConstructTank
  Command = UNIT_BUILD
End
";
    let parse = read_ini(&a, src);
    define(&mut index, &a, "maps/map.ini", src);

    let diags = found(&a, &parse, Some(&index), Some("maps/map.ini"));
    assert!(
        !diags.iter().any(|d| d.code == "map-forward-reference"),
        "base-game definitions are already loaded before map.ini: {diags:?}"
    );
}

#[test]
fn map_ordering_classifies_only_source_proven_eager_references() {
    let eager = [
        "AI::parseScience",
        "AIUpdateModuleData::parseLocomotorSet",
        "ArmorStore::parseArmorTemplate",
        "BoneFXUpdateModuleData::parseFXList",
        "BoneFXUpdateModuleData::parseObjectCreationList",
        "BoneFXUpdateModuleData::parseParticleSystem",
        "CommandSet::parseCommandButton",
        "DamageFX::parseMajorFXList",
        "DamageFX::parseMinorFXList",
        "DamageFXStore::parseDamageFX",
        "INI::parseFXList",
        "INI::parseMappedImage",
        "INI::parseObjectCreationList",
        "INI::parseParticleSystemTemplate",
        "INI::parseScience",
        "INI::parseScienceVector",
        "INI::parseSpecialPowerTemplate",
        "INI::parseThingTemplate",
        "INI::parseUpgradeTemplate",
        "INI::parseWeaponTemplate",
        "ProductionPrerequisite::parsePrerequisiteScience",
        "ProductionPrerequisite::parsePrerequisiteUnit",
        "TransitionDamageFXModuleData::parseFXList",
        "TransitionDamageFXModuleData::parseObjectCreationList",
        "TransitionDamageFXModuleData::parseParticleSystem",
        "WeaponTemplateSet::parseWeapon",
        "parseAllVetLevelsFXList",
        "parseAllVetLevelsPSys",
        "parseAngleFX",
        "parseBountyUpgradePair",
        "parseCashHackUpgradePair",
        "parseFX",
        "parseOCL",
        "parseOCLUpgradePair",
        "parseParticleSysBone",
        "parsePerVetLevelFXList",
        "parsePerVetLevelPSys",
        "parseWeapon",
    ];
    let mut test = parsed_field("Test", reference(RefKind::Object), "");
    for parser in eager {
        test.parse_fn = s(parser);
        assert!(eager_map_reference(ScopeSchema::Unknown, &test, RefKind::Object), "{parser}");
    }
    test.parse_fn = s("INI::parseAsciiString");
    assert!(!eager_map_reference(ScopeSchema::Unknown, &test, RefKind::Object));

    let a = test_analyzer();
    let ocl_update = a.module("OCLUpdate").unwrap();
    let faction_ocl = ocl_update.fields.iter().find(|f| f.name == "FactionOCL").unwrap();
    assert!(eager_map_reference(
        ScopeSchema::Module(ocl_update),
        faction_ocl,
        RefKind::ObjectCreationList
    ));
    assert!(!eager_map_reference(
        ScopeSchema::Module(ocl_update),
        faction_ocl,
        RefKind::PlayerTemplate
    ));

    let object = a.block("Object").unwrap();
    let object_image = object.fields.iter().find(|f| f.name == "ButtonImage").unwrap();
    assert!(eager_map_reference(ScopeSchema::Block(object), object_image, RefKind::MappedImage));
    for block_name in ["CommandButton", "Upgrade"] {
        let block = a.block(block_name).unwrap();
        let image = block.fields.iter().find(|f| f.name == "ButtonImage").unwrap();
        assert!(!eager_map_reference(ScopeSchema::Block(block), image, RefKind::MappedImage));
    }
}

fn reference_names(ty: &ValueType, tokens: &Vec<SyntaxToken>) -> Vec<String> {
    let mut out = Vec::new();
    reference_tokens(ty, tokens, &mut out);
    out.into_iter().map(|r| r.name).collect()
}

fn field_values(parse: Parse) -> Vec<SyntaxToken> {
    parse.nodes.into_iter().find(|n| n.kind == SyntaxKind::Field).unwrap().values
}

#[test]
fn map_reference_extraction_handles_prefixed_and_trailing_lists() {
    let a = test_analyzer();
    let tokens = field_values(read_ini(
        &a,
        "Object X\n  Test = Faction:LateFaction OCL:LateOCL ExtraA ExtraB\nEnd\n",
    ));
    let by_prefix = token_list(vec![
        prefixed("Faction", reference(RefKind::PlayerTemplate)),
        prefixed("OCL", reference(RefKind::ObjectCreationList)),
    ]);
    assert_eq!(reference_names(&by_prefix, &tokens), ["LateFaction", "LateOCL"]);

    let split =
        field_values(read_ini(&a, "Object X\n  Test = Faction: LateFaction OCL: LateOCL\nEnd\n"));
    assert_eq!(reference_names(&by_prefix, &split), ["LateFaction", "LateOCL"]);

    let trailing = token_list(vec![
        ValueType::AsciiString,
        ValueType::ReferenceList { ref_kind: RefKind::FxList },
    ]);
    assert_eq!(reference_names(&trailing, &tokens), ["OCL:LateOCL", "ExtraA", "ExtraB"]);
}

#[test]
fn map_forward_reference_message_is_actionable_and_suppressible() {
    let a = test_analyzer();
    let body = "CommandSet MapSet\n  1 = LateButton\nEnd\n\nCommandButton LateButton\n  Command = UNIT_BUILD\nEnd\n";
    let parse = read_ini(&a, body);
    let diag = found(&a, &parse, None, Some("maps/map.ini"))
        .into_iter()
        .find(|diag| diag.code == "map-forward-reference")
        .unwrap();
    for expected in [
        "CommandButton LateButton",
        "CommandSet MapSet",
        "slot `1`",
        "`map.ini`",
        "Move `CommandButton LateButton` above `CommandSet MapSet`",
    ] {
        assert!(diag.message.contains(expected), "{}", diag.message);
    }

    let suppressed = read_ini(&a, &format!("; zerosyntax-disable: map-forward-reference\n{body}"));
    assert!(!found(&a, &suppressed, None, Some("maps/map.ini"))
        .iter()
        .any(|diag| diag.code == "map-forward-reference"));

    let reskin = read_ini(&a, "ObjectReskin Child Parent\nEnd\n\nObject Parent\nEnd\n");
    let message = found(&a, &reskin, None, Some("maps/map.ini"))
        .into_iter()
        .find(|diag| diag.code == "map-forward-reference")
        .unwrap()
        .message;
    assert!(message.contains("`ObjectReskin` requires its parent"));
    assert!(message.contains("Move `Object Parent` above `ObjectReskin Child Parent`"));
}

#[test]
fn map_reskin_parent_allows_base_game_definition() {
    let a = test_analyzer();
    let mut index = WorkspaceIndex::new();
    define(&mut index, &a, "Data/INI/Object.ini", "Object Parent\nEnd\n");
    let src = "ObjectReskin Child Parent\nEnd\n\nObject Parent\nEnd\n";
    let map = read_ini(&a, src);
    define(&mut index, &a, "maps/map.ini", src);
    assert!(!found(&a, &map, Some(&index), Some("maps/map.ini"))
        .iter()
        .any(|diag| diag.code == "map-forward-reference"));
}

#[test]
fn duplicate_object_definition_outside_overrides_warns() {
    let a = test_analyzer();
    let mut index = WorkspaceIndex::new();
    let src = "Object Tank\nEnd\n";
    define(&mut index, &a, "a.ini", src);
    let parse = read_ini(&a, src);
    define(&mut index, &a, "b.ini", src);
    let diags = found(&a, &parse, Some(&index), Some("b.ini"));
    assert!(
        diags
            .iter()
            .any(|d| d.code == "duplicate-definition" && d.severity == Severity::Warning),
        "expected duplicate-definition: {diags:?}"
    );
}

#[test]
fn reference_resolution_with_index() {
    let a = test_analyzer();
    let mut index = WorkspaceIndex::new();
    define(&mut index, &a, "a.ini", "Weapon AK47\nEnd\n");
    assert!(index.is_defined(RefKind::Weapon, "AK47"));
}

#[test]
fn model_assets_validate_models_and_members_when_indexed() {
    let a = test_analyzer();
    let mut index = WorkspaceIndex::new();
    index.set_file_models(
        "models/Good.w3d",
        vec![model("Good", &["Tire01", "Cargo01", "Muzzle01"])],
    );
    let src = "\
Object Tank
  Draw = W3DTruckDraw ModuleTag_01
    DefaultConditionState
      Model = MissingModel
      HideSubObject = MissingBone
      WeaponFireFXBone = PRIMARY Muzzle
      WeaponLaunchBone = BAD_SLOT Muzzle
      WeaponRecoilBone = PRIMARY MissingMuzzle
    End
  End
  Behavior = BoneFXUpdate ModuleTag_02
    PristineFXList1 = Bone: SplitMissing OnlyOnce: No 0 0 FXList: None
  End
End
";
    let parse = read_ini(&a, src);
    let diags = found(&a, &parse, Some(&index), Some("test.ini"));
    assert!(diags.iter().any(|d| d.code == "unknown-model"), "{diags:?}");
    assert!(
        !diags.iter().any(|d| d.code == "unknown-model-member"),
        "unknown model should not cascade into member warnings: {diags:?}"
    );

    let src = src.replace("MissingModel", "Good");
    let parse = read_ini(&a, &src);
    let diags = found(&a, &parse, Some(&index), Some("test.ini"));
    assert!(diags.iter().any(|d| d.code == "unknown-model-member"), "{diags:?}");
    assert!(
        diags.iter().any(|d| d.code == "bad-enum" && text_at(&src, d) == "BAD_SLOT"),
        "{diags:?}"
    );
    for missing in ["MissingMuzzle", "SplitMissing"] {
        assert!(
            diags.iter().any(|d| d.code == "unknown-model-member" && text_at(&src, d) == missing),
            "{missing}: {diags:?}"
        );
    }
    assert!(!diags
        .iter()
        .any(|d| d.code == "unknown-model-member" && text_at(&src, d) == "Muzzle"));
}

#[test]
fn condition_state_inherits_model_from_sibling_default_state() {
    let a = test_analyzer();
    let mut index = WorkspaceIndex::new();
    index.set_file_models("models/Good.w3d", vec![model("Good", &["Turret01"])]);
    let src = "\
Object Tank
  Draw = W3DTankDraw ModuleTag_01
    DefaultConditionState
      Model = Good
    End
    ConditionState = DAMAGED
      HideSubObject = Turret01
      ShowSubObject = MissingBone
    End
  End
End
";
    let parse = read_ini(&a, src);
    let diags = found(&a, &parse, Some(&index), Some("test.ini"));
    assert!(
        !diags.iter().any(|d| d.code == "unknown-model-member" && text_at(src, d) == "Turret01"),
        "{diags:?}"
    );
    assert!(
        diags.iter().any(|d| d.code == "unknown-model-member" && text_at(src, d) == "MissingBone"),
        "{diags:?}"
    );
}

#[test]
fn ocl_members_resolve_through_transport_object() {
    let a = test_analyzer();
    let mut index = WorkspaceIndex::new();
    index.set_file_models("models/A10.w3d", vec![model("A10", &["WeaponA01", "Missile01"])]);
    let object = "Object AmericaJetA10Thunderbolt\n  Draw = W3DModelDraw ModuleTag_Draw\n    DefaultConditionState\n      Model = A10\n    End\n  End\nEnd\n";
    let object_parse = read_ini(&a, object);
    index.set_file("objects.ini", definitions_in(&a, &object_parse, "objects.ini"));
    index.set_file_object_models("objects.ini", object_models_in(&a, &object_parse));

    let src = "ObjectCreationList Strike\n  DeliverPayload\n    Transport = AmericaJetA10Thunderbolt\n    VisibleDropBoneBaseName = WeaponA\n    VisibleSubObjectBaseName = Missing\n  End\nEnd\n";
    let parse = read_ini(&a, src);
    let diags = found(&a, &parse, Some(&index), Some("ocl.ini"));
    assert!(
        !diags.iter().any(|d| d.code == "unknown-model-member" && text_at(src, d) == "WeaponA"),
        "{diags:?}"
    );
    assert!(
        diags.iter().any(|d| d.code == "unknown-model-member" && text_at(src, d) == "Missing"),
        "{diags:?}"
    );

    let missing = src.replace("AmericaJetA10Thunderbolt", "MissingTransport");
    let parse = read_ini(&a, &missing);
    let diags = found(&a, &parse, Some(&index), Some("ocl.ini"));
    assert!(diags.iter().any(|d| d.code == "unresolved-reference"), "{diags:?}");
    assert!(!diags.iter().any(|d| d.code == "unknown-model-member"), "{diags:?}");
}

#[test]
fn ocl_object_and_model_lists_validate_every_reference() {
    let a = test_analyzer();
    let mut index = WorkspaceIndex::new();
    define(&mut index, &a, "objects.ini", "Object KnownObject\nEnd\n");
    index.set_file_models("models/Good.w3d", vec![model("Good", &[])]);
    let src = "ObjectCreationList Test\n  CreateObject\n    ObjectNames = KnownObject MissingObject\n  End\n  CreateDebris\n    ModelNames = Good MissingModel\n  End\nEnd\n";
    let parse = read_ini(&a, src);
    let diags = found(&a, &parse, Some(&index), Some("ocl.ini"));
    assert!(diags
        .iter()
        .any(|d| d.code == "unresolved-reference" && text_at(src, d) == "MissingObject"));
    assert!(diags.iter().any(|d| d.code == "unknown-model" && text_at(src, d) == "MissingModel"));
}

#[test]
fn model_member_strictness_supports_off_compatible_and_strict() {
    let a = test_analyzer();
    let mut index = WorkspaceIndex::new();
    index.set_file_models("a.w3d", vec![model("A", &["Bone01"])]);
    index.set_file_models("b.w3d", vec![model("B", &[])]);
    let src = "Object Tank\n  Draw = W3DModelDraw Tag\n    DefaultConditionState\n      Model = A\n      Model = B\n      HideSubObject = Bone\n    End\n  End\nEnd\n";
    let parse = read_ini(&a, src);
    let warns = |index: &WorkspaceIndex| {
        found(&a, &parse, Some(index), None).iter().any(|d| d.code == "unknown-model-member")
    };
    assert!(!warns(&index));
    index.set_model_member_strictness(ModelMemberStrictness::Strict);
    assert!(warns(&index));
    index.set_model_member_strictness(ModelMemberStrictness::Off);
    assert!(!warns(&index));
}

fn asset(kind: AssetKind, name: &str, uri: &str) -> FileAsset {
    FileAsset { kind, name: s(name), uri: s(uri) }
}

#[test]
fn raw_asset_warnings_are_gated_per_kind() {
    let a = test_analyzer();
    let src = "DialogEvent Dialog\n  Filename = Missing.wav\nEnd\nMappedImage Image\n  Texture = Missing.tga\nEnd\n";
    let parse = read_ini(&a, src);
    let mut index = WorkspaceIndex::new();
    let codes = |index: &WorkspaceIndex| {
        found(&a, &parse, Some(index), None).into_iter().map(|d| d.code).collect::<Vec<_>>()
    };
    assert!(!codes(&index).iter().any(|code| code.starts_with("unknown-")));
    index.set_file_assets(
        "audio",
        vec![asset(AssetKind::Audio, "Known.wav", "file:///Known.wav")],
    );
    let audio_only = codes(&index);
    assert!(audio_only.contains(&"unknown-audio-file"));
    assert!(!audio_only.contains(&"unknown-texture"));
    index.set_file_assets(
        "texture",
        vec![asset(AssetKind::Texture, "Known.dds", "file:///Known.dds")],
    );
    assert!(codes(&index).contains(&"unknown-texture"));
}

// ---------------------------------------------------------------------------
// Completion

fn offers(
    a: &Analyzer,
    src: &str,
    offset: usize,
    index: Option<&WorkspaceIndex>,
    file: Option<&str>,
) -> Vec<Completion> {
    let parse = read_ini(a, src);
    complete(a, &parse, offset as u32, index, file)
}

fn names(items: Vec<Completion>) -> Vec<String> {
    items.into_iter().map(|c| c.label).collect()
}

fn labels(src: &str, offset: usize) -> Vec<String> {
    names(offers(&test_analyzer(), src, offset, None, None))
}

fn item(src: &str, offset: usize, label: &str) -> Completion {
    offers(&test_analyzer(), src, offset, None, None)
        .into_iter()
        .find(|c| c.label == label)
        .unwrap_or_else(|| panic!("missing completion `{label}`"))
}

fn item_with_defs(src: &str, offset: usize, defs: &str, label: &str) -> Completion {
    let a = test_analyzer();
    let mut index = WorkspaceIndex::new();
    define(&mut index, &a, "defs.ini", defs);
    offers(&a, src, offset, Some(&index), None)
        .into_iter()
        .find(|c| c.label == label)
        .unwrap_or_else(|| panic!("missing completion `{label}`"))
}

#[test]
fn top_level_suggests_block_keywords() {
    let out = labels("", 0);
    assert!(out.contains(&"Object".to_string()));
    assert!(out.contains(&"Weapon".to_string()));
}

#[test]
fn inside_weapon_suggests_fields() {
    let src = "Weapon AK47\n  \nEnd\n";
    let out = labels(src, "Weapon AK47\n  ".len());
    assert!(out.contains(&"PrimaryDamage".to_string()), "{out:?}");
    assert!(out.contains(&"ClipSize".to_string()));
}

#[test]
fn bool_value_suggests_yes_no() {
    let src = "Weapon AK47\n  ScaleWeaponSpeed = \nEnd\n";
    let out = labels(src, "Weapon AK47\n  ScaleWeaponSpeed = ".len());
    assert!(out.contains(&"Yes".to_string()) && out.contains(&"No".to_string()), "{out:?}");
}

#[test]
fn new_map_object_suggests_default_module_tags() {
    let a = test_analyzer();
    let defaults = read_ini(
        &a,
        "Object DefaultThingTemplate\n  Behavior = DestroyDie ModuleTag_DefaultDestroyDie\n  End\nEnd\n",
    );
    let mut index = WorkspaceIndex::new();
    index.set_file_tags("data/INI/Default/Object.ini", module_tags_in(&a, &defaults));
    let src = "Object NewMapObject\n  RemoveModule \nEnd\n";
    let offset = "Object NewMapObject\n  RemoveModule ".len();
    let out = offers(&a, src, offset, Some(&index), Some("map.ini"));
    assert!(out.iter().any(|item| item.label == "ModuleTag_DefaultDestroyDie"), "{out:?}");
}

#[test]
fn map_object_header_suggests_existing_objects_without_requiring_one() {
    let a = test_analyzer();
    let mut index = WorkspaceIndex::new();
    define(&mut index, &a, "data/INI/Object.ini", "Object AmericaVehicleHumvee\nEnd\n");
    define(&mut index, &a, "maps/other/map.ini", "Object MapOnlyObject\nEnd\n");

    // `NewMapObject` does not exist in the index: an Object header in map.ini
    // may define a new template as well as override one.
    let src = "Object NewMapObject\nEnd\n";
    let offset = "Object New".len();
    let out = offers(&a, src, offset, Some(&index), Some("maps/map.ini"));
    assert!(out.iter().any(|item| item.label == "AmericaVehicleHumvee"), "{out:?}");
    assert!(!out.iter().any(|item| item.label == "MapOnlyObject"), "{out:?}");

    let blank_out =
        offers(&a, "Object \nEnd\n", "Object ".len(), Some(&index), Some("maps/map.ini"));
    assert!(
        blank_out.iter().any(|item| item.label == "AmericaVehicleHumvee"),
        "{blank_out:?}"
    );

    // Typing a new name remains valid.
    let parse = read_ini(&a, src);
    assert!(found(&a, &parse, Some(&index), Some("maps/map.ini"))
        .iter()
        .all(|diagnostic| diagnostic.code != "unresolved-reference"));

    let non_map = offers(&a, src, offset, Some(&index), Some("Object.ini"));
    assert!(!non_map.iter().any(|item| item.label == "AmericaVehicleHumvee"));
}

#[test]
fn remove_module_completion_excludes_later_declarations() {
    let a = test_analyzer();
    let src = "Object Tank\n  RemoveModule \n  Behavior = DestroyDie ModuleTag_Later\n  End\nEnd\n";
    let parse = read_ini(&a, src);
    let mut index = WorkspaceIndex::new();
    index.set_file_tags("map.ini", module_tags_in(&a, &parse));
    let offset = "Object Tank\n  RemoveModule ".len() as u32;
    let out = complete(&a, &parse, offset, Some(&index), Some("map.ini"));
    assert!(!out.iter().any(|item| item.label == "ModuleTag_Later"));
}

#[test]
fn remove_module_completion_documents_the_defining_module() {
    let a = test_analyzer();
    let defs =
        read_ini(&a, "Object Tank\n  Behavior = PhysicsBehavior ModuleTag_Physics\n  End\nEnd\n");
    let mut index = WorkspaceIndex::new();
    index.set_file_tags("base.ini", module_tags_in(&a, &defs));
    let src = "Object Tank\n  RemoveModule \nEnd\n";
    let offset = "Object Tank\n  RemoveModule ".len();
    let item = offers(&a, src, offset, Some(&index), Some("map.ini"))
        .into_iter()
        .find(|item| item.label == "ModuleTag_Physics")
        .expect("module tag completion");
    assert_eq!(
        item.documentation.as_deref(),
        Some("```ini\nBehavior = PhysicsBehavior ModuleTag_Physics\n```")
    );
}

#[test]
fn enum_value_suggests_members() {
    let src = "Weapon AK47\n  DeathType = \nEnd\n";
    let out = labels(src, "Weapon AK47\n  DeathType = ".len());
    assert!(out.contains(&"BURNED".to_string()), "{out:?}");
    assert!(out.contains(&"NORMAL".to_string()));
}

#[test]
fn module_slot_value_suggests_modules() {
    let src = "Object Tank\n  Body = \n  End\nEnd\n";
    let out = labels(src, "Object Tank\n  Body = ".len());
    assert!(out.contains(&"ActiveBody".to_string()), "{out:?}");
}

#[test]
fn module_snippet_uses_next_numeric_tag_in_object() {
    let head = "Object Tank\n  Draw = W3DTankDraw ModuleTag_01\n  End\n  Behavior = SlowDeathBehavior MODULETAG_03\n  End\n  Behavior = ";
    let completion = item(&format!("{head}\nEnd\n"), head.len(), "AutoHealBehavior");
    assert_eq!(
        completion.insert.as_deref(),
        Some("AutoHealBehavior ${1:ModuleTag_04}\n\t$0\nEnd")
    );
}

#[test]
fn module_snippet_ignores_descriptive_tags_and_sub_block_arguments() {
    let head = "Object Tank\n  Draw = W3DTankDraw ModuleTag_Draw\n    ConditionState = DAMAGED REALLYDAMAGED\n    End\n  End\n  Behavior = ";
    let completion = item(&format!("{head}\nEnd\n"), head.len(), "AutoHealBehavior");
    assert_eq!(
        completion.insert.as_deref(),
        Some("AutoHealBehavior ${1:ModuleTag_01}\n\t$0\nEnd")
    );
}

#[test]
fn module_snippet_in_reentrant_scope_uses_object_wide_sequence() {
    let head = "Object Tank\n  AddModule\n    Behavior = SlowDeathBehavior ModuleTag_04\n    End\n    Behavior = ";
    let completion = item(&format!("{head}\n  End\nEnd\n"), head.len(), "AutoHealBehavior");
    assert_eq!(
        completion.insert.as_deref(),
        Some("AutoHealBehavior ${1:ModuleTag_05}\n\t$0\nEnd")
    );
}

#[test]
fn module_snippet_continues_past_u32_tag_values() {
    let head =
        "Object Tank\n  Behavior = SlowDeathBehavior ModuleTag_4294967295\n  End\n  Behavior = ";
    let completion = item(&format!("{head}\nEnd\n"), head.len(), "AutoHealBehavior");
    assert_eq!(
        completion.insert.as_deref(),
        Some("AutoHealBehavior ${1:ModuleTag_4294967296}\n\t$0\nEnd")
    );
}

#[test]
fn model_asset_completions_use_index() {
    let a = test_analyzer();
    let mut index = WorkspaceIndex::new();
    index.set_file_models("models/Good.w3d", vec![model("Good", &["Cargo01", "Tire01"])]);
    let src = "\
Object Tank
  Draw = W3DTruckDraw ModuleTag_01
    DefaultConditionState
      Model = 
      HideSubObject = 
    End
  End
End
";
    let model_offset = src.find("Model = ").unwrap() + "Model = ".len();
    let out = names(offers(&a, src, model_offset, Some(&index), None));
    assert!(out.contains(&"Good".to_string()), "{out:?}");

    let src = src.replace("Model = ", "Model = Good");
    let bone_offset = src.find("HideSubObject = ").unwrap() + "HideSubObject = ".len();
    let out = names(offers(&a, &src, bone_offset, Some(&index), None));
    assert!(out.contains(&"Cargo".to_string()), "{out:?}");
    assert!(out.contains(&"Tire".to_string()), "{out:?}");
}

#[test]
fn model_completions_inside_named_condition_state() {
    let a = test_analyzer();
    let mut index = WorkspaceIndex::new();
    index.set_file_models("models/Good.w3d", vec![model("Good", &["Turret01"])]);
    let src = "\
Object Tank
  Draw = W3DTankDraw ModuleTag_01
    DefaultConditionState
      Model = Good
    End
    ConditionState = DAMAGED
      Model = 
    End
  End
End
";
    let line = "ConditionState = DAMAGED\n      Model = ";
    let offset = src.find(line).unwrap() + line.len();
    let out = names(offers(&a, src, offset, Some(&index), None));
    assert!(out.contains(&"Good".to_string()), "{out:?}");
}

#[test]
fn ocl_member_completions_use_transport_models() {
    let a = test_analyzer();
    let mut index = WorkspaceIndex::new();
    index.set_file_models("a10.w3d", vec![model("A10", &["WeaponA01"])]);
    index.set_file_object_models(
        "objects.ini",
        vec![(s("AmericaJetA10Thunderbolt"), vec![s("A10")])],
    );
    let src = "ObjectCreationList Strike\n  DeliverPayload\n    Transport = AmericaJetA10Thunderbolt\n    VisibleDropBoneBaseName = \n  End\nEnd\n";
    let key = "VisibleDropBoneBaseName = ";
    let offset = src.find(key).unwrap() + key.len();
    let out = names(offers(&a, src, offset, Some(&index), None));
    assert!(out.contains(&"WeaponA".to_string()), "{out:?}");
}

#[test]
fn ocl_model_list_completes_every_position() {
    let a = test_analyzer();
    let mut index = WorkspaceIndex::new();
    index.set_file_models("models/Good.w3d", vec![model("Good", &[])]);
    let src = "ObjectCreationList Debris\n  CreateDebris\n    ModelNames = First \n  End\nEnd\n";
    let offset = src.find("First ").unwrap() + "First ".len();
    let out = names(offers(&a, src, offset, Some(&index), None));
    assert!(out.contains(&"Good".to_string()), "{out:?}");
}

#[test]
fn weapon_bone_completions_use_token_positions() {
    let a = test_analyzer();
    let mut index = WorkspaceIndex::new();
    index.set_file_models("models/Good.w3d", vec![model("Good", &["Muzzle01", "Muzzle02"])]);
    let src = "\
Object Tank
  Draw = W3DTruckDraw ModuleTag_01
    DefaultConditionState
      Model = Good
      WeaponFireFXBone = 
    End
  End
End
";
    let key = "WeaponFireFXBone = ";
    let slot_offset = src.find(key).unwrap() + key.len();
    let out = names(offers(&a, src, slot_offset, Some(&index), None));
    assert!(out.contains(&"PRIMARY".to_string()), "{out:?}");
    assert!(!out.contains(&"Muzzle".to_string()), "{out:?}");

    let src = src.replace(key, "WeaponFireFXBone = PRIMARY ");
    let bone_offset = src.find("PRIMARY ").unwrap() + "PRIMARY ".len();
    let out = names(offers(&a, &src, bone_offset, Some(&index), None));
    assert!(out.contains(&"Muzzle".to_string()), "{out:?}");
    assert_eq!(out.iter().filter(|label| label.as_str() == "Muzzle").count(), 1);
    assert!(!out.contains(&"PRIMARY".to_string()), "{out:?}");
}

#[test]
fn transition_damage_particle_field_inserts_full_snippet() {
    let src = "Object Tank\n  Behavior = TransitionDamageFX ModuleTag_01\n    \n  End\nEnd\n";
    let offset = "Object Tank\n  Behavior = TransitionDamageFX ModuleTag_01\n    ".len();
    let got = item(src, offset, "DamagedParticleSystem1");
    assert_eq!(
        got.insert.as_deref(),
        Some(
            "DamagedParticleSystem1 = Bone:${1:NONE} RandomBone:${2:No} PSys:${3:ParticleSystem}$0"
        )
    );
}

#[test]
fn transition_damage_fx_and_ocl_fields_insert_full_snippets() {
    let src = "Object Tank\n  Behavior = TransitionDamageFX ModuleTag_01\n    \n  End\nEnd\n";
    let offset = "Object Tank\n  Behavior = TransitionDamageFX ModuleTag_01\n    ".len();
    assert_eq!(
        item(src, offset, "DamagedFXList1").insert.as_deref(),
        Some("DamagedFXList1 = Bone:${1:NONE} RandomBone:${2:No} FXList:${3:FxList}$0")
    );
    assert_eq!(
        item(src, offset, "DamagedOCL10").insert.as_deref(),
        Some("DamagedOCL10 = Bone:${1:NONE} RandomBone:${2:No} OCL:${3:ObjectCreationList}$0")
    );
}

#[test]
fn prefixed_particle_reference_suggests_while_typing() {
    let src = "Object Tank\n  Behavior = TransitionDamageFX ModuleTag_01\n    DamagedParticleSystem1 = Bone:NONE RandomBone:No PSys:Str\n  End\nEnd\n";
    let offset = src.find("PSys:Str").unwrap() + "PSys:Str".len();
    let got = item_with_defs(
        src,
        offset,
        "ParticleSystem StructureTransitionMediumSmoke\nEnd\n",
        "StructureTransitionMediumSmoke",
    );
    assert_eq!(got.insert, None);
}

#[test]
fn loc_variant_reference_suggests_while_typing() {
    let src = "Object Tank\n  Behavior = TransitionDamageFX ModuleTag_01\n    ReallyDamagedFXList1 = Loc: X:0 Y:0 Z:0 FXList: FX_\n  End\nEnd\n";
    let offset = src.find("FXList: FX_").unwrap() + "FXList: FX_".len();
    let got = item_with_defs(
        src,
        offset,
        "FXList FX_TankDamageTransition\nEnd\n",
        "FX_TankDamageTransition",
    );
    assert_eq!(got.insert, None);
}

#[test]
fn bone_completions_deduplicate_aliases_and_preserve_prefix_insertion() {
    let analyzer = test_analyzer();
    let mut index = WorkspaceIndex::new();
    index.set_file_models(
        "good.w3d",
        vec![model("Good", &["Good.Fire01", "Fire01", "FIRE01", "Fire02"])],
    );
    for (value, expected_insert) in [
        ("$", Some("Bone:Fire01")),
        ("Bone:$", None),
        ("Bone: $", None),
        ("Bone: F$", None),
        ("Bone:F$", None),
    ] {
        let marked = format!("Object Tank\n Draw = W3DModelDraw Tag\n  DefaultConditionState\n   Model = Good\n  End\n End\n Behavior = TransitionDamageFX Damage\n  DamagedParticleSystem1 = {value} RandomBone:No PSys:Smoke\n End\nEnd\n");
        let offset = marked.find('$').unwrap();
        let src = marked.replace('$', "");
        let out = offers(&analyzer, &src, offset, Some(&index), None);
        let matches = out
            .iter()
            .filter(|item| item.label.eq_ignore_ascii_case("Fire01"))
            .collect::<Vec<_>>();
        assert_eq!(matches.len(), 1, "{value}: {out:?}");
        assert_eq!(matches[0].insert.as_deref(), expected_insert, "{value}");
        assert!(!out.iter().any(|item| item.label.contains("Good.")), "{value}: {out:?}");
    }
}

// ---------------------------------------------------------------------------
// The workspace index

#[test]
fn indexes_named_definitions() {
    let a = test_analyzer();
    let mut idx = WorkspaceIndex::new();
    define(&mut idx, &a, "f.ini", "Weapon AK47\nEnd\nObject Tank\nEnd\n");
    assert!(idx.is_defined(RefKind::Weapon, "AK47"));
    assert!(idx.is_defined(RefKind::Object, "Tank"));
    // The engine resolves names case-insensitively.
    assert!(idx.is_defined(RefKind::Weapon, "ak47"));
    assert!(idx.is_defined(RefKind::Object, "TANK"));
    assert!(!idx.is_defined(RefKind::Weapon, "Nonexistent"));
    // Completion shows the original casing.
    assert!(idx.names(RefKind::Weapon).iter().any(|n| n == "AK47"));
}

#[test]
fn generation_tracks_name_changes_only() {
    let a = test_analyzer();
    let mut idx = WorkspaceIndex::new();
    let g0 = idx.generation();
    define(&mut idx, &a, "f.ini", "Weapon AK47\nEnd\n");
    let g1 = idx.generation();
    assert_ne!(g0, g1, "new definitions bump the generation");

    // Same names at shifted spans: no bump.
    define(&mut idx, &a, "f.ini", "; c\nWeapon AK47\nEnd\n");
    assert_eq!(idx.generation(), g1);

    // Renaming a definition bumps.
    define(&mut idx, &a, "f.ini", "Weapon M16\nEnd\n");
    assert_ne!(idx.generation(), g1);

    // A file with no definitions, set repeatedly: no bumps after removal.
    let g2 = idx.generation();
    idx.set_file("empty.ini", vec![]);
    assert_eq!(idx.generation(), g2);
    idx.remove_file("empty.ini");
    assert_eq!(idx.generation(), g2);
}

fn physics_tag() -> Vec<ModuleTagDefinition> {
    vec![ModuleTagDefinition {
        object: s("tank"),
        name: s("ModuleTag_Physics"),
        span: Span::new(0, 17),
        is_reference: false,
        snippet: String::new(),
    }]
}

#[test]
fn module_tags_invalidate_diagnostics_and_remove_per_file() {
    let mut idx = WorkspaceIndex::new();
    let g0 = idx.generation();
    idx.set_file_tags("base.ini", physics_tag());
    assert_ne!(idx.generation(), g0);

    idx.set_file_tags("patch.ini", physics_tag());
    idx.remove_file("base.ini");
    let tags: Vec<&str> =
        idx.module_tags_for_object("Tank").iter().map(|tag| tag.name.as_str()).collect();
    assert_eq!(tags, vec!["ModuleTag_Physics"]);
    assert_eq!(idx.module_tag_locations("Tank", "ModuleTag_Physics")[0].file, "patch.ini");
    idx.remove_file("patch.ini");
    assert_eq!(idx.module_tags_for_object("Tank").len(), 0);
}

#[test]
fn collects_and_stores_reference_sites() {
    let a = test_analyzer();
    let src = "Object Tank\n  Behavior = StatusBitsUpgrade ModuleTag_01\n    TriggeredBy = Upgrade_A Upgrade_B\n    FXListUpgrade = None\n  End\nEnd\n";
    let parse = read_ini(&a, src);
    let refs = references_in(&a, &parse);
    // Both ReferenceList tokens are sites; `None` is not.
    assert_eq!(refs.len(), 2, "{refs:?}");
    assert!(refs.iter().all(|r| r.kind == RefKind::Upgrade));

    let mut idx = WorkspaceIndex::new();
    let g0 = idx.generation();
    idx.set_file_refs("f.ini", refs);
    assert_eq!(idx.generation(), g0, "sites must not bump the generation");
    assert!(idx.is_referenced(RefKind::Upgrade, "upgrade_a"));
    assert_eq!(idx.reference_sites(RefKind::Upgrade, "Upgrade_B").len(), 1);
    idx.set_file_refs("f.ini", Vec::new());
    assert!(!idx.is_referenced(RefKind::Upgrade, "Upgrade_A"));
}

#[test]
fn object_models_follow_inheritance() {
    let a = test_analyzer();
    let parse = read_ini(&a, "Object Parent\n  Draw = W3DModelDraw Tag\n    DefaultConditionState\n      Model = ParentModel\n    End\n  End\nEnd\nObject Child Parent\nEnd\n");
    let mut idx = WorkspaceIndex::new();
    idx.set_file_object_models("objects.ini", object_models_in(&a, &parse));
    idx.set_file_object_parents("objects.ini", object_parents_in(&parse));
    assert_eq!(idx.models_for_object("child"), vec!["ParentModel"]);
}

#[test]
fn raw_assets_are_case_insensitive_and_track_effective_names() {
    let audio = |name: &str| asset(AssetKind::Audio, name, &format!("file:///{name}"));
    let mut idx = WorkspaceIndex::new();
    idx.set_file_assets("base", vec![audio("Click.WAV")]);
    let first = idx.generation();
    assert!(idx.is_asset(AssetKind::Audio, "click.wav"));

    idx.set_file_assets("mod", vec![audio("CLICK.wav")]);
    assert_eq!(idx.generation(), first, "duplicate contributor changes no effective name");
    idx.remove_file("base");
    assert_eq!(idx.generation(), first, "removing one duplicate preserves the name");
    idx.set_file_assets("mod", vec![audio("Other.wav")]);
    assert_ne!(idx.generation(), first);
    assert!(!idx.is_asset(AssetKind::Audio, "Click.wav"));
    assert!(idx.is_asset(AssetKind::Audio, "OTHER.WAV"));
}

#[test]
fn effective_model_and_texture_use_last_contributor() {
    let texture = |name: &str, uri: &str| asset(AssetKind::Texture, name, uri);
    let mut idx = WorkspaceIndex::new();
    idx.set_file_models("base.w3d", vec![model("Tank", &[])]);
    idx.set_file_models("mod.w3d", vec![model("TANK", &[])]);
    idx.set_file_assets("base.big", vec![texture("Tank.dds", "big:///base.big!/Tank.dds")]);
    idx.set_file_assets("workspace", vec![texture("tank.tga", "file:///workspace/tank.tga")]);
    assert_eq!(idx.effective_model_source("tank").as_deref(), Some("mod.w3d"));
    assert_eq!(
        idx.effective_texture_source("TANK.DDS").map(|asset| asset.uri.as_str()),
        Some("file:///workspace/tank.tga")
    );
}

#[test]
fn split_prefixed_reference_site_span_excludes_prefix() {
    let a = test_analyzer();
    let src = "Object Tank\n  Behavior = TransitionDamageFX ModuleTag_01\n    DamagedParticleSystem1 = Bone: NONE RandomBone: No PSys: MissingParticle\n  End\nEnd\n";
    let refs = references_in(&a, &read_ini(&a, src));
    let reference = refs.iter().find(|reference| reference.name == "MissingParticle").unwrap();
    assert_eq!(reference.kind, RefKind::ParticleSystem);
    assert_eq!(
        &src[reference.span.start as usize..reference.span.end as usize],
        "MissingParticle"
    );
}

#[test]
fn workspace_symbols_match_by_substring() {
    let a = test_analyzer();
    let mut idx = WorkspaceIndex::new();
    define(&mut idx, &a, "f.ini", "Weapon AK47\nEnd\nObject Tank\nEnd\n");
    let hits = idx.symbols("ak");
    assert_eq!(hits.len(), 1);
    assert_eq!(hits[0].name, "AK47", "display casing is preserved");
    assert_eq!(idx.symbols("").len(), 2, "empty query matches all");
}

#[test]
fn updating_a_file_replaces_its_symbols() {
    let a = test_analyzer();
    let mut idx = WorkspaceIndex::new();
    define(&mut idx, &a, "f.ini", "Weapon Old\nEnd\n");
    define(&mut idx, &a, "f.ini", "Weapon New\nEnd\n");
    assert!(!idx.is_defined(RefKind::Weapon, "Old"));
    assert!(idx.is_defined(RefKind::Weapon, "New"));
}

#[test]
fn model_asset_member_changes_bump_generation() {
    let mut idx = WorkspaceIndex::new();
    idx.set_file_models("model.w3d", vec![model("Tank", &["Tire01"])]);
    let g1 = idx.generation();
    idx.set_file_models("model.w3d", vec![model("Tank", &["Tire01"])]);
    assert_eq!(idx.generation(), g1);

    idx.set_file_models("model.w3d", vec![model("Tank", &["Tire02"])]);
    assert_ne!(idx.generation(), g1);
}

#[test]
fn prepared_model_insert_supports_lookup_override_and_removal() {
    let mut idx = WorkspaceIndex::new();
    idx.insert_file_models_prepared("base.w3d", vec![model("Tank", &["Tire01"])]);
    idx.insert_file_models_prepared("patch.w3d", vec![model("TANK", &["Cargo01"])]);

    assert!(idx.is_model_asset("tank"));
    assert_eq!(idx.effective_model_source("Tank").as_deref(), Some("patch.w3d"));
    assert_eq!(idx.model_members("tank"), vec!["Tire01", "Cargo01"]);

    idx.remove_file("patch.w3d");
    assert_eq!(idx.effective_model_source("tank").as_deref(), Some("base.w3d"));
    assert_eq!(idx.model_members("tank"), vec!["Tire01"]);
}

#[test]
fn removing_one_file_keeps_other_files_models_of_same_name() {
    let mut idx = WorkspaceIndex::new();
    idx.set_file_models("base.w3d", vec![model("Tank", &["Tire01"])]);
    idx.set_file_models("patch.w3d", vec![model("TANK", &["Cargo01"])]);
    let members = idx.model_members("tank");
    assert!(members.contains(&s("Tire01")) && members.contains(&s("Cargo01")));

    idx.remove_file("patch.w3d");
    assert!(idx.is_model_asset("Tank"));
    assert_eq!(idx.model_members("Tank"), vec!["Tire01"]);

    // Indexing the remaining file again must not lose it either.
    idx.set_file_models("base.w3d", vec![model("Tank", &["Tire01"])]);
    assert!(idx.is_model_asset("Tank"));
}

// ---------------------------------------------------------------------------
// Highlighting

fn toks(src: &str) -> Vec<(SemKind, String)> {
    let a = test_analyzer();
    let parse = read_ini(&a, src);
    semantic_tokens(&a, &parse)
        .into_iter()
        .map(|t| (t.kind, s(&src[t.span.start as usize..t.span.end as usize])))
        .collect()
}

#[test]
fn animations_are_references_with_numeric_arguments() {
    let src = "Object Soldier\n Draw = W3DModelDraw Tag\n  DefaultConditionState\n   Model = SoldierSkin\n   Animation = HumanSKL.Run 16\n   IdleAnimation = \"HumanSKL.Idle\" 0 9\n  End\n  ConditionState = MOVING\n   Animation = HumanSKL.Walk\n  End\n  TransitionState = TRANS_A TRANS_B\n   Animation = HumanSKL.Stop\n  End\n End\n DisplayName = PlainString\nEnd\n";
    let tokens = toks(src);
    for name in ["HumanSKL.Run", "\"HumanSKL.Idle\"", "HumanSKL.Walk", "HumanSKL.Stop"] {
        assert!(
            tokens.contains(&(SemKind::Reference, s(name))),
            "expected animation reference for {name}: {tokens:?}"
        );
    }
    for number in ["16", "0", "9"] {
        assert!(
            tokens.contains(&(SemKind::Number, s(number))),
            "expected numeric animation argument {number}"
        );
    }
    assert!(tokens.contains(&(SemKind::StringLit, s("PlainString"))));
    let analyzer = test_analyzer();
    let parse = read_ini(&analyzer, src);
    let offset = src.find("HumanSKL.Walk").unwrap() as u32;
    assert_eq!(
        semantic_tokens_range(&analyzer, &parse, Span::new(offset, offset + 1)),
        semantic_tokens(&analyzer, &parse)
    );
}

#[test]
fn classifies_weapon_tokens() {
    let src = "Weapon AK47\n  PrimaryDamage = 50.0\n  DeathType = BURNED\nEnd ; done\n";
    let t = toks(src);
    let has = |k: SemKind, text: &str| t.iter().any(|(kk, ss)| *kk == k && ss == text);
    assert!(has(SemKind::Keyword, "Weapon"));
    assert!(has(SemKind::BlockName, "AK47"));
    assert!(has(SemKind::Field, "PrimaryDamage"));
    assert!(has(SemKind::Operator, "="));
    assert!(has(SemKind::Number, "50.0"));
    assert!(has(SemKind::EnumMember, "BURNED"));
    assert!(has(SemKind::Keyword, "End"));
    assert!(t.iter().any(|(k, _)| *k == SemKind::Comment));
}

#[test]
fn classifies_module_type_name() {
    let src = "Object Tank\n  Body = ActiveBody Tag01\n    MaxHealth = 100\n  End\nEnd\n";
    let t = toks(src);
    assert!(t.iter().any(|(k, text)| *k == SemKind::Module && text == "ActiveBody"));
    assert!(t.iter().any(|(k, text)| *k == SemKind::Number && text == "100"));
}

#[test]
fn classifies_particle_keyframe_values_as_numbers() {
    let src = "ParticleSystem Test\n  Alpha1 = 0 1 2\n  Color1 = R:0 G:1 B:2 3\nEnd\n";
    let t = toks(src);
    for value in ["0", "1", "2", "R:0", "G:1", "B:2", "3"] {
        assert!(
            t.iter().any(|(kind, text)| *kind == SemKind::Number && text == value),
            "{value} was not classified as a number"
        );
    }
}

#[test]
fn classifies_coordinate_axes_as_numbers() {
    let src = "Object Test\n  Behavior = DefaultProductionExitUpdate ModuleTag_07\n    NaturalRallyPoint = X:0.0 Y:-60.0 Z:0.0\n  End\nEnd\n";
    let t = toks(src);
    for axis in ["X:0.0", "Y:-60.0", "Z:0.0"] {
        assert!(
            t.iter().any(|(kind, text)| *kind == SemKind::Number && text == axis),
            "{axis} was not classified as a number"
        );
    }
}

#[test]
fn remove_module_is_keyword_and_tag_is_reference() {
    let src = "Object Tank\n  Behavior = DestroyDie ModuleTag_01\n  End\n  RemoveModule ModuleTag_01\nEnd\n";
    let t = toks(src);
    assert!(t.iter().any(|(kind, text)| *kind == SemKind::Keyword && text == "RemoveModule"));
    assert_eq!(
        t.iter()
            .filter(|(kind, text)| *kind == SemKind::Reference && text == "ModuleTag_01")
            .count(),
        2
    );
}

#[test]
fn range_tokens_cover_exactly_the_intersecting_blocks() {
    let a = test_analyzer();
    let src = "Weapon A\nEnd\nWeapon B\n  ClipSize = 1\nEnd\nWeapon C\nEnd\n";
    let parse = read_ini(&a, src);
    let all = semantic_tokens(&a, &parse);

    // A span inside block B only: tokens must hold B's and none of C's.
    let b_start = src.find("Weapon B").unwrap() as u32;
    let ranged = semantic_tokens_range(&a, &parse, Span::new(b_start + 2, b_start + 3));
    assert!(ranged.iter().all(|t| all.contains(t)), "subset of full");
    let text = |t: &SemToken| &src[t.span.start as usize..t.span.end as usize];
    assert!(ranged.iter().any(|t| text(t) == "B"));
    assert!(ranged.iter().any(|t| text(t) == "ClipSize"));
    assert!(!ranged.iter().any(|t| text(t) == "A"));
    assert!(!ranged.iter().any(|t| text(t) == "C"));

    // The range of the whole document equals the full pass.
    assert_eq!(semantic_tokens_range(&a, &parse, Span::new(0, src.len() as u32)), all);
}

#[test]
fn tokens_are_sorted_and_non_overlapping() {
    let a = test_analyzer();
    let src = "Weapon AK47\n  PrimaryDamage = 50.0\nEnd\n";
    let toks = semantic_tokens(&a, &read_ini(&a, src));
    for w in toks.windows(2) {
        assert!(w[0].span.end <= w[1].span.start, "overlap: {:?}", w);
    }
}

// ---------------------------------------------------------------------------
// Scanned files, open documents and navigation

fn chunk(kind: u32, payload: Vec<u8>) -> Vec<u8> {
    [kind.to_le_bytes().to_vec(), (payload.len() as u32).to_le_bytes().to_vec(), payload].concat()
}

#[test]
fn scans_ini_w3d_audio_and_texture_from_big_archive() {
    let a = test_analyzer();
    let text = "Object BigArchiveObject\nEnd\n";
    let input = |name: &str, content: ArchiveContent| ArchiveInput {
        name: s(name),
        content,
    };
    let inputs = vec![
        input(
            "Data/INI/Test.ini",
            ArchiveContent::Ini { bytes: text.as_bytes().to_vec() },
        ),
        input("Art/Good.w3d", ArchiveContent::Model { bytes: vec![] }),
        input("Audio/Click.WAV", ArchiveContent::Unread),
        input("Textures/Particle.DDS", ArchiveContent::Unread),
    ];
    let scanned = scan_big(&a, "/tmp/zerosyntax test #.big", inputs).unwrap();

    assert_eq!(scanned.len(), 3, "INI, W3D, and one aggregated asset entry");
    let ini = scanned.iter().find(|entry| !entry.definitions.is_empty()).unwrap();
    assert!(tower_lsp::lsp_types::Url::parse(&ini.file).is_ok());
    assert_eq!(ini.file, "big:///tmp/zerosyntax%20test%20%23.big!/Data/INI/Test.ini");
    assert!(ini.definitions.iter().any(|d| d.name == "BigArchiveObject"));
    assert_eq!(ini.text.as_deref(), Some("Object BigArchiveObject\nEnd\n"));
    assert!(scanned.iter().any(|entry| entry.models.iter().any(|model| model.name == "Good")));
    let gathered = scanned.iter().find(|entry| !entry.assets.is_empty()).unwrap();
    assert!(gathered.file.ends_with("!/__assets__"));
    let assets = &gathered.assets;
    assert_eq!(assets.len(), 2);
    assert!(assets.iter().any(|asset| asset.name == "Click.WAV"));
    assert!(assets.iter().any(|asset| asset.name == "Particle.DDS"));
}

#[test]
fn files_are_decoded_and_read() {
    let a = test_analyzer();
    let entry = file_entry(&a, b"; \xe9\nObject Tank\nEnd\n", "file:///a.ini");
    assert_eq!(entry.definitions.len(), 1);
    assert_eq!((entry.file.as_str(), entry.definitions[0].name.as_str()), ("file:///a.ini", "Tank"));
    assert_eq!(entry.definitions[0].span, Span::new(13, 17));
    assert!(entry.text.is_none());
    let (text, parse) = read_file(&a, b"Object Tank\nEnd\n");
    assert_eq!(text, "Object Tank\nEnd\n");
    assert_eq!(parse.nodes[0].span, Span::new(0, 16));
}

#[test]
fn loose_directory_scan_indexes_audio_and_texture_assets() {
    let files = ["/data/Click.wav", "/data/Particle.tga", "/data/readme.txt"];
    let assets: Vec<FileAsset> = files
        .iter()
        .filter_map(|path| asset_entry(path, &format!("file://{path}")))
        .flat_map(|entry| entry.assets)
        .collect();
    assert_eq!(assets.len(), 2);
    assert!(assets.iter().any(|asset| asset.name == "Click.wav"));
    assert!(assets.iter().any(|asset| asset.name == "Particle.tga"));
    assert!(assets.iter().all(|asset| asset.uri.starts_with("file:")));
}

#[test]
fn w3d_scan_completes_animations_for_condition_model() {
    fn header(name: &str, hierarchy: &str) -> Vec<u8> {
        let mut bytes = vec![0; 44];
        bytes[4..4 + name.len()].copy_from_slice(name.as_bytes());
        bytes[20..20 + hierarchy.len()].copy_from_slice(hierarchy.as_bytes());
        bytes
    }
    let mut hlod = vec![0; 40];
    hlod[8..15].copy_from_slice(b"Soldier");
    hlod[24..32].copy_from_slice(b"HumanSKL");
    let files = [
        ("Soldier", chunk(0x700, chunk(0x701, hlod))),
        ("Run", chunk(0x200, chunk(0x201, header("Run", "HumanSKL")))),
        ("Idle", chunk(0x280, chunk(0x281, header("Idle", "HumanSKL")))),
        ("Other", chunk(0x200, chunk(0x201, header("Fly", "PlaneSKL")))),
    ];
    let mut idx = WorkspaceIndex::new();
    for (stem, bytes) in files {
        let uri = format!("file:///{stem}.w3d");
        if let Some(entry) = w3d_entry(&uri, &bytes, stem) {
            apply_entry(&mut idx, entry);
        }
    }
    let a = test_analyzer();
    let src = "Object Soldier\n Draw = W3DModelDraw Tag\n  ConditionState = NONE\n   Model = Soldier\n   Animation = \n  End\n End\nEnd\n";
    let offset = src.find("Animation = ").unwrap() + "Animation = ".len();
    let mut labels = names(offers(&a, src, offset, Some(&idx), None));
    labels.sort();
    assert_eq!(labels, ["HumanSKL.Idle", "HumanSKL.Run"]);
}

#[test]
fn w3d_root_scan_powers_model_and_bone_completions() {
    let mut pivots = Vec::new();
    pivots.extend_from_slice(b"Tire01");
    pivots.resize(60, 0);
    let bytes = chunk(0x0000_0102, pivots);
    let mut idx = WorkspaceIndex::new();
    apply_entries(
        &mut idx,
        vec![w3d_entry("file:///Good.w3d", &bytes, "Good").expect("a model")],
    );
    assert!(idx.is_model_asset("Good"), "model name from file stem");

    let a = test_analyzer();
    let src = "\
Object Tank
  Draw = W3DTankDraw ModuleTag_01
    DefaultConditionState
      Model = 
      HideSubObject = 
    End
  End
End
";
    let model_offset = src.find("Model = ").unwrap() + "Model = ".len();
    assert!(names(offers(&a, src, model_offset, Some(&idx), None)).contains(&s("Good")));

    let src = src.replace("Model = ", "Model = Good");
    let bone_offset = src.find("HideSubObject = ").unwrap() + "HideSubObject = ".len();
    let labels = names(offers(&a, &src, bone_offset, Some(&idx), None));
    assert!(labels.contains(&s("Tire")), "{labels:?}");
}

#[test]
fn a_rescan_keeps_open_documents_and_drops_the_rest() {
    let a = test_analyzer();
    let scanned = |file: &str, src: &str, is_base: bool| Scanned {
        is_base,
        entry: ini_entry(&a, &read_ini(&a, src), file, Some(s(src))),
    };
    let list = vec![
        scanned("base.ini", "Weapon Base\nEnd\n", true),
        scanned("open.ini", "Weapon OnDisk\nEnd\n", false),
    ];
    let totals = scan_totals(&list);
    assert_eq!((totals.base_ini, totals.ini, totals.models), (1, 2, 0));
    assert_eq!(virtual_files(&list).len(), 2);

    let edited = read_ini(&a, "Weapon Edited\nEnd\n");
    let keys = vec![s("OBJECT:Tank")];
    let open = vec![OpenDocument { file: "open.ini", parse: &edited, string_keys: &keys }];
    let index = rebuilt_index(&a, ModelMemberStrictness::Strict, list, &open);
    assert!(index.is_defined(RefKind::Weapon, "Base"));
    assert!(index.is_defined(RefKind::Weapon, "Edited"));
    assert!(!index.is_defined(RefKind::Weapon, "OnDisk"));
    assert_eq!(index.string_keys_for_ini("open.ini"), keys);
    assert_eq!(index.model_member_strictness(), ModelMemberStrictness::Strict);
}

#[test]
fn places_of_a_symbol_are_sorted_and_complete() {
    let a = test_analyzer();
    let mut index = WorkspaceIndex::new();
    let used = "Object T\n  WeaponSet\n    Weapon = PRIMARY Gun\n    Weapon = SECONDARY Gun\n  End\nEnd\n";
    index_document(&mut index, &a, &read_ini(&a, used), "b.ini");
    index_document(&mut index, &a, &read_ini(&a, "Weapon Gun\nEnd\n"), "a.ini");
    let symbol = SymbolAt::Reference { kind: RefKind::Weapon, name: "gun", span: Span::new(0, 3) };
    let found = places(&index, symbol, "b.ini", true);
    let files: Vec<&str> = found.iter().map(|l| l.file.as_str()).collect();
    assert_eq!(files, vec!["a.ini", "b.ini", "b.ini"]);
    assert!(found[1].span.start < found[2].span.start);
    assert_eq!(places(&index, symbol, "b.ini", false).len(), 2);
    let declared = declarations(&index, symbol, "b.ini");
    assert_eq!(declared.len(), 1);
    assert_eq!(declared[0].file, "a.ini");
    assert_eq!(workspace_symbols(&index, "GU").len(), 1);
}

#[test]
fn overridden_definitions_can_be_copied() {
    let a = test_analyzer();
    let base = "; base\nWeapon Tank\nEnd\nObject Tank\n  DisplayName = é\nEnd\n";
    let map = "Object Tank\nEnd";
    let base_parse = read_ini(&a, base);
    let map_parse = read_ini(&a, map);
    let mut index = WorkspaceIndex::new();
    index_document(&mut index, &a, &base_parse, "file:///data/Object.ini");
    index_document(&mut index, &a, &map_parse, "file:///maps/map.ini");
    let diags = found(&a, &map_parse, Some(&index), Some("file:///maps/map.ini"));
    let all = Span::new(0, map.len() as u32);
    let targets = origin_targets(&a, &map_parse, &diags, all, &index);
    assert_eq!(targets.len(), 1);
    assert_eq!(targets[0].file, "file:///data/Object.ini");
    assert_eq!(targets[0].short, "Object.ini");
    assert!(origin_targets(&a, &map_parse, &diags, Span::new(90, 91), &index).is_empty());

    let kind = targets[0].kind;
    assert_eq!(kind, RefKind::Object);
    let copy = |kind, name| origin_copy_fix(&a, kind, map, name, "Object.ini", base);
    let fix = copy(kind, "Tank").unwrap();
    assert_eq!(fix.title, "Insert reference copy of `Tank` from Object.ini");
    assert_eq!(fix.span, Span::new(15, 15));
    assert_eq!(
        fix.new_text,
        "\n\n; === Reference copy of Tank from Object.ini ===\n; Remove the fields and modules you don't need.\nObject Tank\n  DisplayName = é\nEnd\n\n"
    );
    assert!(copy(RefKind::Weapon, "Tank").unwrap().new_text.contains("\nWeapon Tank\nEnd\n"));
    assert!(copy(kind, "Jet").is_none());
}

#[test]
fn copied_blocks_are_those_of_the_kind() {
    let a = test_analyzer();
    let base = "Weapon Tank\nEnd\nObject Tank\nEnd\n";
    let map = "Object Tank\nEnd\n";
    let fix = origin_copy_fix(&a, RefKind::Object, map, "Tank", "b.ini", base).unwrap();
    assert_eq!(fix.span, Span::new(16, 16));
    assert!(fix.new_text.contains("Object Tank\nEnd\n"));
    assert!(!fix.new_text.contains("Weapon Tank"));
}

#[test]
fn short_names_are_last_path_segments() {
    assert_eq!(short_name_of("file:///data/INI/Object.ini").as_deref(), Some("Object.ini"));
    assert_eq!(short_name_of("file:///data/INI/").as_deref(), Some(""));
    assert_eq!(short_name_of("file:///a%20b.ini?x#y/z").as_deref(), Some("a%20b.ini"));
    assert_eq!(short_name_of("mailto:a/b").as_deref(), Some("base"));
    assert_eq!(short_name_of("no URL"), None);
    assert_eq!(segment_of("/a/b"), "b");
    assert_eq!(segment_of("a/b"), "base");
    assert_eq!(segment_of(""), "base");
}

fn kinds_in(parse: &Parse, node: usize) -> Vec<Option<TokenKind>> {
    let kind = |e: &Element| match e {
        Element::Node(_) => None,
        Element::Token(t) => Some(t.kind),
    };
    parse.nodes[node].elements.iter().map(kind).collect()
}

#[test]
fn scopes_reach_past_the_line_break_after_end() {
    let a = test_analyzer();
    let src = "Weapon A ; first\n  ClipSize = 3 ; clip\nEnd ; done\n; out\n";
    let parse = read_ini(&a, src);
    assert_eq!(parse.nodes.len(), 3);
    let at = |text: &str| src.find(text).unwrap() as u32;
    assert_eq!(parse.nodes[0].span, Span::new(0, src.len() as u32));
    assert_eq!(parse.nodes[1].span, Span::new(0, at("; out")));
    assert_eq!(parse.nodes[2].span, Span::new(at("ClipSize"), at("End") - 1));
    use_kinds(&parse);
    assert!(parse.errors.is_empty());
}

fn use_kinds(parse: &Parse) {
    let (word, blank) = (Some(TokenKind::Word), Some(TokenKind::Whitespace));
    let (comment, line) = (Some(TokenKind::Comment), Some(TokenKind::Newline));
    let equals = Some(TokenKind::Equals);
    assert_eq!(kinds_in(parse, 0), vec![None, comment, line]);
    assert_eq!(
        kinds_in(parse, 1),
        vec![word, blank, word, blank, comment, line, blank, None, line, word, blank, comment, line]
    );
    assert_eq!(kinds_in(parse, 2), vec![word, blank, equals, blank, word, blank, comment]);
}

#[test]
fn unclosed_scopes_are_reported_at_their_word() {
    let a = test_analyzer();
    let src = "End\nObject A\n  Body = B ModuleTag_01\n";
    let parse = read_ini(&a, src);
    let told: Vec<(u32, u32, &str)> =
        parse.errors.iter().map(|e| (e.start, e.end, e.message.as_str())).collect();
    let at = |text: &str| src.find(text).unwrap() as u32;
    let (body, object) = (at("Body"), at("Object"));
    assert_eq!(
        told,
        vec![
            (0, 3, "`End` outside any block"),
            (body, body + 4, "missing `End`"),
            (object, object + 6, "missing `End`"),
        ]
    );
    assert!(parse.nodes[1..].iter().all(|n| n.span.end == src.len() as u32));
    let empty = read_ini(&a, "");
    assert_eq!((empty.nodes.len(), empty.nodes[0].span), (1, Span::new(0, 0)));
}

#[test]
fn range_of_the_text_gives_every_token() {
    let a = test_analyzer();
    let src = "; note\nWeapon A\n  ClipSize = 3\nEnd ; done\nWeapon B\nEnd\n";
    let parse = read_ini(&a, src);
    let full = semantic_tokens(&a, &parse);
    assert_eq!(semantic_tokens_range(&a, &parse, parse.nodes[0].span), full);
    assert!(full.windows(2).all(|pair| pair[0].span.end <= pair[1].span.start));
}

#[test]
fn pragmas_count_outside_blocks_only() {
    let a = test_analyzer();
    let codes = |src: &str| -> Vec<&'static str> {
        found(&a, &read_ini(&a, src), None, None).iter().map(|d| d.code).collect()
    };
    let body = "Weapon A\n  Nope = 1\nEnd";
    assert_eq!(codes(body), vec!["unknown-field"]);
    assert!(codes(&format!("{body}\n; zerosyntax-disable: unknown-field\n")).is_empty());
    assert!(codes(&format!("\n  ; zerosyntax-disable unknown-field\n{body}")).is_empty());
    assert_eq!(codes(&format!("{body} ; zerosyntax-disable: unknown-field")), vec!["unknown-field"]);
    let inside = "Weapon A\n  ; zerosyntax-disable: unknown-field\n  Nope = 1\nEnd\n";
    assert_eq!(codes(inside), vec!["unknown-field"]);
}

#[test]
fn documents_are_reported_with_counts() {
    let a = test_analyzer();
    let src = "Weapon A\n  ClipSize = lots\n  Nope = 1\nEnd\n";
    let parse = read_ini(&a, src);
    let rope = ropey::Rope::from_str(src);
    let mut cache = DiagnosticsCache::new();
    let ctx = Ctx { analyzer: &a, parse: &parse, index: None, file: None };
    let report = document_report(ctx, &mut cache, true, &rope, PositionEnc::Utf16);
    assert_eq!((report.errors, report.warnings, report.hints), (1, 1, 0));
    assert_eq!(report.items.len(), 2);
    assert!(report.items.iter().all(|item| item.source == "zerosyntax"));
    assert_eq!(cache.stats(), (0, 1));
    document_report(ctx, &mut cache, true, &rope, PositionEnc::Utf16);
    assert_eq!(cache.stats(), (1, 1));
}

#[test]
fn checked_documents_are_ordered() {
    let a = test_analyzer();
    let index = WorkspaceIndex::new();
    let src = "Weapon A\n  ClipSize = lots\n  ClipSize = more\nEnd\n";
    let doc = |display| TargetDocument { display, file: display, text: src };
    let out = check_documents(&a, &index, vec![doc("b.ini"), doc("a.ini")]);
    let places: Vec<(&str, usize)> =
        out.iter().map(|d| (d.file.as_str(), d.range.start.line)).collect();
    assert_eq!(places, vec![("a.ini", 2), ("a.ini", 3), ("b.ini", 2), ("b.ini", 3)]);
}
