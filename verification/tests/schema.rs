//! Value shapes: which schema position a raw token belongs to.

use zerosyntax::schema::{
    default_true, BlockType, Field, ModuleType, RefKind, Schema, ValueMember, ValueSet, ValueType,
};

fn reference(ref_kind: RefKind) -> ValueType {
    ValueType::Reference { ref_kind }
}

fn token_list(tokens: Vec<ValueType>) -> ValueType {
    ValueType::TokenList { tokens }
}

fn prefixed(prefix: &str, value_type: ValueType) -> ValueType {
    ValueType::Prefixed { prefix: prefix.to_string(), value_type: Box::new(value_type) }
}

#[test]
fn split_prefixes_keep_raw_tokens_on_their_schema_positions() {
    let ty = token_list(vec![
        prefixed("Loc", ValueType::AsciiString),
        prefixed("Y", ValueType::Real),
        prefixed("Z", ValueType::Real),
        prefixed("FXList", reference(RefKind::FxList)),
    ]);
    let input = ["Loc:", "X:0", "Y:", "0", "Z:", "0", "FXList:", "Effect"];

    assert_eq!(
        (0..input.len())
            .map(|index| ty.token_index_at_input(&input, index).unwrap())
            .collect::<Vec<_>>(),
        [0, 0, 1, 1, 2, 2, 3, 3]
    );
    assert!(matches!(
        ty.token_type_at_input(&input, 7),
        Some(ValueType::Reference { ref_kind: RefKind::FxList })
    ));
}

#[test]
fn structured_particle_values_type_every_raw_token() {
    for (ty, input) in [
        (ValueType::RandomKeyframe, vec!["0", "1", "2"]),
        (ValueType::ColorKeyframe, vec!["R:0", "G:0", "B:0", "2"]),
    ] {
        assert!((0..input.len()).all(|index| ty.token_type_at_input(&input, index).is_some()));
    }
}

fn small_schema() -> Schema {
    Schema {
        format_version: 1,
        engine_revision: "test".to_string(),
        blocks: vec![BlockType {
            name: "Weapon".to_string(),
            parse_fn: "parseWeaponTemplateDefinition".to_string(),
            named: default_true(),
            terminated: default_true(),
            defines: Some(RefKind::Weapon),
            fields: vec![Field {
                name: "PrimaryDamage".to_string(),
                value_type: ValueType::Real,
                parse_fn: "parseReal".to_string(),
                doc: None,
                model_source: None,
                model_member_mode: None,
            }],
            module_slots: vec![],
            sub_blocks: vec![],
            doc: None,
        }],
        modules: vec![ModuleType {
            name: "ActiveBody".to_string(),
            interfaces: vec![],
            fields: vec![],
            sub_blocks: vec![],
            doc: None,
        }],
        value_sets: vec![ValueSet {
            id: "slot".to_string(),
            members: vec![ValueMember { name: "PRIMARY".to_string(), value: 0 }],
        }],
        builtins: vec![],
    }
}

#[test]
fn the_index_finds_entries_by_exact_name() {
    let schema = small_schema();
    let index = schema.index();
    assert_eq!(index.block("Weapon").unwrap().fields[0].value_type, ValueType::Real);
    assert!(index.block("weapon").is_none());
    assert!(index.module("ActiveBody").is_some());
    assert!(index.module("Nothing").is_none());
    assert_eq!(index.value_set("slot").unwrap().members[0].name, "PRIMARY");
    assert!(index.value_set("other").is_none());
}

#[test]
fn a_value_of_several_shapes_follows_its_first_token() {
    let ty = ValueType::OneOf {
        variants: vec![
            token_list(vec![prefixed("Bone", ValueType::W3dModelMember)]),
            token_list(vec![prefixed("Loc", ValueType::AsciiString), prefixed("Y", ValueType::Real)]),
        ],
    };
    assert_eq!(ty.first_prefix(), None);
    assert_eq!(
        ty.variant_for_first_token(Some("Loc:X:0")).and_then(|v| v.first_prefix()),
        Some("Loc")
    );
    assert_eq!(
        ty.variant_for_first_token(Some("Other:1")).and_then(|v| v.first_prefix()),
        Some("Bone")
    );
    assert_eq!(
        prefixed("PSys", ValueType::Int).split_prefix_value_type("PSys:"),
        Some(&ValueType::Int)
    );
    assert_eq!(prefixed("PSys", ValueType::Int).split_prefix_value_type("PSys:x"), None);
}

#[test]
fn every_typed_position_has_a_schema_position() {
    let ty = token_list(vec![ValueType::Int, ValueType::BitFlags { value_set: "slot".to_string() }]);
    let input = ["1", "A", "B", "C"];
    for index in 0..input.len() {
        assert!(ty.token_type_at_input(&input, index).is_some());
        assert!(ty.token_index_at_input(&input, index).is_some());
    }
    assert_eq!(ty.token_type_at(0), Some(&ValueType::Int));
}
