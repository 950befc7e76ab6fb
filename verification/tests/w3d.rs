//! The W3D catalog reader.

use zerosyntax::scan::parse_w3d_assets;
use zerosyntax::w3d::{AnimationCatalogEntry, W3dFile};

fn chunk(kind: u32, payload: Vec<u8>) -> Vec<u8> {
    let mut out = kind.to_le_bytes().to_vec();
    out.extend_from_slice(&(payload.len() as u32).to_le_bytes());
    out.extend(payload);
    out
}

fn fixed<const N: usize>(name: &str) -> [u8; N] {
    let mut out = [0; N];
    let bytes = name.as_bytes();
    out[..bytes.len().min(N)].copy_from_slice(&bytes[..bytes.len().min(N)]);
    out
}

fn parse(bytes: &[u8]) -> W3dFile {
    match W3dFile::parse(bytes) {
        Ok(file) => file,
        Err(error) => panic!("{}", error.message),
    }
}

#[test]
fn animation_headers_keep_qualified_names_and_stay_out_of_models() {
    for kind in [0x200, 0x280, 0x2c0] {
        let mut header = vec![0; if kind == 0x2c0 { 48 } else { 44 }];
        header[4..7].copy_from_slice(b"Run");
        header[20..28].copy_from_slice(b"HumanSKL");
        let file = parse(&chunk(kind, chunk(kind + 1, header)));
        assert!(file.catalog("Run").is_empty());
        assert_eq!(
            file.animations(),
            &[AnimationCatalogEntry {
                name: "HumanSKL.Run".into(),
                hierarchy: "HumanSKL".into(),
            }]
        );
        assert!(W3dFile::parse(&chunk(kind, chunk(kind + 1, vec![0; 35]))).is_err());
    }
}

fn hlod(name: &str, hierarchy: &str) -> Vec<u8> {
    let mut header = vec![0; 40];
    header[8..8 + name.len()].copy_from_slice(name.as_bytes());
    header[24..24 + hierarchy.len()].copy_from_slice(hierarchy.as_bytes());
    chunk(0x700, chunk(0x701, header))
}

#[test]
fn catalog_associates_each_hlod_with_its_own_skeleton() {
    let bytes = [hlod("Soldier", "HumanSKL"), hlod("Plane", "PlaneSKL")].concat();
    let file = parse(&bytes);
    let catalog = file.catalog("Bundle");
    let hierarchy = |name: &str| {
        catalog.iter().find(|m| m.name == name).unwrap().hierarchy.as_deref()
    };
    assert_eq!(hierarchy("Soldier"), Some("HumanSKL"));
    assert_eq!(hierarchy("Plane"), Some("PlaneSKL"));
    assert_eq!(hierarchy("Bundle"), None);
}

#[test]
fn parses_catalog_and_rejects_truncation() {
    let mut header = vec![0; 116];
    header[8..12].copy_from_slice(b"Body");
    header[24..28].copy_from_slice(b"Tank");
    let mesh = chunk(0, chunk(0x1f, header));
    let file = parse(&mesh);
    assert!(file.catalog("Fallback").iter().any(|model| model.name == "Tank"));

    let mut truncated = mesh;
    truncated.pop();
    assert!(W3dFile::parse(&truncated).is_err());
}

#[test]
fn unknown_chunks_in_front_change_nothing() {
    let mut header = vec![0; 44];
    header[4..7].copy_from_slice(b"Run");
    header[20..28].copy_from_slice(b"HumanSKL");
    let bytes =
        [hlod("Soldier", "HumanSKL"), chunk(0x200, chunk(0x201, header))].concat();
    let plain = parse(&bytes);
    let later = parse(&[chunk(0x900, vec![1, 2, 3]), bytes].concat());
    assert_eq!(later.catalog("Bundle"), plain.catalog("Bundle"));
    assert_eq!(later.animations(), plain.animations());
    assert!(!plain.catalog("Bundle").is_empty() && !plain.animations().is_empty());
}

#[test]
fn parses_w3d_model_names_and_members() {
    let mut hlod = Vec::new();
    hlod.extend_from_slice(&1u32.to_le_bytes());
    hlod.extend_from_slice(&1u32.to_le_bytes());
    hlod.extend_from_slice(&fixed::<16>("Good"));
    hlod.extend_from_slice(&fixed::<16>("Good"));

    let mut pivot = Vec::new();
    pivot.extend_from_slice(&fixed::<16>("Tire01"));
    pivot.resize(60, 0);

    let mut sub = Vec::new();
    sub.extend_from_slice(&0u32.to_le_bytes());
    sub.extend_from_slice(&fixed::<32>("Good.Cargo01"));

    let mut bytes = Vec::new();
    bytes.extend(chunk(0x0000_0701, hlod));
    bytes.extend(chunk(0x0000_0102, pivot));
    bytes.extend(chunk(0x0000_0704, sub));

    let models = parse_w3d_assets(&bytes, "Fallback").0;
    let good = models.iter().find(|m| m.name == "Good").unwrap();
    assert!(good.members.iter().any(|m| m == "Tire01"), "{good:?}");
    assert!(good.members.iter().any(|m| m == "Cargo01"), "{good:?}");
}

#[test]
fn malformed_w3d_keeps_filename_fallback_model() {
    let mut truncated = 0u32.to_le_bytes().to_vec();
    truncated.extend_from_slice(&16u32.to_le_bytes());

    let models = parse_w3d_assets(&truncated, "Fallback").0;
    assert_eq!(models.len(), 1);
    assert_eq!(models[0].name, "Fallback");
    assert!(models[0].members.is_empty());
}

#[test]
fn parses_w3d_aggregate_and_emitter_names() {
    // Version + Name[16] header, wrapped in its container chunk.
    let mut header = Vec::new();
    header.extend_from_slice(&1u32.to_le_bytes());
    header.extend_from_slice(&fixed::<16>("Aggro"));
    let mut bytes = chunk(0x0000_0600, chunk(0x0000_0601, header));

    let mut header = Vec::new();
    header.extend_from_slice(&1u32.to_le_bytes());
    header.extend_from_slice(&fixed::<16>("Smoke"));
    bytes.extend(chunk(0x0000_0500, chunk(0x0000_0501, header)));

    let models = parse_w3d_assets(&bytes, "").0;
    assert!(models.iter().any(|m| m.name == "Aggro"), "{models:?}");
    assert!(models.iter().any(|m| m.name == "Smoke"), "{models:?}");
}

#[test]
fn w3d_chunk_walker_survives_hostile_deep_nesting() {
    // A container in itself at every level: each header claims the rest of
    // the file as its payload.
    let total: usize = 64 * 1024;
    let mut bytes = Vec::with_capacity(total);
    let mut remaining = total;
    while remaining >= 8 {
        bytes.extend_from_slice(&0x0000_0700u32.to_le_bytes());
        bytes.extend_from_slice(&((remaining - 8) as u32).to_le_bytes());
        remaining -= 8;
    }
    let _ = parse_w3d_assets(&bytes, "Fallback");
}

#[test]
fn names_that_are_no_utf8_are_read_with_replacement() {
    let mut header = vec![0; 40];
    header[8..12].copy_from_slice(b"A\xFFB\0");
    let file = parse(&chunk(0x700, chunk(0x701, header)));
    assert!(file.catalog("X").iter().any(|m| m.name == "A\u{FFFD}B"));
}
