use atelier::hashing::calc_import_artifact_hash;
use atelier::ids::{AssetTypeId, AssetUuid};
use atelier::importer::{RonImporter, RonImporterOptions, RonImporterState};
use atelier::metadata::CompressionType;
use atelier::serialized_asset::create;

#[test]
fn import_assigns_an_identity_once() {
    let importer = RonImporter::default();
    let mut state = RonImporterState::default();
    assert!(state.id.is_none());
    let value = importer.import(&mut state, b"(x: 30)".to_vec());
    let first_id = state.id.expect("identity assigned on first import");
    assert_eq!(value.assets.len(), 1);
    assert_eq!(value.assets[0].id, first_id);
    assert_eq!(value.assets[0].asset_data, b"(x: 30)".to_vec());
    assert!(value.assets[0].search_tags.is_empty());
    assert!(value.assets[0].build_deps.is_empty());
    assert!(value.assets[0].load_deps.is_empty());
    // the random identity carries the version and variant bits
    assert_eq!(first_id.0[6] & 0xf0, 0x40);
    assert_eq!(first_id.0[8] & 0xc0, 0x80);
    // a re-import keeps the identity
    let value2 = importer.import(&mut state, b"(x: 31)".to_vec());
    assert_eq!(state.id.unwrap(), first_id);
    assert_eq!(value2.assets[0].id, first_id);
}

#[test]
fn import_respects_a_preset_identity() {
    let importer = RonImporter::default();
    let preset = AssetUuid([7u8; 16]);
    let mut state = RonImporterState { id: Some(preset) };
    let value = importer.import(&mut state, Vec::new());
    assert_eq!(state.id.unwrap(), preset);
    assert_eq!(value.assets[0].id, preset);
}

#[test]
fn importer_version() {
    assert_eq!(RonImporter::version_static(), 1);
    assert_eq!(RonImporter::default().version(), 1);
    let _opts = RonImporterOptions::default();
}

#[test]
fn serialized_asset_records_sizes() {
    let id = AssetUuid([1u8; 16]);
    let deps = vec![AssetUuid([2u8; 16])];
    let hash = calc_import_artifact_hash(&id, 42, &deps);
    let asset = create(
        hash,
        id,
        Vec::new(),
        Vec::new(),
        AssetTypeId([3u8; 16]),
        CompressionType::Uncompressed,
        b"payload".to_vec(),
    );
    assert_eq!(asset.metadata.id.0, hash);
    assert_eq!(asset.metadata.asset_id, id);
    assert_eq!(asset.metadata.uncompressed_size, Some(7));
    assert_eq!(asset.metadata.compressed_size, Some(7));
    assert_eq!(asset.metadata.type_id, AssetTypeId([3u8; 16]));
    assert_eq!(asset.data, b"payload".to_vec());
    assert!(matches!(
        asset.metadata.compression,
        CompressionType::Uncompressed
    ));
}

#[test]
fn ron_importer_simple_test() {
    let importer = RonImporter::default();
    let a = "{
               \"36fb2083-7195-4583-8af9-0965f10ae60d\":
                (
                   x: 30,
                )
             }"
    .as_bytes()
    .to_vec();
    let mut state = RonImporterState { id: None };
    let value = importer.import(&mut state, a.clone());
    assert_eq!(value.assets.len(), 1);
    let asset = &value.assets[0];
    assert_eq!(asset.id, state.id.expect("identity assigned"));
    // the serialized value is carried through unchanged; reading the
    // typed field back out is the work of a pluggable deserializer
    assert_eq!(asset.asset_data, a);
    let text = String::from_utf8(asset.asset_data.clone()).unwrap();
    assert!(text.contains("x: 30"));
}

#[test]
fn ron_importer_complex_test() {
    let importer = RonImporter::default();
    let b = "{
               \"d4b83227-d3f8-47f5-b026-db615fb41d31\":
                (
                    s: \"Ferris\",
                    a: (
                        x: 30
                       ),
                    m: {
                        \"lorem\": \"ipsum\",
                        \"dolor\": \"sim\",
                    }
                )
             }"
    .as_bytes()
    .to_vec();
    let mut state = RonImporterState { id: None };
    let value = importer.import(&mut state, b.clone());
    assert_eq!(value.assets.len(), 1);
    let asset = &value.assets[0];
    assert_eq!(asset.asset_data, b);
    let text = String::from_utf8(asset.asset_data.clone()).unwrap();
    assert!(text.contains("\"Ferris\""));
    assert!(text.contains("x: 30"));
    assert!(text.contains("\"lorem\": \"ipsum\""));
    assert!(text.contains("\"dolor\": \"sim\""));
    assert_eq!(value.assets[0].id, state.id.expect("identity assigned"));
}

#[test]
fn lz4_assets_round_trip_through_the_frame() {
    let id = AssetUuid([5u8; 16]);
    let payload = vec![7u8; 4096];
    let asset = create(
        1,
        id,
        Vec::new(),
        Vec::new(),
        AssetTypeId([3u8; 16]),
        CompressionType::Lz4,
        payload.clone(),
    );
    assert!(matches!(asset.metadata.compression, CompressionType::Lz4));
    assert_eq!(asset.metadata.uncompressed_size, Some(4096));
    assert_eq!(asset.metadata.compressed_size, Some(asset.data.len() as u64));
    // a repetitive payload really compresses, and the frame restores it
    assert!(asset.data.len() < payload.len());
    let restored = lz4_flex::decompress_size_prepended(&asset.data).unwrap();
    assert_eq!(restored, payload);
}
