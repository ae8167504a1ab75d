use atelier::error::Error;
use atelier::ids::{AssetTypeId, AssetUuid};
use atelier::metadata::{ArtifactId, ArtifactMetadata, AssetMetadata, AssetRef, CompressionType};
use atelier::packfile::{PackEntry, PackfileReader};

fn uuid(seed: u8) -> AssetUuid {
    let mut b = [0u8; 16];
    for i in 0..16 {
        b[i] = seed.wrapping_add(i as u8);
    }
    AssetUuid(b)
}

fn artifact(asset: AssetUuid, load_deps: Vec<AssetRef>, data_len: u64) -> ArtifactMetadata {
    ArtifactMetadata {
        id: ArtifactId(asset.0[0] as u64),
        asset_id: asset,
        build_deps: Vec::new(),
        load_deps,
        compression: CompressionType::Uncompressed,
        uncompressed_size: Some(data_len),
        compressed_size: Some(data_len),
        type_id: AssetTypeId([9u8; 16]),
    }
}

fn entry(path: &[u8], asset: AssetUuid, load_deps: Vec<AssetRef>, data: Vec<u8>) -> PackEntry {
    PackEntry {
        path: path.to_vec(),
        asset_metadata: AssetMetadata {
            id: asset,
            artifact: None,
        },
        artifact_metadata: artifact(asset, load_deps, data.len() as u64),
        data,
    }
}

fn chain_pack() -> PackfileReader {
    let a = uuid(1);
    let b = uuid(2);
    let c = uuid(3);
    let entries = vec![
        entry(b"a.ron", a, vec![AssetRef::Uuid(b)], vec![0xaa]),
        entry(b"b.ron", b, vec![AssetRef::Uuid(c)], vec![0xbb]),
        entry(b"c.ron", c, Vec::new(), vec![0xcc]),
    ];
    PackfileReader::new(entries).unwrap()
}

fn ids_of(metas: &[ArtifactMetadata]) -> Vec<AssetUuid> {
    metas.iter().map(|m| m.asset_id).collect()
}

#[test]
fn dependency_closure_walks_the_chain() {
    let pack = chain_pack();
    let result = pack.get_asset_metadata_with_dependencies(&vec![uuid(1)]);
    let ids = ids_of(&result);
    assert_eq!(ids.len(), 3);
    for expected in [uuid(1), uuid(2), uuid(3)] {
        assert!(ids.contains(&expected));
    }
    // no duplicates
    for i in 0..ids.len() {
        for j in (i + 1)..ids.len() {
            assert!(ids[i] != ids[j]);
        }
    }
}

#[test]
fn closure_from_the_middle_is_partial() {
    let pack = chain_pack();
    let result = pack.get_asset_metadata_with_dependencies(&vec![uuid(2)]);
    let ids = ids_of(&result);
    assert_eq!(ids.len(), 2);
    assert!(ids.contains(&uuid(2)));
    assert!(ids.contains(&uuid(3)));
}

#[test]
fn duplicate_requests_yield_one_record() {
    let pack = chain_pack();
    let result = pack.get_asset_metadata_with_dependencies(&vec![uuid(3), uuid(3)]);
    assert_eq!(result.len(), 1);
    assert_eq!(result[0].asset_id, uuid(3));
}

#[test]
fn unknown_identities_are_silently_omitted() {
    let pack = chain_pack();
    let result = pack.get_asset_metadata_with_dependencies(&vec![uuid(200)]);
    assert_eq!(result.len(), 0);
}

#[test]
fn dangling_dependencies_are_omitted() {
    // a depends on a uuid the pack does not hold
    let a = uuid(1);
    let entries = vec![entry(
        b"a.ron",
        a,
        vec![AssetRef::Uuid(uuid(99))],
        vec![1, 2],
    )];
    let pack = PackfileReader::new(entries).unwrap();
    let result = pack.get_asset_metadata_with_dependencies(&vec![a]);
    assert_eq!(result.len(), 1);
    assert_eq!(result[0].asset_id, a);
}

#[test]
fn path_references_do_not_recurse() {
    let a = uuid(1);
    let entries = vec![
        entry(b"a.ron", a, vec![AssetRef::Path(b"b.ron".to_vec())], vec![]),
        entry(b"b.ron", uuid(2), Vec::new(), vec![]),
    ];
    let pack = PackfileReader::new(entries).unwrap();
    let result = pack.get_asset_metadata_with_dependencies(&vec![a]);
    assert_eq!(result.len(), 1);
}

#[test]
fn artifacts_come_back_by_identity() {
    let pack = chain_pack();
    assert_eq!(pack.get_artifact(&uuid(2)).unwrap(), vec![0xbb]);
    let missing = pack.get_artifact(&uuid(77));
    assert!(matches!(missing, Err(Error::NotFound)));
}

#[test]
fn candidates_by_path() {
    let a = uuid(1);
    let b = uuid(2);
    let entries = vec![
        entry(b"shared.ron", a, Vec::new(), vec![]),
        entry(b"shared.ron", b, Vec::new(), vec![]),
        entry(b"other.ron", uuid(3), Vec::new(), vec![]),
    ];
    let pack = PackfileReader::new(entries).unwrap();
    let (path, metas) = pack.get_asset_candidates(&b"shared.ron".to_vec()).unwrap();
    assert_eq!(path, b"shared.ron".to_vec());
    assert_eq!(metas.len(), 2);
    assert_eq!(metas[0].id, a);
    assert_eq!(metas[1].id, b);
    let missing = pack.get_asset_candidates(&b"absent.ron".to_vec());
    assert!(matches!(missing, Err(Error::NotFound)));
}

#[test]
fn candidate_paths_are_normalized() {
    let a = uuid(1);
    let entries = vec![entry(b"dir\\file.ron", a, Vec::new(), vec![])];
    let pack = PackfileReader::new(entries).unwrap();
    let (path, metas) = pack
        .get_asset_candidates(&b"dir\\file.ron".to_vec())
        .unwrap();
    assert_eq!(path, b"dir/file.ron".to_vec());
    assert_eq!(metas.len(), 1);
    // the lookup itself is on normalized separators, in both directions
    let (path, metas) = pack.get_asset_candidates(&b"dir/file.ron".to_vec()).unwrap();
    assert_eq!(path, b"dir/file.ron".to_vec());
    assert_eq!(metas.len(), 1);
    let b = uuid(2);
    let slashed = PackfileReader::new(vec![entry(b"a/b.ron", b, Vec::new(), vec![])]).unwrap();
    let (path, metas) = slashed.get_asset_candidates(&b"a\\b.ron".to_vec()).unwrap();
    assert_eq!(path, b"a/b.ron".to_vec());
    assert_eq!(metas.len(), 1);
}

#[test]
fn mismatched_entries_are_corruption() {
    let mut e = entry(b"a.ron", uuid(1), Vec::new(), vec![]);
    e.asset_metadata.id = uuid(2);
    let r = PackfileReader::new(vec![e]);
    assert!(matches!(r, Err(Error::Encoding(_))));
}

#[test]
fn later_entries_shadow_earlier_ones() {
    let a = uuid(1);
    let entries = vec![
        entry(b"old.ron", a, Vec::new(), vec![1]),
        entry(b"new.ron", a, Vec::new(), vec![2]),
    ];
    let pack = PackfileReader::new(entries).unwrap();
    assert_eq!(pack.get_artifact(&a).unwrap(), vec![2]);
    assert_eq!(pack.len(), 2);
}

#[test]
fn pack_header_round_trip() {
    let header = atelier::packfile::write_pack_header(1, 16);
    assert_eq!(header.len(), 16);
    assert_eq!(&header[0..4], b"ATLR");
    let parsed = atelier::packfile::parse_pack_header(&header).unwrap();
    assert_eq!(parsed.version, 1);
    assert_eq!(parsed.entries_offset, 16);
}

#[test]
fn pack_header_rejects_corruption() {
    let good = atelier::packfile::write_pack_header(1, 16);
    let mut bad_magic = good.clone();
    bad_magic[0] = 0x42;
    assert!(atelier::packfile::parse_pack_header(&bad_magic).is_err());
    // truncated header
    assert!(atelier::packfile::parse_pack_header(&good[0..8]).is_err());
    // entries offset beyond the end of the file
    let beyond = atelier::packfile::write_pack_header(1, 17);
    assert!(atelier::packfile::parse_pack_header(&beyond).is_err());
}

#[test]
fn packfile_bytes_round_trip() {
    let a = uuid(1);
    let b = uuid(2);
    let entries = vec![
        entry(b"a.ron", a, vec![AssetRef::Uuid(b)], vec![0xaa, 0x01]),
        entry(
            b"b.ron",
            b,
            vec![AssetRef::Path(b"c.ron".to_vec())],
            Vec::new(),
        ),
    ];
    let bytes = PackfileReader::write_packfile_bytes(&entries);
    assert_eq!(&bytes[0..4], b"ATLR");
    let pack = PackfileReader::open(&bytes).unwrap();
    assert_eq!(pack.len(), 2);
    assert_eq!(pack.get_artifact(&a).unwrap(), vec![0xaa, 0x01]);
    assert_eq!(pack.get_artifact(&b).unwrap(), Vec::<u8>::new());
    let (path, metas) = pack.get_asset_candidates(&b"b.ron".to_vec()).unwrap();
    assert_eq!(path, b"b.ron".to_vec());
    assert_eq!(metas[0].id, b);
    // the artifact record survives intact
    let result = pack.get_asset_metadata_with_dependencies(&vec![a]);
    assert_eq!(result.len(), 2);
}

#[test]
fn packfile_bytes_round_trip_with_full_records() {
    let a = uuid(9);
    let mut e = entry(b"full.ron", a, Vec::new(), vec![1, 2, 3]);
    e.asset_metadata.artifact = Some(e.artifact_metadata.clone());
    e.artifact_metadata.build_deps = vec![AssetRef::Uuid(uuid(4))];
    let bytes = PackfileReader::write_packfile_bytes(&vec![e]);
    let pack = PackfileReader::open(&bytes).unwrap();
    assert_eq!(pack.len(), 1);
    let result = pack.get_asset_metadata_with_dependencies(&vec![a]);
    assert_eq!(result.len(), 1);
    assert_eq!(result[0].build_deps.len(), 1);
    assert_eq!(result[0].uncompressed_size, Some(3));
}

#[test]
fn packfile_bytes_reject_corruption() {
    let entries = vec![entry(b"a.ron", uuid(1), Vec::new(), vec![7])];
    let good = PackfileReader::write_packfile_bytes(&entries);
    // bad magic
    let mut bad = good.clone();
    bad[0] = 0;
    assert!(PackfileReader::open(&bad).is_err());
    // truncated table
    assert!(PackfileReader::open(&good[0..good.len() - 1]).is_err());
    // trailing garbage
    let mut long = good.clone();
    long.push(9);
    assert!(PackfileReader::open(&long).is_err());
    // unsupported version
    let mut vers = good.clone();
    vers[4] = 2;
    assert!(PackfileReader::open(&vers).is_err());
    // a record whose asset and artifact identities disagree
    let mut mismatched = entry(b"a.ron", uuid(1), Vec::new(), vec![7]);
    mismatched.asset_metadata.id = uuid(2);
    let bytes = PackfileReader::write_packfile_bytes(&vec![mismatched]);
    assert!(PackfileReader::open(&bytes).is_err());
}
