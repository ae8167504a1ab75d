use atelier::hashing::{calc_import_artifact_hash, fnv1a_hash, push_u64_le};
use atelier::ids::AssetUuid;
use atelier::utils::{make_array, starts_with, to_meta_path};

fn uuid(seed: u8) -> AssetUuid {
    let mut b = [0u8; 16];
    for i in 0..16 {
        b[i] = seed.wrapping_add(i as u8);
    }
    AssetUuid(b)
}

#[test]
fn fnv_matches_published_values() {
    // the FNV-1a 64-bit offset basis is the hash of the empty string
    assert_eq!(fnv1a_hash(&Vec::new()), 0xcbf29ce484222325);
    assert_eq!(fnv1a_hash(&b"a".to_vec()), 0xaf63dc4c8601ec8c);
    assert_eq!(fnv1a_hash(&b"foobar".to_vec()), 0x85944171f73967e8);
}

#[test]
fn artifact_hash_ignores_order_and_duplicates() {
    let id = uuid(1);
    let d1 = uuid(50);
    let d2 = uuid(90);
    let d3 = uuid(130);
    let base = calc_import_artifact_hash(&id, 77, &vec![d1, d2, d3]);
    assert_eq!(
        base,
        calc_import_artifact_hash(&id, 77, &vec![d3, d1, d2])
    );
    assert_eq!(
        base,
        calc_import_artifact_hash(&id, 77, &vec![d2, d2, d3, d1, d1, d3])
    );
}

#[test]
fn artifact_hash_is_stable_across_calls() {
    let id = uuid(7);
    let deps = vec![uuid(20), uuid(21)];
    let h1 = calc_import_artifact_hash(&id, 1234, &deps);
    let h2 = calc_import_artifact_hash(&id, 1234, &deps);
    assert_eq!(h1, h2);
}

#[test]
fn empty_dependency_list_is_allowed() {
    let id = uuid(9);
    let h = calc_import_artifact_hash(&id, 0, &Vec::new());
    assert_eq!(h, calc_import_artifact_hash(&id, 0, &Vec::new()));
}

#[test]
fn u64_little_endian_bytes() {
    let mut out: Vec<u8> = Vec::new();
    push_u64_le(&mut out, 0x0102030405060708);
    assert_eq!(out, vec![8, 7, 6, 5, 4, 3, 2, 1]);
}

#[test]
fn make_array_copies_sixteen_bytes() {
    let v: Vec<u8> = (1..=16).collect();
    let a = make_array(&v);
    assert_eq!(a.to_vec(), v);
}

#[test]
fn meta_path_appends_suffix() {
    let p = b"/assets/scene.ron".to_vec();
    assert_eq!(to_meta_path(&p), b"/assets/scene.ron.meta".to_vec());
}

#[test]
fn prefix_test() {
    let p = b"/assets/scene.ron".to_vec();
    assert!(starts_with(&p, &b"/assets/".to_vec()));
    assert!(!starts_with(&p, &b"/other/".to_vec()));
    assert!(!starts_with(&b"/a".to_vec(), &p));
}
