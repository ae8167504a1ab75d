use atelier::ids::{AssetTypeId, AssetUuid};

const BYTES: [u8; 16] = [1, 2, 3, 4, 5, 6, 7, 8, 9, 10, 11, 12, 13, 14, 15, 16];

#[test]
fn serialize_asset_uuid_string() {
    let uuid = AssetUuid(BYTES);
    let result = uuid.to_json_string();
    assert_eq!(
        "\"01020304-0506-0708-090a-0b0c0d0e0f10\"".to_string(),
        result
    );
}

#[test]
fn serialize_asset_uuid_binary() {
    let uuid = AssetUuid(BYTES);
    let result: Vec<u8> = uuid.encode_binary();
    assert_eq!(BYTES.to_vec(), result);
}

#[test]
fn deserialize_asset_uuid_string() {
    let string = "\"01020304-0506-0708-090a-0b0c0d0e0f10\"";
    let result: AssetUuid = AssetUuid::from_json_slice(string.as_bytes()).unwrap();
    let expected = AssetUuid(BYTES);
    assert_eq!(expected, result);
}

#[test]
fn deserialize_asset_uuid_binary() {
    assert_eq!(AssetUuid(BYTES), AssetUuid::decode_binary(&BYTES).unwrap());
}

const ASSET_TYPE_BYTES: [u8; 16] = [3, 1, 4, 1, 5, 9, 2, 6, 5, 3, 5, 8, 9, 7, 9, 3];

#[test]
fn serialize_type_uuid_string() {
    let uuid = AssetTypeId(ASSET_TYPE_BYTES);
    let result = uuid.to_json_string();
    assert_eq!(
        "\"03010401-0509-0206-0503-050809070903\"".to_string(),
        result
    );
}

#[test]
fn serialize_type_uuid_binary() {
    let uuid = AssetTypeId(ASSET_TYPE_BYTES);
    let result: Vec<u8> = uuid.encode_binary();
    assert_eq!(ASSET_TYPE_BYTES.to_vec(), result);
}

#[test]
fn deserialize_type_uuid_string() {
    let string = "\"03010401-0509-0206-0503-050809070903\"";
    let result: AssetTypeId = AssetTypeId::from_json_slice(string.as_bytes()).unwrap();
    let expected = AssetTypeId(ASSET_TYPE_BYTES);
    assert_eq!(expected, result);
}

#[test]
fn deserialize_type_uuid_binary() {
    let data = [3, 1, 4, 1, 5, 9, 2, 6, 5, 3, 5, 8, 9, 7, 9, 3];
    let result: AssetTypeId = AssetTypeId::decode_binary(&data).unwrap();
    assert_eq!(AssetTypeId(ASSET_TYPE_BYTES), result);
}

#[test]
fn text_round_trip() {
    let uuid = AssetUuid(BYTES);
    let text = uuid.encode_text();
    assert_eq!(text, b"01020304-0506-0708-090a-0b0c0d0e0f10".to_vec());
    assert_eq!(AssetUuid::decode_text(&text).unwrap(), uuid);
    assert_eq!(uuid.to_text_string(), "01020304-0506-0708-090a-0b0c0d0e0f10");
}

#[test]
fn decode_text_rejects_bad_shapes() {
    // wrong length
    assert!(AssetUuid::decode_text(b"0102").is_none());
    // a separator out of place
    assert!(AssetUuid::decode_text(b"010203040506-0708-090a-0b0c0d0e0f10".as_slice()).is_none());
    // an upper-case digit is not canonical
    assert!(AssetUuid::decode_text(b"01020304-0506-0708-090A-0b0c0d0e0f10".as_slice()).is_none());
    // a non-hex character
    assert!(AssetUuid::decode_text(b"01020304-0506-0708-090a-0b0c0d0e0fzz".as_slice()).is_none());
    // binary form of the wrong length
    assert!(AssetUuid::decode_binary(&[1, 2, 3]).is_none());
}

#[test]
fn json_rejects_unquoted() {
    assert!(AssetUuid::from_json_slice(b"01020304-0506-0708-090a-0b0c0d0e0f10".as_slice())
        .is_none());
    assert!(AssetUuid::from_json_slice(b"\"01020304-0506-0708-090a-0b0c0d0e0f10".as_slice())
        .is_none());
}

#[test]
fn uuid_from_slice_checks_length() {
    let v: Vec<u8> = BYTES.to_vec();
    assert_eq!(atelier::ids::uuid_from_slice(&v).unwrap(), AssetUuid(BYTES));
    assert!(atelier::ids::uuid_from_slice(&v[0..15]).is_none());
    assert_eq!(
        atelier::ids::type_from_slice(&v).unwrap(),
        AssetTypeId(BYTES)
    );
}
