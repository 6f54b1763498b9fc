use engine_agate::utils::{add_cf_prefix, get_cf_and_key};

#[test]
fn simple_add_cf_prefix() {
    let key = "key".as_bytes();
    let key_default = "default@!@key".as_bytes();
    let key_cf = "cf@!@key".as_bytes();

    assert_eq!(add_cf_prefix(key, None).as_slice(), key_default);
    assert_eq!(add_cf_prefix(key, Some("cf".to_string())).as_slice(), key_cf);
}

#[test]
fn simple_get_cf_and_key() {
    let key = "key".as_bytes();

    let key_with_default_cf = add_cf_prefix(key, None);
    assert_eq!(
        get_cf_and_key(&key_with_default_cf),
        ("default".to_string(), key.to_vec())
    );

    let cf = "cf".to_string();

    let key_with_cf = add_cf_prefix(key, Some(cf.clone()));
    assert_eq!(get_cf_and_key(&key_with_cf), (cf, key.to_vec()));
}

#[test]
fn round_trip_empty_key() {
    let encoded = add_cf_prefix(b"", Some("write".to_string()));
    assert_eq!(
        get_cf_and_key(&encoded),
        ("write".to_string(), Vec::new())
    );
}

#[test]
fn round_trip_key_with_delimiter_bytes() {
    let encoded = add_cf_prefix(b"a@!@b", Some("lock".to_string()));
    assert_eq!(
        get_cf_and_key(&encoded),
        ("lock".to_string(), b"a@!@b".to_vec())
    );
}

#[test]
fn encoding_preserves_key_order() {
    let a = add_cf_prefix(b"a1", Some("cf".to_string()));
    let b = add_cf_prefix(b"a2", Some("cf".to_string()));
    let c = add_cf_prefix(b"b", Some("cf".to_string()));
    assert!(a < b);
    assert!(b < c);
}

#[test]
fn encoding_separates_families() {
    let a = add_cf_prefix(b"x", Some("cfa".to_string()));
    let b = add_cf_prefix(b"x", Some("cfb".to_string()));
    assert_ne!(a, b);
}

#[test]
fn bare_family_name_decodes_to_empty_key() {
    // a physical key without the delimiter reads as a bare family name
    assert_eq!(
        get_cf_and_key(b"loneword"),
        ("loneword".to_string(), Vec::new())
    );
}
