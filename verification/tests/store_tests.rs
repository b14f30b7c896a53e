use rand::RngExt;
use save_file::SaveError;
use save_file::SaveFile;
use save_file::Value;
use save_file::store::resolve_save_dir;

#[test]
fn test_save_file() {
    let mut save_file = SaveFile::new("ABC-Save-File-Testing".to_string());

    let key = "player health".to_string();
    let value: i64 = 100;

    save_file.add_component(key.clone(), &Value::Int(value)).unwrap();

    let deserialized: i64 = save_file.get_component(&key).unwrap().as_int().unwrap();

    assert_eq!(value, deserialized);
}

#[test]
fn test_save_file_struct() {
    let mut save_file = SaveFile::new("ABC-Save-File-Testing".to_string());

    let key = "player".to_string();
    let value = Value::Obj(vec![
        (b"health".to_vec(), Value::Int(100)),
        (b"mana".to_vec(), Value::Int(50)),
    ]);

    save_file.add_component(key.clone(), &value).unwrap();

    let deserialized = save_file.get_component(&key).unwrap();
    let health: i64 = deserialized.obj_field(&b"health".to_vec()).unwrap().as_int().unwrap();
    let mana: i64 = deserialized.obj_field(&b"mana".to_vec()).unwrap().as_int().unwrap();

    assert_eq!(100, health);
    assert_eq!(50, mana);
}

#[test]
#[should_panic]
fn test_save_file_mismatched_types() {
    let mut save_file = SaveFile::new("ABC-Save-File-Testing".to_string());

    let bool_key = "boolean value".to_string();
    let bool_value = true;

    save_file.add_component(bool_key.clone(), &Value::Bool(bool_value)).unwrap();

    let int_key = "integer value".to_string();
    let int_value: i64 = 100;

    save_file.add_component(int_key.clone(), &Value::Int(int_value)).unwrap();

    // This panics because the types don't match.
    let _deserialized_bool: i64 =
        save_file.get_component(&bool_key).unwrap().as_int().unwrap();
    let _deserialized_int: bool =
        save_file.get_component(&int_key).unwrap().as_bool().unwrap();
}

#[test]
fn test_many_values() {
    let mut save_file = SaveFile::new("ABC-Save-File-Testing".to_string());

    for i in 0..10000 {
        let key = format!("key {}", i);
        let value: i64 = i;

        save_file.add_component(key.clone(), &Value::Int(value)).unwrap();

        let deserialized: i64 = save_file.get_component(&key).unwrap().as_int().unwrap();

        assert_eq!(value, deserialized);
    }
}

#[test]
fn test_document_round_trip() {
    let mut save_file = SaveFile::new("ABC-Save-File-Testing".to_string());

    let mut key_value_pairs = vec![];
    let mut rng = rand::rng();
    for i in 0..10000 {
        let key = format!("key {}", i);
        let value: i64 = rng.random_range(0..10000);

        save_file.add_component(key.clone(), &Value::Int(value)).unwrap();
        key_value_pairs.push((key, value));
    }

    let doc = save_file.encode_document();
    let loaded = SaveFile::decode_document(&doc).unwrap();

    for (key, value) in key_value_pairs {
        let deserialized: i64 = loaded.get_component(&key).unwrap().as_int().unwrap();
        assert_eq!(value, deserialized);
    }
    let roundtripped_doc = loaded.encode_document();
    assert_eq!(SaveFile::decode_document(&roundtripped_doc).is_ok(), true);
}

#[test]
fn test_document_keeps_organization() {
    let mut save_file = SaveFile::new("First Org".to_string());
    save_file.set_organization("Second Org".to_string());
    save_file.add_component("k".to_string(), &Value::Null).unwrap();

    let doc = save_file.encode_document();
    let loaded = SaveFile::decode_document(&doc).unwrap();

    // The loaded organization steers directory resolution exactly as before.
    let dir = loaded.get_save_dir();
    assert!(dir.ends_with("/Second Org"));
}

#[test]
fn test_overwrite_keeps_second_value() {
    let mut save_file = SaveFile::new("ABC-Save-File-Testing".to_string());
    let key = "slot".to_string();

    save_file.add_component(key.clone(), &Value::Int(1)).unwrap();
    save_file.add_component(key.clone(), &Value::Int(2)).unwrap();

    let got: i64 = save_file.get_component(&key).unwrap().as_int().unwrap();
    assert_eq!(2, got);
}

#[test]
fn test_missing_key_is_reported() {
    let save_file = SaveFile::new("ABC-Save-File-Testing".to_string());
    let r = save_file.get_component("never inserted");
    match r {
        Err(e) => assert_eq!(e, SaveError::MissingKey),
        Ok(_) => panic!("a key that was never inserted must not yield a value"),
    }
}

#[test]
fn test_type_mismatch_is_decoding_error() {
    let mut save_file = SaveFile::new("ABC-Save-File-Testing".to_string());
    save_file.add_component("flag".to_string(), &Value::Bool(true)).unwrap();
    let r = save_file.get_component("flag").unwrap().as_int();
    assert_eq!(r.unwrap_err(), SaveError::Decoding);
}

#[test]
fn test_decode_rejects_garbage() {
    let garbage = b"this is no document".to_vec();
    let r = SaveFile::decode_document(&garbage);
    match r {
        Err(e) => assert_eq!(e, SaveError::Decoding),
        Ok(_) => panic!("garbage must not decode"),
    }

    let truncated = b"{\"org\":\"x\",\"map\":{".to_vec();
    match SaveFile::decode_document(&truncated) {
        Err(e) => assert_eq!(e, SaveError::Decoding),
        Ok(_) => panic!("a truncated document must not decode"),
    }
}

#[test]
fn test_save_dir_fallback() {
    // With no platform directory, the path is still rooted at the namespace.
    let fallback = resolve_save_dir(None, "My-Org");
    assert_eq!(fallback, "/My-Org");
    assert!(!fallback.is_empty());

    let resolved = resolve_save_dir(Some("base/dir".to_string()), "My-Org");
    assert_eq!(resolved, "base/dir/My-Org");

    let save_file = SaveFile::new("My-Org".to_string());
    let dir = save_file.get_save_dir();
    assert!(dir.ends_with("/My-Org"));
}

#[test]
fn test_string_component_round_trip() {
    let mut save_file = SaveFile::new("ABC-Save-File-Testing".to_string());
    let text = "a \"quoted\" name with a \\ and a newline\n".as_bytes().to_vec();
    save_file.add_component("label".to_string(), &Value::Str(text.clone())).unwrap();

    let got = save_file.get_component("label").unwrap();
    assert_eq!(got.as_str_bytes().unwrap(), &text);
}
