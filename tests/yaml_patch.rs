use kilonova::yaml_patch::{parse_key_val, split_on, PatchError};

#[test]
fn split_keeps_empty_pieces() {
    assert_eq!(split_on("a.b..c", '.'), vec!["a", "b", "", "c"]);
    assert_eq!(split_on("", '.'), vec![""]);
    assert_eq!(split_on(".", '.'), vec!["", ""]);
    assert_eq!(split_on("abc", '.'), vec!["abc"]);
}

#[test]
fn key_val_with_a_top_level_key() {
    let p = parse_key_val("y=1024").unwrap();
    assert_eq!(p.path, vec!["y"]);
    assert_eq!(p.value, "1024");
}

#[test]
fn key_val_with_a_nested_key() {
    let p = parse_key_val("inner.a=A").unwrap();
    assert_eq!(p.path, vec!["inner", "a"]);
    assert_eq!(p.value, "A");
    let p = parse_key_val("mesh.num_polar_zones=64").unwrap();
    assert_eq!(p.path, vec!["mesh", "num_polar_zones"]);
    assert_eq!(p.value, "64");
}

#[test]
fn key_val_without_a_value_is_refused() {
    match parse_key_val("control.fold=") {
        Err(PatchError::BadlyFormedKeyVal(s)) => assert_eq!(s, "control.fold="),
        Ok(_) => panic!("accepted an empty value"),
    }
}

#[test]
fn key_val_without_or_with_two_equals_is_refused() {
    assert!(parse_key_val("control.fold").is_err());
    assert!(parse_key_val("a=b=c").is_err());
    assert!(parse_key_val("").is_err());
}

#[test]
fn key_val_with_non_ascii_text() {
    let p = parse_key_val("model.name=étoile").unwrap();
    assert_eq!(p.path, vec!["model", "name"]);
    assert_eq!(p.value, "étoile");
}
