use kilonova::yaml_patch::{merge_mapping, merge_value, parse_key_val, Tree};
use serde_yaml::Value;

fn to_tree(value: Value) -> Tree {
    match value {
        Value::Mapping(m) if m.iter().all(|(k, _)| k.is_string()) => Tree::Table(
            m.into_iter()
                .map(|(k, v)| (k.as_str().unwrap().to_string(), to_tree(v)))
                .collect(),
        ),
        other => Tree::Scalar(other),
    }
}

fn from_tree(tree: Tree) -> Value {
    match tree {
        Tree::Scalar(v) => v,
        Tree::Table(entries) => Value::Mapping(
            entries.into_iter().map(|(k, t)| (Value::from(k), from_tree(t))).collect(),
        ),
    }
}

fn yaml(text: &str) -> Tree {
    to_tree(serde_yaml::from_str(text).unwrap())
}

fn patch_of(key_val: &str) -> Tree {
    let p = parse_key_val(key_val).unwrap();
    let mut tree = to_tree(serde_yaml::from_str(&p.value).unwrap());
    for key in p.path.into_iter().rev() {
        tree = Tree::Table(vec![(key, tree)]);
    }
    tree
}

fn config() -> Tree {
    yaml("x: 32.0\ny: 512\ninner:\n  a: a\n  b: b\n")
}

fn get<'a>(tree: &'a Value, path: &[&str]) -> &'a Value {
    let mut v = tree;
    for key in path {
        v = v.get(*key).unwrap();
    }
    v
}

#[test]
fn can_merge_from_str() {
    let merged = from_tree(merge_value(config(), yaml("y: 1024")));
    assert!(get(&merged, &["x"]).as_f64() == Some(32.0));
    assert!(get(&merged, &["y"]).as_u64() == Some(1024));
    assert!(get(&merged, &["inner", "a"]).as_str() == Some("a"));
    assert!(get(&merged, &["inner", "b"]).as_str() == Some("b"));
}

#[test]
fn can_merge_from_key_val() {
    let merged = merge_value(config(), patch_of("y=1024"));
    let merged = from_tree(merge_value(merged, patch_of("inner.a=A")));
    assert!(get(&merged, &["x"]).as_f64() == Some(32.0));
    assert!(get(&merged, &["y"]).as_u64() == Some(1024));
    assert!(get(&merged, &["inner", "a"]).as_str() == Some("A"));
    assert!(get(&merged, &["inner", "b"]).as_str() == Some("b"));
}

#[test]
fn merging_twice_equals_merging_once() {
    let patch = "y: 7\ninner:\n  b: B\n  c: [1, 2]\nz: new\n";
    let once = merge_value(config(), yaml(patch));
    let twice = merge_value(merge_value(config(), yaml(patch)), yaml(patch));
    assert_eq!(format!("{:?}", once), format!("{:?}", twice));
    assert_eq!(from_tree(once), from_tree(twice));
}

#[test]
fn patched_entries_move_to_the_end_in_patch_order() {
    let merged = merge_value(yaml("a: 1\nb: 2\nc: 3\n"), yaml("c: 30\na: 10\n"));
    match merged {
        Tree::Table(entries) => {
            let keys: Vec<&str> = entries.iter().map(|(k, _)| k.as_str()).collect();
            assert_eq!(keys, vec!["b", "c", "a"]);
        }
        Tree::Scalar(_) => panic!("a mapping merged into a mapping must stay a mapping"),
    }
}

#[test]
fn a_scalar_patch_replaces_a_mapping() {
    let merged = from_tree(merge_value(config(), yaml("5")));
    assert_eq!(merged.as_u64(), Some(5));
}

#[test]
fn a_mapping_patch_replaces_a_scalar() {
    let merged = from_tree(merge_value(yaml("5"), yaml("k: v")));
    assert_eq!(get(&merged, &["k"]).as_str(), Some("v"));
}

#[test]
fn merging_into_an_empty_mapping_keeps_the_patch() {
    let merged = merge_mapping(vec![], vec![("k".to_string(), yaml("1"))]);
    assert_eq!(merged.len(), 1);
    assert_eq!(merged[0].0, "k");
}
