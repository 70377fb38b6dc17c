use kilonova::control::{num_threads, validate_num_threads, worker_threads, ThreadCountError};
use kilonova::io::{input_kind, input_kind_of_extension, InputKind};
use kilonova::yaml_patch::{ends_with, override_kind, OverrideKind};

#[test]
fn configured_thread_count_is_kept() {
    assert_eq!(worker_threads(Some(3), 8), 3);
    assert_eq!(num_threads(Some(5)), 5);
}

#[test]
fn default_thread_count_is_two_per_cpu() {
    assert_eq!(worker_threads(None, 8), 16);
    assert_eq!(worker_threads(None, 1), 2);
    assert_eq!(worker_threads(None, usize::MAX), usize::MAX);
    let n = num_threads(None);
    assert!(n >= 2 && n % 2 == 0);
}

#[test]
fn thread_count_bounds() {
    assert_eq!(validate_num_threads(1), Ok(()));
    assert_eq!(validate_num_threads(1023), Ok(()));
    assert_eq!(validate_num_threads(0), Err(ThreadCountError::OutOfRange));
    assert_eq!(validate_num_threads(1024), Err(ThreadCountError::OutOfRange));
}

#[test]
fn suffix_check() {
    assert!(ends_with("setup.yaml", ".yaml"));
    assert!(ends_with(".yaml", ".yaml"));
    assert!(!ends_with("yaml", ".yaml"));
    assert!(!ends_with("setup.yml", ".yaml"));
    assert!(ends_with("anything", ""));
}

#[test]
fn overrides_are_files_or_assignments() {
    assert_eq!(override_kind("extra.yaml"), OverrideKind::YamlFile);
    assert_eq!(override_kind("control.fold=10"), OverrideKind::KeyVal);
    assert_eq!(override_kind("model.name=a.yaml"), OverrideKind::YamlFile);
    assert_eq!(override_kind(""), OverrideKind::KeyVal);
}

#[test]
fn inputs_are_classified_by_extension() {
    assert_eq!(input_kind("setup.yaml"), InputKind::Config);
    assert_eq!(input_kind("out/chkpt.0004.cbor"), InputKind::Snapshot);
    assert_eq!(input_kind("notes.txt"), InputKind::Unknown);
    assert_eq!(input_kind("jet_in_star"), InputKind::Unknown);
    assert_eq!(input_kind(""), InputKind::Unknown);
}

#[test]
fn extensions_are_classified() {
    assert_eq!(input_kind_of_extension(Some("yaml".to_string())), InputKind::Config);
    assert_eq!(input_kind_of_extension(Some("cbor".to_string())), InputKind::Snapshot);
    assert_eq!(input_kind_of_extension(Some("yml".to_string())), InputKind::Unknown);
    assert_eq!(input_kind_of_extension(None), InputKind::Unknown);
}
