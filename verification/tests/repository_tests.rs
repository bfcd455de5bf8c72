use axon::circuit_breaker::CircuitBreaker;
use axon::config_parser::parse_model_config;
use axon::config_types::DataType;
use axon::model_repository::{
    backend_for, instance_count, is_valid_model_name, model_concurrency, model_key,
    model_platform, plan_version, record_load, select_versions, version_action, Backend,
    DirEntry, VersionAction,
};

#[test]
fn model_names() {
    assert!(is_valid_model_name("bert-base_v2.onnx"));
    assert!(is_valid_model_name("модель"));
    assert!(!is_valid_model_name(""));
    assert!(!is_valid_model_name(".hidden"));
    assert!(!is_valid_model_name("a..b"));
    assert!(!is_valid_model_name("a/b"));
    assert!(!is_valid_model_name("has space"));
    assert!(is_valid_model_name(&"x".repeat(128)));
    assert!(!is_valid_model_name(&"x".repeat(129)));
}

#[test]
fn keys_tell_versions_apart() {
    assert_ne!(model_key("a@v1", 2), model_key("a", 12));
    assert_ne!(model_key("a@v1", 2), model_key("a@v", 12));
    assert_ne!(model_key("m", 1), model_key("m", 10));
    assert_eq!(model_key("a@v1", 2), "a@v1@v2");
}

#[test]
fn keys_join_name_and_version() {
    assert_eq!(model_key("bert", 12), "bert@v12");
    assert_eq!(model_key("m", 0), "m@v0");
    assert_eq!(model_key("m", u32::MAX), "m@v4294967295");
}

fn entry(name: &str, is_dir: bool) -> DirEntry {
    DirEntry { name: name.to_string(), is_dir }
}

#[test]
fn versions_are_positive_numbered_directories_ascending() {
    let entries = vec![
        entry("10", true),
        entry("2", true),
        entry("0", true),
        entry("3", false),
        entry("config.pbtxt", false),
        entry("+7", true),
        entry("-1", true),
        entry("99999999999", true),
    ];
    assert_eq!(select_versions(&entries), vec![2, 7, 10]);
}

#[test]
fn backends_and_defaults() {
    assert_eq!(backend_for("script"), Backend::Script);
    assert_eq!(backend_for("ensemble"), Backend::Ensemble);
    assert_eq!(backend_for("onnxruntime_onnx"), Backend::Onnx);
    assert_eq!(backend_for("anything"), Backend::Onnx);
    assert_eq!(model_platform(&None), "onnxruntime_onnx");
    assert_eq!(model_concurrency(&None), 4);
    assert_eq!(instance_count(0), 4);
    assert_eq!(instance_count(6), 6);
}

#[test]
fn platform_and_concurrency_from_config() {
    let cfg = parse_model_config(b"name: \"m\"\nplatform: \"script\"\ninstance_group {\n  count: 3\n}\n").unwrap();
    let cfg = Some(cfg);
    assert_eq!(model_platform(&cfg), "script");
    assert_eq!(model_concurrency(&cfg), 3);
    let bare = Some(parse_model_config(b"name: \"m\"\n").unwrap());
    assert_eq!(model_concurrency(&bare), 4);
}

#[test]
fn version_plans() {
    let mut cb = CircuitBreaker::new();
    let key = model_key("m", 1);
    assert_eq!(plan_version(&cb, &key, Backend::Onnx, false), VersionAction::Load(Backend::Onnx));
    assert_eq!(plan_version(&cb, &key, Backend::Ensemble, false), VersionAction::SkipMissingConfig);
    assert_eq!(plan_version(&cb, &key, Backend::Ensemble, true), VersionAction::Load(Backend::Ensemble));
    for _ in 0..3 {
        cb.record_failure(&key);
    }
    assert_eq!(plan_version(&cb, &key, Backend::Script, true), VersionAction::SkipOpenCircuit);
    assert_eq!(plan_version(&cb, "m@v2", Backend::Script, true), VersionAction::Load(Backend::Script));
}

#[test]
fn data_type_names() {
    assert_eq!(DataType::from_str_name("TYPE_INT64"), DataType::Int64);
    assert_eq!(DataType::from_str_name("TYPE_STRING"), DataType::String);
    assert_eq!(DataType::from_str_name("FP32"), DataType::Invalid);
    assert_eq!(DataType::String.as_str(), "BYTES");
    assert_eq!(DataType::Uint8.as_str(), "UINT8");
    assert_eq!(DataType::Invalid.as_str(), "INVALID");
}

#[test]
fn version_actions() {
    assert_eq!(version_action(true, Backend::Onnx, true), VersionAction::SkipOpenCircuit);
    assert_eq!(version_action(false, Backend::Onnx, false), VersionAction::Load(Backend::Onnx));
    assert_eq!(version_action(false, Backend::Ensemble, false), VersionAction::SkipMissingConfig);
}

#[test]
fn load_outcomes_update_the_breaker() {
    let mut cb = CircuitBreaker::new();
    record_load(&mut cb, "m@v1", false);
    record_load(&mut cb, "m@v1", false);
    assert_eq!(cb.failures("m@v1"), 2);
    record_load(&mut cb, "m@v1", false);
    assert!(cb.is_open("m@v1"));
    record_load(&mut cb, "m@v1", true);
    assert_eq!(cb.failures("m@v1"), 0);
    assert!(!cb.is_open("m@v1"));
}
