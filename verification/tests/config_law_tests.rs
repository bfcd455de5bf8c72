use axon::config_parser::parse_model_config;
use axon::config_types::ConfigError;

#[test]
fn small_counts_are_raised_to_one() {
    let cfg = parse_model_config(
        b"name: \"m\"\nmax_batch_size: 0\ninstance_group {\n  count: -3\n}\ninstance_group {\n  count: 5\n}\n",
    )
    .unwrap();
    assert_eq!(cfg.max_batch_size, 1);
    assert_eq!(cfg.instance_groups.len(), 2);
    assert_eq!(cfg.instance_groups[0].count, 1);
    assert_eq!(cfg.instance_groups[0].kind, "KIND_CPU");
    assert_eq!(cfg.instance_groups[1].count, 5);
}

#[test]
fn comments_and_blank_lines_change_nothing() {
    let plain = parse_model_config(b"name: \"m\"\ninput {\n  name: \"x\"\n  dims: [1, 2]\n}\n").unwrap();
    let noisy = parse_model_config(
        b"# header\nname: \"m\"\n\n   \ninput {\n  # inside\n  name: \"x\"\n\t\n  dims: [1, 2]\n}\n# end\n",
    )
    .unwrap();
    assert_eq!(plain.name, noisy.name);
    assert_eq!(noisy.inputs.len(), 1);
    assert_eq!(plain.inputs[0].name, noisy.inputs[0].name);
    assert_eq!(plain.inputs[0].dims, noisy.inputs[0].dims);
}

#[test]
fn defaults_without_fields() {
    let cfg = parse_model_config(b"name: \"only\"\r\n").unwrap();
    assert_eq!(cfg.name, "only");
    assert_eq!(cfg.platform, "onnxruntime_onnx");
    assert_eq!(cfg.max_batch_size, 1);
    assert!(cfg.inputs.is_empty());
    assert!(cfg.dynamic_batching.is_none());
    assert!(cfg.ensemble_scheduling.is_none());
}

#[test]
fn errors() {
    assert_eq!(
        parse_model_config(&[0xff, 0xfe]).err(),
        Some(ConfigError::InvalidUtf8 { valid_up_to: 0, error_len: Some(1) })
    );
    assert_eq!(
        parse_model_config(&[0xff, 0xfe]).err().map(|e| e.message()),
        Some("invalid utf-8 sequence in model config")
    );
    assert!(matches!(parse_model_config(b"# nothing\n"), Err(ConfigError::MissingName)));
    assert!(matches!(parse_model_config(b""), Err(ConfigError::MissingName)));
}

#[test]
fn invalid_utf8_position() {
    // A valid prefix, then a three-byte sequence cut short by the end.
    assert_eq!(
        parse_model_config(b"name: \"a\"\n\xe2\x82").err(),
        Some(ConfigError::InvalidUtf8 { valid_up_to: 10, error_len: None })
    );
    // A stray continuation byte in the middle.
    assert_eq!(
        parse_model_config(b"ab\x80cd").err(),
        Some(ConfigError::InvalidUtf8 { valid_up_to: 2, error_len: Some(1) })
    );
}

#[test]
fn dynamic_batching_and_unquoting() {
    let cfg = parse_model_config(
        b"name:   \"  spaced\"  \ndynamic_batching {\n  preferred_batch_size: [4, 8, x, ]\n  max_queue_delay_microseconds: 100\n}\n",
    )
    .unwrap();
    assert_eq!(cfg.name, "  spaced");
    let db = cfg.dynamic_batching.unwrap();
    assert_eq!(db.preferred_batch_size, vec![4, 8]);
    assert_eq!(db.max_queue_delay_us, 100);
}

#[test]
fn nested_name_in_unmodelled_block_keeps_model_name() {
    let content = b"name: m\nmodel_warmup [\n  {\n    name: w\n    batch_size: 1\n  }\n]\n";
    assert_eq!(parse_model_config(content).unwrap().name, "m");
}

#[test]
fn trailing_comment_is_ignored() {
    let content = b"name: m\ninput {\n  name: x\n  dims: [ -1, 512 ]      # -1 = dynamic (batch) dim is implicit\n}\n";
    let cfg = parse_model_config(content).unwrap();
    assert_eq!(cfg.inputs[0].dims, vec![-1, 512]);
    let quoted = parse_model_config(b"name: \"a#b\"  # the name\n").unwrap();
    assert_eq!(quoted.name, "a#b");
}

#[test]
fn documented_example_config() {
    let content = br#"
# /models/my-classifier/config.pbtxt

name: "my-classifier"
platform: "onnxruntime_onnx"
max_batch_size: 64

# Input tensors
input [
  {
    name: "input_ids"
    data_type: TYPE_INT64
    dims: [ -1, 512 ]      # -1 = dynamic (batch) dim is implicit
  },
  {
    name: "attention_mask"
    data_type: TYPE_INT64
    dims: [ -1, 512 ]
  }
]

# Output tensors
output [
  {
    name: "logits"
    data_type: TYPE_FP32
    dims: [ -1, 1000 ]
  }
]

# How many concurrent ONNX sessions per replica
instance_group [
  {
    count: 2
    kind: KIND_CPU
    # Optional: pin to CPU set
    # cpuset: "0-7"
  }
]

# Dynamic batching config
dynamic_batching {
  preferred_batch_size: [ 8, 16, 32 ]
  max_queue_delay_microseconds: 500
}

# Version policy
version_policy: {
  latest { num_versions: 1 }
}

# Optional: model warmup
model_warmup [
  {
    name: "warmup_request"
    batch_size: 1
    inputs: {
      key: "input_ids"
      value: { data_type: TYPE_INT64, dims: [1, 512], zero_data: true }
    }
  }
]
platform: "late_platform"
"#;
    let cfg = parse_model_config(content).unwrap();
    assert_eq!(cfg.name, "my-classifier");
    assert_eq!(cfg.platform, "late_platform");
    assert_eq!(cfg.max_batch_size, 64);
    assert_eq!(cfg.inputs.len(), 2);
    assert_eq!(cfg.inputs[0].name, "input_ids");
    assert_eq!(cfg.inputs[0].dims, vec![-1, 512]);
    assert_eq!(cfg.inputs[1].name, "attention_mask");
    assert_eq!(cfg.outputs[0].dims, vec![-1, 1000]);
    assert_eq!(cfg.instance_groups.len(), 1);
    assert_eq!(cfg.instance_groups[0].count, 2);
    let db = cfg.dynamic_batching.unwrap();
    assert_eq!(db.preferred_batch_size, vec![8, 16, 32]);
    assert_eq!(db.max_queue_delay_us, 500);
}
