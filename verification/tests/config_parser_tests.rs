use axon::config_parser::parse_model_config;
use axon::config_types::DataType;

#[test]
fn test_parse_basic_config() {
    let content = br#"
name: "test_model"
platform: "onnxruntime_onnx"
max_batch_size: 8

input {
  name: "input_0"
  data_type: TYPE_FP32
  dims: [1, 30]
}

output {
  name: "output_0"
  data_type: TYPE_FP32
  dims: [1, 2]
}

instance_group {
  count: 2
  kind: "KIND_CPU"
}
"#;
    let cfg = parse_model_config(content).unwrap();
    assert_eq!(cfg.name, "test_model");
    assert_eq!(cfg.max_batch_size, 8);
    assert_eq!(cfg.inputs.len(), 1);
    assert_eq!(cfg.inputs[0].name, "input_0");
    assert_eq!(cfg.inputs[0].data_type, DataType::Fp32);
    assert_eq!(cfg.inputs[0].dims, vec![1, 30]);
    assert_eq!(cfg.outputs.len(), 1);
    assert_eq!(cfg.instance_groups[0].count, 2);
}

#[test]
fn test_missing_name_errors() {
    let content = b"platform: \"onnxruntime_onnx\"\n";
    assert!(parse_model_config(content).is_err());
}

#[test]
fn test_parse_list_format() {
    let content = br#"
name: "list_model"
platform: "onnxruntime_onnx"
max_batch_size: 8

input [
  {
    name: "input_0"
    data_type: TYPE_FP32
    dims: [1, 30]
  }
  {
    name: "input_1"
    data_type: TYPE_INT64
    dims: [1, -1]
  }
  {
    name: "input_2"
    data_type: TYPE_STRING
    dims: [1]
  }
]

output [
  {
    name: "output_0"
    data_type: TYPE_FP32
    dims: [1, 2]
  }
  {
    name: "output_1"
    data_type: TYPE_INT64
    dims: [1]
  }
]

instance_group {
  count: 2
  kind: KIND_CPU
}
"#;
    let cfg = parse_model_config(content).unwrap();
    assert_eq!(cfg.name, "list_model");
    assert_eq!(cfg.max_batch_size, 8);
    assert_eq!(cfg.inputs.len(), 3);
    assert_eq!(cfg.inputs[0].name, "input_0");
    assert_eq!(cfg.inputs[0].data_type, DataType::Fp32);
    assert_eq!(cfg.inputs[0].dims, vec![1, 30]);
    assert_eq!(cfg.inputs[1].name, "input_1");
    assert_eq!(cfg.inputs[1].data_type, DataType::Int64);
    assert_eq!(cfg.inputs[1].dims, vec![1, -1]);
    assert_eq!(cfg.inputs[2].name, "input_2");
    assert_eq!(cfg.inputs[2].data_type, DataType::String);
    assert_eq!(cfg.inputs[2].dims, vec![1]);
    assert_eq!(cfg.outputs.len(), 2);
    assert_eq!(cfg.outputs[0].name, "output_0");
    assert_eq!(cfg.outputs[0].data_type, DataType::Fp32);
    assert_eq!(cfg.outputs[0].dims, vec![1, 2]);
    assert_eq!(cfg.outputs[1].name, "output_1");
    assert_eq!(cfg.outputs[1].data_type, DataType::Int64);
    assert_eq!(cfg.outputs[1].dims, vec![1]);
    assert_eq!(cfg.instance_groups.len(), 1);
    assert_eq!(cfg.instance_groups[0].count, 2);
}

#[test]
fn test_parse_ensemble_config() {
    let content = br#"
name: "test_ensemble"
platform: "ensemble"
max_batch_size: 1

input {
  name: "raw_text"
  data_type: TYPE_STRING
  dims: [1]
}

output {
  name: "result"
  data_type: TYPE_FP32
  dims: [1, 2]
}

ensemble_scheduling {
  step {
    model_name: "tokenizer"
    model_version: -1
    input_map {
      key: "text"
      value: "raw_text"
    }
    output_map {
      key: "input_ids"
      value: "ids"
    }
    output_map {
      key: "attention_mask"
      value: "mask"
    }
  }
  step {
    model_name: "classifier"
    model_version: 1
    input_map {
      key: "input_ids"
      value: "ids"
    }
    input_map {
      key: "attention_mask"
      value: "mask"
    }
    output_map {
      key: "logits"
      value: "result"
    }
  }
}

instance_group {
  count: 2
  kind: KIND_CPU
}
"#;
    let cfg = parse_model_config(content).unwrap();
    assert_eq!(cfg.name, "test_ensemble");
    assert_eq!(cfg.platform, "ensemble");
    assert_eq!(cfg.inputs.len(), 1);
    assert_eq!(cfg.inputs[0].name, "raw_text");
    assert_eq!(cfg.outputs.len(), 1);
    assert_eq!(cfg.outputs[0].name, "result");

    let ens = cfg
        .ensemble_scheduling
        .as_ref()
        .expect("ensemble_scheduling should be present");
    assert_eq!(ens.steps.len(), 2);

    let s0 = &ens.steps[0];
    assert_eq!(s0.model_name, "tokenizer");
    assert_eq!(s0.model_version, -1);
    assert_eq!(s0.input_map.len(), 1);
    assert_eq!(s0.input_map[0].key, "text");
    assert_eq!(s0.input_map[0].value, "raw_text");
    assert_eq!(s0.output_map.len(), 2);
    assert_eq!(s0.output_map[0].key, "input_ids");
    assert_eq!(s0.output_map[0].value, "ids");
    assert_eq!(s0.output_map[1].key, "attention_mask");
    assert_eq!(s0.output_map[1].value, "mask");

    let s1 = &ens.steps[1];
    assert_eq!(s1.model_name, "classifier");
    assert_eq!(s1.model_version, 1);
    assert_eq!(s1.input_map.len(), 2);
    assert_eq!(s1.input_map[0].key, "input_ids");
    assert_eq!(s1.input_map[0].value, "ids");
    assert_eq!(s1.input_map[1].key, "attention_mask");
    assert_eq!(s1.input_map[1].value, "mask");
    assert_eq!(s1.output_map.len(), 1);
    assert_eq!(s1.output_map[0].key, "logits");
    assert_eq!(s1.output_map[0].value, "result");
}

#[test]
fn test_parse_ensemble_list_format() {
    let content = br#"
name: "ensemble_list"
platform: "ensemble"
max_batch_size: 1

input {
  name: "raw_text"
  data_type: TYPE_STRING
  dims: [1]
}

output {
  name: "result"
  data_type: TYPE_FP32
  dims: [1, 2]
}

ensemble_scheduling {
  step {
    model_name: "tokenizer"
    model_version: -1
    input_map [
      {
        key: "text"
        value: "raw_text"
      }
    ]
    output_map [
      {
        key: "input_ids"
        value: "ids"
      }
      {
        key: "attention_mask"
        value: "mask"
      }
    ]
  }
  step {
    model_name: "classifier"
    model_version: 1
    input_map [
      {
        key: "input_ids"
        value: "ids"
      }
      {
        key: "attention_mask"
        value: "mask"
      }
    ]
    output_map [
      {
        key: "logits"
        value: "result"
      }
    ]
  }
}

instance_group {
  count: 2
  kind: KIND_CPU
}
"#;
    let cfg = parse_model_config(content).unwrap();
    assert_eq!(cfg.name, "ensemble_list");
    assert_eq!(cfg.platform, "ensemble");

    let ens = cfg
        .ensemble_scheduling
        .as_ref()
        .expect("ensemble_scheduling should be present");
    assert_eq!(ens.steps.len(), 2);

    let s0 = &ens.steps[0];
    assert_eq!(s0.model_name, "tokenizer");
    assert_eq!(s0.model_version, -1);
    assert_eq!(s0.input_map.len(), 1);
    assert_eq!(s0.input_map[0].key, "text");
    assert_eq!(s0.input_map[0].value, "raw_text");
    assert_eq!(s0.output_map.len(), 2);
    assert_eq!(s0.output_map[0].key, "input_ids");
    assert_eq!(s0.output_map[0].value, "ids");
    assert_eq!(s0.output_map[1].key, "attention_mask");
    assert_eq!(s0.output_map[1].value, "mask");

    let s1 = &ens.steps[1];
    assert_eq!(s1.model_name, "classifier");
    assert_eq!(s1.model_version, 1);
    assert_eq!(s1.input_map.len(), 2);
    assert_eq!(s1.input_map[0].key, "input_ids");
    assert_eq!(s1.input_map[0].value, "ids");
    assert_eq!(s1.input_map[1].key, "attention_mask");
    assert_eq!(s1.input_map[1].value, "mask");
    assert_eq!(s1.output_map.len(), 1);
    assert_eq!(s1.output_map[0].key, "logits");
    assert_eq!(s1.output_map[0].value, "result");
}

#[test]
fn test_parse_ensemble_step_list_format() {
    let content = br#"
name: "ensemble_step_list"
platform: "ensemble"
max_batch_size: 1

input {
  name: "raw_text"
  data_type: TYPE_STRING
  dims: [1]
}

output {
  name: "sentiment"
  data_type: TYPE_FP32
  dims: [1, 3]
}
output {
  name: "confidence"
  data_type: TYPE_FP32
  dims: [1]
}

ensemble_scheduling {
  step [
    {
      model_name: "tokenizer"
      model_version: -1
      input_map [
        {
          key: "text"
          value: "raw_text"
        }
      ]
      output_map [
        {
          key: "input_ids"
          value: "ids"
        }
        {
          key: "attention_mask"
          value: "mask"
        }
      ]
    }
    {
      model_name: "classifier"
      model_version: 2
      input_map [
        {
          key: "input_ids"
          value: "ids"
        }
        {
          key: "attention_mask"
          value: "mask"
        }
      ]
      output_map [
        {
          key: "logits"
          value: "sentiment"
        }
        {
          key: "probability"
          value: "confidence"
        }
      ]
    }
  ]
}

instance_group {
  count: 1
  kind: KIND_CPU
}
"#;
    let cfg = parse_model_config(content).unwrap();
    assert_eq!(cfg.name, "ensemble_step_list");

    let ens = cfg
        .ensemble_scheduling
        .as_ref()
        .expect("ensemble_scheduling should be present");
    assert_eq!(ens.steps.len(), 2);

    let s0 = &ens.steps[0];
    assert_eq!(s0.model_name, "tokenizer");
    assert_eq!(s0.model_version, -1);
    assert_eq!(s0.input_map.len(), 1);
    assert_eq!(s0.input_map[0].key, "text");
    assert_eq!(s0.input_map[0].value, "raw_text");
    assert_eq!(s0.output_map.len(), 2);
    assert_eq!(s0.output_map[0].key, "input_ids");
    assert_eq!(s0.output_map[0].value, "ids");
    assert_eq!(s0.output_map[1].key, "attention_mask");
    assert_eq!(s0.output_map[1].value, "mask");

    let s1 = &ens.steps[1];
    assert_eq!(s1.model_name, "classifier");
    assert_eq!(s1.model_version, 2);
    assert_eq!(s1.input_map.len(), 2);
    assert_eq!(s1.input_map[0].key, "input_ids");
    assert_eq!(s1.input_map[0].value, "ids");
    assert_eq!(s1.output_map.len(), 2);
    assert_eq!(s1.output_map[0].key, "logits");
    assert_eq!(s1.output_map[0].value, "sentiment");
    assert_eq!(s1.output_map[1].key, "probability");
    assert_eq!(s1.output_map[1].value, "confidence");
}

#[test]
fn test_parse_step_list_simple() {
    let content = br#"name: "simple"
platform: "ensemble"
max_batch_size: 1
input { name: "in" data_type: TYPE_STRING dims: [1] }
output { name: "out" data_type: TYPE_FP32 dims: [1] }
ensemble_scheduling {
  step [
    {
      model_name: "s1"
    }
    {
      model_name: "s2"
    }
  ]
}
"#;
    let cfg = parse_model_config(content).unwrap();
    let ens = cfg.ensemble_scheduling.as_ref().unwrap();
    assert_eq!(ens.steps.len(), 2);
    assert_eq!(ens.steps[0].model_name, "s1");
    assert_eq!(ens.steps[1].model_name, "s2");
}

#[test]
fn test_parse_step_list_with_map() {
    let content = br#"name: "with_map"
platform: "ensemble"
max_batch_size: 1
input { name: "in" data_type: TYPE_STRING dims: [1] }
output { name: "out" data_type: TYPE_FP32 dims: [1] }
ensemble_scheduling {
  step [
    {
      model_name: "s1"
      input_map [
        {
          key: "text"
          value: "raw"
        }
      ]
      output_map [
        {
          key: "result"
          value: "out"
        }
      ]
    }
  ]
}
"#;
    let cfg = parse_model_config(content).unwrap();
    let ens = cfg.ensemble_scheduling.as_ref().unwrap();
    assert_eq!(ens.steps.len(), 1);
    assert_eq!(ens.steps[0].model_name, "s1");
    assert_eq!(ens.steps[0].input_map.len(), 1);
    assert_eq!(ens.steps[0].input_map[0].key, "text");
    assert_eq!(ens.steps[0].output_map.len(), 1);
}

#[test]
fn test_parse_step_list_two_with_maps() {
    let content = br#"name: "two_maps"
platform: "ensemble"
max_batch_size: 1
input { name: "in" data_type: TYPE_STRING dims: [1] }
output { name: "out" data_type: TYPE_FP32 dims: [1] }
ensemble_scheduling {
  step [
    {
      model_name: "s1"
      output_map [
        {
          key: "from1"
          value: "mid"
        }
      ]
    }
    {
      model_name: "s2"
      input_map [
        {
          key: "to2"
          value: "mid"
        }
      ]
    }
  ]
}
"#;
    let cfg = parse_model_config(content).unwrap();
    let ens = cfg.ensemble_scheduling.as_ref().unwrap();
    assert_eq!(ens.steps.len(), 2);
    assert_eq!(ens.steps[0].model_name, "s1");
    assert_eq!(ens.steps[0].output_map[0].key, "from1");
    assert_eq!(ens.steps[1].model_name, "s2");
    assert_eq!(ens.steps[1].input_map[0].key, "to2");
}

#[test]
fn test_parse_step_list_both_maps() {
    let content = br#"name: "both"
platform: "ensemble"
max_batch_size: 1
input { name: "in" data_type: TYPE_STRING dims: [1] }
output { name: "out" data_type: TYPE_FP32 dims: [1] }
ensemble_scheduling {
  step [
    {
      model_name: "s1"
      input_map [
        {
          key: "a"
          value: "in"
        }
      ]
      output_map [
        {
          key: "b"
          value: "mid"
        }
      ]
    }
    {
      model_name: "s2"
      input_map [
        {
          key: "c"
          value: "mid"
        }
      ]
      output_map [
        {
          key: "d"
          value: "out"
        }
      ]
    }
  ]
}
"#;
    let cfg = parse_model_config(content).unwrap();
    let ens = cfg.ensemble_scheduling.as_ref().unwrap();
    assert_eq!(ens.steps.len(), 2);
    assert_eq!(ens.steps[0].model_name, "s1");
    assert_eq!(ens.steps[0].input_map[0].key, "a");
    assert_eq!(ens.steps[0].output_map[0].key, "b");
    assert_eq!(ens.steps[1].model_name, "s2");
    assert_eq!(ens.steps[1].input_map[0].key, "c");
    assert_eq!(ens.steps[1].output_map[0].key, "d");
}

#[test]
fn test_parse_step_list_multi_map_entries() {
    let content = br#"name: "multi_entries"
platform: "ensemble"
max_batch_size: 1
input { name: "in" data_type: TYPE_STRING dims: [1] }
output { name: "out_a" data_type: TYPE_FP32 dims: [1] }
output { name: "out_b" data_type: TYPE_FP32 dims: [1] }
ensemble_scheduling {
  step [
    {
      model_name: "s1"
      input_map [
        {
          key: "text"
          value: "in"
        }
      ]
      output_map [
        {
          key: "input_ids"
          value: "ids"
        }
        {
          key: "attention_mask"
          value: "mask"
        }
      ]
    }
    {
      model_name: "s2"
      input_map [
        {
          key: "input_ids"
          value: "ids"
        }
        {
          key: "attention_mask"
          value: "mask"
        }
      ]
      output_map [
        {
          key: "logits"
          value: "out_a"
        }
        {
          key: "probability"
          value: "out_b"
        }
      ]
    }
  ]
}
"#;
    let cfg = parse_model_config(content).unwrap();
    let ens = cfg.ensemble_scheduling.as_ref().unwrap();
    assert_eq!(ens.steps.len(), 2);
    assert_eq!(ens.steps[0].output_map.len(), 2);
    assert_eq!(ens.steps[0].output_map[0].key, "input_ids");
    assert_eq!(ens.steps[0].output_map[1].key, "attention_mask");
    assert_eq!(ens.steps[1].input_map.len(), 2);
    assert_eq!(ens.steps[1].output_map.len(), 2);
}
