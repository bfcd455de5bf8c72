use axon::config_parser::parse_model_config;
use axon::config_types::{EnsembleScheduling, ModelConfig};
use axon::ensemble::{
    bind_inputs, bind_outputs, collect_outputs, plan_ensemble, step_inputs, Bindings,
    EnsembleError, EnsembleRun,
};

const ENSEMBLE: &[u8] = br#"
name: "pipeline"
platform: "ensemble"
input {
  name: "raw_text"
  data_type: TYPE_STRING
  dims: [1]
}
output {
  name: "result"
  data_type: TYPE_FP32
  dims: [1, 2]
}
ensemble_scheduling {
  step {
    model_name: "tokenizer"
    input_map {
      key: "text"
      value: "raw_text"
    }
    output_map {
      key: "input_ids"
      value: "ids"
    }
    output_map {
      key: "attention_mask"
      value: "mask"
    }
  }
  step {
    model_name: "classifier"
    input_map {
      key: "input_ids"
      value: "ids"
    }
    input_map {
      key: "attention_mask"
      value: "mask"
    }
    output_map {
      key: "logits"
      value: "result"
    }
  }
}
"#;

#[test]
fn plan_of_an_ensemble_config() {
    let cfg = parse_model_config(ENSEMBLE).unwrap();
    let plan = plan_ensemble(&cfg).unwrap();
    assert_eq!(plan.steps.len(), 2);
    assert_eq!(plan.steps[0].model_name, "tokenizer");
    assert_eq!(plan.steps[1].input_map[1].value, "mask");
    assert_eq!(plan.inputs, vec!["raw_text".to_string()]);
    assert_eq!(plan.outputs, vec!["result".to_string()]);
}

#[test]
fn plan_needs_scheduling_and_steps() {
    let cfg = parse_model_config(b"name: \"plain\"\n").unwrap();
    assert_eq!(plan_ensemble(&cfg).err(), Some(EnsembleError::MissingScheduling));
    let cfg = parse_model_config(b"name: \"e\"\nensemble_scheduling {\n}\n").unwrap();
    assert!(cfg.ensemble_scheduling.is_none());
    assert_eq!(plan_ensemble(&cfg).err(), Some(EnsembleError::MissingScheduling));
    let empty = ModelConfig {
        name: "e".to_string(),
        platform: "ensemble".to_string(),
        max_batch_size: 1,
        inputs: vec![],
        outputs: vec![],
        instance_groups: vec![],
        dynamic_batching: None,
        ensemble_scheduling: Some(EnsembleScheduling { steps: vec![] }),
    };
    assert_eq!(plan_ensemble(&empty).err(), Some(EnsembleError::NoSteps));
}

#[test]
fn tensors_flow_through_the_steps() {
    let cfg = parse_model_config(ENSEMBLE).unwrap();
    let plan = plan_ensemble(&cfg).unwrap();
    let mut b = bind_inputs(&plan.inputs);
    assert_eq!(b.lookup("raw_text"), Some(0));

    let feed = step_inputs(&b, &plan.steps[0].input_map, 0).unwrap();
    assert_eq!(feed, vec![("text".to_string(), 0)]);
    assert_eq!(
        step_inputs(&b, &plan.steps[1].input_map, 1).err(),
        Some(EnsembleError::MissingTensor { step: 1, input: 0 })
    );

    let produced = vec![
        ("input_ids".to_string(), 1),
        ("attention_mask".to_string(), 2),
        ("unrouted".to_string(), 3),
    ];
    bind_outputs(&mut b, &plan.steps[0].output_map, &produced);
    assert_eq!(b.lookup("ids"), Some(1));
    assert_eq!(b.lookup("mask"), Some(2));
    assert_eq!(b.lookup("unrouted"), None);

    let feed = step_inputs(&b, &plan.steps[1].input_map, 1).unwrap();
    assert_eq!(feed, vec![("input_ids".to_string(), 1), ("attention_mask".to_string(), 2)]);
    assert_eq!(
        collect_outputs(&b, &plan.outputs).err(),
        Some(EnsembleError::MissingOutput { output: 0 })
    );

    bind_outputs(&mut b, &plan.steps[1].output_map, &vec![("logits".to_string(), 4)]);
    assert_eq!(collect_outputs(&b, &plan.outputs).unwrap(), vec![4]);
}

#[test]
fn later_bindings_replace_earlier_ones() {
    let b = bind_inputs(&vec!["x".to_string(), "y".to_string(), "x".to_string()]);
    assert_eq!(b.lookup("x"), Some(2));
    assert_eq!(b.lookup("y"), Some(1));
    let mut c = Bindings::new();
    assert_eq!(c.lookup("x"), None);
    c.bind("x", 5);
    c.bind("x", 6);
    assert_eq!(c.lookup("x"), Some(6));
}

#[test]
fn a_whole_run_routes_outputs_and_delivers_the_declared_ones() {
    let cfg = parse_model_config(ENSEMBLE).unwrap();
    let plan = plan_ensemble(&cfg).unwrap();
    let names = vec!["raw_text".to_string()];
    let mut run = EnsembleRun::start(&plan, &names);

    assert!(!run.finished(&plan));
    assert_eq!(run.step_index(), 0);
    let feed = run.feed(&plan).unwrap();
    assert_eq!(feed, vec![("text".to_string(), 0)]);
    // The tokenizer stores its outputs in slots 1, 2 and 3; "extra" is not
    // routed and is dropped.
    run.record(
        &plan,
        &vec![
            ("input_ids".to_string(), 1),
            ("extra".to_string(), 2),
            ("attention_mask".to_string(), 3),
        ],
    );

    assert_eq!(run.step_index(), 1);
    let feed = run.feed(&plan).unwrap();
    assert_eq!(feed, vec![("input_ids".to_string(), 1), ("attention_mask".to_string(), 3)]);
    run.record(&plan, &vec![("logits".to_string(), 4), ("logits".to_string(), 5)]);

    assert!(run.finished(&plan));
    // Of two outputs routed to one name, the later one counts.
    assert_eq!(run.outputs(&plan), Ok(vec![5]));
}

#[test]
fn a_run_stops_at_the_first_unfed_input() {
    let cfg = parse_model_config(ENSEMBLE).unwrap();
    let plan = plan_ensemble(&cfg).unwrap();
    let names = vec!["raw_text".to_string()];
    let mut run = EnsembleRun::start(&plan, &names);
    run.feed(&plan).unwrap();
    run.record(&plan, &vec![("attention_mask".to_string(), 1)]);
    assert_eq!(run.feed(&plan), Err(EnsembleError::MissingTensor { step: 1, input: 0 }));

    let wrong = vec!["other".to_string()];
    let run = EnsembleRun::start(&plan, &wrong);
    assert_eq!(run.feed(&plan), Err(EnsembleError::MissingTensor { step: 0, input: 0 }));
}

#[test]
fn a_run_reports_a_missing_final_output() {
    let cfg = parse_model_config(ENSEMBLE).unwrap();
    let plan = plan_ensemble(&cfg).unwrap();
    let names = vec!["raw_text".to_string()];
    let mut run = EnsembleRun::start(&plan, &names);
    run.feed(&plan).unwrap();
    run.record(&plan, &vec![("input_ids".to_string(), 1), ("attention_mask".to_string(), 2)]);
    run.feed(&plan).unwrap();
    run.record(&plan, &vec![("probabilities".to_string(), 3)]);
    assert_eq!(run.outputs(&plan), Err(EnsembleError::MissingOutput { output: 0 }));
}
