//! The model configuration record and its mathematical view.
use vstd::prelude::*;

use crate::text::{chars_of, same_chars};

verus! {

/// Tensor element types, as named in `config.pbtxt` (`TYPE_FP32`, ...).
#[derive(Debug, Clone, Copy, PartialEq, Eq, Structural)]
pub enum DataType {
    Invalid,
    Fp32,
    Fp64,
    Int32,
    Int64,
    Int8,
    Uint8,
    Bool,
    String,
}

/// The data type that a `TYPE_*` name stands for; unknown names are `Invalid`.
pub open spec fn data_type_named(s: Seq<char>) -> DataType {
    if s == "TYPE_FP32"@ {
        DataType::Fp32
    } else if s == "TYPE_FP64"@ {
        DataType::Fp64
    } else if s == "TYPE_INT32"@ {
        DataType::Int32
    } else if s == "TYPE_INT64"@ {
        DataType::Int64
    } else if s == "TYPE_INT8"@ {
        DataType::Int8
    } else if s == "TYPE_UINT8"@ {
        DataType::Uint8
    } else if s == "TYPE_BOOL"@ {
        DataType::Bool
    } else if s == "TYPE_STRING"@ {
        DataType::String
    } else {
        DataType::Invalid
    }
}

/// The KServe v2 name of a data type.
pub open spec fn data_type_label(d: DataType) -> Seq<char> {
    match d {
        DataType::Fp32 => "FP32"@,
        DataType::Fp64 => "FP64"@,
        DataType::Int32 => "INT32"@,
        DataType::Int64 => "INT64"@,
        DataType::Int8 => "INT8"@,
        DataType::Uint8 => "UINT8"@,
        DataType::Bool => "BOOL"@,
        DataType::String => "BYTES"@,
        DataType::Invalid => "INVALID"@,
    }
}

/// The `config.pbtxt` name of a data type: `TYPE_` and its KServe label,
/// with `STRING` for `BYTES`.
pub open spec fn config_type_name(d: DataType) -> Seq<char> {
    "TYPE_"@ + if d == DataType::String {
        "STRING"@
    } else {
        data_type_label(d)
    }
}

/// Each `TYPE_` name denotes its own element type: `TYPE_FP32` is 32-bit
/// float, `TYPE_FP64` 64-bit float, `TYPE_INT32` and `TYPE_INT64` the 32- and
/// 64-bit integers, `TYPE_INT8` and `TYPE_UINT8` the signed and unsigned
/// bytes, `TYPE_BOOL` booleans and `TYPE_STRING` text; reading back the
/// name of any valid type gives that type again.
pub proof fn law_type_names(d: DataType)
    ensures
        data_type_named("TYPE_FP32"@) == DataType::Fp32,
        data_type_named("TYPE_FP64"@) == DataType::Fp64,
        data_type_named("TYPE_INT32"@) == DataType::Int32,
        data_type_named("TYPE_INT64"@) == DataType::Int64,
        data_type_named("TYPE_INT8"@) == DataType::Int8,
        data_type_named("TYPE_UINT8"@) == DataType::Uint8,
        data_type_named("TYPE_BOOL"@) == DataType::Bool,
        data_type_named("TYPE_STRING"@) == DataType::String,
        d != DataType::Invalid ==> data_type_named(config_type_name(d)) == d,
{
    reveal_strlit("TYPE_FP32");
    reveal_strlit("TYPE_FP64");
    reveal_strlit("TYPE_INT32");
    reveal_strlit("TYPE_INT64");
    reveal_strlit("TYPE_INT8");
    reveal_strlit("TYPE_UINT8");
    reveal_strlit("TYPE_BOOL");
    reveal_strlit("TYPE_STRING");
    reveal_strlit("TYPE_");
    reveal_strlit("FP32");
    reveal_strlit("FP64");
    reveal_strlit("INT32");
    reveal_strlit("INT64");
    reveal_strlit("INT8");
    reveal_strlit("UINT8");
    reveal_strlit("BOOL");
    reveal_strlit("STRING");
    assert("TYPE_FP32"@[7] != "TYPE_FP64"@[7]);
    assert("TYPE_INT32"@[8] != "TYPE_INT64"@[8]);
    assert("TYPE_INT8"@[5] != "TYPE_FP32"@[5]);
    assert("TYPE_INT8"@[5] != "TYPE_FP64"@[5]);
    assert("TYPE_UINT8"@[5] != "TYPE_INT32"@[5]);
    assert("TYPE_UINT8"@[5] != "TYPE_INT64"@[5]);
    assert("TYPE_BOOL"@[5] != "TYPE_FP32"@[5]);
    assert("TYPE_BOOL"@[5] != "TYPE_FP64"@[5]);
    assert("TYPE_BOOL"@[5] != "TYPE_INT8"@[5]);
    match d {
        DataType::Fp32 => assert(config_type_name(d) =~= "TYPE_FP32"@),
        DataType::Fp64 => assert(config_type_name(d) =~= "TYPE_FP64"@),
        DataType::Int32 => assert(config_type_name(d) =~= "TYPE_INT32"@),
        DataType::Int64 => assert(config_type_name(d) =~= "TYPE_INT64"@),
        DataType::Int8 => assert(config_type_name(d) =~= "TYPE_INT8"@),
        DataType::Uint8 => assert(config_type_name(d) =~= "TYPE_UINT8"@),
        DataType::Bool => assert(config_type_name(d) =~= "TYPE_BOOL"@),
        DataType::String => assert(config_type_name(d) =~= "TYPE_STRING"@),
        DataType::Invalid => {},
    }
}

/// Whether `s` holds the same characters as the literal `lit`.
pub fn is_literal(s: &[char], lit: &str) -> (r: bool)
    ensures
        r == (s@ == lit@),
{
    let l = chars_of(lit);
    same_chars(s, l.as_slice())
}

/// The data type that the characters `s` name.
pub fn data_type_from_chars(s: &[char]) -> (d: DataType)
    ensures
        d == data_type_named(s@),
{
    if is_literal(s, "TYPE_FP32") {
        DataType::Fp32
    } else if is_literal(s, "TYPE_FP64") {
        DataType::Fp64
    } else if is_literal(s, "TYPE_INT32") {
        DataType::Int32
    } else if is_literal(s, "TYPE_INT64") {
        DataType::Int64
    } else if is_literal(s, "TYPE_INT8") {
        DataType::Int8
    } else if is_literal(s, "TYPE_UINT8") {
        DataType::Uint8
    } else if is_literal(s, "TYPE_BOOL") {
        DataType::Bool
    } else if is_literal(s, "TYPE_STRING") {
        DataType::String
    } else {
        DataType::Invalid
    }
}

impl DataType {
    /// The data type named by a `TYPE_*` string; `Invalid` for any other string.
    pub fn from_str_name(s: &str) -> (d: Self)
        ensures
            d == data_type_named(s@),
    {
        let v = chars_of(s);
        data_type_from_chars(v.as_slice())
    }

    /// The KServe v2 data type name (`"FP32"`, ..., `"BYTES"` for strings).
    pub fn as_str(&self) -> (r: &'static str)
        ensures
            r@ == data_type_label(*self),
    {
        match self {
            DataType::Fp32 => "FP32",
            DataType::Fp64 => "FP64",
            DataType::Int32 => "INT32",
            DataType::Int64 => "INT64",
            DataType::Int8 => "INT8",
            DataType::Uint8 => "UINT8",
            DataType::Bool => "BOOL",
            DataType::String => "BYTES",
            DataType::Invalid => "INVALID",
        }
    }
}

#[derive(Debug, Clone)]
pub struct TensorDef {
    pub name: String,
    pub data_type: DataType,
    pub dims: Vec<i64>,
}

#[derive(Debug, Clone)]
pub struct InstanceGroup {
    pub count: i32,
    pub kind: String,
}

#[derive(Debug, Clone)]
pub struct DynamicBatching {
    pub preferred_batch_size: Vec<i32>,
    pub max_queue_delay_us: i64,
}

#[derive(Debug, Clone)]
pub struct KeyValue {
    pub key: String,
    pub value: String,
}

#[derive(Debug, Clone)]
pub struct EnsembleStep {
    pub model_name: String,
    pub model_version: i32,
    pub input_map: Vec<KeyValue>,
    pub output_map: Vec<KeyValue>,
}

#[derive(Debug, Clone)]
pub struct EnsembleScheduling {
    pub steps: Vec<EnsembleStep>,
}

#[derive(Debug, Clone)]
pub struct ModelConfig {
    pub name: String,
    pub platform: String,
    pub max_batch_size: i32,
    pub inputs: Vec<TensorDef>,
    pub outputs: Vec<TensorDef>,
    pub instance_groups: Vec<InstanceGroup>,
    pub dynamic_batching: Option<DynamicBatching>,
    pub ensemble_scheduling: Option<EnsembleScheduling>,
}

pub struct TensorDefView {
    pub name: Seq<char>,
    pub data_type: DataType,
    pub dims: Seq<i64>,
}

pub struct InstanceGroupView {
    pub count: i32,
    pub kind: Seq<char>,
}

pub struct DynamicBatchingView {
    pub preferred_batch_size: Seq<i32>,
    pub max_queue_delay_us: i64,
}

pub struct KeyValueView {
    pub key: Seq<char>,
    pub value: Seq<char>,
}

pub struct EnsembleStepView {
    pub model_name: Seq<char>,
    pub model_version: i32,
    pub input_map: Seq<KeyValueView>,
    pub output_map: Seq<KeyValueView>,
}

pub struct EnsembleSchedulingView {
    pub steps: Seq<EnsembleStepView>,
}

pub struct ModelConfigView {
    pub name: Seq<char>,
    pub platform: Seq<char>,
    pub max_batch_size: i32,
    pub inputs: Seq<TensorDefView>,
    pub outputs: Seq<TensorDefView>,
    pub instance_groups: Seq<InstanceGroupView>,
    pub dynamic_batching: Option<DynamicBatchingView>,
    pub ensemble_scheduling: Option<EnsembleSchedulingView>,
}

impl View for TensorDef {
    type V = TensorDefView;

    open spec fn view(&self) -> TensorDefView {
        TensorDefView { name: self.name@, data_type: self.data_type, dims: self.dims@ }
    }
}

impl View for InstanceGroup {
    type V = InstanceGroupView;

    open spec fn view(&self) -> InstanceGroupView {
        InstanceGroupView { count: self.count, kind: self.kind@ }
    }
}

impl View for DynamicBatching {
    type V = DynamicBatchingView;

    open spec fn view(&self) -> DynamicBatchingView {
        DynamicBatchingView {
            preferred_batch_size: self.preferred_batch_size@,
            max_queue_delay_us: self.max_queue_delay_us,
        }
    }
}

impl View for KeyValue {
    type V = KeyValueView;

    open spec fn view(&self) -> KeyValueView {
        KeyValueView { key: self.key@, value: self.value@ }
    }
}

pub open spec fn kv_views(v: Seq<KeyValue>) -> Seq<KeyValueView> {
    v.map_values(|x: KeyValue| x@)
}

pub open spec fn tensor_views(v: Seq<TensorDef>) -> Seq<TensorDefView> {
    v.map_values(|x: TensorDef| x@)
}

pub open spec fn group_views(v: Seq<InstanceGroup>) -> Seq<InstanceGroupView> {
    v.map_values(|x: InstanceGroup| x@)
}

pub open spec fn step_views(v: Seq<EnsembleStep>) -> Seq<EnsembleStepView> {
    v.map_values(|x: EnsembleStep| x@)
}

impl View for EnsembleStep {
    type V = EnsembleStepView;

    open spec fn view(&self) -> EnsembleStepView {
        EnsembleStepView {
            model_name: self.model_name@,
            model_version: self.model_version,
            input_map: kv_views(self.input_map@),
            output_map: kv_views(self.output_map@),
        }
    }
}

impl View for EnsembleScheduling {
    type V = EnsembleSchedulingView;

    open spec fn view(&self) -> EnsembleSchedulingView {
        EnsembleSchedulingView { steps: step_views(self.steps@) }
    }
}

pub open spec fn batching_view(o: Option<DynamicBatching>) -> Option<DynamicBatchingView> {
    match o {
        Some(d) => Some(d@),
        None => None,
    }
}

pub open spec fn scheduling_view(o: Option<EnsembleScheduling>) -> Option<EnsembleSchedulingView> {
    match o {
        Some(e) => Some(e@),
        None => None,
    }
}

impl View for ModelConfig {
    type V = ModelConfigView;

    open spec fn view(&self) -> ModelConfigView {
        ModelConfigView {
            name: self.name@,
            platform: self.platform@,
            max_batch_size: self.max_batch_size,
            inputs: tensor_views(self.inputs@),
            outputs: tensor_views(self.outputs@),
            instance_groups: group_views(self.instance_groups@),
            dynamic_batching: batching_view(self.dynamic_batching),
            ensemble_scheduling: scheduling_view(self.ensemble_scheduling),
        }
    }
}

/// Why a model configuration was refused.
#[derive(Debug, Clone, Copy, PartialEq, Eq)]
pub enum ConfigError {
    /// The bytes are not UTF-8: those before `valid_up_to` are, and
    /// `error_len` is the length of the invalid sequence found there (`None`
    /// where the input ends inside a sequence).
    InvalidUtf8 { valid_up_to: usize, error_len: Option<usize> },
    /// The configuration names no model.
    MissingName,
}

/// The description of each configuration error.
pub open spec fn config_error_message(e: ConfigError) -> Seq<char> {
    match e {
        ConfigError::InvalidUtf8 { .. } => "invalid utf-8 sequence in model config"@,
        ConfigError::MissingName => "model config missing 'name' field"@,
    }
}

impl ConfigError {
    /// A human-readable description of the error.
    pub fn message(&self) -> (r: &'static str)
        ensures
            r@ == config_error_message(*self),
    {
        match self {
            ConfigError::InvalidUtf8 { .. } => "invalid utf-8 sequence in model config",
            ConfigError::MissingName => "model config missing 'name' field",
        }
    }
}

/// A configuration is accepted when it names its model.
pub fn require_name(cfg: ModelConfig) -> (r: Result<ModelConfig, ConfigError>)
    ensures
        cfg.name@.len() > 0 ==> (r matches Ok(c) && c@ == cfg@),
        cfg.name@.len() == 0 ==> r == Err::<ModelConfig, ConfigError>(ConfigError::MissingName),
{
    if cfg.name.as_str().is_empty() {
        Err(ConfigError::MissingName)
    } else {
        Ok(cfg)
    }
}

} // verus!
