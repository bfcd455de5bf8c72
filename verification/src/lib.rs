//! The verified core of the axon inference server: reading model
//! configurations, deciding what a model repository holds, keeping the table
//! of loaded models, routing tensors through ensembles, decoding request
//! payloads, and tokenizing text.
use vstd::prelude::*;

pub mod arena;
pub mod text;
pub mod circuit_breaker;
pub mod config_types;
pub mod config_parser;
pub mod model_repository;
pub mod session_pool;
pub mod tokenizer;
pub mod wire;
pub mod ensemble;
pub mod settings;

verus! {
}
