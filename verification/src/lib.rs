//! A decision-model runtime: state in, typed questions in, probability
//! distributions out, without generating text.
//!
//! The library decides what the model reads, how a request is split into
//! branches and passes, how tokens are packed for an engine, and how what
//! comes back is folded into answers. Floating-point numbers travel as their
//! bit patterns; arithmetic on them belongs to the program around the library.

use vstd::prelude::*;

pub mod answer;
pub mod api;
pub mod backend;
pub mod baseline;
pub mod bert;
pub mod charsmap;
pub mod decide;
pub mod e5;
pub mod e5_decide;
pub mod e5_pass;
pub mod engine;
pub mod error;
pub mod features;
pub mod fold;
pub mod gemma;
pub mod gpu;
pub mod jglue;
pub mod json;
pub mod laya;
pub mod laya_pass;
pub mod laya_weights;
pub mod llama;
pub mod llama_batch;
pub mod map;
pub mod math;
pub mod model;
pub mod pack;
pub mod parts;
pub mod patterns;
pub mod plan;
pub mod prompt;
pub mod pyjson;
pub mod readout;
pub mod render;
pub mod tensor;
pub mod score;
pub mod server;
pub mod setup;
pub mod suite;
pub mod text;
pub mod tokenize;
pub mod tokenizer_file;
pub mod web;
pub mod weights;

verus! {

} // verus!
