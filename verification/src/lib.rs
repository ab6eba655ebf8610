//! The inference core of a small tool-calling language model.
//!
//! A container holds quantised weights, the geometry of the model and its
//! tokenizer. The library reads it, runs the model over a prompt made of a query
//! and a list of tools, and chooses the tokens of the reply, if asked to within
//! the grammar of the declared tools. Two heads draw an embedding and a
//! confidence from a text.
//!
//! Floats are 32-bit words here. The library says which operation is applied to
//! which numbers and in which order; the operations themselves come from the
//! caller, see [`arith`] and [`blocks`].
//!
//! - Text and grammar: [`text`], [`lossy`], [`trie`], [`json_machine`], [`json_scan`],
//!   [`tools`], [`json_lists`], [`constrained`].
//! - Tokenizer: [`sp_tokenizer`], [`sp_codec`], [`sp_laws`], [`merging`].
//! - Container and model: [`cact`], [`cact_layout`], [`config`], [`model`],
//!   [`bundle`], [`placement`], [`ready`].
//! - Quantised matrices: [`cq`], [`matmul`], [`parallel`], [`rotate`],
//!   [`rotation`], [`hadamard`], [`quant`], [`int4`].
//! - The forward pass: [`pass`] says what it computes, [`run`] computes it token
//!   by token and [`chunked`] in chunks; [`state`] holds the rings; [`formulas`] says
//!   what its formulas come to.
//! - Replies and heads: [`prompt`], [`sampling`], [`drawing`], [`engine`], [`generate`],
//!   [`replies`], [`stream`],
//!   [`heads`], [`pooling`], [`probes`], [`retrieval`].
//! - Around it: [`cli`], [`bindings`], [`messages`].

#![allow(unused_imports)]

use vstd::prelude::*;

pub mod text;
pub mod lossy;
pub mod trie;
pub mod json_machine;
pub mod json_scan;
pub mod tools;
pub mod json_lists;
pub mod constrained;
pub mod bits;
pub mod word_map;
pub mod spaces;
pub mod le;
pub mod numerals;
pub mod sp_tokenizer;
pub mod sp_codec;
pub mod sp_laws;
pub mod merging;
pub mod pow2;
pub mod arith;
pub mod exact;
pub mod blocks;
pub mod hadamard;
pub mod dot;
pub mod quant;
pub mod int4;
pub mod cq;
pub mod matmul;
pub mod bands;
pub mod threads;
pub mod parallel;
pub mod rotate;
pub mod rotation;
pub mod cact;
pub mod cact_layout;
pub mod config;
pub mod kernels;
pub mod state;
pub mod trace;
pub mod engram;
pub mod model;
pub mod forward;
pub mod batch;
pub mod lanes;
pub mod memory;
pub mod attention;
pub mod pass;
pub mod run;
pub mod chunked;
pub mod formulas;
pub mod heads;
pub mod pooling;
pub mod bundle;
pub mod loading;
pub mod placement;
pub mod messages;
pub mod prompt;
pub mod sampling;
pub mod drawing;
pub mod engine;
pub mod stream;
pub mod calls;
pub mod v2_engine;
pub mod generate;
pub mod replies;
pub mod retrieval;
pub mod probes;
pub mod ready;
pub mod cli;
pub mod bindings;
