//! Decision logic of a Mixture-of-Experts inference engine, verified with Verus.
//!
//! Everything here works on plain values. Floating-point numbers appear as their bit patterns;
//! device calls, files and the floating-point kernels live in the program around this library.

pub mod attention;
pub mod bytes;
pub mod colisource;
pub mod config;
pub mod digest;
pub mod edge0_router;
pub mod edge0_train_trace;
pub mod engine_order;
pub mod experts;
pub mod floatbits;
pub mod fp8;
pub mod fusion;
pub mod gate;
pub mod gdn;
pub mod gdn_ane;
pub mod ggml;
pub mod gguf;
pub mod gguf_layout;
pub mod ggufsource;
pub mod greedy;
pub mod hybrid_stage;
pub mod json;
pub mod mlx_affine_cuda;
pub mod model;
pub mod moe;
pub mod mxfp4;
pub mod named_tensors;
pub mod number_order;
pub mod packed_rows;
pub mod performance;
pub mod plan;
pub mod ple;
pub mod prefill;
pub mod probe;
pub mod rank;
pub mod route;
pub mod runtime;
pub mod safetensors;
pub mod sched;
pub mod settings;
pub mod stage_counts;
pub mod stage_history;
pub mod state_order;
pub mod text;
pub mod token;
pub mod trace_layout;
pub mod weights;
