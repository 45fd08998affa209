//! Needle: the logic of an on-device tool-calling model runtime.
//!
//! The numeric kernels live outside this crate; what stands here is everything
//! that decides: geometry, container layouts, caches, tokenisation,
//! constrained decoding and the text around a tool call.

pub mod attn;
pub mod bytes;
pub mod calls;
pub mod config;
pub mod constrained;
pub mod declarations;
pub mod engine;
pub mod floats;
pub mod header;
pub mod json;
pub mod lists;
pub mod prompt;
pub mod quant;
pub mod rename;
pub mod safetensors;
pub mod snake;
pub mod text;
pub mod tokenizer;
pub mod tools;
pub mod trie;
pub mod v3;
pub mod weights;
