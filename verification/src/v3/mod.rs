//! Needle 3: geometry, container layout, caches and the depth ladder.

pub mod attention;
pub mod cache;
pub mod cact;
pub mod config;
pub mod container;
pub mod engine;
pub mod engram;
pub mod guard;
pub mod heads;
pub mod kernels;
pub mod ladder;
pub mod layout;
pub mod load;
pub mod message;
pub mod mhc;
pub mod model;
pub mod prefill;
pub mod rows;
pub mod slice;
pub mod taps;
