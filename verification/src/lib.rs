//! Replays Nix derivations outside the sandbox.
pub mod aterm;
pub mod attrs;
pub mod backend;
pub mod cache;
pub mod cc_backend;
pub mod cc_hooks;
pub mod cc_units;
pub mod commands;
pub mod counts;
pub mod crate_executor;
pub mod cutoff;
pub mod digest;
pub mod drv;
pub mod edits;
pub mod executor;
pub mod graph;
pub mod json;
pub mod overrides;
pub mod path;
pub mod places;
pub mod progress;
pub mod resolve;
pub mod rewrite;
pub mod run;
pub mod rust_backend;
pub mod rust_hooks;
pub mod rust_pipeline;
pub mod rust_workspace;
pub mod rustc_wrap;
pub mod scheduler;
pub mod sorting;
pub mod strmap;
pub mod text;
pub mod topo;
pub mod tree;
pub mod worker;
