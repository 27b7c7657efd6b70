//! Classical algorithm tasks: reference algorithms with verified contracts,
//! the oracles and harness bookkeeping that check them, and the small text
//! and identifier rules the benchmark tooling is built on.

pub mod algorithms;
pub mod text;
pub mod basics;
pub mod annotations;
pub mod adjudication;
pub mod splits;
pub mod prompts;
pub mod lean;
pub mod diagnostics;
pub mod lean_text;
pub mod harness;
pub mod generators;
pub mod hashing;
pub mod lint;
pub mod release;
pub mod cli_rules;
pub mod records;
pub mod normalize;
pub mod review_text;
pub mod quality;
pub mod pilot;
pub mod manifest;
pub mod render;
pub mod coverage;
pub mod lean_check;
pub mod authoring;
pub mod dashboard;
pub mod axiomize;
pub mod paths;
pub mod scan;
pub mod proof_plan;
pub mod packet_check;
pub mod json;
pub mod providers;
pub mod run_plan;
pub mod generation;
