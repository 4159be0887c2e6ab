//! Primitives for autonomous research loops: experiment lineage, metrics,
//! gates, outcomes, Pareto frontiers, frontier ranking and an evidence ledger.

pub mod text;
pub mod ids;
pub mod clock;
pub mod keyed;
pub mod lm_loop;
pub mod textmap;
pub mod json;
pub mod outcome;
pub mod acceptance;
pub mod policy;
pub mod stop;
pub mod graph;
pub mod pareto;
pub mod frontier;
pub mod absorb;
pub mod opportunity;
pub mod boss;
pub mod proposer;
pub mod cache;
pub mod loop_opt;
pub mod cli_args;
pub mod adapter;
pub mod optimize;
