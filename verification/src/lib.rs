//! Gourd: scheduling and bookkeeping of algorithm-comparison experiments.
//!
//! The library holds the decisions of the `gourd` tool: how runs are laid
//! out, grouped into Slurm arrays, reported, analysed and re-run. Every
//! function here is verified against its contract; process spawning, file
//! access and prompting live in the application around it.
use vstd::prelude::*;

pub mod text;
pub mod printing;
pub mod duration;
pub mod model;
pub mod pattern;
pub mod plan;
pub mod status;
pub mod chunks;
pub mod array;
pub mod rerun;
pub mod slurm;
pub mod cli;
pub mod setlim;
pub mod init;
pub mod analyse;
pub mod log;
pub mod post;

verus! {

} // verus!
