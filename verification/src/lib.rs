//! Verified core of the puzzle explorer: generator notation, orbit graph
//! canonization scripts, orbit analysis, axis definitions and their names,
//! puzzle file import checks, and the job protocols spoken with the GAP and
//! dreadnaut workers.

pub mod text;
pub mod generator;
pub mod canon;
pub mod sorting;
pub mod canonizer;
pub mod color;
pub mod examples;
pub mod types;
pub mod gap;
pub mod dreadnaut;
pub mod orbit;
pub mod axes;
pub mod puzzle_io;
pub mod pipeline;
pub mod gap_list;
