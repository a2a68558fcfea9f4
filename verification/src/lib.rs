//! Selective compaction for grid-based world saves.
//!
//! The library indexes per-chunk activity across region containers, decides
//! which chunks must survive (active chunks plus a protective buffer ring
//! around the edges of active terrain), and rewrites each container so that
//! only the surviving chunks remain.  All decision logic is verified; calls
//! into the container codec and the tagged-document decoder stand behind
//! trusted wrappers with explicit contracts.

pub mod bounds;
pub mod cli;
pub mod coords;
pub mod nbt;
pub mod parse;
pub mod prune;
pub mod region;
