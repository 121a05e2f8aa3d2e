//! Colourised text diffs whose replaced blocks are aligned line by line.

pub mod diff;
