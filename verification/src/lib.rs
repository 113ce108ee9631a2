//! A regular-expression tester's core: it collects the matches of a pattern in
//! a subject text and lays each match out as coloured regions that show its
//! capture groups, however deeply they nest.

pub mod collect;
pub mod colors;
pub mod converse;
pub mod label;
pub mod matcher;
pub mod nesting;
pub mod palette;
pub mod partition;
pub mod pattern;
pub mod region;
pub mod render;
pub mod span;
pub mod tiling;
