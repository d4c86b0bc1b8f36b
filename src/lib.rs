//! Rendering of walked filesystem paths as a connected tree diagram.
//!
//! The verified core rebuilds a tree from an ordered flat list of paths,
//! walks it depth first while tracking which branches are last siblings,
//! composes the output lines and counts directories and files.
pub mod cli;
pub mod indent;
pub mod output;
pub mod pathtree;
pub mod report;
pub mod settings;
pub mod utils;
