//! An interpreter for a color-based esoteric programming language.
//!
//! A program is a raster image: pixels are classified into 18 canonical
//! colors plus white and black, the classified grid is partitioned into
//! maximal 4-connected same-color blocks, and a stack machine executes
//! instructions derived from the color transitions between blocks.

pub mod ast;
pub mod compile;
pub mod engine;
pub mod grid;
pub mod util;
