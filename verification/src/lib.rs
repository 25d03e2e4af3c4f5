//! Building blocks of a synthetic ("fake") font: which glyphs a Latin coverage
//! level keeps, how another script's glyphs are merged in without ambiguity,
//! how the corners of a designspace become masters, and how axes are described.

pub mod axes;
pub mod coords;
pub mod coverage;
pub mod designspace;
pub mod layers;
pub mod merge;
pub mod scripts;
pub mod stats;

pub use coverage::LatinCoverage;
