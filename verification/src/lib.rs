//! Word-frequency counting: a term scanner, a word interner, a counting
//! table with a case policy, and an ordered report.

pub mod counts;
pub mod interner;
pub mod pipeline;
pub mod render;
pub mod report;
pub mod scanner;
pub mod text;
