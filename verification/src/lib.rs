//! Small verified text utilities: decimal rendering, line and word statistics,
//! and a keyword search over the text files of a directory.

pub mod config;
pub mod coordinator;
pub mod decimal;
pub mod dictionary;
pub mod downloads;
pub mod fizzbuzz;
pub mod line_stats;
pub mod matcher;
pub mod text;
pub mod word_count;
