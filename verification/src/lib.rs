//! Verified reporting pipeline for a published epidemiological CSV dataset:
//! parsing of semicolon-delimited, comma-decimal records, windowed selection
//! of recent rows, and text rendering of plots and summary tables.

pub mod numbers;
pub mod parser;
pub mod plot;
pub mod records;
pub mod report;
pub mod text;
