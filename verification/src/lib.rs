//! Fork-join processing of a large CSV dataset of NO2 measurements.
//!
//! The verified library holds the parts of the pipeline that decide things:
//! how a file is cut into chunks, which lines each chunk reads, how a line is
//! split into fields, how the integer fields are parsed, and how the engine is
//! configured from its settings.
pub mod chunk;
pub mod engine;
pub mod errors;
pub mod lines;
pub mod line_parser;
pub mod processor;
pub mod text;
pub mod unicode;
