//! Line-oriented field extraction and templated rendering.
//!
//! A scanner turns each line of a text into a mapping from field keys to field
//! values, either from the capture groups of a pattern or by cutting the line at a
//! delimiter. A formatter renders every such mapping through a template whose
//! `{key}` placeholders name the fields.

pub mod config;
pub mod engine;
pub mod fields;
pub mod formatter;
pub mod pipeline;
pub mod scanner;
pub mod spans;
pub mod text;
