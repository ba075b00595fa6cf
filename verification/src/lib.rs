//! Scanner runtime for a compiled rule language: a compact-bytecode condition
//! evaluator, a scan engine that records which rules matched, and the
//! structured-binary parsers that rule modules expose to conditions.

pub mod bitmap;
pub mod bytes;
pub mod codec;
pub mod compiler;
pub mod laws;
pub mod matcher;
pub mod modules;
pub mod olecf;
pub mod pool;
pub mod rules;
pub mod scanner;
pub mod values;
pub mod vm;
