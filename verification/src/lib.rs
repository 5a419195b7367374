//! The pipe tool's core: embedding fenced blocks before parsing, walking parse trees into
//! values, the runtime's routing decisions, and the log module's lines.

pub mod assoc;
pub mod embed;
pub mod modules;
pub mod parser;
pub mod pipe;
pub mod runtime;
pub mod tree;
pub mod value;
pub mod walk_laws;
pub mod walk_spec;
