//! An incremental syntax-directed parser for an interactive code editor.
//!
//! A grammar is a fixed table of rules, each a small state machine over
//! either character ranges or nested rule references.  A document owns a
//! text buffer and the syntax tree of its current content; every edit
//! replaces a byte range of the buffer, shifts the spans of the previous
//! tree, and reparses, reusing subtrees whose spans were not touched by
//! the edit.

pub mod document;
pub mod laws;
pub mod node;
pub mod nodeiter;
pub mod parser;
pub mod rules;
pub mod semantics;
pub mod spans;
pub mod text;
