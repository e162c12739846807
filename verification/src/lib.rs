//! A compiler and execution engine for a small robot-control scripting
//! language.
//!
//! A script is compiled in three stages: [`tokenizer`] splits the text into
//! tokens, [`parser`] builds a tree of commands from the tokens, and the
//! translator in [`ast`] lowers the command tree into a flat sequence of
//! register/label instructions.  The engine in [`engine`] then steps one
//! instruction per simulation tick against mutable robot state.

pub mod ast;
pub mod engine;
pub mod parser;
pub mod text;
pub mod tokenizer;
pub mod traces;
pub mod views;
