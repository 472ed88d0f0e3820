//! Streaming pattern matching over a byte source: a reader accumulates the
//! bytes that have arrived, and hands out the text before and including the
//! first match of a requested pattern.

pub mod error;
pub mod lemmas;
pub mod reader;
pub mod text;
