//! Lexical scanner for a small dice-notation expression language
//! (`2d6 + 1`, `4d6k3`, `2d20 explode`).
//!
//! The scanner turns a character stream into typed, position-annotated
//! tokens, one per call, and reports malformed input as structured errors.

pub mod token;
