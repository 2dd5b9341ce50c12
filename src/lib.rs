//! Co-change checking: recognises "if-change / then-change" annotation blocks
//! in source text and reports the obligations that a unified diff leaves
//! unmet.
//!
//! The layers, leaves first:
//! - `text`: character classes, trimming and line splitting over `Seq<char>`;
//! - `classify`: which marker a line holds;
//! - `parser`: the per-file state machine that turns lines into blocks and
//!   structural diagnostics;
//! - `diff`: the change at hand, read from a unified diff;
//! - `correlate`: discovery of the files that obligations reach, which blocks
//!   the change touched, and the diagnostics for unmet obligations;
//! - `diagnostic`: positions, output text and output order;
//! - `meaning` and `laws`: properties of the whole, proved.
pub mod text;
pub mod classify;
pub mod parser;
pub mod diff;
pub mod correlate;
pub mod diagnostic;
pub mod meaning;
pub mod laws;
