//! A version-identifier bump engine.
//!
//! Given a decomposition pattern (a regular expression with named groups), a
//! reassembly template (a string with `{label}` placeholders), a per-part
//! grammar, the current version string, and the label of the part to
//! increment, the engine produces the next version string: the requested part
//! is incremented (numerically, or by advancing through an ordered list of
//! allowed values), and every part of lower significance is reset to its
//! zero state. Significance is the left-to-right order of first appearance of
//! the labels in the reassembly template.

pub mod capture;
pub mod engine;
pub mod laws;
pub mod numeric;
pub mod order;
pub mod parts;
pub mod text;
