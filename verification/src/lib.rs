//! A rule-driven structural linter core.
//!
//! A catalog of rules, each a structural pattern with a description template,
//! is applied to one parsed source file. Matches become diagnostics, which are
//! filtered (trailing guard, suppression), deduplicated within each rule,
//! templated, ordered across rules, and rendered.

pub mod diag;
pub mod engine;
pub mod aggregate;
pub mod applicator;
pub mod laws;
pub mod lint;
pub mod render;
pub mod template;
