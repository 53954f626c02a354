//! Pipeline expressions over flat token sequences.
//!
//! A pipeline is an initial expression followed by stages, each introduced by
//! a separator token. Every stage consumes the value of the one before it,
//! either through an explicit placeholder or, when the stage names none, as
//! the sole argument of an implicit call.

pub mod cut;
pub mod emit;
pub mod error;
pub mod expand;
pub mod grammar;
pub mod nesting;
pub mod rewrite;
pub mod split;
pub mod token;

pub use error::PipeError;
pub use expand::{expand, pipe};
pub use grammar::Grammar;
pub use rewrite::{rewrite, RewriteResult};
pub use split::{split, Split};
pub use token::{Delimiter, Token};
