//! A single-pass JSON parser and the immutable value tree it produces,
//! together with the typed accessors that read the tree. The grammar is
//! written down once as a functional specification, and the parser is
//! proved to return exactly what that specification says; the accessors
//! carry exact contracts over the tree's mathematical content.

pub mod errors;
pub mod grammar;
pub mod node;
pub mod parser;
pub mod stop_watch;
pub mod text;

pub use crate::errors::ErrorCause;
pub use crate::node::{Node, Number};
pub use crate::parser::parse_json;
pub use crate::stop_watch::StopWatch;
