//! Configuration: the settings and the directives that state them.

pub mod cfst;
pub mod parser;
