//! Verified building blocks of a YAML parser: a stack of event parsers that
//! reads nested inputs as one event stream, character-set checks for block
//! scalars, and a loader for flat documents of double-quoted values.
pub mod anchor_laws;
pub mod char_traits;
pub mod event;
pub mod parser;
pub mod parser_stack;
pub mod scanner;
pub mod yaml;
