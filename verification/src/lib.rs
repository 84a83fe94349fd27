//! An AsciiDoc processor: preprocessor, block and inline parser, and an
//! HTML5 converter, with their behaviour stated as contracts.
pub mod text;
pub mod strmap;
pub mod ast;
pub mod convert;
pub mod parser;
pub mod preprocessor;
pub mod diag;
pub mod registry;
pub mod chunks;
pub mod properties;
pub mod cli;
