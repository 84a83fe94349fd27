//! Output backends.
//!
//! HTML5 is the only backend. Each backend implements
//! [`crate::ast::Converter`] and depends only on [`crate::ast`].
pub mod html5;
