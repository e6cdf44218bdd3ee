//! What a project is.

pub mod project;
