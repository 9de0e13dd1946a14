//! The Nickel side: reading, walking and rewriting order files.
pub mod ast_utils;
pub mod layout;
pub mod literal;
pub mod loader;
pub mod meaning;
pub mod reading;
pub mod rewrite;
pub mod schema;
pub mod term;
