//! A dotfiles manager: orders in Nickel are built, compared with what is deployed,
//! pushed to their targets and pulled back.
pub mod commands;
pub mod compose;
pub mod context;
pub mod diff;
pub mod formats;
pub mod globs;
pub mod json;
pub mod metadata;
pub mod nickel;
pub mod output;
pub mod pairs;
pub mod sync;
pub mod text;
