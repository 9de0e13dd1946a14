//! What the commands decide and show.
pub mod helpers;
pub mod machine;
pub mod status;
pub mod sync;
pub mod table;
pub mod view;
