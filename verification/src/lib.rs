//! Pure logic behind a git panel: status codes, capped diff text, commit
//! summaries and the decisions that steer staging, committing and showing.
//! Everything that touches a repository lives outside this crate; the
//! functions here take the plain values read from the repository and
//! compute what is shown or done.

pub mod actions;
pub mod diff;
pub mod history;
pub mod status;
pub mod text;

pub use status::{has_index_change, porcelain};
pub use text::{short_hash, truncate_utf8};
