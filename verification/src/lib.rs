//! Record, replay, diff, fork and check agent session runs.

pub mod strings;
pub mod model;
pub mod json;
pub mod transcript;
pub mod fork;
pub mod check;
pub mod diff;
pub mod replay;
pub mod sessions;
pub mod summary;
