//! A terminal focus timer whose passing time fills a deterministic tetromino stack.
pub mod time;
pub mod timer;
pub mod cli;
pub mod render;
pub mod ui;
pub mod session;
