//! Turning the progress of a session into a picture of falling blocks.
pub mod blockstack;
