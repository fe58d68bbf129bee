//! Finds the Rust projects checked out under one directory and drives a small
//! numbered menu over them.
//!
//! The crate holds the decisions only: what a manifest says about a project,
//! which directory entries count as projects and in what order they are shown,
//! how a line typed at the prompt is understood, and the text that answers it.
//! Reading directories, files and the terminal is left to the caller.

pub mod discover;
pub mod input;
pub mod manifest;
pub mod project;
pub mod session;
pub mod text;
