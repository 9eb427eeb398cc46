//! Decision logic of an accessibility service that finds and presses
//! "skip" buttons of advertisements: configuration, keyword matching,
//! the walk over the window's node tree, and the bounded event log.

pub mod text;
pub mod config;
pub mod clock;
pub mod logger;
pub mod keywords;
pub mod engine;
pub mod walk;
pub mod search;
