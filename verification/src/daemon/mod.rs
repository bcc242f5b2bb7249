//! The watch daemon's persistent state and decisions.
pub mod debounce;
pub mod state;
pub mod watcher;
