//! A dotfile manager's deployment logic: which files are new, kept or gone,
//! what to do on disk for each of them, and what the cache records afterwards.
pub mod behaviour;
pub mod deploy;
pub mod files;
pub mod laws;
pub mod path;
pub mod plan;
pub mod state;
