//! Scheduling of comment posting across browser profiles: the accounts, profiles
//! and tasks, the profile-grouped execution plan, its cursor and the progress kept
//! over it.
pub mod models;
pub mod plan;
pub mod comments;
pub mod state;
pub mod window;
pub mod storage;
pub mod screenshot;
