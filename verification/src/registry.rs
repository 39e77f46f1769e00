//! Synchronous in-memory registry of skill definitions.
//!
//! [`manager::SkillManager`] receives every skill at construction time, keeps
//! the first skill registered under each id, and is immutable afterwards.

pub mod manager;
