//! Skill definitions and helpers.
//!
//! Platform skills ship with the runtime; domain skills are user-defined and
//! are usually built with [`DomainSkillBuilder`](types::DomainSkillBuilder)
//! or parsed from markdown.

pub mod error;
pub mod manager;
pub mod markdown;
pub mod types;
