//! Core library of the Carisa agent platform: skill definitions and their
//! registries, agent builders, and the session log (projection, streaming
//! capture, in-memory and Redis storage layout, and migration to cold
//! storage).

pub mod agent;
pub mod log;
pub mod registry;
pub mod skill;
pub mod text;

pub use skill::types::{
    DomainSkill, DomainSkillBuilder, PlatformSkill, PlatformSkillBuilder, Skill, SkillMetadata,
};
