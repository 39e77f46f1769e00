//! Runtime value produced by a completed agent build.

use vstd::prelude::*;

use crate::skill::types::{DomainSkill, PlatformSkill};

verus! {

/// A concrete runtime instance built from domain and platform skill inputs.
#[derive(Debug, Clone, PartialEq, Eq)]
pub struct AgentRuntime {
    /// Domain-defined skills added to the agent context.
    pub domain_skills: Vec<DomainSkill>,
    /// Platform-defined skills available to the agent runtime.
    pub platform_skills: Vec<PlatformSkill>,
    /// Primary instructions injected into the agent prompt.
    pub instructions: String,
}

impl AgentRuntime {
    /// Creates a new runtime from its fully resolved values.
    pub fn new(
        domain_skills: Vec<DomainSkill>,
        platform_skills: Vec<PlatformSkill>,
        instructions: String,
    ) -> (r: Self)
        ensures
            r.domain_skills == domain_skills,
            r.platform_skills == platform_skills,
            r.instructions == instructions,
    {
        AgentRuntime { domain_skills, platform_skills, instructions }
    }
}

} // verus!
