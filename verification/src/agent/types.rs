//! Agent record and its builder.

use vstd::prelude::*;

use crate::skill::types::{DomainSkill, PlatformSkill};

verus! {

/// An agent definition: instructions plus the skills it may use.
#[derive(Debug, Clone, Default)]
pub struct Agent {
    instructions: String,
    domain_skills: Vec<DomainSkill>,
    platform_skills: Vec<PlatformSkill>,
}

impl Agent {
    /// The instructions of the agent.
    pub closed spec fn spec_instructions(&self) -> Seq<char> {
        self.instructions@
    }

    /// The domain skills of the agent.
    pub closed spec fn spec_domain_skills(&self) -> Seq<DomainSkill> {
        self.domain_skills@
    }

    /// The platform skills of the agent.
    pub closed spec fn spec_platform_skills(&self) -> Seq<PlatformSkill> {
        self.platform_skills@
    }

    /// Returns the instructions for the agent.
    pub fn instructions(&self) -> (r: &str)
        ensures
            r@ == self.spec_instructions(),
    {
        self.instructions.as_str()
    }

    /// Returns the domain skills for the agent.
    pub fn domain_skills(&self) -> (r: &[DomainSkill])
        ensures
            r@ == self.spec_domain_skills(),
    {
        self.domain_skills.as_slice()
    }

    /// Returns the platform skills for the agent.
    pub fn platform_skills(&self) -> (r: &[PlatformSkill])
        ensures
            r@ == self.spec_platform_skills(),
    {
        self.platform_skills.as_slice()
    }
}

/// Error returned by [`AgentBuilder::build`] when `instructions` was not set.
#[derive(Debug, Clone, PartialEq, Eq)]
pub enum AgentBuilderError {
    /// The named field was never set.
    UninitializedField(String),
}

/// Builder for [`Agent`]: `instructions` is required, both skill lists
/// default to empty.
#[derive(Debug, Clone, Default)]
pub struct AgentBuilder {
    /// Pending instructions.
    pub instructions: Option<String>,
    /// Pending domain skills.
    pub domain_skills: Option<Vec<DomainSkill>>,
    /// Pending platform skills.
    pub platform_skills: Option<Vec<PlatformSkill>>,
}

impl AgentBuilder {
    /// Sets the instructions; the last call prevails.
    pub fn instructions(self, value: String) -> (r: Self)
        ensures
            r == (AgentBuilder { instructions: Some(value), ..self }),
    {
        AgentBuilder { instructions: Some(value), ..self }
    }

    /// Sets the domain skills; the last call prevails.
    pub fn domain_skills(self, value: Vec<DomainSkill>) -> (r: Self)
        ensures
            r == (AgentBuilder { domain_skills: Some(value), ..self }),
    {
        AgentBuilder { domain_skills: Some(value), ..self }
    }

    /// Sets the platform skills; the last call prevails.
    pub fn platform_skills(self, value: Vec<PlatformSkill>) -> (r: Self)
        ensures
            r == (AgentBuilder { platform_skills: Some(value), ..self }),
    {
        AgentBuilder { platform_skills: Some(value), ..self }
    }

    /// Builds the agent; fails exactly when the instructions were never set.
    pub fn build(self) -> (r: Result<Agent, AgentBuilderError>)
        ensures
            self.instructions is None <==> r is Err,
            r matches Err(AgentBuilderError::UninitializedField(f)) ==> f@ == "instructions"@,
            r matches Ok(a) ==> {
                &&& a.spec_instructions() == self.instructions->0@
                &&& a.spec_domain_skills() == match self.domain_skills {
                    Some(v) => v@,
                    None => Seq::<DomainSkill>::empty(),
                }
                &&& a.spec_platform_skills() == match self.platform_skills {
                    Some(v) => v@,
                    None => Seq::<PlatformSkill>::empty(),
                }
            },
    {
        match self.instructions {
            None => Err(AgentBuilderError::UninitializedField(String::from_str("instructions"))),
            Some(instructions) => {
                let domain_skills = match self.domain_skills {
                    Some(v) => v,
                    None => Vec::new(),
                };
                let platform_skills = match self.platform_skills {
                    Some(v) => v,
                    None => Vec::new(),
                };
                Ok(Agent { instructions, domain_skills, platform_skills })
            },
        }
    }
}

} // verus!
