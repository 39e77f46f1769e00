//! Skill records, their builders and the catalog entry type.

use vstd::prelude::*;

verus! {

/// A user-defined skill.
#[derive(Debug, Clone, PartialEq, Eq)]
pub struct DomainSkill {
    /// Unique identifier.
    pub id: String,
    /// Human-readable title.
    pub title: String,
    /// Short description shown in catalogs.
    pub description: String,
    /// Instruction body.
    pub instructions: String,
    /// Version label.
    pub version: String,
}

/// A skill that ships with the platform.
#[derive(Debug, Clone, PartialEq, Eq)]
pub struct PlatformSkill {
    /// Unique identifier.
    pub id: String,
    /// Human-readable title.
    pub title: String,
    /// Short description shown in catalogs.
    pub description: String,
    /// Instruction body.
    pub instructions: String,
    /// Version label.
    pub version: String,
    /// Loaded automatically into every session.
    pub always_load: bool,
}

/// Either kind of skill.
#[derive(Debug, Clone, PartialEq, Eq)]
pub enum Skill {
    /// A platform skill.
    Platform(PlatformSkill),
    /// A domain skill.
    Domain(DomainSkill),
}

/// Lightweight catalog entry.
#[derive(Debug, Clone, PartialEq, Eq)]
pub struct SkillMetadata {
    /// Skill id.
    pub id: String,
    /// Skill description.
    pub description: String,
}

impl DomainSkill {
    /// Returns the id.
    pub fn id(&self) -> (r: &str)
        ensures
            r@ == self.id@,
    {
        self.id.as_str()
    }

    /// Returns the title.
    pub fn title(&self) -> (r: &str)
        ensures
            r@ == self.title@,
    {
        self.title.as_str()
    }

    /// Returns the description.
    pub fn description(&self) -> (r: &str)
        ensures
            r@ == self.description@,
    {
        self.description.as_str()
    }

    /// Returns the instruction body.
    pub fn instructions(&self) -> (r: &str)
        ensures
            r@ == self.instructions@,
    {
        self.instructions.as_str()
    }

    /// Returns the version label.
    pub fn version(&self) -> (r: &str)
        ensures
            r@ == self.version@,
    {
        self.version.as_str()
    }
}

impl PlatformSkill {
    /// Returns the id.
    pub fn id(&self) -> (r: &str)
        ensures
            r@ == self.id@,
    {
        self.id.as_str()
    }

    /// Returns the title.
    pub fn title(&self) -> (r: &str)
        ensures
            r@ == self.title@,
    {
        self.title.as_str()
    }

    /// Returns the description.
    pub fn description(&self) -> (r: &str)
        ensures
            r@ == self.description@,
    {
        self.description.as_str()
    }

    /// Returns the instruction body.
    pub fn instructions(&self) -> (r: &str)
        ensures
            r@ == self.instructions@,
    {
        self.instructions.as_str()
    }

    /// Returns the version label.
    pub fn version(&self) -> (r: &str)
        ensures
            r@ == self.version@,
    {
        self.version.as_str()
    }

    /// Whether the skill is loaded into every session.
    pub fn always_load(&self) -> (r: bool)
        ensures
            r == self.always_load,
    {
        self.always_load
    }
}

impl Skill {
    /// The id of the wrapped skill.
    pub open spec fn spec_id(&self) -> Seq<char> {
        match self {
            Skill::Platform(p) => p.id@,
            Skill::Domain(d) => d.id@,
        }
    }

    /// The description of the wrapped skill.
    pub open spec fn spec_description(&self) -> Seq<char> {
        match self {
            Skill::Platform(p) => p.description@,
            Skill::Domain(d) => d.description@,
        }
    }

    /// The instructions of the wrapped skill.
    pub open spec fn spec_instructions(&self) -> Seq<char> {
        match self {
            Skill::Platform(p) => p.instructions@,
            Skill::Domain(d) => d.instructions@,
        }
    }

    /// The title of the wrapped skill.
    pub open spec fn spec_title(&self) -> Seq<char> {
        match self {
            Skill::Platform(p) => p.title@,
            Skill::Domain(d) => d.title@,
        }
    }

    /// Returns the id.
    pub fn id(&self) -> (r: &str)
        ensures
            r@ == self.spec_id(),
    {
        match self {
            Skill::Platform(p) => p.id.as_str(),
            Skill::Domain(d) => d.id.as_str(),
        }
    }

    /// Returns the title.
    pub fn title(&self) -> (r: &str)
        ensures
            r@ == self.spec_title(),
    {
        match self {
            Skill::Platform(p) => p.title.as_str(),
            Skill::Domain(d) => d.title.as_str(),
        }
    }

    /// Returns the description.
    pub fn description(&self) -> (r: &str)
        ensures
            r@ == self.spec_description(),
    {
        match self {
            Skill::Platform(p) => p.description.as_str(),
            Skill::Domain(d) => d.description.as_str(),
        }
    }

    /// Returns the instruction body.
    pub fn instructions(&self) -> (r: &str)
        ensures
            r@ == self.spec_instructions(),
    {
        match self {
            Skill::Platform(p) => p.instructions.as_str(),
            Skill::Domain(d) => d.instructions.as_str(),
        }
    }
}

/// Error returned by the skill builders when a required field was not set.
#[derive(Debug, Clone, PartialEq, Eq)]
pub enum SkillBuilderError {
    /// The named field was never set.
    UninitializedField(String),
}

/// Builder for [`DomainSkill`]. `id`, `title`, `description` and
/// `instructions` are required; `version` defaults to the empty string.
#[derive(Debug, Clone, Default)]
pub struct DomainSkillBuilder {
    /// Pending id.
    pub id: Option<String>,
    /// Pending title.
    pub title: Option<String>,
    /// Pending description.
    pub description: Option<String>,
    /// Pending instructions.
    pub instructions: Option<String>,
    /// Pending version.
    pub version: Option<String>,
}

/// Builder for [`PlatformSkill`]. `id`, `title`, `description` and
/// `instructions` are required; `version` defaults to the empty string and
/// `always_load` to `false`.
#[derive(Debug, Clone, Default)]
pub struct PlatformSkillBuilder {
    /// Pending id.
    pub id: Option<String>,
    /// Pending title.
    pub title: Option<String>,
    /// Pending description.
    pub description: Option<String>,
    /// Pending instructions.
    pub instructions: Option<String>,
    /// Pending version.
    pub version: Option<String>,
    /// Pending auto-load flag.
    pub always_load: Option<bool>,
}

/// The first required field that is still unset, in declaration order.
pub open spec fn first_missing(
    id: bool,
    title: bool,
    description: bool,
    instructions: bool,
) -> Option<Seq<char>> {
    if !id {
        Some("id"@)
    } else if !title {
        Some("title"@)
    } else if !description {
        Some("description"@)
    } else if !instructions {
        Some("instructions"@)
    } else {
        None
    }
}

fn missing_field(
    id: bool,
    title: bool,
    description: bool,
    instructions: bool,
) -> (r: Option<String>)
    ensures
        match first_missing(id, title, description, instructions) {
            Some(name) => r is Some && r->0@ == name,
            None => r is None,
        },
{
    if !id {
        Some(String::from_str("id"))
    } else if !title {
        Some(String::from_str("title"))
    } else if !description {
        Some(String::from_str("description"))
    } else if !instructions {
        Some(String::from_str("instructions"))
    } else {
        None
    }
}

impl DomainSkillBuilder {
    /// Sets the id.
    pub fn id(self, value: String) -> (r: Self)
        ensures
            r == (DomainSkillBuilder { id: Some(value), ..self }),
    {
        DomainSkillBuilder { id: Some(value), ..self }
    }

    /// Sets the title.
    pub fn title(self, value: String) -> (r: Self)
        ensures
            r == (DomainSkillBuilder { title: Some(value), ..self }),
    {
        DomainSkillBuilder { title: Some(value), ..self }
    }

    /// Sets the description.
    pub fn description(self, value: String) -> (r: Self)
        ensures
            r == (DomainSkillBuilder { description: Some(value), ..self }),
    {
        DomainSkillBuilder { description: Some(value), ..self }
    }

    /// Sets the instructions.
    pub fn instructions(self, value: String) -> (r: Self)
        ensures
            r == (DomainSkillBuilder { instructions: Some(value), ..self }),
    {
        DomainSkillBuilder { instructions: Some(value), ..self }
    }

    /// Sets the version.
    pub fn version(self, value: String) -> (r: Self)
        ensures
            r == (DomainSkillBuilder { version: Some(value), ..self }),
    {
        DomainSkillBuilder { version: Some(value), ..self }
    }

    /// Builds the skill; fails on the first required field that is unset.
    pub fn build(self) -> (r: Result<DomainSkill, SkillBuilderError>)
        ensures
            match first_missing(
                self.id is Some,
                self.title is Some,
                self.description is Some,
                self.instructions is Some,
            ) {
                Some(name) => r matches Err(SkillBuilderError::UninitializedField(f)) && f@ == name,
                None => r matches Ok(s) && s.id == self.id->0 && s.title == self.title->0
                    && s.description == self.description->0 && s.instructions
                    == self.instructions->0 && s.version@ == match self.version {
                    Some(v) => v@,
                    None => Seq::<char>::empty(),
                },
            },
    {
        let missing = missing_field(
            self.id.is_some(),
            self.title.is_some(),
            self.description.is_some(),
            self.instructions.is_some(),
        );
        if let Some(name) = missing {
            return Err(SkillBuilderError::UninitializedField(name));
        }
        let version = match self.version {
            Some(v) => v,
            None => String::new(),
        };
        Ok(
            DomainSkill {
                id: self.id.unwrap(),
                title: self.title.unwrap(),
                description: self.description.unwrap(),
                instructions: self.instructions.unwrap(),
                version,
            },
        )
    }
}

impl PlatformSkillBuilder {
    /// Sets the id.
    pub fn id(self, value: String) -> (r: Self)
        ensures
            r == (PlatformSkillBuilder { id: Some(value), ..self }),
    {
        PlatformSkillBuilder { id: Some(value), ..self }
    }

    /// Sets the title.
    pub fn title(self, value: String) -> (r: Self)
        ensures
            r == (PlatformSkillBuilder { title: Some(value), ..self }),
    {
        PlatformSkillBuilder { title: Some(value), ..self }
    }

    /// Sets the description.
    pub fn description(self, value: String) -> (r: Self)
        ensures
            r == (PlatformSkillBuilder { description: Some(value), ..self }),
    {
        PlatformSkillBuilder { description: Some(value), ..self }
    }

    /// Sets the instructions.
    pub fn instructions(self, value: String) -> (r: Self)
        ensures
            r == (PlatformSkillBuilder { instructions: Some(value), ..self }),
    {
        PlatformSkillBuilder { instructions: Some(value), ..self }
    }

    /// Sets the version.
    pub fn version(self, value: String) -> (r: Self)
        ensures
            r == (PlatformSkillBuilder { version: Some(value), ..self }),
    {
        PlatformSkillBuilder { version: Some(value), ..self }
    }

    /// Sets the auto-load flag.
    pub fn always_load(self, value: bool) -> (r: Self)
        ensures
            r == (PlatformSkillBuilder { always_load: Some(value), ..self }),
    {
        PlatformSkillBuilder { always_load: Some(value), ..self }
    }

    /// Builds the skill; fails on the first required field that is unset.
    pub fn build(self) -> (r: Result<PlatformSkill, SkillBuilderError>)
        ensures
            match first_missing(
                self.id is Some,
                self.title is Some,
                self.description is Some,
                self.instructions is Some,
            ) {
                Some(name) => r matches Err(SkillBuilderError::UninitializedField(f)) && f@ == name,
                None => r matches Ok(s) && s.id == self.id->0 && s.title == self.title->0
                    && s.description == self.description->0 && s.instructions
                    == self.instructions->0 && s.version@ == match self.version {
                    Some(v) => v@,
                    None => Seq::<char>::empty(),
                } && s.always_load == match self.always_load {
                    Some(b) => b,
                    None => false,
                },
            },
    {
        let missing = missing_field(
            self.id.is_some(),
            self.title.is_some(),
            self.description.is_some(),
            self.instructions.is_some(),
        );
        if let Some(name) = missing {
            return Err(SkillBuilderError::UninitializedField(name));
        }
        let version = match self.version {
            Some(v) => v,
            None => String::new(),
        };
        let always_load = match self.always_load {
            Some(b) => b,
            None => false,
        };
        Ok(
            PlatformSkill {
                id: self.id.unwrap(),
                title: self.title.unwrap(),
                description: self.description.unwrap(),
                instructions: self.instructions.unwrap(),
                version,
                always_load,
            },
        )
    }
}

} // verus!
