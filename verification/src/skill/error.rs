//! Error values for the skill subsystem.
//!
//! [`MarkdownSkillError`] describes why a markdown skill could not be parsed;
//! [`LoadSkillError`] reports a lookup of an unknown skill id.

use vstd::prelude::*;

use crate::text::occurs_at;

verus! {

/// Abstract content of a [`MarkdownSkillError`].
pub enum MarkdownFailure {
    /// The YAML frontmatter contains invalid syntax.
    YamlParse { id: Option<Seq<char>>, title: Option<Seq<char>>, msg: Seq<char> },
    /// A required field is missing from the frontmatter.
    MissingField { id: Option<Seq<char>>, title: Option<Seq<char>>, field: Seq<char> },
    /// The body after the frontmatter is empty or whitespace-only.
    EmptyBody { id: Option<Seq<char>>, title: Option<Seq<char>> },
    /// The `---` delimiters around the frontmatter are missing.
    InvalidDelimiters { id: Option<Seq<char>>, title: Option<Seq<char>> },
}

/// The characters of an optional string.
pub open spec fn opt_view(o: Option<String>) -> Option<Seq<char>> {
    match o {
        Some(s) => Some(s@),
        None => None,
    }
}

/// Error produced when parsing a skill from a markdown string.
///
/// Every variant carries the `id` and `title` read so far, when they were
/// read, to give context to the message.
#[derive(Debug, Clone, PartialEq, Eq)]
pub enum MarkdownSkillError {
    /// The YAML frontmatter contains invalid syntax.
    YamlParse {
        /// Skill id, if parsed before the error occurred.
        id: Option<String>,
        /// Skill title, if parsed before the error occurred.
        title: Option<String>,
        /// Human-readable YAML parse error.
        msg: String,
    },
    /// A required field is missing from the frontmatter.
    MissingField {
        /// Skill id, if parsed.
        id: Option<String>,
        /// Skill title, if parsed.
        title: Option<String>,
        /// Name of the missing field.
        field: String,
    },
    /// The markdown body after the frontmatter is empty or whitespace-only.
    EmptyBody {
        /// Skill id, if parsed.
        id: Option<String>,
        /// Skill title, if parsed.
        title: Option<String>,
    },
    /// The markdown input does not have the expected `---` delimiters.
    InvalidDelimiters {
        /// Skill id, if parsed.
        id: Option<String>,
        /// Skill title, if parsed.
        title: Option<String>,
    },
}

impl View for MarkdownSkillError {
    type V = MarkdownFailure;

    open spec fn view(&self) -> MarkdownFailure {
        match self {
            MarkdownSkillError::YamlParse { id, title, msg } => MarkdownFailure::YamlParse {
                id: opt_view(*id),
                title: opt_view(*title),
                msg: msg@,
            },
            MarkdownSkillError::MissingField { id, title, field } => MarkdownFailure::MissingField {
                id: opt_view(*id),
                title: opt_view(*title),
                field: field@,
            },
            MarkdownSkillError::EmptyBody { id, title } => MarkdownFailure::EmptyBody {
                id: opt_view(*id),
                title: opt_view(*title),
            },
            MarkdownSkillError::InvalidDelimiters { id, title } => MarkdownFailure::InvalidDelimiters {
                id: opt_view(*id),
                title: opt_view(*title),
            },
        }
    }
}

/// The human-readable message of a markdown failure.
pub open spec fn failure_message(f: MarkdownFailure) -> Seq<char> {
    match f {
        MarkdownFailure::YamlParse { id, msg, .. } => match id {
            Some(id) => "Failed to parse YAML frontmatter for skill '"@ + id + "': "@ + msg,
            None => "Failed to parse YAML frontmatter: "@ + msg,
        },
        MarkdownFailure::MissingField { id, field, .. } => match id {
            Some(id) => "Missing required field '"@ + field + "' for skill '"@ + id + "'"@,
            None => "Missing required field '"@ + field + "'"@,
        },
        MarkdownFailure::EmptyBody { id, .. } => match id {
            Some(id) => "Skill '"@ + id + "' has an empty body"@,
            None => "Skill has an empty body"@,
        },
        MarkdownFailure::InvalidDelimiters { id, .. } => match id {
            Some(id) => "Invalid markdown delimiters for skill '"@ + id + "'"@,
            None => "Invalid markdown delimiters"@,
        },
    }
}

/// `f` with its title context replaced by `title`.
pub open spec fn with_title(f: MarkdownFailure, title: Option<Seq<char>>) -> MarkdownFailure {
    match f {
        MarkdownFailure::YamlParse { id, msg, .. } => MarkdownFailure::YamlParse { id, title, msg },
        MarkdownFailure::MissingField { id, field, .. } => MarkdownFailure::MissingField { id, title, field },
        MarkdownFailure::EmptyBody { id, .. } => MarkdownFailure::EmptyBody { id, title },
        MarkdownFailure::InvalidDelimiters { id, .. } => MarkdownFailure::InvalidDelimiters { id, title },
    }
}

/// The text of an error names the skill by its id only: the title read
/// before the error does not change it.
pub proof fn lemma_message_ignores_title(f: MarkdownFailure, title: Option<Seq<char>>)
    ensures
        failure_message(with_title(f, title)) == failure_message(f),
{
}

/// The skill id a markdown failure carries, if it was read.
pub open spec fn failure_id(f: MarkdownFailure) -> Option<Seq<char>> {
    match f {
        MarkdownFailure::YamlParse { id, .. } => id,
        MarkdownFailure::MissingField { id, .. } => id,
        MarkdownFailure::EmptyBody { id, .. } => id,
        MarkdownFailure::InvalidDelimiters { id, .. } => id,
    }
}

/// The text of an error names the skill whenever its id was read: the id
/// stands in it between single quotes.
pub proof fn lemma_message_names_id(f: MarkdownFailure)
    ensures
        failure_id(f) matches Some(id) ==> exists|j: int| #[trigger] occurs_at(failure_message(f), "'"@ + id + "'"@, j),
{
    reveal_strlit("'");
    reveal_strlit("Failed to parse YAML frontmatter for skill '");
    reveal_strlit("': ");
    reveal_strlit("Missing required field '");
    reveal_strlit("' for skill '");
    reveal_strlit("Skill '");
    reveal_strlit("' has an empty body");
    reveal_strlit("Invalid markdown delimiters for skill '");
    if let Some(id) = failure_id(f) {
        let q = "'"@ + id + "'"@;
        let m = failure_message(f);
        let j: int = match f {
            MarkdownFailure::YamlParse { .. } => 43,
            MarkdownFailure::MissingField { field, .. } => 24 + field.len() as int + 12,
            MarkdownFailure::EmptyBody { .. } => 6,
            MarkdownFailure::InvalidDelimiters { .. } => 38,
        };
        assert(m.subrange(j, j + q.len()) =~= q);
        assert(occurs_at(m, q, j));
    }
}

/// The text of an error without a skill id never says "for skill" of its
/// own: such words can only come from the YAML message or the field name
/// it quotes.
pub proof fn lemma_message_without_id(f: MarkdownFailure)
    requires
        failure_id(f) is None,
    ensures
        forall|j: int|
            #[trigger] occurs_at(failure_message(f), "for skill"@, j) ==> match f {
                MarkdownFailure::YamlParse { msg, .. } => 34 <= j,
                MarkdownFailure::MissingField { field, .. } => 24 <= j && j + 9 <= 24 + field.len(),
                _ => false,
            },
{
    reveal_strlit("for skill");
    reveal_strlit("Failed to parse YAML frontmatter: ");
    reveal_strlit("Missing required field '");
    reveal_strlit("'");
    reveal_strlit("Skill has an empty body");
    reveal_strlit("Invalid markdown delimiters");
    let m = failure_message(f);
    let w = "for skill"@;
    assert forall|j: int| #[trigger] occurs_at(m, w, j) implies match f {
        MarkdownFailure::YamlParse { msg, .. } => 34 <= j,
        MarkdownFailure::MissingField { field, .. } => 24 <= j && j + 9 <= 24 + field.len(),
        _ => false,
    } by {
        assert(m[j] == m.subrange(j, j + 9)[0]);
        assert(m[j + 1] == m.subrange(j, j + 9)[1]);
        assert(m[j + 8] == m.subrange(j, j + 9)[8]);
        match f {
            MarkdownFailure::YamlParse { msg, .. } => {
                let p = "Failed to parse YAML frontmatter: "@;
                assert(forall|i: int| 0 <= i < 34 && p[i] == 'f' ==> i == 21);
                assert(p[22] == 'r');
                if j < 34 {
                    assert(m[j] == p[j]);
                    assert(m[22] == p[22]);
                }
            },
            MarkdownFailure::MissingField { field, .. } => {
                let p = "Missing required field '"@;
                assert(forall|i: int| 0 <= i < 24 && p[i] == 'f' ==> i == 17);
                assert(p[18] == 'i');
                if j < 24 {
                    assert(m[j] == p[j]);
                    assert(m[18] == p[18]);
                } else if j + 9 > 24 + field.len() {
                    assert(m[24 + field.len() as int] == '\'');
                }
            },
            MarkdownFailure::EmptyBody { .. } => {
                assert(forall|i: int| 0 <= i < 23 ==> "Skill has an empty body"@[i] != 'f');
            },
            MarkdownFailure::InvalidDelimiters { .. } => {
                assert(forall|i: int| 0 <= i < 27 ==> "Invalid markdown delimiters"@[i] != 'f');
            },
        }
    }
}

impl MarkdownSkillError {
    /// Renders the human-readable message of the error.
    pub fn message(&self) -> (r: String)
        ensures
            r@ == failure_message(self@),
    {
        match self {
            MarkdownSkillError::YamlParse { id, msg, .. } => match id {
                Some(id) => {
                    let mut r = String::from_str("Failed to parse YAML frontmatter for skill '");
                    r.append(id.as_str());
                    r.append("': ");
                    r.append(msg.as_str());
                    r
                },
                None => {
                    let mut r = String::from_str("Failed to parse YAML frontmatter: ");
                    r.append(msg.as_str());
                    r
                },
            },
            MarkdownSkillError::MissingField { id, field, .. } => match id {
                Some(id) => {
                    let mut r = String::from_str("Missing required field '");
                    r.append(field.as_str());
                    r.append("' for skill '");
                    r.append(id.as_str());
                    r.append("'");
                    r
                },
                None => {
                    let mut r = String::from_str("Missing required field '");
                    r.append(field.as_str());
                    r.append("'");
                    r
                },
            },
            MarkdownSkillError::EmptyBody { id, .. } => match id {
                Some(id) => {
                    let mut r = String::from_str("Skill '");
                    r.append(id.as_str());
                    r.append("' has an empty body");
                    r
                },
                None => String::from_str("Skill has an empty body"),
            },
            MarkdownSkillError::InvalidDelimiters { id, .. } => match id {
                Some(id) => {
                    let mut r = String::from_str("Invalid markdown delimiters for skill '");
                    r.append(id.as_str());
                    r.append("'");
                    r
                },
                None => String::from_str("Invalid markdown delimiters"),
            },
        }
    }
}

/// Error returned when a requested skill id is not found.
#[derive(Debug, Clone, PartialEq, Eq)]
pub struct LoadSkillError {
    /// The id that was requested but not found.
    pub id: String,
}

impl LoadSkillError {
    /// The human-readable message of this error.
    pub open spec fn spec_message(&self) -> Seq<char> {
        "Skill '"@ + self.id@ + "' not found"@
    }

    /// Renders the human-readable message: `Skill '<id>' not found`.
    pub fn message(&self) -> (r: String)
        ensures
            r@ == self.spec_message(),
    {
        let mut r = String::from_str("Skill '");
        r.append(self.id.as_str());
        r.append("' not found");
        r
    }
}

} // verus!
