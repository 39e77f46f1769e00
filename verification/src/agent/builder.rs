//! Type-state builder for constructing an agent runtime.

use vstd::prelude::*;

use crate::agent::disable::{DisabledGroup, DisabledGroups, DisabledGroupsView};
use crate::agent::filter::{excluded, should_exclude_platform_skill};
use crate::agent::runtime::AgentRuntime;
use crate::skill::types::{DomainSkill, PlatformSkill};

verus! {

/// The platform skills that survive the disabled groups, in the order they
/// were given in.
pub open spec fn kept_platform_skills(
    skills: Seq<PlatformSkill>,
    disabled: DisabledGroupsView,
) -> Seq<PlatformSkill> {
    skills.filter(|s: PlatformSkill| !excluded(disabled, s.id@))
}

/// The order of group calls does not matter: disabling `g1` then `g2`
/// keeps the same platform skills as disabling `g2` then `g1`.
pub proof fn lemma_group_order_irrelevant(
    skills: Seq<PlatformSkill>,
    disabled: DisabledGroupsView,
    g1: DisabledGroup,
    g2: DisabledGroup,
)
    ensures
        kept_platform_skills(
            skills,
            DisabledGroupsView { groups: disabled.groups.insert(g1).insert(g2), all: disabled.all },
        ) == kept_platform_skills(
            skills,
            DisabledGroupsView { groups: disabled.groups.insert(g2).insert(g1), all: disabled.all },
        ),
{
    assert(disabled.groups.insert(g1).insert(g2) =~= disabled.groups.insert(g2).insert(g1));
}

/// A repeated group call changes nothing: disabling a group twice keeps
/// the same platform skills as disabling it once.
pub proof fn lemma_group_call_idempotent(
    skills: Seq<PlatformSkill>,
    disabled: DisabledGroupsView,
    g: DisabledGroup,
)
    ensures
        kept_platform_skills(
            skills,
            DisabledGroupsView { groups: disabled.groups.insert(g).insert(g), all: disabled.all },
        ) == kept_platform_skills(
            skills,
            DisabledGroupsView { groups: disabled.groups.insert(g), all: disabled.all },
        ),
{
    assert(disabled.groups.insert(g).insert(g) =~= disabled.groups.insert(g));
}

/// Disabling the whole static set keeps no platform skill.
pub proof fn lemma_all_disabled_keeps_none(skills: Seq<PlatformSkill>, disabled: DisabledGroupsView)
    requires
        disabled.all,
    ensures
        kept_platform_skills(skills, disabled) == Seq::<PlatformSkill>::empty(),
    decreases skills.len(),
{
    reveal_with_fuel(Seq::<_>::filter, 1);
    if skills.len() > 0 {
        lemma_all_disabled_keeps_none(skills.drop_last(), disabled);
    }
}

/// With no group disabled, every platform skill is kept, in order.
pub proof fn lemma_nothing_disabled_keeps_all(skills: Seq<PlatformSkill>, disabled: DisabledGroupsView)
    requires
        !disabled.all,
        disabled.groups == Set::<DisabledGroup>::empty(),
    ensures
        kept_platform_skills(skills, disabled) == skills,
    decreases skills.len(),
{
    reveal_with_fuel(Seq::<_>::filter, 1);
    if skills.len() > 0 {
        lemma_nothing_disabled_keeps_all(skills.drop_last(), disabled);
        assert(skills.drop_last().push(skills.last()) =~= skills);
    }
}

/// Abstract content of a builder state: the skills and instructions
/// configured so far and the groups disabled so far.
pub struct BuilderView {
    pub domain_skills: Seq<DomainSkill>,
    pub instructions: Seq<char>,
    pub platform_skills: Seq<PlatformSkill>,
    pub disabled: DisabledGroupsView,
}

/// No group disabled.
pub open spec fn nothing_disabled() -> DisabledGroupsView {
    DisabledGroupsView { groups: Set::empty(), all: false }
}

/// Initial builder state.
#[derive(Debug, Clone, Default)]
pub struct AgentBuilder {
    domain_skills: Vec<DomainSkill>,
    instructions: String,
    platform_skills: Vec<PlatformSkill>,
}

impl View for AgentBuilder {
    type V = BuilderView;

    closed spec fn view(&self) -> BuilderView {
        BuilderView {
            domain_skills: self.domain_skills@,
            instructions: self.instructions@,
            platform_skills: self.platform_skills@,
            disabled: nothing_disabled(),
        }
    }
}

impl AgentBuilder {
    /// Starts the type-state builder with no skills and empty instructions.
    pub fn new() -> (r: Self)
        ensures
            r@.domain_skills == Seq::<DomainSkill>::empty(),
            r@.instructions == Seq::<char>::empty(),
            r@.platform_skills == Seq::<PlatformSkill>::empty(),
            r@.disabled == nothing_disabled(),
    {
        AgentBuilder {
            domain_skills: Vec::new(),
            instructions: String::new(),
            platform_skills: Vec::new(),
        }
    }

    /// Replaces the current domain list; the last call prevails.
    pub fn domain_skill(self, skills: Vec<DomainSkill>) -> (r: Self)
        ensures
            r@ == (BuilderView { domain_skills: skills@, ..self@ }),
    {
        AgentBuilder { domain_skills: skills, ..self }
    }

    /// Replaces the current instructions; the last call prevails.
    pub fn instructions(self, instructions: String) -> (r: Self)
        ensures
            r@ == (BuilderView { instructions: instructions@, ..self@ }),
    {
        AgentBuilder { instructions, ..self }
    }

    /// Stores the platform list and moves to the platform-aware state.
    pub fn platform_skill(self, skills: Vec<PlatformSkill>) -> (r: AgentBuilderWithPlatform)
        ensures
            r@ == (BuilderView { platform_skills: skills@, ..self@ }),
    {
        AgentBuilderWithPlatform {
            domain_skills: self.domain_skills,
            instructions: self.instructions,
            platform_skills: skills,
        }
    }

    /// Builds the runtime from the latest value of each field.
    pub fn build(self) -> (r: AgentRuntime)
        ensures
            r.domain_skills@ == self@.domain_skills,
            r.platform_skills@ == self@.platform_skills,
            r.instructions@ == self@.instructions,
    {
        AgentRuntime::new(self.domain_skills, self.platform_skills, self.instructions)
    }
}

/// Builder state after a platform skill list has been configured; no group
/// is disabled in this state (groups are chosen in the disable flow).
#[derive(Debug, Clone)]
pub struct AgentBuilderWithPlatform {
    domain_skills: Vec<DomainSkill>,
    instructions: String,
    platform_skills: Vec<PlatformSkill>,
}

impl View for AgentBuilderWithPlatform {
    type V = BuilderView;

    closed spec fn view(&self) -> BuilderView {
        BuilderView {
            domain_skills: self.domain_skills@,
            instructions: self.instructions@,
            platform_skills: self.platform_skills@,
            disabled: nothing_disabled(),
        }
    }
}

impl AgentBuilderWithPlatform {

    /// Replaces the domain skills; the last call prevails.
    pub fn domain_skill(self, skills: Vec<DomainSkill>) -> (r: Self)
        ensures
            r@ == (BuilderView { domain_skills: skills@, ..self@ }),
    {
        AgentBuilderWithPlatform { domain_skills: skills, ..self }
    }

    /// Replaces the instructions; the last call prevails.
    pub fn instructions(self, instructions: String) -> (r: Self)
        ensures
            r@ == (BuilderView { instructions: instructions@, ..self@ }),
    {
        AgentBuilderWithPlatform { instructions, ..self }
    }

    /// Replaces the platform skills; the last call prevails.
    pub fn platform_skill(self, skills: Vec<PlatformSkill>) -> (r: Self)
        ensures
            r@ == (BuilderView { platform_skills: skills@, ..self@ }),
    {
        AgentBuilderWithPlatform { platform_skills: skills, ..self }
    }

    /// Enters the disable flow with no group selected.
    pub fn disable(self) -> (r: DisableBuilder)
        ensures
            r@ == (BuilderView { disabled: nothing_disabled(), ..self@ }),
    {
        let r = DisableBuilder {
            domain_skills: self.domain_skills,
            instructions: self.instructions,
            platform_skills: self.platform_skills,
            disabled: DisabledGroups::new(),
        };
        assert(r@.disabled == nothing_disabled());
        r
    }

    /// Builds the runtime; with no group disabled, every platform skill is
    /// kept.
    pub fn build(self) -> (r: AgentRuntime)
        ensures
            r.domain_skills@ == self@.domain_skills,
            r.instructions@ == self@.instructions,
            r.platform_skills@ == self@.platform_skills,
    {
        let disabled = DisabledGroups::new();
        proof {
            assert(disabled@ == nothing_disabled());
            lemma_nothing_disabled_keeps_all(self.platform_skills@, disabled@);
        }
        build_runtime(self.domain_skills, self.platform_skills, self.instructions, &disabled)
    }
}

/// State inside the disable flow before the final `done` call.
#[derive(Debug, Clone)]
pub struct DisableBuilder {
    domain_skills: Vec<DomainSkill>,
    instructions: String,
    platform_skills: Vec<PlatformSkill>,
    disabled: DisabledGroups,
}

impl View for DisableBuilder {
    type V = BuilderView;

    closed spec fn view(&self) -> BuilderView {
        BuilderView {
            domain_skills: self.domain_skills@,
            instructions: self.instructions@,
            platform_skills: self.platform_skills@,
            disabled: self.disabled@,
        }
    }
}

impl DisableBuilder {
    /// Marks the first disabled group.
    pub fn grupo1(self) -> (r: Self)
        ensures
            r@ == (BuilderView {
                disabled: DisabledGroupsView {
                    groups: self@.disabled.groups.insert(DisabledGroup::Grupo1),
                    all: self@.disabled.all,
                },
                ..self@
            }),
    {
        let mut s = self;
        s.disabled.insert(DisabledGroup::Grupo1);
        s
    }

    /// Marks the second disabled group.
    pub fn grupo2(self) -> (r: Self)
        ensures
            r@ == (BuilderView {
                disabled: DisabledGroupsView {
                    groups: self@.disabled.groups.insert(DisabledGroup::Grupo2),
                    all: self@.disabled.all,
                },
                ..self@
            }),
    {
        let mut s = self;
        s.disabled.insert(DisabledGroup::Grupo2);
        s
    }

    /// Disables all groups and moves to the `all` state.
    pub fn all(self) -> (r: AllGroupsBuilder)
        ensures
            r@ == (BuilderView {
                disabled: DisabledGroupsView { groups: self@.disabled.groups, all: true },
                ..self@
            }),
    {
        let mut s = self;
        s.disabled.disable_all();
        AllGroupsBuilder {
            domain_skills: s.domain_skills,
            instructions: s.instructions,
            platform_skills: s.platform_skills,
            disabled: s.disabled,
        }
    }

    /// Finishes the disable flow.
    pub fn done(self) -> (r: AgentBuilderFinal)
        ensures
            r@ == self@,
    {
        AgentBuilderFinal {
            domain_skills: self.domain_skills,
            instructions: self.instructions,
            platform_skills: self.platform_skills,
            disabled: self.disabled,
        }
    }
}

/// State reached after calling `all()` in the disable flow.
#[derive(Debug, Clone)]
pub struct AllGroupsBuilder {
    domain_skills: Vec<DomainSkill>,
    instructions: String,
    platform_skills: Vec<PlatformSkill>,
    disabled: DisabledGroups,
}

impl View for AllGroupsBuilder {
    type V = BuilderView;

    closed spec fn view(&self) -> BuilderView {
        BuilderView {
            domain_skills: self.domain_skills@,
            instructions: self.instructions@,
            platform_skills: self.platform_skills@,
            disabled: self.disabled@,
        }
    }
}

impl AllGroupsBuilder {
    /// Closes the disable flow after `all()`.
    pub fn done(self) -> (r: AgentBuilderFinal)
        ensures
            r@ == self@,
    {
        AgentBuilderFinal {
            domain_skills: self.domain_skills,
            instructions: self.instructions,
            platform_skills: self.platform_skills,
            disabled: self.disabled,
        }
    }
}

/// Builder state after the disable flow has completed.
#[derive(Debug, Clone)]
pub struct AgentBuilderFinal {
    domain_skills: Vec<DomainSkill>,
    instructions: String,
    platform_skills: Vec<PlatformSkill>,
    disabled: DisabledGroups,
}

impl View for AgentBuilderFinal {
    type V = BuilderView;

    closed spec fn view(&self) -> BuilderView {
        BuilderView {
            domain_skills: self.domain_skills@,
            instructions: self.instructions@,
            platform_skills: self.platform_skills@,
            disabled: self.disabled@,
        }
    }
}

impl AgentBuilderFinal {
    /// Replaces the domain skills; the last call prevails.
    pub fn domain_skill(self, skills: Vec<DomainSkill>) -> (r: Self)
        ensures
            r@ == (BuilderView { domain_skills: skills@, ..self@ }),
    {
        AgentBuilderFinal { domain_skills: skills, ..self }
    }

    /// Replaces the instructions; the last call prevails.
    pub fn instructions(self, instructions: String) -> (r: Self)
        ensures
            r@ == (BuilderView { instructions: instructions@, ..self@ }),
    {
        AgentBuilderFinal { instructions, ..self }
    }

    /// Builds the runtime, dropping the platform skills of disabled groups.
    pub fn build(self) -> (r: AgentRuntime)
        ensures
            r.domain_skills@ == self@.domain_skills,
            r.instructions@ == self@.instructions,
            r.platform_skills@ == kept_platform_skills(self@.platform_skills, self@.disabled),
    {
        build_runtime(self.domain_skills, self.platform_skills, self.instructions, &self.disabled)
    }
}

/// Entering the disable flow and leaving it with no group selected builds
/// the same runtime as building directly: `disable().done().build()` keeps
/// every platform skill, in order, as `build()` does.
pub proof fn lemma_empty_disable_flow_builds_the_same(platform: Seq<PlatformSkill>)
    ensures
        kept_platform_skills(platform, nothing_disabled()) == platform,
{
    lemma_nothing_disabled_keeps_all(platform, nothing_disabled());
}

fn build_runtime(
    domain_skills: Vec<DomainSkill>,
    platform_skills: Vec<PlatformSkill>,
    instructions: String,
    disabled: &DisabledGroups,
) -> (r: AgentRuntime)
    ensures
        r.domain_skills == domain_skills,
        r.instructions == instructions,
        r.platform_skills@ == kept_platform_skills(platform_skills@, disabled@),
{
    let mut filtered: Vec<PlatformSkill> = Vec::with_capacity(platform_skills.len());
    let ghost all = platform_skills@;
    let ghost keep = |s: PlatformSkill| !excluded(disabled@, s.id@);
    for skill in it: platform_skills
        invariant
            it.seq() == all,
            keep == (|s: PlatformSkill| !excluded(disabled@, s.id@)),
            filtered@ == all.take(it.index() as int).filter(keep),
    {
        proof {
            reveal_with_fuel(Seq::<_>::filter, 1);
            assert(all.take(it.index() + 1).drop_last() =~= all.take(it.index() as int));
        }
        if !should_exclude_platform_skill(&skill, disabled) {
            filtered.push(skill);
        }
    }
    proof {
        assert(all.take(all.len() as int) =~= all);
    }
    AgentRuntime::new(domain_skills, filtered, instructions)
}

} // verus!
