//! Filtering logic applied when a runtime is built.

use vstd::prelude::*;

use crate::agent::disable::{DisabledGroup, DisabledGroups, DisabledGroupsView};
use crate::skill::types::PlatformSkill;
use crate::text::str_eq;

verus! {

/// The static group a platform skill belongs to: `p2` is in the second
/// group, every other id in the first.
pub open spec fn group_of(id: Seq<char>) -> DisabledGroup {
    if id == "p2"@ {
        DisabledGroup::Grupo2
    } else {
        DisabledGroup::Grupo1
    }
}

/// Whether a platform skill with this id is filtered out under `disabled`.
pub open spec fn excluded(disabled: DisabledGroupsView, id: Seq<char>) -> bool {
    disabled.excludes(group_of(id))
}

/// Returns `true` when a platform skill must be filtered out from the runtime.
pub fn should_exclude_platform_skill(skill: &PlatformSkill, disabled: &DisabledGroups) -> (r: bool)
    ensures
        r == excluded(disabled@, skill.id@),
{
    if disabled.all() {
        return true;
    }
    if disabled.is_empty() {
        return false;
    }
    let group = platform_group(skill);
    disabled.contains(group)
}

fn platform_group(skill: &PlatformSkill) -> (g: DisabledGroup)
    ensures
        g == group_of(skill.id@),
{
    let id = skill.id();
    proof {
        reveal_strlit("p1");
        reveal_strlit("p2");
        assert("p1"@[1] != "p2"@[1]);
    }
    if str_eq(id, "p1") {
        DisabledGroup::Grupo1
    } else if str_eq(id, "p2") {
        DisabledGroup::Grupo2
    } else {
        DisabledGroup::Grupo1
    }
}

} // verus!
