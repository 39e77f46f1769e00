//! Group-based disable rules for runtime platform skills.

use vstd::prelude::*;

verus! {

/// Static groups that may be disabled from platform skills.
#[derive(Debug, Clone, Copy, PartialEq, Eq, Structural, PartialOrd, Ord, Hash)]
pub enum DisabledGroup {
    /// Disables the first static platform-skill group.
    Grupo1,
    /// Disables the second static platform-skill group.
    Grupo2,
}

/// Abstract content of a [`DisabledGroups`]: the selected groups and whether
/// the whole static set was disabled.
pub struct DisabledGroupsView {
    /// Groups selected one by one.
    pub groups: Set<DisabledGroup>,
    /// Whether every group is disabled.
    pub all: bool,
}

impl DisabledGroupsView {
    /// Whether `group` is disabled.
    pub open spec fn excludes(self, group: DisabledGroup) -> bool {
        self.all || self.groups.contains(group)
    }
}

/// Collection of disabled groups for a runtime build.
#[derive(Debug, Clone, Default, PartialEq, Eq)]
pub struct DisabledGroups {
    grupo1: bool,
    grupo2: bool,
    all: bool,
}

impl View for DisabledGroups {
    type V = DisabledGroupsView;

    closed spec fn view(&self) -> DisabledGroupsView {
        DisabledGroupsView {
            groups: Set::new(
                |g: DisabledGroup|
                    match g {
                        DisabledGroup::Grupo1 => self.grupo1,
                        DisabledGroup::Grupo2 => self.grupo2,
                    },
            ),
            all: self.all,
        }
    }
}

impl DisabledGroups {
    /// Starts with no disabled groups selected.
    pub fn new() -> (r: Self)
        ensures
            r@.groups == Set::<DisabledGroup>::empty(),
            !r@.all,
    {
        let r = DisabledGroups { grupo1: false, grupo2: false, all: false };
        assert(r@.groups =~= Set::<DisabledGroup>::empty());
        r
    }

    /// Adds a single static group to the disabled set.
    pub fn insert(&mut self, group: DisabledGroup)
        ensures
            final(self)@.groups == old(self)@.groups.insert(group),
            final(self)@.all == old(self)@.all,
    {
        match group {
            DisabledGroup::Grupo1 => self.grupo1 = true,
            DisabledGroup::Grupo2 => self.grupo2 = true,
        }
        assert(self@.groups =~= old(self)@.groups.insert(group));
    }

    /// Marks the entire static set as disabled.
    pub fn disable_all(&mut self)
        ensures
            final(self)@.groups == old(self)@.groups,
            final(self)@.all,
    {
        self.all = true;
        assert(self@.groups =~= old(self)@.groups);
    }

    /// Returns `true` when all groups are disabled.
    pub fn all(&self) -> (r: bool)
        ensures
            r == self@.all,
    {
        self.all
    }

    /// Returns `true` when the requested group is disabled.
    pub fn contains(&self, group: DisabledGroup) -> (r: bool)
        ensures
            r == self@.excludes(group),
    {
        match group {
            DisabledGroup::Grupo1 => self.all || self.grupo1,
            DisabledGroup::Grupo2 => self.all || self.grupo2,
        }
    }

    /// Returns `true` when no groups were selected in the flow.
    pub fn is_empty(&self) -> (r: bool)
        ensures
            r == (!self@.all && self@.groups == Set::<DisabledGroup>::empty()),
    {
        let r = !self.all && !self.grupo1 && !self.grupo2;
        if !self.grupo1 && !self.grupo2 {
            assert(self@.groups =~= Set::<DisabledGroup>::empty());
        } else if self.grupo1 {
            assert(self@.groups.contains(DisabledGroup::Grupo1));
        } else {
            assert(self@.groups.contains(DisabledGroup::Grupo2));
        }
        r
    }
}

} // verus!
