//! Skill manager: central registry for platform and domain skills.

use vstd::prelude::*;

use crate::skill::error::LoadSkillError;
use crate::skill::types::{DomainSkill, PlatformSkill, Skill, SkillMetadata};
use crate::text::str_eq;

verus! {

/// Error returned by [`SkillManager::load`] for an unknown id.
pub type LoadError = LoadSkillError;

/// Whether some skill of `s` has the id `id`.
pub open spec fn has_id(s: Seq<Skill>, id: Seq<char>) -> bool {
    exists|i: int| 0 <= i < s.len() && (#[trigger] s[i]).spec_id() == id
}

/// The skills of `s`, keeping only the first skill registered under each id.
pub open spec fn first_by_id(s: Seq<Skill>) -> Seq<Skill>
    decreases s.len(),
{
    if s.len() == 0 {
        s
    } else {
        let kept = first_by_id(s.drop_last());
        if has_id(kept, s.last().spec_id()) {
            kept
        } else {
            kept.push(s.last())
        }
    }
}

/// The registration order: platform skills first, then domain skills.
pub open spec fn registration_order(
    platform: Seq<PlatformSkill>,
    domain: Seq<DomainSkill>,
) -> Seq<Skill> {
    platform.map_values(|p: PlatformSkill| Skill::Platform(p)) + domain.map_values(
        |d: DomainSkill| Skill::Domain(d),
    )
}

/// No two skills of `s` share an id.
pub open spec fn unique_ids(s: Seq<Skill>) -> bool {
    forall|i: int, j: int|
        0 <= i < s.len() && 0 <= j < s.len() && i != j ==> #[trigger] s[i].spec_id()
            != #[trigger] s[j].spec_id()
}

/// Whether a skill appears in the user-facing catalog: every domain skill,
/// and the platform skills that are not loaded automatically.
pub open spec fn listed(s: Skill) -> bool {
    match s {
        Skill::Platform(p) => !p.always_load,
        Skill::Domain(_) => true,
    }
}

/// The catalog entry of a skill, as plain character sequences.
pub open spec fn entry_of(s: Skill) -> (Seq<char>, Seq<char>) {
    (s.spec_id(), s.spec_description())
}

/// Central registry for skill definitions.
#[derive(Debug)]
pub struct SkillManager {
    skills: Vec<Skill>,
}

impl View for SkillManager {
    type V = Seq<Skill>;

    closed spec fn view(&self) -> Seq<Skill> {
        self.skills@
    }
}

proof fn lemma_first_by_id_unique(s: Seq<Skill>)
    ensures
        unique_ids(first_by_id(s)),
    decreases s.len(),
{
    if s.len() > 0 {
        lemma_first_by_id_unique(s.drop_last());
    }
}

proof fn lemma_has_id_push(s: Seq<Skill>, x: Skill, id: Seq<char>)
    ensures
        has_id(s.push(x), id) == (has_id(s, id) || x.spec_id() == id),
{
    if has_id(s, id) {
        let i = choose|i: int| 0 <= i < s.len() && (#[trigger] s[i]).spec_id() == id;
        assert(s.push(x)[i] == s[i]);
    }
    if x.spec_id() == id {
        assert(s.push(x)[s.len() as int] == x);
    }
    if has_id(s.push(x), id) {
        let i = choose|i: int| 0 <= i < s.len() + 1 && (#[trigger] s.push(x)[i]).spec_id() == id;
        if i < s.len() {
            assert(s[i] == s.push(x)[i]);
        }
    }
}

proof fn lemma_first_by_id_has_id(s: Seq<Skill>, id: Seq<char>)
    ensures
        has_id(first_by_id(s), id) == has_id(s, id),
    decreases s.len(),
{
    if s.len() > 0 {
        let kept = first_by_id(s.drop_last());
        lemma_first_by_id_has_id(s.drop_last(), id);
        lemma_has_id_push(s.drop_last(), s.last(), id);
        assert(s.drop_last().push(s.last()) =~= s);
        lemma_has_id_push(kept, s.last(), id);
        lemma_first_by_id_has_id(s.drop_last(), s.last().spec_id());
    }
}

/// Whether `s[j]` is the first skill of `s` registered under its id.
pub open spec fn first_with_id(s: Seq<Skill>, j: int) -> bool {
    0 <= j < s.len() && forall|i: int| 0 <= i < j ==> (#[trigger] s[i]).spec_id() != s[j].spec_id()
}

/// Whether `x` is the first skill of `s` registered under its id.
pub open spec fn is_first_skill(s: Seq<Skill>, x: Skill) -> bool {
    exists|j: int| first_with_id(s, j) && s[j] == x
}

proof fn lemma_first_by_id_origin(s: Seq<Skill>)
    ensures
        forall|k: int| 0 <= k < first_by_id(s).len() ==> is_first_skill(s, #[trigger] first_by_id(s)[k]),
    decreases s.len(),
{
    if s.len() > 0 {
        let init = s.drop_last();
        let kept = first_by_id(init);
        let last = s.last();
        lemma_first_by_id_origin(init);
        lemma_first_by_id_has_id(init, last.spec_id());
        let r = first_by_id(s);
        assert forall|k: int| 0 <= k < r.len() implies is_first_skill(s, #[trigger] r[k]) by {
            if k < kept.len() {
                assert(r[k] == kept[k]);
                assert(is_first_skill(init, kept[k]));
                let j = choose|j: int| first_with_id(init, j) && init[j] == kept[k];
                assert(s[j] == init[j]);
                assert forall|i: int| 0 <= i < j implies (#[trigger] s[i]).spec_id() != s[j].spec_id() by {
                    assert(s[i] == init[i]);
                }
                assert(first_with_id(s, j));
            } else {
                let j = s.len() - 1;
                assert(!has_id(init, last.spec_id()));
                assert forall|i: int| 0 <= i < j implies (#[trigger] s[i]).spec_id() != s[j].spec_id() by {
                    assert(s[i] == init[i]);
                }
                assert(first_with_id(s, j));
                assert(r[k] == s[j]);
            }
        }
    }
}

/// The first registration of an id wins: the skill kept under the id of
/// the first skill registered with it is that skill, and no other skill is
/// kept under that id. In registration order platform skills come before
/// domain skills, so a platform skill wins over a domain skill with the
/// same id, and within each list the earlier skill wins.
pub proof fn lemma_first_registration_wins(s: Seq<Skill>, j: int)
    requires
        first_with_id(s, j),
    ensures
        first_by_id(s).contains(s[j]),
        forall|k: int|
            0 <= k < first_by_id(s).len() && (#[trigger] first_by_id(s)[k]).spec_id() == s[j].spec_id()
                ==> first_by_id(s)[k] == s[j],
{
    let r = first_by_id(s);
    lemma_first_by_id_origin(s);
    lemma_first_by_id_has_id(s, s[j].spec_id());
    assert(has_id(s, s[j].spec_id()));
    let k = choose|k: int| 0 <= k < r.len() && (#[trigger] r[k]).spec_id() == s[j].spec_id();
    assert forall|k2: int| 0 <= k2 < r.len() && (#[trigger] r[k2]).spec_id() == s[j].spec_id() implies r[k2]
        == s[j] by {
        assert(is_first_skill(s, r[k2]));
        let i = choose|i: int| first_with_id(s, i) && s[i] == r[k2];
        if i < j {
            assert(s[i].spec_id() != s[j].spec_id());
        } else if i > j {
            assert(s[j].spec_id() != s[i].spec_id());
        }
    }
    assert(r[k] == s[j]);
}

/// What `load` finds, for a registry built from `platform` and `domain`:
/// a skill is found under `id` exactly when some registered skill has that
/// id, and every skill kept under `id` is the first one registered with it,
/// platform skills before domain skills, each list in its order.
pub proof fn lemma_registry_load(platform: Seq<PlatformSkill>, domain: Seq<DomainSkill>, id: Seq<char>)
    ensures
        has_id(first_by_id(registration_order(platform, domain)), id) == has_id(
            registration_order(platform, domain),
            id,
        ),
        forall|s: Skill|
            first_by_id(registration_order(platform, domain)).contains(s) && s.spec_id() == id ==> exists|j: int|
                first_with_id(registration_order(platform, domain), j) && #[trigger] registration_order(
                    platform,
                    domain,
                )[j] == s,
        forall|j: int|
            0 <= j < registration_order(platform, domain).len() ==> #[trigger] registration_order(
                platform,
                domain,
            )[j] == if j < platform.len() {
                Skill::Platform(platform[j])
            } else {
                Skill::Domain(domain[j - platform.len()])
            },
{
    let order = registration_order(platform, domain);
    lemma_first_by_id_has_id(order, id);
    lemma_first_by_id_origin(order);
    let f = first_by_id(order);
    assert forall|s: Skill| f.contains(s) && s.spec_id() == id implies exists|j: int|
        first_with_id(order, j) && #[trigger] order[j] == s by {
        let k = choose|k: int| 0 <= k < f.len() && f[k] == s;
        assert(is_first_skill(order, f[k]));
    }
}

proof fn lemma_filter_unique_ids(s: Seq<Skill>, pred: spec_fn(Skill) -> bool)
    requires
        unique_ids(s),
    ensures
        unique_ids(s.filter(pred)),
    decreases s.len(),
{
    reveal_with_fuel(Seq::<_>::filter, 1);
    if s.len() > 0 {
        let init = s.drop_last();
        assert(unique_ids(init)) by {
            assert forall|i: int, j: int|
                0 <= i < init.len() && 0 <= j < init.len() && i != j implies #[trigger] init[i].spec_id()
                != #[trigger] init[j].spec_id() by {
                assert(init[i] == s[i] && init[j] == s[j]);
            }
        }
        lemma_filter_unique_ids(init, pred);
        let fi = init.filter(pred);
        if pred(s.last()) {
            let r = fi.push(s.last());
            assert(s.filter(pred) == r);
            assert forall|i: int, j: int| 0 <= i < r.len() && 0 <= j < r.len() && i != j implies #[trigger] r[i].spec_id()
                != #[trigger] r[j].spec_id() by {
                if i < fi.len() && j < fi.len() {
                    assert(r[i] == fi[i] && r[j] == fi[j]);
                } else {
                    let k = if i < fi.len() { i } else { j };
                    assert(r[k] == fi[k]);
                    init.lemma_filter_contains_rev(pred, fi[k]);
                    let m = choose|m: int| 0 <= m < init.len() && init[m] == fi[k];
                    assert(s[m] == init[m]);
                    assert(s[s.len() - 1].spec_id() != s[m].spec_id());
                }
            }
        } else {
            assert(s.filter(pred) == fi);
        }
    }
}

/// The skills of `s` that the catalog lists, in order.
pub open spec fn listed_skills(s: Seq<Skill>) -> Seq<Skill> {
    s.filter(|x: Skill| listed(x))
}

/// The catalog entries of the skills `s`, in order.
pub open spec fn catalog_entries(s: Seq<Skill>) -> Seq<(Seq<char>, Seq<char>)> {
    listed_skills(s).map_values(|x: Skill| entry_of(x))
}

/// Whether `e` is the catalog entry of a listed skill of `skills`.
pub open spec fn is_listed_entry(skills: Seq<Skill>, e: (Seq<char>, Seq<char>)) -> bool {
    exists|s: Skill| skills.contains(s) && listed(s) && e == entry_of(s)
}

/// The catalog of a registry lists each user-visible kept skill exactly
/// once: its ids are pairwise distinct, every kept skill that is not an
/// automatically loaded platform skill has its entry in it, and every entry
/// is the entry of such a skill. With `SkillManager::new`, the kept skills
/// are the first registered under each id (see
/// [`lemma_registry_load`]).
pub proof fn lemma_catalog_entries(skills: Seq<Skill>)
    requires
        unique_ids(skills),
    ensures
        forall|i: int, j: int|
            0 <= i < j < catalog_entries(skills).len() ==> (#[trigger] catalog_entries(skills)[i]).0 != (
            #[trigger] catalog_entries(skills)[j]).0,
        forall|s: Skill| skills.contains(s) && listed(s) ==> #[trigger] catalog_entries(skills).contains(entry_of(s)),
        forall|k: int|
            0 <= k < catalog_entries(skills).len() ==> is_listed_entry(skills, #[trigger] catalog_entries(skills)[k]),
{
    let pred = |x: Skill| listed(x);
    lemma_filter_unique_ids(skills, pred);
    let fl = skills.filter(pred);
    let ce = catalog_entries(skills);
    skills.filter_lemma(pred);
    assert forall|i: int, j: int| 0 <= i < j < ce.len() implies (#[trigger] ce[i]).0 != (#[trigger] ce[j]).0 by {
        assert(ce[i] == entry_of(fl[i]));
        assert(ce[j] == entry_of(fl[j]));
    }
    assert forall|k: int| 0 <= k < ce.len() implies is_listed_entry(skills, #[trigger] ce[k]) by {
        assert(ce[k] == entry_of(fl[k]));
        assert(pred(fl[k]));
        skills.lemma_filter_contains_rev(pred, fl[k]);
        assert(skills.contains(fl[k]) && listed(fl[k]));
    }
    assert forall|s: Skill| skills.contains(s) && listed(s) implies #[trigger] ce.contains(entry_of(s)) by {
        let i = choose|i: int| 0 <= i < skills.len() && skills[i] == s;
        assert(pred(skills[i]));
        assert(fl.contains(s));
        let k = choose|k: int| 0 <= k < fl.len() && fl[k] == s;
        assert(ce[k] == entry_of(s));
    }
}

impl SkillManager {
    /// Creates a manager from platform and domain skills. Platform skills
    /// take precedence over domain skills with the same id, and within each
    /// list earlier entries take precedence over later ones.
    pub fn new(platform_skills: Vec<PlatformSkill>, domain_skills: Vec<DomainSkill>) -> (r: Self)
        ensures
            unique_ids(r@),
            r@ == first_by_id(registration_order(platform_skills@, domain_skills@)),
    {
        let ghost order = registration_order(platform_skills@, domain_skills@);
        let ghost np = platform_skills@.len();
        assert(forall|k: int| 0 <= k < np ==> #[trigger] order[k] == Skill::Platform(platform_skills@[k]));
        assert(forall|k: int|
            0 <= k < domain_skills@.len() ==> #[trigger] order[np + k] == Skill::Domain(domain_skills@[k]));
        assert(order.take(0) =~= Seq::<Skill>::empty());
        let mut skills: Vec<Skill> = Vec::new();
        for skill in it: platform_skills
            invariant
                np == it.seq().len(),
                order.len() >= np,
                forall|k: int| 0 <= k < np ==> #[trigger] order[k] == Skill::Platform(it.seq()[k]),
                skills@ == first_by_id(order.take(it.index() as int)),
        {
            let id_present = Self::find(&skills, skill.id());
            proof {
                lemma_first_by_id_has_id(order.take(it.index() as int), skill.id@);
                assert(order.take(it.index() + 1).drop_last() =~= order.take(it.index() as int));
                assert(order.take(it.index() + 1).last() == Skill::Platform(skill));
            }
            if id_present.is_none() {
                skills.push(Skill::Platform(skill));
            }
        }
        for skill in it: domain_skills
            invariant
                np <= order.len(),
                it.seq().len() == order.len() - np,
                forall|k: int|
                    0 <= k < it.seq().len() ==> #[trigger] order[np + k] == Skill::Domain(
                        it.seq()[k],
                    ),
                skills@ == first_by_id(order.take(np + it.index())),
        {
            let id_present = Self::find(&skills, skill.id());
            proof {
                lemma_first_by_id_has_id(order.take(np + it.index()), skill.id@);
                assert(order.take(np + it.index() + 1).drop_last() =~= order.take(np + it.index()));
                assert(order.take(np + it.index() + 1).last() == order[np + it.index()]);
            }
            if id_present.is_none() {
                skills.push(Skill::Domain(skill));
            }
        }
        proof {
            assert(order.take(order.len() as int) =~= order);
            lemma_first_by_id_unique(order);
        }
        SkillManager { skills }
    }

    /// Index of the skill stored under `id`, if any.
    fn find(skills: &Vec<Skill>, id: &str) -> (r: Option<usize>)
        ensures
            match r {
                Some(i) => i < skills@.len() && skills@[i as int].spec_id() == id@,
                None => !has_id(skills@, id@),
            },
    {
        let mut i: usize = 0;
        while i < skills.len()
            invariant
                i <= skills@.len(),
                forall|j: int| 0 <= j < i ==> (#[trigger] skills@[j]).spec_id() != id@,
            decreases skills@.len() - i,
        {
            if str_eq(skills[i].id(), id) {
                return Some(i);
            }
            i = i + 1;
        }
        None
    }

    /// Returns the catalog of user-visible skills: every stored domain skill
    /// and every stored platform skill that is not loaded automatically, in
    /// registration order.
    pub fn catalog(&self) -> (r: Vec<SkillMetadata>)
        ensures
            r@.map_values(|m: SkillMetadata| (m.id@, m.description@)) == self@.filter(
                |s: Skill| listed(s),
            ).map_values(|s: Skill| entry_of(s)),
    {
        let mut result: Vec<SkillMetadata> = Vec::new();
        let mut i: usize = 0;
        while i < self.skills.len()
            invariant
                i <= self.skills@.len(),
                result@.map_values(|m: SkillMetadata| (m.id@, m.description@)) == self.skills@.take(
                    i as int,
                ).filter(|s: Skill| listed(s)).map_values(|s: Skill| entry_of(s)),
            decreases self.skills@.len() - i,
        {
            proof {
                reveal_with_fuel(Seq::<_>::filter, 1);
                assert(self.skills@.take(i + 1).drop_last() =~= self.skills@.take(i as int));
            }
            let ghost before = result@;
            match &self.skills[i] {
                Skill::Platform(p) => {
                    if !p.always_load() {
                        result.push(
                            SkillMetadata { id: p.id.clone(), description: p.description.clone() },
                        );
                    }
                },
                Skill::Domain(d) => {
                    result.push(
                        SkillMetadata { id: d.id.clone(), description: d.description.clone() },
                    );
                },
            }
            proof {
                let f = |m: SkillMetadata| (m.id@, m.description@);
                let g = |s: Skill| entry_of(s);
                let kept = self.skills@.take(i as int).filter(|s: Skill| listed(s));
                let kept2 = self.skills@.take(i + 1).filter(|s: Skill| listed(s));
                if listed(self.skills@[i as int]) {
                    assert(kept2 == kept.push(self.skills@[i as int]));
                    assert(result@ == before.push(result@.last()));
                    assert(result@.map_values(f) =~= before.map_values(f).push(f(result@.last())));
                    assert(kept2.map_values(g) =~= kept.map_values(g).push(g(self.skills@[i as int])));
                } else {
                    assert(kept2 == kept);
                }
            }
            i = i + 1;
        }
        proof {
            assert(self.skills@.take(self.skills@.len() as int) =~= self.skills@);
        }
        result
    }

    /// Loads the skill registered under `id`.
    ///
    /// Fails with [`LoadError`] carrying `id` when no skill has that id.
    pub fn load(&self, id: &str) -> (r: Result<&Skill, LoadError>)
        ensures
            has_id(self@, id@) <==> r is Ok,
            r matches Ok(s) ==> s.spec_id() == id@ && self@.contains(*s),
            r matches Err(e) ==> e.id@ == id@,
    {
        match Self::find(&self.skills, id) {
            Some(i) => {
                proof {
                    assert(self@[i as int] == self.skills@[i as int]);
                }
                Ok(&self.skills[i])
            },
            None => Err(LoadSkillError { id: id.to_owned() }),
        }
    }
}

impl Default for SkillManager {
    fn default() -> (r: Self)
        ensures
            r@ == Seq::<Skill>::empty(),
    {
        SkillManager { skills: Vec::new() }
    }
}

} // verus!
