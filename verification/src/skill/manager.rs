//! Prompt registry for the skills available in a Carisa runtime.
//!
//! The manager renders every skill once into the XML fragment that is
//! injected into an agent context, keeps the fragments of the skills that are
//! loaded automatically, and prepares a catalog prompt listing the remaining
//! skills.

use vstd::prelude::*;

use crate::skill::error::LoadSkillError;
use crate::skill::types::{DomainSkill, PlatformSkill};
use crate::text::str_eq;

verus! {

/// A resolved prompt payload ready to be injected into an agent context.
#[derive(Debug, Clone)]
pub struct SkillPrompt {
    full: String,
    always_load: bool,
}

impl View for SkillPrompt {
    /// The rendered text and the auto-load flag.
    type V = (Seq<char>, bool);

    closed spec fn view(&self) -> (Seq<char>, bool) {
        (self.full@, self.always_load)
    }
}

impl SkillPrompt {
    /// Consumes the prompt and returns its rendered text.
    pub fn into_owned(self) -> (r: String)
        ensures
            r@ == self@.0,
    {
        self.full
    }

    /// Returns `true` when this skill should be auto-loaded into the session.
    pub fn always_load(&self) -> (r: bool)
        ensures
            r == self@.1,
    {
        self.always_load
    }

    fn duplicate(&self) -> (r: SkillPrompt)
        ensures
            r@ == self@,
    {
        SkillPrompt { full: self.full.clone(), always_load: self.always_load }
    }
}

/// The XML fragment rendered for a skill.
pub open spec fn render(
    id: Seq<char>,
    title: Seq<char>,
    version: Seq<char>,
    instructions: Seq<char>,
) -> Seq<char> {
    "<skill id=\""@ + id + "\" title=\""@ + title + "\" version=\""@ + version + "\">\n"@
        + instructions + "\n</skill>"@
}

/// The catalog line of a skill.
pub open spec fn catalog_line(id: Seq<char>, description: Seq<char>) -> Seq<char> {
    "- id: "@ + id + " — "@ + description
}

/// The lines of `lines` separated by single newlines.
pub open spec fn join_lines(lines: Seq<Seq<char>>) -> Seq<char>
    decreases lines.len(),
{
    if lines.len() == 0 {
        Seq::empty()
    } else if lines.len() == 1 {
        lines[0]
    } else {
        join_lines(lines.drop_last()) + "\n"@ + lines.last()
    }
}

/// The text that introduces the catalog of additional skills.
pub open spec fn catalog_header() -> Seq<char> {
    "Tienes disponibles los siguientes skills adicionales. Usa `load_skill(id)` si la tarea lo requiere.\n\n"@
}

/// The prompt of a platform skill.
pub open spec fn platform_prompt(p: PlatformSkill) -> (Seq<char>, bool) {
    (render(p.id@, p.title@, p.version@, p.instructions@), p.always_load)
}

/// The prompt of a domain skill; domain skills are never auto-loaded.
pub open spec fn domain_prompt(d: DomainSkill) -> (Seq<char>, bool) {
    (render(d.id@, d.title@, d.version@, d.instructions@), false)
}

/// Every skill in registration order, keyed by id: platform skills first.
pub open spec fn keyed_prompts(
    platform: Seq<PlatformSkill>,
    domain: Seq<DomainSkill>,
) -> Seq<(Seq<char>, (Seq<char>, bool))> {
    platform.map_values(|p: PlatformSkill| (p.id@, platform_prompt(p))) + domain.map_values(
        |d: DomainSkill| (d.id@, domain_prompt(d)),
    )
}

/// Whether some entry of `s` has the key `k`.
pub open spec fn has_key<V>(s: Seq<(Seq<char>, V)>, k: Seq<char>) -> bool {
    exists|i: int| 0 <= i < s.len() && (#[trigger] s[i]).0 == k
}

/// The entries of `s`, keeping only the first entry under each key.
pub open spec fn first_by_key<V>(s: Seq<(Seq<char>, V)>) -> Seq<(Seq<char>, V)>
    decreases s.len(),
{
    if s.len() == 0 {
        s
    } else {
        let kept = first_by_key(s.drop_last());
        if has_key(kept, s.last().0) {
            kept
        } else {
            kept.push(s.last())
        }
    }
}

/// The prompts loaded into every session: the auto-loaded platform skills,
/// duplicates included, in order.
pub open spec fn bootstrap_of(platform: Seq<PlatformSkill>) -> Seq<(Seq<char>, bool)> {
    platform.filter(|p: PlatformSkill| p.always_load).map_values(
        |p: PlatformSkill| platform_prompt(p),
    )
}

/// The catalog lines: the platform skills that are not auto-loaded, then
/// every domain skill, duplicates included, in order.
pub open spec fn catalog_lines_of(
    platform: Seq<PlatformSkill>,
    domain: Seq<DomainSkill>,
) -> Seq<Seq<char>> {
    platform.filter(|p: PlatformSkill| !p.always_load).map_values(
        |p: PlatformSkill| catalog_line(p.id@, p.description@),
    ) + domain.map_values(|d: DomainSkill| catalog_line(d.id@, d.description@))
}

/// The catalog prompt for the given lines: none when there is no line.
pub open spec fn catalog_of(lines: Seq<Seq<char>>) -> Option<(Seq<char>, bool)> {
    if lines.len() == 0 {
        None
    } else {
        Some((catalog_header() + join_lines(lines), false))
    }
}

/// Abstract content of a [`SkillManager`].
pub struct SkillManagerView {
    /// Prompts by skill id, first registration first.
    pub skills: Seq<(Seq<char>, (Seq<char>, bool))>,
    /// Prompts loaded into every session.
    pub bootstrap: Seq<(Seq<char>, bool)>,
    /// Catalog prompt listing the additional skills.
    pub catalog: Option<(Seq<char>, bool)>,
}

/// Registry of all skills available to an agent session.
#[derive(Debug)]
pub struct SkillManager {
    skills: Vec<(String, SkillPrompt)>,
    bootstrap: Vec<SkillPrompt>,
    catalog: Option<SkillPrompt>,
}

impl View for SkillManager {
    type V = SkillManagerView;

    closed spec fn view(&self) -> SkillManagerView {
        SkillManagerView {
            skills: self.skills@.map_values(|e: (String, SkillPrompt)| (e.0@, e.1@)),
            bootstrap: self.bootstrap@.map_values(|p: SkillPrompt| p@),
            catalog: match self.catalog {
                Some(p) => Some(p@),
                None => None,
            },
        }
    }
}

proof fn lemma_has_key_push<V>(s: Seq<(Seq<char>, V)>, x: (Seq<char>, V), k: Seq<char>)
    ensures
        has_key(s.push(x), k) == (has_key(s, k) || x.0 == k),
{
    if has_key(s, k) {
        let i = choose|i: int| 0 <= i < s.len() && (#[trigger] s[i]).0 == k;
        assert(s.push(x)[i] == s[i]);
    }
    if x.0 == k {
        assert(s.push(x)[s.len() as int] == x);
    }
    if has_key(s.push(x), k) {
        let i = choose|i: int| 0 <= i < s.len() + 1 && (#[trigger] s.push(x)[i]).0 == k;
        if i < s.len() {
            assert(s[i] == s.push(x)[i]);
        }
    }
}

proof fn lemma_first_by_key_has_key<V>(s: Seq<(Seq<char>, V)>, k: Seq<char>)
    ensures
        has_key(first_by_key(s), k) == has_key(s, k),
    decreases s.len(),
{
    if s.len() > 0 {
        let kept = first_by_key(s.drop_last());
        lemma_first_by_key_has_key(s.drop_last(), k);
        lemma_has_key_push(s.drop_last(), s.last(), k);
        assert(s.drop_last().push(s.last()) =~= s);
        lemma_has_key_push(kept, s.last(), k);
        lemma_first_by_key_has_key(s.drop_last(), s.last().0);
    }
}

/// There is no catalog prompt exactly when there is no domain skill and
/// every platform skill is loaded automatically.
pub proof fn lemma_catalog_absent(platform: Seq<PlatformSkill>, domain: Seq<DomainSkill>)
    ensures
        catalog_of(catalog_lines_of(platform, domain)) is None <==> (domain.len() == 0 && forall|i: int|
            0 <= i < platform.len() ==> (#[trigger] platform[i]).always_load),
{
    let pred = |p: PlatformSkill| !p.always_load;
    let kept = platform.filter(pred);
    kept.filter_lemma(pred);
    platform.filter_lemma(pred);
    if forall|i: int| 0 <= i < platform.len() ==> (#[trigger] platform[i]).always_load {
        assert(platform.all(|x: PlatformSkill| !pred(x)));
        platform.lemma_all_neg_filter_empty(pred);
    } else {
        let i = choose|i: int| 0 <= i < platform.len() && !(#[trigger] platform[i]).always_load;
        assert(pred(platform[i]));
        assert(kept.contains(platform[i]));
    }
}

/// Whether `s[j]` is the first entry of `s` under its key.
pub open spec fn first_under_key<V>(s: Seq<(Seq<char>, V)>, j: int) -> bool {
    0 <= j < s.len() && forall|i: int| 0 <= i < j ==> (#[trigger] s[i]).0 != s[j].0
}

/// Whether `x` is the first entry of `s` under its key.
pub open spec fn is_first_entry<V>(s: Seq<(Seq<char>, V)>, x: (Seq<char>, V)) -> bool {
    exists|j: int| first_under_key(s, j) && s[j] == x
}

proof fn lemma_first_by_key_origin<V>(s: Seq<(Seq<char>, V)>)
    ensures
        forall|k: int| 0 <= k < first_by_key(s).len() ==> is_first_entry(s, #[trigger] first_by_key(s)[k]),
    decreases s.len(),
{
    if s.len() > 0 {
        let init = s.drop_last();
        let kept = first_by_key(init);
        let last = s.last();
        lemma_first_by_key_origin(init);
        lemma_first_by_key_has_key(init, last.0);
        let r = first_by_key(s);
        assert forall|k: int| 0 <= k < r.len() implies is_first_entry(s, #[trigger] r[k]) by {
            if k < kept.len() {
                assert(r[k] == kept[k]);
                assert(is_first_entry(init, kept[k]));
                let j = choose|j: int| first_under_key(init, j) && init[j] == kept[k];
                assert(s[j] == init[j]);
                assert forall|i: int| 0 <= i < j implies (#[trigger] s[i]).0 != s[j].0 by {
                    assert(s[i] == init[i]);
                }
                assert(first_under_key(s, j));
            } else {
                let j = s.len() - 1;
                assert(!has_key(init, last.0));
                assert forall|i: int| 0 <= i < j implies (#[trigger] s[i]).0 != s[j].0 by {
                    assert(s[i] == init[i]);
                }
                assert(first_under_key(s, j));
                assert(r[k] == s[j]);
            }
        }
    }
}

proof fn lemma_first_by_key_unique<V>(s: Seq<(Seq<char>, V)>)
    ensures
        forall|k1: int, k2: int|
            0 <= k1 < k2 < first_by_key(s).len() ==> (#[trigger] first_by_key(s)[k1]).0 != (
            #[trigger] first_by_key(s)[k2]).0,
    decreases s.len(),
{
    if s.len() > 0 {
        let init = s.drop_last();
        let kept = first_by_key(init);
        let last = s.last();
        lemma_first_by_key_unique(init);
        let r = first_by_key(s);
        assert forall|k1: int, k2: int| 0 <= k1 < k2 < r.len() implies (#[trigger] r[k1]).0 != (
        #[trigger] r[k2]).0 by {
            if k2 < kept.len() {
                assert(r[k1] == kept[k1] && r[k2] == kept[k2]);
            } else {
                assert(r[k1] == kept[k1]);
                assert(!has_key(kept, last.0));
            }
        }
    }
}

/// The first registration of an id wins: the entry kept under the key of
/// the first entry registered with it is that entry, and it is the only
/// entry kept under that key. With platform skills registered before domain
/// skills, `load` of an id gives the prompt of the first platform skill with
/// that id, else of the first domain skill with it.
pub proof fn lemma_first_registration_wins<V>(s: Seq<(Seq<char>, V)>, j: int)
    requires
        first_under_key(s, j),
    ensures
        exists|k: int| 0 <= k < first_by_key(s).len() && #[trigger] first_by_key(s)[k] == s[j],
        forall|k: int|
            0 <= k < first_by_key(s).len() && (#[trigger] first_by_key(s)[k]).0 == s[j].0
                ==> first_by_key(s)[k] == s[j],
{
    let r = first_by_key(s);
    lemma_first_by_key_origin(s);
    lemma_first_by_key_unique(s);
    lemma_first_by_key_has_key(s, s[j].0);
    assert(has_key(s, s[j].0));
    let k = choose|k: int| 0 <= k < r.len() && (#[trigger] r[k]).0 == s[j].0;
    assert forall|k2: int| 0 <= k2 < r.len() && (#[trigger] r[k2]).0 == s[j].0 implies r[k2] == s[j] by {
        assert(is_first_entry(s, r[k2]));
        let i = choose|i: int| first_under_key(s, i) && s[i] == r[k2];
        if i < j {
            assert(s[i].0 != s[j].0);
        } else if i > j {
            assert(s[j].0 != s[i].0);
        }
    }
    assert(r[k] == s[j]);
}

/// What `load` gives: when the `j`-th skill in registration order
/// (platform skills, then domain skills) is the first with its id, the
/// manager keeps under that id exactly the prompt rendered from that skill
/// (`<skill id=".." title=".." version="..">`, a line break, the
/// instructions, a line break and `</skill>`).
pub proof fn lemma_load_gives_first(platform: Seq<PlatformSkill>, domain: Seq<DomainSkill>, j: int)
    requires
        first_under_key(keyed_prompts(platform, domain), j),
    ensures
        has_key(first_by_key(keyed_prompts(platform, domain)), keyed_prompts(platform, domain)[j].0),
        forall|k: int|
            0 <= k < first_by_key(keyed_prompts(platform, domain)).len() && (#[trigger] first_by_key(
                keyed_prompts(platform, domain),
            )[k]).0 == keyed_prompts(platform, domain)[j].0 ==> first_by_key(
                keyed_prompts(platform, domain),
            )[k].1 == if j < platform.len() {
                platform_prompt(platform[j])
            } else {
                domain_prompt(domain[j - platform.len()])
            },
{
    let keyed = keyed_prompts(platform, domain);
    lemma_first_registration_wins(keyed, j);
    lemma_first_by_key_has_key(keyed, keyed[j].0);
    assert(has_key(keyed, keyed[j].0));
    if j < platform.len() {
        assert(keyed[j] == (platform[j].id@, platform_prompt(platform[j])));
    } else {
        assert(keyed[j] == (domain[j - platform.len()].id@, domain_prompt(domain[j - platform.len()])));
    }
}

/// What `load` succeeds on: the manager keeps a prompt under `id` exactly
/// when some skill in registration order (platform skills, then domain
/// skills) has that id; the first such skill is the one
/// [`lemma_load_gives_first`] describes, and the prompt's auto-load flag is
/// that skill's (always `false` for a domain skill).
pub proof fn lemma_load_has_winner(platform: Seq<PlatformSkill>, domain: Seq<DomainSkill>, id: Seq<char>)
    ensures
        has_key(first_by_key(keyed_prompts(platform, domain)), id) <==> exists|j: int|
            first_under_key(keyed_prompts(platform, domain), j) && #[trigger] keyed_prompts(
                platform,
                domain,
            )[j].0 == id,
        forall|j: int|
            0 <= j < keyed_prompts(platform, domain).len() ==> (#[trigger] keyed_prompts(
                platform,
                domain,
            )[j]).1.1 == if j < platform.len() {
                platform[j].always_load
            } else {
                false
            },
{
    let keyed = keyed_prompts(platform, domain);
    let f = first_by_key(keyed);
    lemma_first_by_key_origin(keyed);
    lemma_first_by_key_has_key(keyed, id);
    if has_key(f, id) {
        let k = choose|k: int| 0 <= k < f.len() && (#[trigger] f[k]).0 == id;
        assert(is_first_entry(keyed, f[k]));
        let j = choose|j: int| first_under_key(keyed, j) && keyed[j] == f[k];
        assert(keyed[j].0 == id);
    }
    if exists|j: int| first_under_key(keyed, j) && #[trigger] keyed[j].0 == id {
        let j = choose|j: int| first_under_key(keyed, j) && #[trigger] keyed[j].0 == id;
        assert(has_key(keyed, id));
    }
    assert forall|j: int| 0 <= j < keyed.len() implies (#[trigger] keyed[j]).1.1 == if j < platform.len() {
        platform[j].always_load
    } else {
        false
    } by {
        if j < platform.len() {
            assert(keyed[j] == (platform[j].id@, platform_prompt(platform[j])));
        } else {
            assert(keyed[j] == (domain[j - platform.len()].id@, domain_prompt(domain[j - platform.len()])));
        }
    }
}

proof fn lemma_found_key(skills: Seq<(String, SkillPrompt)>, id: Seq<char>, found: Option<usize>)
    requires
        match found {
            Some(i) => i < skills.len() && skills[i as int].0@ == id,
            None => forall|j: int| 0 <= j < skills.len() ==> (#[trigger] skills[j]).0@ != id,
        },
    ensures
        has_key(skills.map_values(|e: (String, SkillPrompt)| (e.0@, e.1@)), id) == found.is_some(),
{
    let f = |e: (String, SkillPrompt)| (e.0@, e.1@);
    let m = skills.map_values(f);
    match found {
        Some(i) => {
            assert(m[i as int] == f(skills[i as int]));
        },
        None => {
            if has_key(m, id) {
                let k = choose|k: int| 0 <= k < m.len() && (#[trigger] m[k]).0 == id;
                assert(m[k] == f(skills[k]));
            }
        },
    }
}

fn render_skill(id: &str, title: &str, version: &str, instructions: &str) -> (r: String)
    ensures
        r@ == render(id@, title@, version@, instructions@),
{
    let mut r = String::from_str("<skill id=\"");
    r.append(id);
    r.append("\" title=\"");
    r.append(title);
    r.append("\" version=\"");
    r.append(version);
    r.append("\">\n");
    r.append(instructions);
    r.append("\n</skill>");
    r
}

fn render_catalog_line(id: &str, description: &str) -> (r: String)
    ensures
        r@ == catalog_line(id@, description@),
{
    let mut r = String::from_str("- id: ");
    r.append(id);
    r.append(" — ");
    r.append(description);
    r
}

/// Appends `line` to `body`, which holds `lines` joined.
fn push_line(body: &mut String, any: bool, line: &str, Ghost(lines): Ghost<Seq<Seq<char>>>)
    requires
        old(body)@ == join_lines(lines),
        any == (lines.len() > 0),
    ensures
        final(body)@ == join_lines(lines.push(line@)),
{
    if any {
        body.append("\n");
        assert(lines.push(line@).drop_last() =~= lines);
    }
    body.append(line);
}

impl SkillManager {
    /// Builds a manager from platform and domain skill definitions.
    ///
    /// Every skill is rendered once; the first skill registered under an id
    /// is the one [`load`](Self::load) returns.
    pub fn new(platform: Vec<PlatformSkill>, domain: Vec<DomainSkill>) -> (r: Self)
        ensures
            r@.skills == first_by_key(keyed_prompts(platform@, domain@)),
            r@.bootstrap == bootstrap_of(platform@),
            r@.catalog == catalog_of(catalog_lines_of(platform@, domain@)),
    {
        let ghost keyed = keyed_prompts(platform@, domain@);
        let ghost np = platform@.len();
        let ghost pl = platform@;
        let ghost dl = domain@;
        let ghost boot_f = |p: PlatformSkill| p.always_load;
        let ghost cat_f = |p: PlatformSkill| !p.always_load;
        let ghost pline = |p: PlatformSkill| catalog_line(p.id@, p.description@);
        let ghost dline = |d: DomainSkill| catalog_line(d.id@, d.description@);
        let ghost pprompt = |p: PlatformSkill| platform_prompt(p);
        assert(forall|k: int|
            0 <= k < np ==> #[trigger] keyed[k] == (pl[k].id@, platform_prompt(pl[k])));
        assert(forall|k: int|
            0 <= k < dl.len() ==> #[trigger] keyed[np + k] == (dl[k].id@, domain_prompt(dl[k])));
        assert(keyed.take(0) =~= Seq::<(Seq<char>, (Seq<char>, bool))>::empty());
        let mut skills: Vec<(String, SkillPrompt)> = Vec::new();
        let mut bootstrap: Vec<SkillPrompt> = Vec::new();
        let mut body = String::new();
        let mut any = false;
        let ghost mut lines: Seq<Seq<char>> = Seq::empty();
        proof {
            assert(bootstrap@.map_values(|p: SkillPrompt| p@) =~= pl.take(0).filter(boot_f).map_values(pprompt));
            assert(lines =~= pl.take(0).filter(cat_f).map_values(pline));
            assert(skills@.map_values(|e: (String, SkillPrompt)| (e.0@, e.1@)) =~= first_by_key(keyed.take(0)));
        }
        let mut i: usize = 0;
        while i < platform.len()
            invariant
                i <= platform@.len(),
                pl == platform@,
                np == pl.len(),
                keyed.len() == np + dl.len(),
                forall|k: int|
                    0 <= k < np ==> #[trigger] keyed[k] == (pl[k].id@, platform_prompt(pl[k])),
                boot_f == (|p: PlatformSkill| p.always_load),
                cat_f == (|p: PlatformSkill| !p.always_load),
                pline == (|p: PlatformSkill| catalog_line(p.id@, p.description@)),
                pprompt == (|p: PlatformSkill| platform_prompt(p)),
                skills@.map_values(|e: (String, SkillPrompt)| (e.0@, e.1@)) == first_by_key(
                    keyed.take(i as int),
                ),
                bootstrap@.map_values(|p: SkillPrompt| p@) == pl.take(i as int).filter(
                    boot_f,
                ).map_values(pprompt),
                lines == pl.take(i as int).filter(cat_f).map_values(pline),
                body@ == join_lines(lines),
                any == (lines.len() > 0),
            decreases platform@.len() - i,
        {
            let p = &platform[i];
            let full = render_skill(p.id(), p.title(), p.version(), p.instructions());
            let ghost boot_before = bootstrap@;
            proof {
                reveal_with_fuel(Seq::<_>::filter, 1);
                assert(pl.take(i + 1).drop_last() =~= pl.take(i as int));
            }
            if p.always_load() {
                bootstrap.push(SkillPrompt { full: full.clone(), always_load: true });
                proof {
                    let f = |q: SkillPrompt| q@;
                    assert(bootstrap@.map_values(f) =~= boot_before.map_values(f).push(
                        platform_prompt(pl[i as int]),
                    ));
                    assert(pl.take(i + 1).filter(boot_f) == pl.take(i as int).filter(boot_f).push(
                        pl[i as int],
                    ));
                    assert(pl.take(i + 1).filter(boot_f).map_values(pprompt) =~= pl.take(
                        i as int,
                    ).filter(boot_f).map_values(pprompt).push(pprompt(pl[i as int])));
                    assert(pl.take(i + 1).filter(cat_f) == pl.take(i as int).filter(cat_f));
                }
            } else {
                let line = render_catalog_line(p.id(), p.description());
                push_line(&mut body, any, line.as_str(), Ghost(lines));
                proof {
                    assert(pl.take(i + 1).filter(cat_f) == pl.take(i as int).filter(cat_f).push(
                        pl[i as int],
                    ));
                    assert(pl.take(i + 1).filter(cat_f).map_values(pline) =~= lines.push(
                        pline(pl[i as int]),
                    ));
                    assert(pl.take(i + 1).filter(boot_f) == pl.take(i as int).filter(boot_f));
                    lines = lines.push(line@);
                }
                any = true;
            }
            let found = find_key(&skills, p.id());
            proof {
                let f = |e: (String, SkillPrompt)| (e.0@, e.1@);
                lemma_first_by_key_has_key(keyed.take(i as int), pl[i as int].id@);
                assert(keyed.take(i + 1).drop_last() =~= keyed.take(i as int));
                assert(keyed.take(i + 1).last() == keyed[i as int]);
                lemma_found_key(skills@, pl[i as int].id@, found);
            }
            if found.is_none() {
                let ghost before = skills@;
                skills.push((p.id.clone(), SkillPrompt { full, always_load: p.always_load }));
                proof {
                    let f = |e: (String, SkillPrompt)| (e.0@, e.1@);
                    assert(skills@.map_values(f) =~= before.map_values(f).push(keyed[i as int]));
                }
            }
            i = i + 1;
        }
        proof {
            assert(pl.take(np as int) =~= pl);
            assert(keyed.take(np as int + 0) =~= keyed.take(np as int));
        }
        let ghost plines = lines;
        let mut j: usize = 0;
        while j < domain.len()
            invariant
                j <= domain@.len(),
                dl == domain@,
                keyed.len() == np + dl.len(),
                forall|k: int|
                    0 <= k < dl.len() ==> #[trigger] keyed[np + k] == (dl[k].id@, domain_prompt(
                        dl[k],
                    )),
                dline == (|d: DomainSkill| catalog_line(d.id@, d.description@)),
                skills@.map_values(|e: (String, SkillPrompt)| (e.0@, e.1@)) == first_by_key(
                    keyed.take(np + j),
                ),
                lines == plines + dl.take(j as int).map_values(dline),
                body@ == join_lines(lines),
                any == (lines.len() > 0),
            decreases domain@.len() - j,
        {
            let d = &domain[j];
            let line = render_catalog_line(d.id(), d.description());
            push_line(&mut body, any, line.as_str(), Ghost(lines));
            proof {
                assert(dl.take(j + 1).map_values(dline) =~= dl.take(j as int).map_values(dline).push(
                    dline(dl[j as int]),
                ));
                lines = lines.push(line@);
            }
            any = true;
            let found = find_key(&skills, d.id());
            proof {
                let f = |e: (String, SkillPrompt)| (e.0@, e.1@);
                lemma_first_by_key_has_key(keyed.take(np + j), dl[j as int].id@);
                assert(keyed.take(np + j + 1).drop_last() =~= keyed.take(np + j));
                assert(keyed.take(np + j + 1).last() == keyed[np + j]);
                lemma_found_key(skills@, dl[j as int].id@, found);
            }
            if found.is_none() {
                let full = render_skill(d.id(), d.title(), d.version(), d.instructions());
                let ghost before = skills@;
                skills.push((d.id.clone(), SkillPrompt { full, always_load: false }));
                proof {
                    let f = |e: (String, SkillPrompt)| (e.0@, e.1@);
                    assert(skills@.map_values(f) =~= before.map_values(f).push(keyed[np + j]));
                }
            }
            j = j + 1;
        }
        proof {
            assert(dl.take(dl.len() as int) =~= dl);
            assert(keyed.take((np + dl.len()) as int) =~= keyed);
            assert(lines =~= catalog_lines_of(platform@, domain@));
        }
        let catalog = if !any {
            None
        } else {
            let mut text = String::from_str(
                "Tienes disponibles los siguientes skills adicionales. Usa `load_skill(id)` si la tarea lo requiere.\n\n",
            );
            text.append(body.as_str());
            Some(SkillPrompt { full: text, always_load: false })
        };
        SkillManager { skills, bootstrap, catalog }
    }

    /// Returns the prompts that are loaded into every agent session.
    pub fn bootstrap_prompts(&self) -> (r: &[SkillPrompt])
        ensures
            r@.map_values(|p: SkillPrompt| p@) == self@.bootstrap,
    {
        self.bootstrap.as_slice()
    }

    /// Returns the catalog prompt, if the manager has additional skills.
    pub fn catalog_prompt(&self) -> (r: Option<SkillPrompt>)
        ensures
            match self@.catalog {
                Some(c) => r is Some && r->0@ == c,
                None => r is None,
            },
    {
        match &self.catalog {
            Some(p) => Some(p.duplicate()),
            None => None,
        }
    }

    /// Loads the prompt of the skill registered under `id`.
    ///
    /// Fails with [`LoadSkillError`] carrying `id` when no skill has that id.
    pub fn load(&self, id: &str) -> (r: Result<SkillPrompt, LoadSkillError>)
        ensures
            has_key(self@.skills, id@) <==> r is Ok,
            r matches Ok(p) ==> exists|i: int|
                0 <= i < self@.skills.len() && #[trigger] self@.skills[i] == (id@, p@),
            r matches Err(e) ==> e.id@ == id@,
    {
        let found = find_key(&self.skills, id);
        proof {
            lemma_found_key(self.skills@, id@, found);
        }
        match found {
            Some(i) => {
                proof {
                    let f = |e: (String, SkillPrompt)| (e.0@, e.1@);
                    assert(self@.skills[i as int] == f(self.skills@[i as int]));
                }
                Ok(self.skills[i].1.duplicate())
            },
            None => Err(LoadSkillError { id: id.to_owned() }),
        }
    }
}

/// Index of the entry stored under `id`, if any.
fn find_key(skills: &Vec<(String, SkillPrompt)>, id: &str) -> (r: Option<usize>)
    ensures
        match r {
            Some(i) => i < skills@.len() && skills@[i as int].0@ == id@,
            None => forall|j: int| 0 <= j < skills@.len() ==> (#[trigger] skills@[j]).0@ != id@,
        },
{
    let mut i: usize = 0;
    while i < skills.len()
        invariant
            i <= skills@.len(),
            forall|j: int| 0 <= j < i ==> (#[trigger] skills@[j]).0@ != id@,
        decreases skills@.len() - i,
    {
        if str_eq(skills[i].0.as_str(), id) {
            return Some(i);
        }
        i = i + 1;
    }
    None
}

impl Default for SkillManager {
    fn default() -> (r: Self)
        ensures
            r@.skills == Seq::<(Seq<char>, (Seq<char>, bool))>::empty(),
            r@.bootstrap == Seq::<(Seq<char>, bool)>::empty(),
            r@.catalog is None,
    {
        let r = SkillManager { skills: Vec::new(), bootstrap: Vec::new(), catalog: None };
        proof {
            assert(r@.skills =~= Seq::<(Seq<char>, (Seq<char>, bool))>::empty());
            assert(r@.bootstrap =~= Seq::<(Seq<char>, bool)>::empty());
        }
        r
    }
}

} // verus!
