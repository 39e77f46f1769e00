use carisa_core::agent::builder::AgentBuilder;
use carisa_core::skill::types::{DomainSkill, DomainSkillBuilder, PlatformSkill, PlatformSkillBuilder};

fn make_platform(id: &str) -> PlatformSkill {
    PlatformSkillBuilder::default()
        .id(id.to_owned())
        .title(format!("{id} Title"))
        .description(format!("{id} description"))
        .instructions(format!("Instructions for {id}"))
        .version("1.0.0".to_owned())
        .always_load(false)
        .build()
        .expect("valid platform skill")
}

fn make_domain(id: &str) -> DomainSkill {
    DomainSkillBuilder::default()
        .id(id.to_owned())
        .title(format!("{id} title"))
        .description(format!("{id} description"))
        .instructions(format!("Instructions for {id}"))
        .version("1.0.0".to_owned())
        .build()
        .expect("valid domain skill")
}

#[test]
fn builder_build_domain_only_runtime() {
    let domain = make_domain("d1");
    let agent = AgentBuilder::new()
        .domain_skill(vec![domain.clone()])
        .instructions("Instrucciones".to_owned())
        .build();

    assert_eq!(agent.domain_skills, vec![domain]);
    assert!(agent.platform_skills.is_empty());
    assert_eq!(agent.instructions, "Instrucciones");
}

#[test]
fn builder_build_platform_runtime_without_disable() {
    let platform_1 = make_platform("p1");
    let platform_2 = make_platform("p2");

    let agent = AgentBuilder::new().platform_skill(vec![platform_1, platform_2]).build();

    assert_eq!(agent.platform_skills.len(), 2);
}

#[test]
fn build_runtime_with_single_group_disabled() {
    let platform_1 = make_platform("p1");
    let platform_2 = make_platform("p2");

    let agent = AgentBuilder::new()
        .platform_skill(vec![platform_1, platform_2.clone()])
        .disable()
        .grupo1()
        .done()
        .build();

    assert_eq!(agent.platform_skills.len(), 1);
    assert!(agent.platform_skills.contains(&platform_2));
}

#[test]
fn build_runtime_with_multiple_groups_disabled() {
    let platform_1 = make_platform("p1");
    let platform_2 = make_platform("p2");

    let agent = AgentBuilder::new()
        .platform_skill(vec![platform_1, platform_2])
        .disable()
        .grupo1()
        .grupo2()
        .done()
        .build();

    assert!(agent.platform_skills.is_empty());
}

#[test]
fn build_runtime_with_all_disabled() {
    let platform_1 = make_platform("p1");
    let platform_2 = make_platform("p2");

    let agent = AgentBuilder::new()
        .platform_skill(vec![platform_1, platform_2])
        .disable()
        .all()
        .done()
        .build();

    assert!(agent.platform_skills.is_empty());
}

#[test]
fn domain_skill_after_done_is_allowed() {
    let platform = make_platform("p1");
    let domain = make_domain("d1");

    let agent = AgentBuilder::new()
        .platform_skill(vec![platform])
        .disable()
        .grupo1()
        .done()
        .domain_skill(vec![domain.clone()])
        .instructions("Otras instrucciones".to_owned())
        .build();

    assert_eq!(agent.domain_skills, vec![domain]);
    assert_eq!(agent.instructions, "Otras instrucciones");
}

#[test]
fn builder_domain_skill_replacement() {
    let first = make_domain("d1");
    let second = make_domain("d2");

    let agent = AgentBuilder::new()
        .domain_skill(vec![first])
        .domain_skill(vec![second.clone()])
        .build();

    assert_eq!(agent.domain_skills, vec![second]);
}

#[test]
fn builder_platform_skill_replacement() {
    let first = make_platform("p1");
    let second = make_platform("p2");

    let agent = AgentBuilder::new()
        .platform_skill(vec![first])
        .platform_skill(vec![second.clone()])
        .build();

    assert_eq!(agent.platform_skills, vec![second]);
}

#[test]
fn group_order_is_irrelevant() {
    let platform_1 = make_platform("p1");
    let platform_2 = make_platform("p2");

    let agent = AgentBuilder::new()
        .platform_skill(vec![platform_1, platform_2])
        .disable()
        .grupo2()
        .grupo1()
        .done()
        .build();

    assert!(agent.platform_skills.is_empty());
}

#[test]
fn repeated_group_call_is_idempotent() {
    let platform_1 = make_platform("p1");
    let platform_2 = make_platform("p2");

    let agent = AgentBuilder::new()
        .platform_skill(vec![platform_1, platform_2.clone()])
        .disable()
        .grupo1()
        .grupo1()
        .done()
        .build();

    assert_eq!(agent.platform_skills.len(), 1);
    assert!(agent.platform_skills.contains(&platform_2));
}

#[test]
fn second_group_drops_only_p2() {
    let platform_1 = make_platform("p1");
    let platform_2 = make_platform("p2");
    let other = make_platform("other");

    let agent = AgentBuilder::new()
        .platform_skill(vec![platform_1.clone(), platform_2, other.clone()])
        .disable()
        .grupo2()
        .done()
        .build();

    assert_eq!(agent.platform_skills, vec![platform_1, other]);
}

#[test]
fn platform_state_build_keeps_every_platform_skill_in_order() {
    let platform_1 = make_platform("p1");
    let platform_2 = make_platform("p2");

    let agent = AgentBuilder::new()
        .instructions("keep".to_owned())
        .platform_skill(vec![platform_2.clone(), platform_1.clone()])
        .build();

    assert_eq!(agent.platform_skills, vec![platform_2, platform_1]);
    assert_eq!(agent.instructions, "keep");
}
