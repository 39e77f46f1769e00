use carisa_core::agent::types::{AgentBuilder, AgentBuilderError};
use carisa_core::skill::types::{DomainSkill, DomainSkillBuilder, PlatformSkill, PlatformSkillBuilder};

fn make_platform(id: &str) -> PlatformSkill {
    PlatformSkillBuilder::default()
        .id(id.to_owned())
        .title(format!("{id} Title"))
        .description(format!("{id} description"))
        .instructions(format!("Instructions for {id}"))
        .version("1.0.0".to_owned())
        .always_load(false)
        .build()
        .expect("valid platform skill")
}

fn make_domain(id: &str) -> DomainSkill {
    DomainSkillBuilder::default()
        .id(id.to_owned())
        .title(format!("{id} title"))
        .description(format!("{id} description"))
        .instructions(format!("Instructions for {id}"))
        .version("1.0.0".to_owned())
        .build()
        .expect("valid domain skill")
}

#[test]
fn types_build_domain_only_runtime() {
    let domain = make_domain("d1");
    let agent = AgentBuilder::default()
        .domain_skills(vec![domain.clone()])
        .instructions("Instrucciones".to_owned())
        .build()
        .expect("all fields provided");

    assert_eq!(agent.domain_skills(), vec![domain]);
    assert!(agent.platform_skills().is_empty());
    assert_eq!(agent.instructions(), "Instrucciones");
}

#[test]
fn types_build_platform_runtime_without_disable() {
    let platform_1 = make_platform("p1");
    let platform_2 = make_platform("p2");

    let agent = AgentBuilder::default()
        .instructions("Platform runtime instructions".to_owned())
        .platform_skills(vec![platform_1, platform_2])
        .build()
        .expect("all fields provided");

    assert_eq!(agent.platform_skills().len(), 2);
}

#[test]
fn types_domain_skill_replacement() {
    let first = make_domain("d1");
    let second = make_domain("d2");

    let agent = AgentBuilder::default()
        .instructions("Replacement instructions".to_owned())
        .domain_skills(vec![first])
        .domain_skills(vec![second.clone()])
        .build()
        .expect("all fields provided");

    assert_eq!(agent.domain_skills(), vec![second]);
}

#[test]
fn types_platform_skill_replacement() {
    let first = make_platform("p1");
    let second = make_platform("p2");

    let agent = AgentBuilder::default()
        .instructions("Platform replacement instructions".to_owned())
        .platform_skills(vec![first])
        .platform_skills(vec![second.clone()])
        .build()
        .expect("all fields provided");

    assert_eq!(agent.platform_skills(), vec![second]);
}

#[test]
fn agent_builder_requires_instructions() {
    let result = AgentBuilder::default().domain_skills(Vec::new()).build();
    assert_eq!(
        result.unwrap_err(),
        AgentBuilderError::UninitializedField("instructions".to_owned())
    );
}
