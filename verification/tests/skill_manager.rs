//! Each test exercises the registry (`registry::manager::SkillManager`) and
//! the prompt registry (`skill::manager::SkillManager`) on the same scenario.

use std::sync::Arc;

use carisa_core::registry::manager::{LoadError, SkillManager};
use carisa_core::skill::manager::SkillManager as PromptManager;
use carisa_core::skill::types::{DomainSkillBuilder, PlatformSkillBuilder};

#[test]
fn manager_excludes_always_load_from_catalog() {
    let ps_always = PlatformSkillBuilder::default()
        .id("core".to_owned())
        .title("Core".to_owned())
        .description("Core description".to_owned())
        .instructions("Do core things".to_owned())
        .always_load(true)
        .build()
        .expect("always-load platform skill");

    let ps_normal = PlatformSkillBuilder::default()
        .id("helper".to_owned())
        .title("Helper".to_owned())
        .description("Helper description".to_owned())
        .instructions("Help the user".to_owned())
        .always_load(false)
        .build()
        .expect("normal platform skill");

    let manager = SkillManager::new(vec![ps_always, ps_normal], vec![]);
    let catalog = manager.catalog();

    assert_eq!(catalog.len(), 1);
    assert_eq!(catalog.first().unwrap().id, "helper");
    assert_eq!(catalog.first().unwrap().description, "Helper description");

    let ps_always = PlatformSkillBuilder::default()
        .id("core".to_owned())
        .title("Core".to_owned())
        .description("Core description".to_owned())
        .instructions("Do core things".to_owned())
        .version("1.0.0".to_owned())
        .always_load(true)
        .build()
        .expect("always-load platform skill");

    let ps_normal = PlatformSkillBuilder::default()
        .id("helper".to_owned())
        .title("Helper".to_owned())
        .description("Helper description".to_owned())
        .instructions("Help the user".to_owned())
        .version("1.1.0".to_owned())
        .always_load(false)
        .build()
        .expect("normal platform skill");

    let manager = PromptManager::new(vec![ps_always, ps_normal], vec![]);
    let catalog = manager.catalog_prompt().expect("catalog prompt").into_owned();

    assert!(catalog.contains("helper"));
    assert!(catalog.contains("Helper description"));
    assert!(!catalog.contains("core"));
}

#[test]
fn manager_multiple_domain_skills_in_catalog() {
    let a = DomainSkillBuilder::default()
        .id("a".to_owned())
        .title("A".to_owned())
        .description("Skill A".to_owned())
        .instructions("Do A".to_owned())
        .build()
        .expect("domain skill a");

    let b = DomainSkillBuilder::default()
        .id("b".to_owned())
        .title("B".to_owned())
        .description("Skill B".to_owned())
        .instructions("Do B".to_owned())
        .build()
        .expect("domain skill b");

    let c = DomainSkillBuilder::default()
        .id("c".to_owned())
        .title("C".to_owned())
        .description("Skill C".to_owned())
        .instructions("Do C".to_owned())
        .build()
        .expect("domain skill c");

    let manager = SkillManager::new(vec![], vec![a, b, c]);
    let catalog = manager.catalog();

    assert_eq!(catalog.len(), 3);
    assert!(catalog.iter().any(|m| m.id == "a"));
    assert!(catalog.iter().any(|m| m.id == "b"));
    assert!(catalog.iter().any(|m| m.id == "c"));

    let a = DomainSkillBuilder::default()
        .id("a".to_owned())
        .title("A".to_owned())
        .description("Skill A".to_owned())
        .instructions("Do A".to_owned())
        .version("1.0.0".to_owned())
        .build()
        .expect("domain skill a");

    let b = DomainSkillBuilder::default()
        .id("b".to_owned())
        .title("B".to_owned())
        .description("Skill B".to_owned())
        .instructions("Do B".to_owned())
        .version("1.0.1".to_owned())
        .build()
        .expect("domain skill b");

    let c = DomainSkillBuilder::default()
        .id("c".to_owned())
        .title("C".to_owned())
        .description("Skill C".to_owned())
        .instructions("Do C".to_owned())
        .version("2.0.0".to_owned())
        .build()
        .expect("domain skill c");

    let manager = PromptManager::new(vec![], vec![a, b, c]);
    let catalog = manager.catalog_prompt().expect("catalog prompt").into_owned();

    assert!(catalog.contains("- id: a"));
    assert!(catalog.contains("- id: b"));
    assert!(catalog.contains("- id: c"));
}

#[test]
fn manager_empty_catalog_when_no_skills() {
    let manager = SkillManager::new(vec![], vec![]);
    assert!(manager.catalog().is_empty());

    let manager = PromptManager::new(vec![], vec![]);
    assert!(manager.catalog_prompt().is_none());
}

#[test]
fn manager_load_returns_instructions_without_clone() {
    let skill = DomainSkillBuilder::default()
        .id("guide".to_owned())
        .title("Guide".to_owned())
        .description("A guide skill".to_owned())
        .instructions("Do X then Y".to_owned())
        .build()
        .expect("domain skill");

    let manager = SkillManager::new(vec![], vec![skill]);

    let instructions = manager.load("guide").unwrap().instructions();
    assert_eq!(instructions, "Do X then Y");

    let skill = DomainSkillBuilder::default()
        .id("guide".to_owned())
        .title("Guide".to_owned())
        .description("A guide skill".to_owned())
        .instructions("Do X then Y".to_owned())
        .version("9.9.9".to_owned())
        .build()
        .expect("domain skill");

    let manager = PromptManager::new(vec![], vec![skill]);

    let instructions = manager.load("guide").unwrap().into_owned();
    assert!(instructions.contains("Do X then Y"));
}

#[test]
fn manager_load_returns_error_for_missing_id() {
    let skill = DomainSkillBuilder::default()
        .id("exists".to_owned())
        .title("Exists".to_owned())
        .description("An existing skill".to_owned())
        .instructions("Do something".to_owned())
        .build()
        .expect("domain skill");

    let manager = SkillManager::new(vec![], vec![skill]);

    let result = manager.load("no-existe");
    assert!(result.is_err());
    assert_eq!(result.unwrap_err(), LoadError { id: "no-existe".to_owned() });

    let skill = DomainSkillBuilder::default()
        .id("exists".to_owned())
        .title("Exists".to_owned())
        .description("An existing skill".to_owned())
        .instructions("Do something".to_owned())
        .version("7.7.7".to_owned())
        .build()
        .expect("domain skill");

    let manager = PromptManager::new(vec![], vec![skill]);

    let result = manager.load("no-existe");
    assert!(result.is_err());
    assert_eq!(result.unwrap_err(), LoadError { id: "no-existe".to_owned() });
}

#[test]
fn manager_platform_duplicate_id_precedence() {
    let ps1 = PlatformSkillBuilder::default()
        .id("dup".to_owned())
        .title("Dup".to_owned())
        .description("First".to_owned())
        .instructions("primero".to_owned())
        .always_load(false)
        .build()
        .expect("first platform skill");

    let ps2 = PlatformSkillBuilder::default()
        .id("dup".to_owned())
        .title("Dup".to_owned())
        .description("Second".to_owned())
        .instructions("segundo".to_owned())
        .always_load(false)
        .build()
        .expect("second platform skill");

    let manager = SkillManager::new(vec![ps1, ps2], vec![]);

    assert_eq!(manager.load("dup").unwrap().instructions(), "primero");
    assert_eq!(manager.catalog().len(), 1);

    let ps1 = PlatformSkillBuilder::default()
        .id("dup".to_owned())
        .title("Dup".to_owned())
        .description("First".to_owned())
        .instructions("primero".to_owned())
        .version("1.0.0".to_owned())
        .always_load(false)
        .build()
        .expect("first platform skill");

    let ps2 = PlatformSkillBuilder::default()
        .id("dup".to_owned())
        .title("Dup".to_owned())
        .description("Second".to_owned())
        .instructions("segundo".to_owned())
        .version("1.1.0".to_owned())
        .always_load(false)
        .build()
        .expect("second platform skill");

    let manager = PromptManager::new(vec![ps1, ps2], vec![]);

    let loaded = manager.load("dup").unwrap().into_owned();
    assert!(loaded.contains("primero"));
    assert!(!loaded.contains("segundo"));
    assert!(manager.catalog_prompt().is_some());
}

#[test]
fn manager_domain_duplicate_id_precedence() {
    let ds1 = DomainSkillBuilder::default()
        .id("dup".to_owned())
        .title("Dup".to_owned())
        .description("First".to_owned())
        .instructions("first".to_owned())
        .build()
        .expect("first domain skill");

    let ds2 = DomainSkillBuilder::default()
        .id("dup".to_owned())
        .title("Dup".to_owned())
        .description("Second".to_owned())
        .instructions("second".to_owned())
        .build()
        .expect("second domain skill");

    let manager = SkillManager::new(vec![], vec![ds1, ds2]);

    assert_eq!(manager.load("dup").unwrap().instructions(), "first");
    assert_eq!(manager.catalog().len(), 1);

    let ds1 = DomainSkillBuilder::default()
        .id("dup".to_owned())
        .title("Dup".to_owned())
        .description("First".to_owned())
        .instructions("first".to_owned())
        .version("1.0.0".to_owned())
        .build()
        .expect("first domain skill");

    let ds2 = DomainSkillBuilder::default()
        .id("dup".to_owned())
        .title("Dup".to_owned())
        .description("Second".to_owned())
        .instructions("second".to_owned())
        .version("2.0.0".to_owned())
        .build()
        .expect("second domain skill");

    let manager = PromptManager::new(vec![], vec![ds1, ds2]);

    let loaded = manager.load("dup").unwrap().into_owned();
    assert!(loaded.contains("first"));
    assert!(!loaded.contains("second"));
    assert!(manager.catalog_prompt().is_some());
}

#[test]
fn manager_platform_wins_over_domain_on_same_id() {
    let ps = PlatformSkillBuilder::default()
        .id("shared".to_owned())
        .title("Shared".to_owned())
        .description("Platform".to_owned())
        .instructions("platform".to_owned())
        .always_load(false)
        .build()
        .expect("platform skill");

    let ds = DomainSkillBuilder::default()
        .id("shared".to_owned())
        .title("Shared".to_owned())
        .description("Domain".to_owned())
        .instructions("domain".to_owned())
        .build()
        .expect("domain skill");

    let manager = SkillManager::new(vec![ps], vec![ds]);

    assert_eq!(manager.load("shared").unwrap().instructions(), "platform");
    assert_eq!(manager.catalog().len(), 1);

    let ps = PlatformSkillBuilder::default()
        .id("shared".to_owned())
        .title("Shared".to_owned())
        .description("Platform".to_owned())
        .instructions("platform".to_owned())
        .version("1.0.0".to_owned())
        .always_load(false)
        .build()
        .expect("platform skill");

    let ds = DomainSkillBuilder::default()
        .id("shared".to_owned())
        .title("Shared".to_owned())
        .description("Domain".to_owned())
        .instructions("domain".to_owned())
        .version("2.0.0".to_owned())
        .build()
        .expect("domain skill");

    let manager = PromptManager::new(vec![ps], vec![ds]);

    let loaded = manager.load("shared").unwrap().into_owned();
    assert!(loaded.contains("platform"));
    assert!(!loaded.contains("domain"));
    assert!(manager.catalog_prompt().is_some());
}

#[test]
fn manager_empty_vectors_produce_empty_manager() {
    let manager = SkillManager::new(vec![], vec![]);

    assert!(manager.catalog().is_empty());
    assert!(manager.load("anything").is_err());

    let manager = PromptManager::new(vec![], vec![]);

    assert!(manager.catalog_prompt().is_none());
    assert!(manager.load("anything").is_err());
}

#[test]
fn manager_mixed_platform_and_domain_skills() {
    let ps_always = PlatformSkillBuilder::default()
        .id("core".to_owned())
        .title("Core".to_owned())
        .description("Core description".to_owned())
        .instructions("Do core things".to_owned())
        .always_load(true)
        .build()
        .expect("always-load platform skill");

    let ps_normal = PlatformSkillBuilder::default()
        .id("helper".to_owned())
        .title("Helper".to_owned())
        .description("Helper description".to_owned())
        .instructions("Help the user".to_owned())
        .always_load(false)
        .build()
        .expect("normal platform skill");

    let ds = DomainSkillBuilder::default()
        .id("custom".to_owned())
        .title("Custom".to_owned())
        .description("Custom description".to_owned())
        .instructions("Do custom stuff".to_owned())
        .build()
        .expect("domain skill");

    let manager = SkillManager::new(vec![ps_always, ps_normal], vec![ds]);
    let catalog = manager.catalog();

    assert_eq!(catalog.len(), 2);
    assert!(catalog.iter().any(|m| m.id == "helper"));
    assert!(catalog.iter().any(|m| m.id == "custom"));
    assert!(!catalog.iter().any(|m| m.id == "core"));

    let ps_always = PlatformSkillBuilder::default()
        .id("core".to_owned())
        .title("Core".to_owned())
        .description("Core description".to_owned())
        .instructions("Do core things".to_owned())
        .version("1.0.0".to_owned())
        .always_load(true)
        .build()
        .expect("always-load platform skill");

    let ps_normal = PlatformSkillBuilder::default()
        .id("helper".to_owned())
        .title("Helper".to_owned())
        .description("Helper description".to_owned())
        .instructions("Help the user".to_owned())
        .version("1.1.0".to_owned())
        .always_load(false)
        .build()
        .expect("normal platform skill");

    let ds = DomainSkillBuilder::default()
        .id("custom".to_owned())
        .title("Custom".to_owned())
        .description("Custom description".to_owned())
        .instructions("Do custom stuff".to_owned())
        .version("2.0.0".to_owned())
        .build()
        .expect("domain skill");

    let manager = PromptManager::new(vec![ps_always, ps_normal], vec![ds]);
    let catalog = manager.catalog_prompt().expect("catalog prompt").into_owned();

    assert!(catalog.contains("helper"));
    assert!(catalog.contains("custom"));
    assert!(!catalog.contains("core"));
}

#[test]
fn manager_arc_skill_manager() {
    let skill = DomainSkillBuilder::default()
        .id("x".to_owned())
        .title("X".to_owned())
        .description("Skill X".to_owned())
        .instructions("Do X".to_owned())
        .build()
        .expect("domain skill");

    let manager = SkillManager::new(vec![], vec![skill]);
    let shared = Arc::new(manager);

    let instructions = shared.load("x").unwrap().instructions().to_owned();
    assert_eq!(instructions, "Do X");

    let catalog = shared.catalog();
    assert_eq!(catalog.len(), 1);

    let skill = DomainSkillBuilder::default()
        .id("x".to_owned())
        .title("X".to_owned())
        .description("Skill X".to_owned())
        .instructions("Do X".to_owned())
        .version("3.0.0".to_owned())
        .build()
        .expect("domain skill");

    let manager = PromptManager::new(vec![], vec![skill]);
    let shared = Arc::new(manager);

    let instructions = shared.load("x").unwrap().into_owned();
    assert!(instructions.contains("Do X"));

    let catalog = shared.catalog_prompt().expect("catalog prompt").into_owned();
    assert!(catalog.contains('x'));
}

#[test]
fn manager_debug_and_default_traits() {
    let manager = SkillManager::default();
    assert!(manager.catalog().is_empty());
    drop(format!("{manager:?}"));

    let manager = PromptManager::default();
    assert!(manager.catalog_prompt().is_none());
    drop(format!("{manager:?}"));
}

#[test]
fn prompt_rendering_is_exact() {
    let ps = PlatformSkillBuilder::default()
        .id("core".to_owned())
        .title("Core".to_owned())
        .description("Core description".to_owned())
        .instructions("Do core things".to_owned())
        .version("1.0.0".to_owned())
        .always_load(true)
        .build()
        .expect("platform skill");
    let ds = DomainSkillBuilder::default()
        .id("d".to_owned())
        .title("D".to_owned())
        .description("Domain d".to_owned())
        .instructions("Do d".to_owned())
        .version("2.0.0".to_owned())
        .build()
        .expect("domain skill");
    let ds2 = DomainSkillBuilder::default()
        .id("e".to_owned())
        .title("E".to_owned())
        .description("Domain e".to_owned())
        .instructions("Do e".to_owned())
        .build()
        .expect("domain skill");

    let manager = PromptManager::new(vec![ps], vec![ds, ds2]);
    let boot = manager.bootstrap_prompts();
    assert_eq!(boot.len(), 1);
    assert!(boot[0].always_load());
    assert_eq!(
        boot[0].clone().into_owned(),
        "<skill id=\"core\" title=\"Core\" version=\"1.0.0\">\nDo core things\n</skill>"
    );
    let loaded = manager.load("d").expect("loaded");
    assert!(!loaded.always_load());
    assert_eq!(
        loaded.into_owned(),
        "<skill id=\"d\" title=\"D\" version=\"2.0.0\">\nDo d\n</skill>"
    );
    assert_eq!(
        manager.catalog_prompt().expect("catalog").into_owned(),
        "Tienes disponibles los siguientes skills adicionales. Usa `load_skill(id)` si la tarea lo requiere.\n\n- id: d — Domain d\n- id: e — Domain e"
    );
}

#[test]
fn registry_catalog_keeps_registration_order() {
    let ps = PlatformSkillBuilder::default()
        .id("p".to_owned())
        .title("P".to_owned())
        .description("platform p".to_owned())
        .instructions("Do p".to_owned())
        .build()
        .expect("platform skill");
    let ds = DomainSkillBuilder::default()
        .id("d".to_owned())
        .title("D".to_owned())
        .description("domain d".to_owned())
        .instructions("Do d".to_owned())
        .build()
        .expect("domain skill");
    let manager = SkillManager::new(vec![ps], vec![ds]);
    let ids: Vec<String> = manager.catalog().into_iter().map(|m| m.id).collect();
    assert_eq!(ids, vec!["p".to_owned(), "d".to_owned()]);
    assert_eq!(manager.load("d").unwrap().title(), "D");
    assert_eq!(manager.load("p").unwrap().description(), "platform p");
}
