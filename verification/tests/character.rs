use guac::character::{apply_memory_updates, Character, CharacterCore, CharacterMemory};
use guac::kg::YamlValue;

fn guac_character() -> Character {
    Character::assemble("default", Some(CharacterCore::guac()), None)
}

#[test]
fn test_system_prompt_contains_core_and_memory() {
    let mut character = guac_character();
    character.memory.learned.push("fact".into());
    character.memory.current_topic = Some("topic".into());
    let prompt = character.system_prompt();
    assert!(prompt.contains("GUAC"));
    assert!(prompt.contains("fact"));
    assert!(prompt.contains("topic"));
}

#[test]
fn system_prompt_lines() {
    let mut c = guac_character();
    c.memory.learned = vec!["a".into(), "b".into()];
    assert_eq!(
        c.system_prompt(),
        "You are GUAC.\nPersonality: curious, analytical, helpful\nConstraints: cannot alter core values; must ground responses in memory and knowledge graph\nLearned facts: a; b\nYou have access to a knowledge graph and conversation memory. Respond helpfully and update memory when facts change."
    );
    let bare = Character::assemble("x", None, Some(CharacterMemory::empty()));
    assert_eq!(
        bare.system_prompt(),
        "You are x.\nYou have access to a knowledge graph and conversation memory. Respond helpfully and update memory when facts change."
    );
}

#[test]
fn memory_updates_learn_new_strings_once() {
    let mut c = guac_character();
    let updates = vec![
        YamlValue::String("likes rust".into()),
        YamlValue::Number("3".into()),
        YamlValue::Tagged("!t".into(), Box::new(YamlValue::String("tagged".into()))),
        YamlValue::String("likes rust".into()),
    ];
    apply_memory_updates(&mut c, &updates);
    assert_eq!(c.memory.learned, vec!["likes rust".to_string(), "tagged".to_string()]);
    apply_memory_updates(&mut c, &updates);
    assert_eq!(c.memory.learned, vec!["likes rust".to_string(), "tagged".to_string()]);
}

#[test]
fn test_character_ensure_default() {
    let character = guac_character();
    assert_eq!(character.core.name, "GUAC");
    assert!(!character.core.personality.is_empty());
    assert_eq!(character.name, "default");
}

#[test]
fn a_missing_core_takes_the_characters_name() {
    let c = Character::assemble("scout", None, None);
    assert_eq!(c.core.name, "scout");
    assert!(c.core.personality.is_empty());
    assert!(c.memory.learned.is_empty());
    assert!(c.memory.current_topic.is_none());
}
