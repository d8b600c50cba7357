use guac::assembler::{apply_delta, assemble_prompt, capitalize, format_instruction};
use guac::character::{Character, CharacterCore, CharacterMemory};
use guac::groq_client::MemoryDelta;
use guac::memory::{MemoryScores, Message};
use guac::router::ContextQuery;

fn dummy_character() -> Character {
    Character {
        core: CharacterCore {
            name: "Test".into(),
            personality: vec!["helpful".into()],
            constraints: vec!["be concise".into()],
        },
        memory: CharacterMemory::empty(),
        name: "test".into(),
    }
}

fn dummy_message(role: &str, content: &str) -> Message {
    Message {
        role: role.into(),
        content: content.into(),
        timestamp: 0,
        scores: MemoryScores {
            importance: 0.5f64.to_bits(),
            novelty: 0.5f64.to_bits(),
            recency: 1.0f64.to_bits(),
            repetition: 0.0f64.to_bits(),
        },
        summary: None,
    }
}

#[test]
fn test_assemble_prompt_includes_context() {
    let character = dummy_character();
    let ctx = ContextQuery {
        kg_facts: vec!["user.name: Rory".into()],
        recent_messages: vec![dummy_message("user", "hello")],
        top_memories: vec![],
    };
    let prompt = assemble_prompt(&character, &ctx, "what is my name?", &vec![]);
    assert!(prompt.contains("Rory"));
    assert!(prompt.contains("hello"));
    assert!(prompt.contains("what is my name?"));
    assert!(prompt.contains("Response Format"));
}

#[test]
fn test_apply_delta_updates_memory() {
    let mut character = dummy_character();
    let delta = MemoryDelta {
        kg_updates: vec![],
        memory_updates: vec!["likes rust".into()],
        current_topic: Some("testing".into()),
    };
    let updates = apply_delta(&delta, &mut character);
    assert!(character.memory.learned.contains(&"likes rust".into()));
    assert_eq!(character.memory.current_topic, Some("testing".into()));
    assert!(!updates.is_empty());
}

#[test]
fn prompt_layout() {
    let character = dummy_character();
    let ctx = ContextQuery {
        kg_facts: vec!["a: 1".into()],
        recent_messages: vec![dummy_message("user", "hi")],
        top_memories: vec![dummy_message("assistant", "old")],
    };
    let prompt = assemble_prompt(&character, &ctx, "q", &vec!["0.43".to_string()]);
    let expected = format!(
        "You are Test.\nPersonality: helpful\nConstraints: be concise\nYou have access to a knowledge graph and conversation memory. Respond helpfully and update memory when facts change.\n## Knowledge Graph\n\na: 1\n\n## Recent Conversation\nUser: hi\n\n## Relevant Memories\n[score=0.43] Assistant: old\n\n## User Query\nq\n{}",
        format_instruction()
    );
    assert_eq!(prompt, expected);
}

#[test]
fn delta_reports_each_change_once() {
    let mut c = dummy_character();
    let delta = MemoryDelta {
        kg_updates: vec![],
        memory_updates: vec!["a".into(), "b".into(), "a".into()],
        current_topic: None,
    };
    assert_eq!(apply_delta(&delta, &mut c), vec!["learned: a".to_string(), "learned: b".to_string()]);
    assert_eq!(apply_delta(&delta, &mut c), Vec::<String>::new());
    assert_eq!(c.memory.learned, vec!["a".to_string(), "b".to_string()]);
    assert_eq!(c.memory.current_topic, None);
}

#[test]
fn capitalize_upper_cases_the_first_character() {
    assert_eq!(capitalize("user"), "User");
    assert_eq!(capitalize(""), "");
    assert_eq!(capitalize("\u{df}x"), "SSx");
}

#[test]
fn format_instruction_text() {
    let f = format_instruction();
    assert!(f.starts_with("\n## Response Format\n"));
    assert!(f.ends_with("Be concise and grounded in the provided context.\n"));
}
