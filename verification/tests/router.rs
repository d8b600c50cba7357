use guac::classifier::Intent;
use guac::kg::{fact_line_text, KnowledgeGraph, YamlValue};
use guac::memory::{Conversation, MemoryScores, Message};
use guac::router::{gather_context, select_kg_facts};

fn message(role: &str, content: &str) -> Message {
    Message {
        role: role.into(),
        content: content.into(),
        timestamp: 0,
        scores: MemoryScores { importance: 0, novelty: 0, recency: 0, repetition: 0 },
        summary: None,
    }
}

fn kg_with_name() -> KnowledgeGraph {
    let mut kg = KnowledgeGraph::new("/tmp/kg", YamlValue::Mapping(Vec::new()));
    kg.set("user.name", YamlValue::String("Rory".into())).unwrap();
    kg
}

fn facts(kg: &KnowledgeGraph, query: &str) -> Vec<String> {
    select_kg_facts(kg, query).into_iter().map(|(p, v)| fact_line_text(&p, v)).collect()
}

#[test]
fn test_gather_context_kg_only() {
    let kg = kg_with_name();
    let conv = Conversation::new_main();
    let found = facts(&kg, "what is user.name");
    let ctx = gather_context(Intent::KnowledgeGraph, found, &conv, 2, vec![]);
    assert!(!ctx.kg_facts.is_empty());
    assert!(ctx.recent_messages.is_empty());
}

#[test]
fn test_gather_context_memory_only() {
    let kg = KnowledgeGraph::new("/tmp/kg", YamlValue::Mapping(Vec::new()));
    let mut conv = Conversation::new_main();
    conv.messages.push(message("user", "hello"));
    let found = facts(&kg, "recall hello");
    let ctx = gather_context(Intent::Memory, found, &conv, 2, vec![]);
    assert!(ctx.kg_facts.is_empty());
    assert_eq!(ctx.recent_messages.len(), 1);
}

#[test]
fn mentioned_paths_are_selected() {
    let kg = kg_with_name();
    assert_eq!(facts(&kg, "What is USER NAME?"), vec!["user.name: Rory"]);
    assert_eq!(facts(&kg, "username please"), vec!["user.name: Rory"]);
}

#[test]
fn without_a_mention_the_top_keys_are_listed() {
    let mut kg = KnowledgeGraph::new("/tmp/kg", YamlValue::Mapping(Vec::new()));
    for k in ["a1", "b2", "c3", "d4", "e5", "f6"] {
        kg.set(k, YamlValue::String("v".into())).unwrap();
    }
    let found = facts(&kg, "zzz");
    assert_eq!(found, vec!["a1: v", "b2: v", "c3: v", "d4: v", "e5: v"]);
}

#[test]
fn gather_context_both_keeps_everything() {
    let mut conv = Conversation::new_main();
    for c in ["one", "two", "three"] {
        conv.messages.push(message("user", c));
    }
    let ctx = gather_context(Intent::Both, vec!["f".into()], &conv, 2, vec![message("user", "m")]);
    assert_eq!(ctx.kg_facts, vec!["f"]);
    assert_eq!(ctx.recent_messages.len(), 2);
    assert_eq!(ctx.recent_messages[0].content, "two");
    assert_eq!(ctx.top_memories.len(), 1);
    let ctx = gather_context(Intent::KnowledgeGraph, vec!["f".into()], &conv, 2, vec![message("user", "m")]);
    assert!(ctx.top_memories.is_empty());
}
