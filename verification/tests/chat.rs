use guac::chat::{
    branch_list_lines, branch_needs_create, chat_input, join_lines, local_response,
    summarize_input, turn_commit_message, ChatInput,
};
use guac::memory::{MemoryScores, Message};
use guac::router::ContextQuery;

fn message(role: &str, content: &str) -> Message {
    Message {
        role: role.into(),
        content: content.into(),
        timestamp: 0,
        scores: MemoryScores { importance: 0, novelty: 0, recency: 0, repetition: 0 },
        summary: None,
    }
}

#[test]
fn chat_input_recognises_quit_and_blank_lines() {
    assert!(matches!(chat_input("/quit\n"), ChatInput::Quit));
    assert!(matches!(chat_input("  /EXIT  "), ChatInput::Quit));
    assert!(matches!(chat_input("   \n"), ChatInput::Skip));
    match chat_input("  hello  \n") {
        ChatInput::Message(m) => assert_eq!(m, "hello"),
        other => panic!("unexpected {:?}", other),
    }
    match chat_input("/quitting") {
        ChatInput::Message(m) => assert_eq!(m, "/quitting"),
        other => panic!("unexpected {:?}", other),
    }
}

#[test]
fn local_response_echoes_with_context() {
    let ctx = ContextQuery {
        kg_facts: vec!["user.name: Rory".into()],
        recent_messages: vec![message("user", "hello")],
        top_memories: vec![],
    };
    let (reply, delta) = local_response("hi", &ctx);
    assert_eq!(
        reply,
        "Based on the knowledge graph:\nuser.name: Rory\nRecent context is available.\n(Groq not available. Echo:) hi"
    );
    assert!(delta.kg_updates.is_empty());
    assert!(delta.memory_updates.is_empty());
    assert!(delta.current_topic.is_none());
}

#[test]
fn local_response_without_context() {
    let ctx = ContextQuery { kg_facts: vec![], recent_messages: vec![], top_memories: vec![] };
    let (reply, _) = local_response("hello", &ctx);
    assert_eq!(reply, "(Groq not available. Echo:) hello");
}

#[test]
fn summarize_input_cuts_at_fifty_bytes() {
    assert_eq!(summarize_input("short"), "short");
    let long = "x".repeat(60);
    assert_eq!(summarize_input(&long), format!("{}...", "x".repeat(50)));
    let exact = "y".repeat(50);
    assert_eq!(summarize_input(&exact), exact);
}

#[test]
fn turn_commit_message_names_the_topic() {
    assert_eq!(turn_commit_message("hello", &None), "memory: hello | topic: general");
    assert_eq!(
        turn_commit_message("hello", &Some("greeting".into())),
        "memory: hello | topic: greeting"
    );
}

#[test]
fn branch_needs_create_only_for_new_names_in_a_used_repository() {
    let branches = vec!["main".to_string(), "feature".to_string()];
    assert!(!branch_needs_create(&branches, "main"));
    assert!(branch_needs_create(&branches, "firebac"));
    assert!(!branch_needs_create(&vec![], "firebac"));
}

#[test]
fn branch_list_marks_the_current_branch() {
    let branches = vec!["firebac".to_string(), "main".to_string()];
    assert_eq!(branch_list_lines("firebac", &branches), vec!["* firebac", "  main"]);
}

#[test]
fn join_lines_puts_newlines_between() {
    assert_eq!(join_lines(&vec!["a".into(), "b".into()]), "a\nb");
    assert_eq!(join_lines(&vec![]), "");
}
