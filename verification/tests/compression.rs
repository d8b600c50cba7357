use guac::compression::{compression_text, extractive_summary, take_for_compression, SummaryFile};
use guac::memory::{Conversation, MemoryScores, Message};

fn dummy_message(role: &str, content: &str) -> Message {
    Message {
        role: role.into(),
        content: content.into(),
        timestamp: 0,
        scores: MemoryScores {
            importance: 0.5f64.to_bits(),
            novelty: 0.5f64.to_bits(),
            recency: 1.0f64.to_bits(),
            repetition: 0.0f64.to_bits(),
        },
        summary: None,
    }
}

#[test]
fn compress_branch_without_groq_steps() {
    let mut conv = Conversation {
        branch: "main".into(),
        messages: vec![
            dummy_message("user", "hi"),
            dummy_message("assistant", "hello there"),
            dummy_message("user", "bye"),
            dummy_message("assistant", "goodbye"),
        ],
    };
    let taken = take_for_compression(&mut conv, 2, &vec![0, 0, 0, 0]);
    assert_eq!(taken.len(), 2);
    assert_eq!(conv.messages.len(), 2);
    assert_eq!(conv.messages[0].content, "bye");
    let summary = extractive_summary(&taken);
    assert_eq!(summary, "hello there");
    let mut file = SummaryFile::new_main();
    file.record("main", "2024-01-01T00:00:00+00:00".into(), taken.len(), summary);
    assert_eq!(file.entries.len(), 1);
    assert_eq!(file.entries[0].level, 1);
    assert_eq!(file.entries[0].source_range, "messages 0..2");
    assert!(file.entries[0].summary.contains("hello there"));
}

#[test]
fn take_nothing_under_threshold() {
    let mut conv = Conversation { branch: "main".into(), messages: vec![dummy_message("user", "hi")] };
    let taken = take_for_compression(&mut conv, 10, &vec![0]);
    assert_eq!(taken.len(), 0);
    assert_eq!(conv.messages.len(), 1);
    let taken = take_for_compression(&mut conv, 1, &vec![0]);
    assert_eq!(taken.len(), 0);
}

#[test]
fn transcript_has_one_line_per_message() {
    let ms = vec![dummy_message("user", "hi"), dummy_message("assistant", "hello")];
    assert_eq!(compression_text(&ms), "user: hi\nassistant: hello");
    assert_eq!(compression_text(&vec![]), "");
}

#[test]
fn extractive_summary_without_replies() {
    let ms = vec![dummy_message("user", "hi")];
    assert_eq!(extractive_summary(&ms), "(conversation continued)");
}

#[test]
fn extractive_summary_drops_repeated_neighbours() {
    let ms = vec![
        dummy_message("assistant", "  same "),
        dummy_message("user", "x"),
        dummy_message("assistant", "same"),
        dummy_message("assistant", "other"),
        dummy_message("assistant", "same"),
    ];
    assert_eq!(extractive_summary(&ms), "same other same");
}

#[test]
fn extractive_summary_cuts_long_replies() {
    let long = "a".repeat(250);
    let ms = vec![dummy_message("assistant", &long)];
    let s = extractive_summary(&ms);
    assert_eq!(s, format!("{}...", "a".repeat(200)));
}

#[test]
fn record_keeps_earlier_entries() {
    let mut file = SummaryFile::new_main();
    file.record("feature", "t1".into(), 3, "first".into());
    file.record("feature", "t2".into(), 12, "second".into());
    assert_eq!(file.branch, "feature");
    assert_eq!(file.entries.len(), 2);
    assert_eq!(file.entries[0].summary, "first");
    assert_eq!(file.entries[1].source_range, "messages 0..12");
    assert_eq!(file.entries[1].timestamp, "t2");
}

#[test]
fn compression_takes_the_lowest_scoring_messages() {
    let mut conv = Conversation {
        branch: "main".into(),
        messages: vec![
            dummy_message("user", "important and old"),
            dummy_message("user", "chatter"),
            dummy_message("assistant", "filler"),
            dummy_message("user", "recent"),
        ],
    };
    // Ranks by score: the oldest scores highest.
    let taken = take_for_compression(&mut conv, 2, &vec![3, 0, 1, 2]);
    let names: Vec<&str> = taken.iter().map(|m| m.content.as_str()).collect();
    assert_eq!(names, vec!["chatter", "filler"]);
    let kept: Vec<&str> = conv.messages.iter().map(|m| m.content.as_str()).collect();
    assert_eq!(kept, vec!["important and old", "recent"]);
}

#[test]
fn equal_ranks_take_the_oldest_first() {
    let mut conv = Conversation {
        branch: "main".into(),
        messages: vec![
            dummy_message("user", "a"),
            dummy_message("user", "b"),
            dummy_message("user", "c"),
        ],
    };
    let taken = take_for_compression(&mut conv, 1, &vec![1, 0, 1]);
    let names: Vec<&str> = taken.iter().map(|m| m.content.as_str()).collect();
    assert_eq!(names, vec!["a", "b"]);
    assert_eq!(conv.messages[0].content, "c");
}
