use guac::memory::{
    commit_text, score_basis, tokenize, Conversation, GitAction, GitError, GitMemory, GitOutcome, GitReply,
    MemoryScores, Message,
};

fn message(role: &str, content: &str) -> Message {
    Message {
        role: role.into(),
        content: content.into(),
        timestamp: 0,
        scores: MemoryScores { importance: 0, novelty: 0, recency: 0, repetition: 0 },
        summary: None,
    }
}

fn ok(stdout: &str) -> Option<GitOutcome> {
    Some(GitOutcome::Exited { success: true, stdout: stdout.into(), stderr: String::new() })
}

fn failed(stderr: &str) -> Option<GitOutcome> {
    Some(GitOutcome::Exited { success: false, stdout: String::new(), stderr: stderr.into() })
}

fn run_args(a: &GitAction) -> Vec<String> {
    match a {
        GitAction::Run(args) => args.clone(),
        other => panic!("expected a command, got {:?}", other),
    }
}

#[test]
fn tokenize_keeps_long_lowercase_words_once() {
    let mut words = tokenize("Hello, World! a big-cat hello of");
    words.sort();
    assert_eq!(words, vec!["big", "cat", "hello", "world"]);
}

#[test]
fn tokenize_of_short_words_is_empty() {
    assert!(tokenize("a an of to").is_empty());
}

#[test]
fn recent_takes_the_newest_messages() {
    let conv = Conversation {
        branch: "main".into(),
        messages: vec![message("user", "old"), message("user", "middle"), message("user", "new")],
    };
    let r = conv.recent(2);
    assert_eq!(r.len(), 2);
    assert_eq!(r[0].content, "middle");
    assert_eq!(r[1].content, "new");
    assert_eq!(conv.recent(10).len(), 3);
    assert_eq!(conv.recent(0).len(), 0);
}

#[test]
fn new_conversation_is_empty_on_main() {
    let c = Conversation::new_main();
    assert_eq!(c.branch, "main");
    assert!(c.messages.is_empty());
}

#[test]
fn commit_text_lists_relative_paths() {
    let text = commit_text(
        "memory:\tupdate  \n",
        "/home/user/memory",
        &vec!["/home/user/memory/kg/core.yaml".to_string(), "/elsewhere/x.txt".to_string()],
    );
    assert_eq!(text, "memory: update\n\nFiles:\nkg/core.yaml\n/elsewhere/x.txt");
}

#[test]
fn commit_runs_add_then_commit() {
    let git = GitMemory::new("/repo");
    let mut task = git.commit("test commit");
    assert!(!task.needs_outcome());
    let a = task.step(None);
    assert_eq!(run_args(&a), vec!["add", "."]);
    let a = task.step(ok(""));
    assert_eq!(run_args(&a), vec!["commit", "-m", "test commit"]);
    let a = task.step(ok("[main abc] test commit\n"));
    assert!(matches!(a, GitAction::Finish(Ok(GitReply::Done))));
}

#[test]
fn commit_with_nothing_to_commit_is_done() {
    let git = GitMemory::new("/repo");
    let mut task = git.commit("again");
    task.step(None);
    task.step(ok(""));
    let a = task.step(failed("nothing to commit"));
    assert_eq!(run_args(&a), vec!["status", "--porcelain"]);
    let a = task.step(ok("  \n"));
    assert!(matches!(a, GitAction::Finish(Ok(GitReply::Done))));
}

#[test]
fn commit_failure_with_changes_reports_the_commit_error() {
    let git = GitMemory::new("/repo");
    let mut task = git.commit("again");
    task.step(None);
    task.step(ok(""));
    task.step(failed("hook rejected"));
    let a = task.step(ok(" M file.txt\n"));
    match a {
        GitAction::Finish(Err(GitError::Failed { args, stderr })) => {
            assert_eq!(args, vec!["commit", "-m", "again"]);
            assert_eq!(stderr, "hook rejected");
        }
        other => panic!("unexpected {:?}", other),
    }
}

#[test]
fn add_failure_ends_commit() {
    let git = GitMemory::new("/repo");
    let mut task = git.commit("x");
    task.step(None);
    let a = task.step(Some(GitOutcome::SpawnFailed("no git".into())));
    match a {
        GitAction::Finish(Err(GitError::Spawn { args, reason })) => {
            assert_eq!(args, vec!["add", "."]);
            assert_eq!(reason, "no git");
        }
        other => panic!("unexpected {:?}", other),
    }
}

#[test]
fn init_renames_master_to_main() {
    let git = GitMemory::new("/repo/memory");
    assert_eq!(git.git_dir(), "/repo/memory/.git");
    let mut task = git.init();
    match task.step(None) {
        GitAction::EnsureDir(d) => assert_eq!(d, "/repo/memory"),
        other => panic!("unexpected {:?}", other),
    }
    assert_eq!(run_args(&task.step(None)), vec!["init"]);
    assert!(task.needs_outcome());
    assert_eq!(run_args(&task.step(ok(""))), vec!["config", "user.email", "guac@local"]);
    assert_eq!(run_args(&task.step(ok(""))), vec!["config", "user.name", "GUAC"]);
    assert_eq!(run_args(&task.step(ok(""))), vec!["branch", "--show-current"]);
    assert_eq!(run_args(&task.step(ok("master\n"))), vec!["branch", "-m", "main"]);
    assert!(matches!(task.step(ok("")), GitAction::Finish(Ok(GitReply::Done))));
}

#[test]
fn init_keeps_main() {
    let git = GitMemory::new("/repo/memory");
    let mut task = git.init();
    task.step(None);
    task.step(None);
    task.step(ok(""));
    task.step(ok(""));
    task.step(ok(""));
    assert!(matches!(task.step(ok("main\n")), GitAction::Finish(Ok(GitReply::Done))));
}

#[test]
fn list_branches_trims_each_line() {
    let git = GitMemory::new("/repo");
    let mut task = git.list_branches();
    assert_eq!(run_args(&task.step(None)), vec!["branch", "--format=%(refname:short)"]);
    match task.step(ok("main\n  feature \n")) {
        GitAction::Finish(Ok(GitReply::Lines(ls))) => assert_eq!(ls, vec!["main", "feature"]),
        other => panic!("unexpected {:?}", other),
    }
}

#[test]
fn current_branch_and_log_give_trimmed_text() {
    let git = GitMemory::new("/repo");
    let mut task = git.current_branch();
    assert_eq!(run_args(&task.step(None)), vec!["branch", "--show-current"]);
    match task.step(ok("feature\n")) {
        GitAction::Finish(Ok(GitReply::Text(t))) => assert_eq!(t, "feature"),
        other => panic!("unexpected {:?}", other),
    }
    let mut task = git.log_oneline(10);
    assert_eq!(run_args(&task.step(None)), vec!["log", "--oneline", "-n", "10"]);
    match task.step(ok("abc first\n")) {
        GitAction::Finish(Ok(GitReply::Text(t))) => assert_eq!(t, "abc first"),
        other => panic!("unexpected {:?}", other),
    }
}

#[test]
fn checkout_and_branch_create_run_one_command() {
    let git = GitMemory::new("/repo");
    let mut task = git.branch_create("feature");
    assert_eq!(run_args(&task.step(None)), vec!["branch", "feature"]);
    assert!(matches!(task.step(ok("")), GitAction::Finish(Ok(GitReply::Done))));
    let mut task = git.checkout("feature");
    assert_eq!(run_args(&task.step(None)), vec!["checkout", "feature"]);
    match task.step(failed("error: pathspec")) {
        GitAction::Finish(Err(GitError::Failed { args, .. })) => {
            assert_eq!(args, vec!["checkout", "feature"])
        }
        other => panic!("unexpected {:?}", other),
    }
    let mut task = git.add_all();
    assert_eq!(run_args(&task.step(None)), vec!["add", "."]);
}

#[test]
fn score_basis_without_history() {
    let b = score_basis("What is my name?", &[]);
    assert_eq!(b.word_count, 2);
    assert!(b.has_question);
    assert!(!b.has_exclamation);
    assert!(b.overlaps.is_empty());
    assert_eq!(b.similar, 0);
}

#[test]
fn score_basis_compares_newest_first() {
    let history = vec![
        message("user", "the cat sat"),
        message("assistant", "nothing shared here"),
        message("user", "cat and dog"),
    ];
    let b = score_basis("cat dog bird!", &history);
    assert!(b.has_exclamation);
    assert_eq!(b.word_count, 3);
    assert_eq!(b.overlaps, vec![(2, 4), (0, 6), (1, 5)]);
    assert_eq!(b.similar, 1);
}

#[test]
fn score_basis_looks_at_ten_and_twenty() {
    let history: Vec<Message> = (0..25).map(|_| message("user", "same words here")).collect();
    let b = score_basis("same words here", &history);
    assert_eq!(b.overlaps.len(), 10);
    assert!(b.overlaps.iter().all(|&(s, j)| s == 3 && j == 3));
    assert_eq!(b.similar, 20);
}

#[test]
fn test_score_message() {
    let first = score_basis("What is my name?", &[]);
    assert!(first.has_question);
    assert_eq!(first.word_count, 2);
    assert!(first.overlaps.is_empty());
    let history = vec![message("user", "What is my name?")];
    let second = score_basis("What is my name?", &history);
    assert_eq!(second.overlaps, vec![(2, 2)]);
    assert_eq!(second.similar, 1);
}
