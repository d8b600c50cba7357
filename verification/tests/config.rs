use guac::config::{join_path, relative_to_memory, sanitize_branch, Config, ConfigEnv, ConfigFile};
use std::path::{Path, PathBuf};

#[test]
fn test_sanitize_branch() {
    assert_eq!(sanitize_branch("feature/new-ui"), "feature/new-ui");
    assert_eq!(sanitize_branch("firebac warfare"), "firebac-warfare");
    assert_eq!(sanitize_branch("weird@name"), "weird-name");
}

#[test]
fn test_relative_to_memory() {
    let memory = "/home/user/project/memory";
    let file = "/home/user/project/memory/kg/core.yaml";
    assert_eq!(PathBuf::from(relative_to_memory(memory, file)), PathBuf::from("kg/core.yaml"));
}

fn std_relative(dir: &str, path: &str) -> String {
    Path::new(path)
        .strip_prefix(Path::new(dir))
        .unwrap_or(Path::new(path))
        .to_str()
        .unwrap()
        .to_string()
}

#[test]
fn relative_to_memory_agrees_with_std_strip_prefix() {
    let samples = [
        "", "/", "//", ".", "./", "a", "a/", "a/b", "a//b", "a/./b", "./a", "./a/b/", "/a",
        "/a/", "/a/b", "/a//b/", "/a/./b/.", "a/b/c", "/a/b/c", "..", "a/../b", "/a/b/./",
        "a/.", "memory", "/memory/kg/core.yaml", "/memory/kg/./core.yaml/",
    ];
    for d in samples.iter() {
        for p in samples.iter() {
            assert_eq!(relative_to_memory(d, p), std_relative(d, p), "dir {:?} path {:?}", d, p);
        }
    }
}

#[test]
fn join_path_follows_pathbuf_join() {
    for (b, r) in [("a", "b"), ("a/", "b"), ("", "b"), ("a", "/b"), ("a", ""), ("/", "x")] {
        let expected = Path::new(b).join(r);
        assert_eq!(join_path(b, r), expected.to_str().unwrap());
    }
}

#[test]
fn config_layers_env_over_file_over_defaults() {
    let env = ConfigEnv {
        groq_api_key: Some("   ".to_string()),
        groq_model: None,
        max_context: Some("+7".to_string()),
        max_memory: Some("lots".to_string()),
        compress_threshold: None,
    };
    let file = ConfigFile {
        groq_api_key: Some("file-key".to_string()),
        groq_model: Some("file-model".to_string()),
        max_context_messages: Some(3),
        max_memory_messages: Some(30),
        compression_threshold: None,
    };
    let c = Config::resolve("/base", &env, &file);
    assert_eq!(c.memory_dir, "/base/memory");
    assert_eq!(c.kg_dir, "/base/memory/kg");
    assert_eq!(c.conversations_dir, "/base/memory/conversations");
    assert_eq!(c.characters_dir, "/base/memory/characters");
    assert_eq!(c.groq_api_key, None);
    assert_eq!(c.groq_model, "file-model");
    assert_eq!(c.max_context_messages, 7);
    assert_eq!(c.max_memory_messages, 30);
    assert_eq!(c.compression_threshold, 20);

    let d = Config::resolve("/b/", &ConfigEnv::default(), &ConfigFile::default());
    assert_eq!(d.memory_dir, "/b/memory");
    assert_eq!(d.groq_model, "llama-3.1-8b-instant");
    assert_eq!(d.max_context_messages, 10);
    assert_eq!(d.max_memory_messages, 50);
    assert_eq!(d.groq_api_key, None);
}

#[test]
fn file_paths_sit_under_sanitized_branches() {
    let c = Config::resolve("/home", &ConfigEnv::default(), &ConfigFile::default());
    assert_eq!(c.conversation_path("firebac warfare"), "/home/memory/conversations/firebac-warfare/chat.yaml");
    assert_eq!(c.summary_path("main", 1), "/home/memory/conversations/main/summary-L1.yaml");
    assert_eq!(c.summary_path("main", 12), "/home/memory/conversations/main/summary-L12.yaml");
    assert_eq!(c.character_core_path("default"), "/home/memory/characters/default/core.yaml");
    assert_eq!(c.character_memory_path("default"), "/home/memory/characters/default/memory.yaml");
    assert_eq!(c.dirs().len(), 4);
}

#[test]
fn sanitizing_a_branch_twice_changes_nothing() {
    for b in ["a b", "x@y/z", "\u{e9}t\u{e9}", "ok-_/"] {
        let once = sanitize_branch(b);
        assert_eq!(sanitize_branch(&once), once);
        assert_eq!(once.chars().count(), b.chars().count());
    }
}

#[test]
fn relative_path_undoes_join() {
    let dir = "/home/user/memory";
    for rel in ["kg/core.yaml", "conversations/main/chat.yaml", "a"] {
        assert_eq!(relative_to_memory(dir, &join_path(dir, rel)), rel);
    }
}
