use guac::config::{Config, ConfigEnv, ConfigFile};
use guac::fs_memory::{address_to_kg_path, sort_entries, FsMemory};
use std::path::Path;

#[test]
fn test_address_to_kg_path() {
    assert_eq!(address_to_kg_path("/memory/projects/firebac"), "projects.firebac");
    assert_eq!(address_to_kg_path("memory/projects/firebac"), "projects.firebac");
}

#[test]
fn test_resolve_memory_root() {
    let config = Config::resolve("/tmp/guac-test", &ConfigEnv::default(), &ConfigFile::default());
    let fs = FsMemory::new(&config);
    assert_eq!(Path::new(&fs.resolve("/memory/")), Path::new(&config.memory_dir));
    assert_eq!(Path::new(&fs.resolve("/memory")), Path::new(&config.memory_dir));
    assert_eq!(
        Path::new(&fs.resolve("/memory/projects/firebac")),
        Path::new(&config.memory_dir).join("projects/firebac")
    );
    assert_eq!(
        Path::new(&fs.resolve("projects/firebac")),
        Path::new(&config.memory_dir).join("projects/firebac")
    );
}

#[test]
fn kg_paths_of_addresses_have_no_slashes() {
    assert_eq!(address_to_kg_path("/memory"), "memory");
    assert_eq!(address_to_kg_path("//a/b//"), "a.b");
}

#[test]
fn listings_are_sorted() {
    let v = vec!["b.yaml".to_string(), "a.yaml".to_string(), "\u{e9}".to_string(), "B".to_string(), "a".to_string()];
    let mut expected = v.clone();
    expected.sort();
    assert_eq!(sort_entries(v), expected);
    assert_eq!(sort_entries(Vec::new()), Vec::<String>::new());
}

#[test]
fn accepted_addresses_resolve_below_the_memory_directory() {
    let config = Config::resolve("/tmp/guac-test", &ConfigEnv::default(), &ConfigFile::default());
    let fs = FsMemory::new(&config);
    assert!(guac::validation::validate_address("/memory/projects/a.yaml").is_ok());
    assert!(fs.resolve("/memory/projects/a.yaml").starts_with(&config.memory_dir));
    assert!(guac::validation::validate_address("/memory/../x").is_err());
    // A doubled slash after the root would leave an absolute part.
    assert!(guac::validation::validate_address("memory//etc/passwd").is_err());
    assert!(guac::validation::validate_address("/memory//etc/passwd").is_err());
}
