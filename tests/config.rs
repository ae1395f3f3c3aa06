use markdown_todo_extractor::config::Config;

#[test]
fn test_should_exclude_substring() {
    let config = Config {
        exclude_paths: vec!["Template".to_string(), "Recipes".to_string()],
    };

    assert!(config.should_exclude("/vault/Templates/note.md"));
    assert!(config.should_exclude("/vault/Recipes/recipe.md"));
    assert!(!config.should_exclude("/vault/Notes/note.md"));
}

#[test]
fn test_should_exclude_glob_pattern() {
    let config = Config {
        exclude_paths: vec!["**/Template/**".to_string(), "**/Recipes/**".to_string()],
    };

    assert!(config.should_exclude("/vault/Template/note.md"));
    assert!(config.should_exclude("/vault/Recipes/recipe.md"));
    assert!(config.should_exclude("/vault/sub/Template/note.md"));
    assert!(!config.should_exclude("/vault/Notes/note.md"));
}

#[test]
fn test_default_config() {
    let config = Config::default();
    assert!(config.exclude_paths.is_empty());
    assert!(!config.should_exclude("/vault/anything.md"));
}

#[test]
fn glob_only_match() {
    let config = Config {
        exclude_paths: vec!["*.tmp.md".to_string()],
    };
    assert!(config.should_exclude("notes/a.tmp.md"));
    assert!(!config.should_exclude("notes/a.md"));
}

#[test]
fn test_merge_from_env() {
    let mut config = Config {
        exclude_paths: vec!["Template".to_string()],
    };

    config.merge_exclude_list("Archive, Backup, **/tmp/**");

    assert_eq!(config.exclude_paths.len(), 4);
    assert!(config.exclude_paths.contains(&"Template".to_string()));
    assert!(config.exclude_paths.contains(&"Archive".to_string()));
    assert!(config.exclude_paths.contains(&"Backup".to_string()));
    assert!(config.exclude_paths.contains(&"**/tmp/**".to_string()));
}

#[test]
fn test_env_with_empty_patterns() {
    let mut config = Config::default();
    config.merge_exclude_list("Archive, , Backup,  ,");

    assert_eq!(config.exclude_paths.len(), 2);
    assert!(config.exclude_paths.contains(&"Archive".to_string()));
    assert!(config.exclude_paths.contains(&"Backup".to_string()));
}

#[test]
fn merged_items_keep_their_order() {
    let mut config = Config {
        exclude_paths: vec!["Template".to_string()],
    };
    config.merge_exclude_list("Archive, Backup, **/tmp/**");
    assert_eq!(config.exclude_paths, vec!["Template", "Archive", "Backup", "**/tmp/**"]);
    let mut empty = Config::default();
    empty.merge_exclude_list("");
    assert!(empty.exclude_paths.is_empty());
}
