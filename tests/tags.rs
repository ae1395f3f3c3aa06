use markdown_todo_extractor::tags::{
    aggregate_tags, count_tags, search_by_tags, tags_of_field, FileTags, TagExtractor, YamlTags,
};

#[test]
fn test_extract_frontmatter() {
    let extractor = TagExtractor::new();

    let content = r#"---
title: My Document
tags:
  - rust
  - programming
---

# Content here
"#;

    let frontmatter = extractor.extract_frontmatter(content).unwrap();
    assert!(frontmatter.is_some());
    assert!(frontmatter.unwrap().contains("tags:"));
}

#[test]
fn test_parse_tags_array() {
    let extractor = TagExtractor::new();

    let frontmatter = r#"title: My Document
tags:
  - rust
  - programming
  - cli
"#;

    let tags = extractor.parse_tags_from_frontmatter(frontmatter).unwrap();
    assert_eq!(tags.len(), 3);
    assert!(tags.contains(&"rust".to_string()));
    assert!(tags.contains(&"programming".to_string()));
    assert!(tags.contains(&"cli".to_string()));
}

#[test]
fn test_parse_tags_single_string() {
    let extractor = TagExtractor::new();

    let frontmatter = r#"title: My Document
tags: single-tag
"#;

    let tags = extractor.parse_tags_from_frontmatter(frontmatter).unwrap();
    assert_eq!(tags.len(), 1);
    assert_eq!(tags[0], "single-tag");
}

#[test]
fn test_extract_tags_from_content() {
    let extractor = TagExtractor::new();

    let content = r#"---
title: My Document
tags:
  - rust
  - programming
---

# My Document

Some content here.
"#;

    let tags = extractor.extract_tags_from_content(content).unwrap();
    assert_eq!(tags.len(), 2);
    assert!(tags.contains(&"rust".to_string()));
    assert!(tags.contains(&"programming".to_string()));
}

#[test]
fn test_no_frontmatter() {
    let extractor = TagExtractor::new();

    let content = r#"# My Document

Some content here without frontmatter.
"#;

    let tags = extractor.extract_tags_from_content(content).unwrap();
    assert_eq!(tags.len(), 0);
}

#[test]
fn frontmatter_edges() {
    let extractor = TagExtractor::new();
    assert_eq!(extractor.extract_frontmatter("---\na: 1\n").unwrap(), None);
    assert_eq!(extractor.extract_frontmatter("x\n---\na: 1\n---\n").unwrap(), None);
    assert_eq!(
        extractor.extract_frontmatter(" --- \na: 1\nb: 2\n---\nbody").unwrap(),
        Some("a: 1\nb: 2".to_string())
    );
    let tags = extractor
        .parse_tags_from_frontmatter("tags:\n  - one\n  - 3\n  -\n  - two\n")
        .unwrap();
    assert_eq!(tags, vec!["one", "two"]);
    assert!(extractor.parse_tags_from_frontmatter("tags: {a: 1}\n").unwrap().is_empty());
    assert!(extractor.parse_tags_from_frontmatter("tags: [a, b\n").is_err());
}

fn strings(v: &[&str]) -> Vec<String> {
    v.iter().map(|s| s.to_string()).collect()
}

#[test]
fn aggregate_single_file_is_sorted_unique() {
    let r = aggregate_tags(&vec![strings(&["rust", "cli", "rust", "alpha"])]);
    assert_eq!(r, vec!["alpha", "cli", "rust"]);
    assert!(aggregate_tags(&vec![]).is_empty());
}

#[test]
fn document_counts_ignore_repeats() {
    let files = vec![
        strings(&["rust"]),
        strings(&["rust", "go"]),
        strings(&["go", "go", "zig"]),
    ];
    let counts = count_tags(&files);
    let got: Vec<(String, usize)> =
        counts.iter().map(|c| (c.tag.clone(), c.document_count)).collect();
    assert_eq!(
        got,
        vec![("go".to_string(), 2), ("rust".to_string(), 2), ("zig".to_string(), 1)]
    );
    let files = vec![strings(&["rust"]), strings(&["rust"]), strings(&["rust", "rust"])];
    let counts = count_tags(&files);
    assert_eq!(counts.len(), 1);
    assert_eq!(counts[0].document_count, 3);
}

#[test]
fn two_files_count_two() {
    let files = vec![strings(&["rust"]), strings(&["rust"]), strings(&["other", "other"])];
    let counts = count_tags(&files);
    let rust = counts.iter().find(|c| c.tag == "rust").unwrap();
    assert_eq!(rust.document_count, 2);
}

#[test]
fn tag_search_any_and_all() {
    let files = vec![
        FileTags { file_path: "/v/a.md".to_string(), tags: strings(&["Rust", "CLI"]) },
        FileTags { file_path: "/v/b.md".to_string(), tags: strings(&["rust"]) },
        FileTags { file_path: "/v/c.md".to_string(), tags: strings(&["go"]) },
    ];
    let any = search_by_tags(&files, &strings(&["rust", "cli"]), false).unwrap();
    assert_eq!(any.len(), 2);
    assert_eq!(any[0].file_name, "a.md");
    assert_eq!(any[0].matched_tags, vec!["rust", "cli"]);
    assert_eq!(any[0].all_tags, vec!["Rust", "CLI"]);
    assert_eq!(any[1].matched_tags, vec!["rust"]);
    let all = search_by_tags(&files, &strings(&["RUST", "cli"]), true).unwrap();
    assert_eq!(all.len(), 1);
    assert_eq!(all[0].file_path, "/v/a.md");
    assert!(search_by_tags(&files, &vec![], true).is_err());
}

#[test]
fn tags_from_field_shapes() {
    let seq = YamlTags::Sequence(vec![Some("a".to_string()), None, Some("b".to_string())]);
    assert_eq!(tags_of_field(&seq), vec!["a", "b"]);
    assert_eq!(tags_of_field(&YamlTags::Scalar("solo".to_string())), vec!["solo"]);
    assert!(tags_of_field(&YamlTags::Other).is_empty());
}

#[test]
fn documents_aggregate_sorted_unique() {
    let docs = vec![
        "---\ntags: [rust, cli, rust]\n---\nbody".to_string(),
        "no frontmatter".to_string(),
        "---\ntags: [alpha\n---\n".to_string(),
        "---\ntags: zeta\n---\n".to_string(),
    ];
    assert_eq!(TagExtractor::new().extract_tags(&docs), vec!["cli", "rust", "zeta"]);
    let one = vec!["---\ntags:\n  - b\n  - a\n  - b\n---\n".to_string()];
    assert_eq!(TagExtractor::new().extract_tags(&one), vec!["a", "b"]);
}
