use markdown_todo_extractor::outline::{
    remaining_matches, search_headings, validate_level_bounds, NoteFile, OutlineExtractor,
};

fn create_test_extractor() -> OutlineExtractor {
    OutlineExtractor::new()
}

#[test]
fn test_h1_heading() {
    let extractor = create_test_extractor();
    let heading = extractor.parse_heading("# Title", 1);

    assert!(heading.is_some());
    let h = heading.unwrap();
    assert_eq!(h.title, "Title");
    assert_eq!(h.level, 1);
    assert_eq!(h.line_number, 1);
}

#[test]
fn test_h6_heading() {
    let extractor = create_test_extractor();
    let heading = extractor.parse_heading("###### Deep Title", 1);

    assert!(heading.is_some());
    let h = heading.unwrap();
    assert_eq!(h.title, "Deep Title");
    assert_eq!(h.level, 6);
}

#[test]
fn test_heading_with_obsidian_id() {
    let extractor = create_test_extractor();
    let heading = extractor.parse_heading("## Title {#custom-id}", 1);

    assert!(heading.is_some());
    let h = heading.unwrap();
    assert_eq!(h.title, "Title");
    assert_eq!(h.level, 2);
}

#[test]
fn test_not_a_heading_no_space() {
    let extractor = create_test_extractor();
    let heading = extractor.parse_heading("#NoSpace", 1);

    assert!(heading.is_none());
}

#[test]
fn test_too_many_hashes() {
    let extractor = create_test_extractor();
    let heading = extractor.parse_heading("####### Too many", 1);

    assert!(heading.is_none());
}

#[test]
fn test_regular_text() {
    let extractor = create_test_extractor();
    let heading = extractor.parse_heading("Just some text", 1);

    assert!(heading.is_none());
}

#[test]
fn test_heading_with_unicode() {
    let extractor = create_test_extractor();
    let heading = extractor.parse_heading("## 日本語タイトル", 1);

    assert!(heading.is_some());
    let h = heading.unwrap();
    assert_eq!(h.title, "日本語タイトル");
}

#[test]
fn heading_title_edges() {
    let extractor = create_test_extractor();
    assert_eq!(extractor.parse_heading("##   spaced   ", 3).unwrap().title, "spaced");
    assert_eq!(extractor.parse_heading("# a {#x} b {#y}", 1).unwrap().title, "a {#x} b");
    assert_eq!(extractor.parse_heading("# {#id}", 1).unwrap().title, "{#id}");
    assert!(extractor.parse_heading("#   ", 1).is_none());
    assert!(extractor.parse_heading("  # indented", 1).is_none());
}

#[test]
fn test_simple_document() {
    let extractor = create_test_extractor();
    let content = r"# Title
## Section 1
Some text
### Subsection
More text
## Section 2
Final text";

    let headings = extractor.extract_headings(content);
    assert_eq!(headings.len(), 4);
    assert_eq!(headings[0].title, "Title");
    assert_eq!(headings[0].level, 1);
    assert_eq!(headings[1].title, "Section 1");
    assert_eq!(headings[1].level, 2);
}

#[test]
fn test_headings_in_code_blocks_ignored() {
    let extractor = create_test_extractor();
    let content = r"# Real Heading
```markdown
# Fake Heading in code
```
## Another Real Heading";

    let headings = extractor.extract_headings(content);
    assert_eq!(headings.len(), 2);
    assert_eq!(headings[0].title, "Real Heading");
    assert_eq!(headings[1].title, "Another Real Heading");
}

#[test]
fn test_nested_code_blocks() {
    let extractor = create_test_extractor();
    let content = r"# Real Heading
```
Some code
~~~
# Inside nested
~~~
```
## After Code";

    let headings = extractor.extract_headings(content);
    assert_eq!(headings.len(), 2);
}

#[test]
fn test_simple_hierarchy() {
    let extractor = create_test_extractor();
    let content = r"# Title
## Section 1
### Subsection 1.1
## Section 2";

    let flat_headings = extractor.extract_headings(content);
    let hierarchical = extractor.build_hierarchy(&flat_headings);

    assert_eq!(hierarchical.len(), 1);
    assert_eq!(hierarchical[0].title, "Title");
    assert_eq!(hierarchical[0].children.len(), 2);
    assert_eq!(hierarchical[0].children[0].title, "Section 1");
    assert_eq!(hierarchical[0].children[0].children.len(), 1);
}

#[test]
fn test_level_skipping() {
    let extractor = create_test_extractor();
    let content = r"# Title
### Deep Section
#### Deeper";

    let flat_headings = extractor.extract_headings(content);
    let hierarchical = extractor.build_hierarchy(&flat_headings);

    assert_eq!(hierarchical.len(), 1);
    assert_eq!(hierarchical[0].children.len(), 1);
}

#[test]
fn hierarchy_law_scenario() {
    let extractor = create_test_extractor();
    let tree = extractor.get_outline("# A\n## B\n### C\n## D", true);
    assert_eq!(tree.len(), 1);
    assert_eq!(tree[0].title, "A");
    assert_eq!(tree[0].children.len(), 2);
    assert_eq!(tree[0].children[0].title, "B");
    assert_eq!(tree[0].children[1].title, "D");
    assert_eq!(tree[0].children[0].children.len(), 1);
    assert_eq!(tree[0].children[0].children[0].title, "C");
    assert!(tree[0].children[1].children.is_empty());
}

#[test]
fn hierarchy_several_roots() {
    let extractor = create_test_extractor();
    let tree = extractor.get_outline("## a\n# b\n### c\n# d", true);
    assert_eq!(tree.len(), 3);
    assert_eq!(tree[1].children[0].title, "c");
}

#[test]
fn test_get_section_basic() {
    let extractor = create_test_extractor();
    let content = r"# Title
## Target Section
Content here
More content
## Next Section
Other content";

    let sections = extractor.get_section(content, "Target Section", false);
    assert_eq!(sections.len(), 1);
    assert_eq!(sections[0].content, "Content here\nMore content");
}

#[test]
fn test_get_section_with_subsections() {
    let extractor = create_test_extractor();
    let content = r"# Title
## Target Section
Content
### Subsection
Sub content
## Next Section
Other";

    let sections = extractor.get_section(content, "Target Section", true);
    assert_eq!(sections.len(), 1);
    assert!(sections[0].content.contains("Sub content"));
}

#[test]
fn test_get_section_without_subsections() {
    let extractor = create_test_extractor();
    let content = r"# Title
## Target Section
Content
### Subsection
Sub content
## Next Section
Other";

    let sections = extractor.get_section(content, "Target Section", false);
    assert_eq!(sections.len(), 1);
    assert!(!sections[0].content.contains("Sub content"));
}

#[test]
fn test_multiple_matching_sections() {
    let extractor = create_test_extractor();
    let content = r"# Title
## Duplicate
First content
## Other
Different
## Duplicate
Second content";

    let sections = extractor.get_section(content, "Duplicate", false);
    assert_eq!(sections.len(), 2);
}

#[test]
fn section_boundary_law_scenario() {
    let extractor = create_test_extractor();
    let content = "## X\ncontent\n### Y\nmore\n## Z";
    let without = extractor.get_section(content, "X", false);
    assert_eq!(without.len(), 1);
    assert_eq!(without[0].content, "content");
    assert_eq!(without[0].start_line, 1);
    assert_eq!(without[0].end_line, 2);
    let with = extractor.get_section(content, "x", true);
    assert_eq!(with.len(), 1);
    assert_eq!(with[0].content, "content\n### Y\nmore");
    assert_eq!(with[0].end_line, 4);
}

#[test]
fn section_matches_without_case_and_runs_to_end() {
    let extractor = create_test_extractor();
    let s = extractor.get_section("# Notes\nline one\n\nline two\n", "NOTES", false);
    assert_eq!(s.len(), 1);
    assert_eq!(s[0].content, "line one\n\nline two");
    assert_eq!(s[0].end_line, 4);
}

fn file(path: &str, content: &str) -> NoteFile {
    NoteFile { path: path.to_string(), content: content.to_string() }
}

#[test]
fn test_search_across_files() {
    let files = vec![
        file("/tmp/vault/file1.md", "# Introduction\n## Search Target"),
        file("/tmp/vault/file2.md", "## Other Section\n# Search Target"),
    ];
    let matches = search_headings(&files, "Search Target", None, None, None);
    assert_eq!(matches.len(), 2);
}

#[test]
fn test_search_with_level_filter() {
    let files = vec![file("/tmp/vault/file.md", "# Target\n## Target\n### Target")];
    let matches = search_headings(&files, "Target", Some(2), Some(2), None);
    assert_eq!(matches.len(), 1);
    assert_eq!(matches[0].heading.level, 2);
}

#[test]
fn test_search_limit() {
    let files = vec![file("/tmp/vault/file.md", "# Target 1\n# Target 2\n# Target 3")];
    let matches = search_headings(&files, "Target", None, None, Some(2));
    assert_eq!(matches.len(), 2);
}

#[test]
fn test_case_insensitive_search() {
    let files = vec![file("/tmp/vault/file.md", "# UPPERCASE\n# lowercase\n# MixedCase")];
    let matches = search_headings(&files, "case", None, None, None);
    assert_eq!(matches.len(), 3);
}

#[test]
fn search_results_name_their_files_and_respect_a_zero_cap() {
    let files = vec![
        file("/v/file1.md", "# Introduction\n## Search Target"),
        file("/v/file2.md", "## Other Section\n# Search Target"),
    ];
    let matches = search_headings(&files, "search target", None, None, None);
    assert_eq!(matches[0].file_name, "file1.md");
    assert_eq!(matches[1].heading.line_number, 2);
    assert!(search_headings(&files, "Target", None, None, Some(0)).is_empty());
}

#[test]
fn heading_search_scenario() {
    let files = vec![
        file("/v/a.md", "# Introduction"),
        file("/v/b.md", "## intro notes"),
    ];
    let m = search_headings(&files, "intro", Some(2), None, None);
    assert_eq!(m.len(), 1);
    assert_eq!(m[0].heading.title, "intro notes");
    assert_eq!(m[0].file_path, "/v/b.md");
    assert_eq!(m[0].heading.line_number, 1);
}

#[test]
fn level_bounds_are_checked() {
    assert!(validate_level_bounds(Some(1), Some(6)).is_ok());
    assert!(validate_level_bounds(Some(0), None).is_err());
    assert!(validate_level_bounds(None, Some(7)).is_err());
}

#[test]
fn empty_outline() {
    let extractor = create_test_extractor();
    assert!(extractor.extract_headings("").is_empty());
    assert!(extractor.build_hierarchy(&vec![]).is_empty());
    assert!(extractor.get_section("", "x", true).is_empty());
}

#[test]
fn scanning_stops_at_the_cap() {
    assert_eq!(remaining_matches(None, 7), Some(None));
    assert_eq!(remaining_matches(Some(3), 1), Some(Some(2)));
    assert_eq!(remaining_matches(Some(3), 3), None);
    assert_eq!(remaining_matches(Some(0), 0), None);
}
