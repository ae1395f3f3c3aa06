use markdown_todo_extractor::pattern::{apply_pattern, daily_note_candidates, select_daily_note};

#[test]
fn test_apply_pattern() {
    assert_eq!(
        apply_pattern("YYYY-MM-DD.md", "2025-01-20"),
        Some("2025-01-20.md".to_string())
    );
    assert_eq!(
        apply_pattern("Daily/YYYY/MM-DD.md", "2025-01-20"),
        Some("Daily/2025/01-20.md".to_string())
    );
    assert_eq!(
        apply_pattern("YYYY/MM/DD.md", "2025-01-20"),
        Some("2025/01/20.md".to_string())
    );
    assert_eq!(apply_pattern("YYYY-MM-DD.md", "invalid"), None);
}

#[test]
fn candidates_follow_pattern_order() {
    let pats = vec!["YYYY-MM-DD.md".to_string(), "Daily/YYYY_MM_DD.md".to_string()];
    let c = daily_note_candidates("2025-01-20", &pats).unwrap();
    assert_eq!(c, vec!["2025-01-20.md", "Daily/2025_01_20.md"]);
    assert!(daily_note_candidates("2025-02-30", &pats).unwrap_err().contains("Invalid pattern"));
}

#[test]
fn selecting_among_found_notes() {
    assert_eq!(select_daily_note("2025-01-20", vec![]), Ok(None));
    assert_eq!(
        select_daily_note("2025-01-20", vec!["2025-01-20.md".to_string()]),
        Ok(Some("2025-01-20.md".to_string()))
    );
    let e = select_daily_note(
        "2025-01-20",
        vec!["2025-01-20.md".to_string(), "2025_01_20.md".to_string()],
    )
    .unwrap_err();
    assert!(e.contains("Multiple daily notes found"));
}

#[test]
fn one_file_named_by_two_patterns_is_one_note() {
    let found = vec!["2025-01-20.md".to_string(), "2025-01-20.md".to_string()];
    assert_eq!(
        select_daily_note("2025-01-20", found),
        Ok(Some("2025-01-20.md".to_string()))
    );
}
