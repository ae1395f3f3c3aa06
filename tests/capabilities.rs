use markdown_todo_extractor::capabilities::{
    arrange_daily_notes, default_start_date, list_tags_response, search_by_tags_response,
    search_dates, DailyNoteResult, GetDailyNoteRequest, RangeError, SearchDailyNotesRequest,
};
use markdown_todo_extractor::tags::{TagCount, TaggedFile};

#[test]
fn test_get_daily_note_request_validation() {
    let request = GetDailyNoteRequest {
        vault_path: None,
        date: "2025-01-20".to_string(),
    };
    assert_eq!(request.date, "2025-01-20");
}

#[test]
fn test_search_daily_notes_request_validation() {
    let request = SearchDailyNotesRequest {
        vault_path: None,
        start_date: Some("2025-01-20".to_string()),
        end_date: Some("2025-01-22".to_string()),
        limit: Some(10),
        sort: Some("desc".to_string()),
        include_content: Some(false),
    };
    assert_eq!(request.start_date, Some("2025-01-20".to_string()));
    assert_eq!(request.limit, Some(10));
}

#[test]
fn search_dates_refusals() {
    assert_eq!(search_dates("bad", "2025-01-20").unwrap_err(), RangeError::InvalidStart);
    assert_eq!(search_dates("2025-01-20", "bad").unwrap_err(), RangeError::InvalidEnd);
    assert_eq!(
        search_dates("2025-01-22", "2025-01-20").unwrap_err(),
        RangeError::StartAfterEnd
    );
    let e = search_dates("2024-01-01", "2025-02-05").unwrap_err();
    assert_eq!(e, RangeError::TooLong);
    assert!(e.message().contains("365 days"));
}

#[test]
fn search_dates_accepts_a_range() {
    let d = search_dates("2025-01-20", "2025-01-22").unwrap();
    assert_eq!(d, vec!["2025-01-20", "2025-01-21", "2025-01-22"]);
}

fn tc(tag: &str, n: usize) -> TagCount {
    TagCount { tag: tag.to_string(), document_count: n }
}

#[test]
fn tag_listing_min_count_and_limit() {
    let r = list_tags_response(vec![tc("a", 5), tc("b", 3), tc("c", 1)], Some(2), Some(1));
    assert_eq!(r.total_unique_tags, 3);
    assert!(r.truncated);
    assert_eq!(r.tags.len(), 1);
    assert_eq!(r.tags[0].tag, "a");
    let r = list_tags_response(vec![tc("a", 5), tc("b", 3), tc("c", 1)], Some(2), None);
    assert!(!r.truncated);
    assert_eq!(r.tags.len(), 2);
}

#[test]
fn tag_search_response_limit() {
    let f = |p: &str| TaggedFile {
        file_path: p.to_string(),
        file_name: p.to_string(),
        matched_tags: vec![],
        all_tags: vec![],
    };
    let r = search_by_tags_response(vec![f("a"), f("b"), f("c")], Some(2));
    assert_eq!(r.total_count, 3);
    assert_eq!(r.files.len(), 2);
}

#[test]
fn default_start_looks_back() {
    assert_eq!(default_start_date("2000-02-15"), "2000-01-17");
    assert_eq!(default_start_date("2000-01-10"), "2000-01-01");
    assert_eq!(default_start_date("bad"), "bad");
    assert_eq!(default_start_date("1999-12-31"), "1999-12-31");
}

fn note(date: &str) -> DailyNoteResult {
    DailyNoteResult {
        date: date.to_string(),
        file_path: format!("{}.md", date),
        file_name: format!("{}.md", date),
        content: None,
        error: None,
    }
}

#[test]
fn daily_notes_order_and_limit() {
    let notes = vec![note("2025-01-20"), note("2025-01-21"), note("2025-01-22")];
    let (desc, total) = arrange_daily_notes(notes, false, Some(2));
    assert_eq!(total, 3);
    let d: Vec<String> = desc.into_iter().map(|n| n.date).collect();
    assert_eq!(d, vec!["2025-01-22", "2025-01-21"]);
    let notes = vec![note("2025-01-20"), note("2025-01-22")];
    let (asc, _) = arrange_daily_notes(notes, true, None);
    assert_eq!(asc[0].date, "2025-01-20");
}
