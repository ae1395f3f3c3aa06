use markdown_todo_extractor::filter::{filter_tasks, FilterOptions};
use markdown_todo_extractor::task::{Task, TaskExtractor};

fn extract(content: &str) -> Vec<Task> {
    TaskExtractor::new().extract_tasks_from_content(content, "/vault/notes/todo.md")
}

fn no_filter() -> FilterOptions {
    FilterOptions {
        status: None,
        due_on: None,
        due_before: None,
        due_after: None,
        completed_on: None,
        completed_before: None,
        completed_after: None,
        tags: None,
        exclude_tags: None,
    }
}

#[test]
fn end_to_end_single_task() {
    let tasks = extract("- [ ] Buy milk #errand 📅 2025-01-20");
    assert_eq!(tasks.len(), 1);
    let t = &tasks[0];
    assert_eq!(t.status, "incomplete");
    assert_eq!(t.content, "Buy milk #errand");
    assert_eq!(t.tags, vec!["errand"]);
    assert_eq!(t.due_date, Some("2025-01-20".to_string()));
    assert_eq!(t.line_number, 1);
    assert_eq!(t.file_name, "todo.md");
    assert_eq!(t.file_path, "/vault/notes/todo.md");
    assert_eq!(t.raw_line, "- [ ] Buy milk #errand 📅 2025-01-20");
    assert_eq!(t.summary, None);
}

#[test]
fn statuses_in_priority_order() {
    let tasks = extract("- [ ] a\n- [x] b\n- [X] c\n- [-] d\n- [?] e\n- [] f\nnot a task");
    let st: Vec<&str> = tasks.iter().map(|t| t.status.as_str()).collect();
    assert_eq!(st, vec!["incomplete", "completed", "completed", "cancelled", "other:?"]);
    assert_eq!(tasks[4].line_number, 5);
}

#[test]
fn metadata_markers_are_read_and_stripped() {
    let tasks = extract(
        "- [x] 09:30 Ship it ⏫ due: 2025-02-01 ➕ 2025-01-01 ✅ 2025-01-15 #work #work",
    );
    let t = &tasks[0];
    assert_eq!(t.content, "Ship it #work #work");
    assert_eq!(t.priority, Some("urgent".to_string()));
    assert_eq!(t.due_date, Some("2025-02-01".to_string()));
    assert_eq!(t.created_date, Some("2025-01-01".to_string()));
    assert_eq!(t.completed_date, Some("2025-01-15".to_string()));
    assert_eq!(t.tags, vec!["work", "work"]);
}

#[test]
fn priority_glyph_order_and_text_form() {
    let t = &extract("- [ ] x ⏬ y 🔼")[0];
    assert_eq!(t.priority, Some("high".to_string()));
    let t = &extract("- [ ] call priority: medium now @due(2025-03-04)")[0];
    assert_eq!(t.priority, Some("medium".to_string()));
    assert_eq!(t.due_date, Some("2025-03-04".to_string()));
    assert_eq!(t.content, "call now");
    let t = &extract("- [ ] call Priority: High")[0];
    assert_eq!(t.priority, None);
    assert_eq!(t.content, "call");
}

#[test]
fn cleaning_leaves_no_marker_behind() {
    let t = &extract("- [ ] a 📅📅 2025-01-01 2025-01-02 b")[0];
    assert_eq!(t.content, "a b");
    assert_eq!(t.due_date, Some("2025-01-01".to_string()));
}

#[test]
fn sub_items_are_attached_and_consumed() {
    let content = "- [ ] parent\n    - child one\n    * [x] child two\n\n- [ ] next\n  - [ ] nested\nplain";
    let tasks = extract(content);
    assert_eq!(tasks.len(), 2);
    assert_eq!(tasks[0].sub_items, vec!["child one", "[x] child two"]);
    assert_eq!(tasks[1].content, "next");
    assert_eq!(tasks[1].sub_items, vec!["nested"]);
    assert_eq!(tasks[1].line_number, 5);
}

#[test]
fn carriage_returns_are_dropped() {
    let tasks = extract("- [ ] one\r\n- [ ] two\r");
    assert_eq!(tasks.len(), 2);
    assert_eq!(tasks[0].raw_line, "- [ ] one");
    assert_eq!(tasks[1].raw_line, "- [ ] two");
}

fn sample() -> Vec<Task> {
    extract(
        "- [ ] a #x 📅 2025-01-19\n- [ ] b #x #y 📅 2025-01-20\n- [x] c #y ✅ 2025-01-10\n- [ ] d",
    )
}

fn contents(ts: &[Task]) -> Vec<String> {
    ts.iter().map(|t| t.content.clone()).collect()
}

#[test]
fn filter_is_idempotent() {
    let mut o = no_filter();
    o.status = Some("incomplete".to_string());
    o.tags = Some(vec!["x".to_string()]);
    let once = filter_tasks(sample(), &o);
    let twice = filter_tasks(filter_tasks(sample(), &o), &o);
    assert_eq!(contents(&once), contents(&twice));
    assert_eq!(contents(&once), vec!["a #x", "b #x #y"]);
}

#[test]
fn due_bounds_are_strict() {
    let mut o = no_filter();
    o.due_before = Some("2025-01-20".to_string());
    assert_eq!(contents(&filter_tasks(sample(), &o)), vec!["a #x"]);
    let mut o = no_filter();
    o.due_on = Some("2025-01-20".to_string());
    assert_eq!(contents(&filter_tasks(sample(), &o)), vec!["b #x #y"]);
    let mut o = no_filter();
    o.due_after = Some("2025-01-19".to_string());
    assert_eq!(contents(&filter_tasks(sample(), &o)), vec!["b #x #y"]);
}

#[test]
fn completed_and_tag_exclusion() {
    let mut o = no_filter();
    o.completed_before = Some("2025-02-01".to_string());
    assert_eq!(contents(&filter_tasks(sample(), &o)), vec!["c #y"]);
    let mut o = no_filter();
    o.exclude_tags = Some(vec!["y".to_string()]);
    assert_eq!(contents(&filter_tasks(sample(), &o)), vec!["a #x", "d"]);
    assert_eq!(filter_tasks(sample(), &no_filter()).len(), 4);
}

#[test]
fn empty_and_taskless_text() {
    assert!(extract("").is_empty());
    assert!(extract("# Heading\n\nplain text\n- list item\n- [ ]\n").is_empty());
}

#[test]
fn blank_body_gives_empty_content() {
    let tasks = extract("- [ ]   ");
    assert_eq!(tasks.len(), 1);
    assert_eq!(tasks[0].content, "");
    assert!(tasks[0].tags.is_empty());
}

#[test]
fn tag_word_class_is_regex_word() {
    let t = &extract("- [ ] note #x\u{00B2} #caf\u{0065}\u{0301} #\u{0915}\u{094D}\u{0937}\u{093E} #a\u{203F}b #snake_case")[0];
    assert_eq!(
        t.tags,
        vec![
            "x".to_string(),
            "caf\u{0065}\u{0301}".to_string(),
            "\u{0915}\u{094D}\u{0937}\u{093E}".to_string(),
            "a\u{203F}b".to_string(),
            "snake_case".to_string(),
        ]
    );
}

#[test]
fn tags_and_markers() {
    let t = &extract("- [ ] a #x 📅 2025-01-20 #y")[0];
    assert_eq!(t.tags, vec!["x", "y"]);
    assert_eq!(t.content, "a #x #y");
}
