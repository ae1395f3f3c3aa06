use markdown_todo_extractor::files::{compare_entries, format_tree_visual, FileTreeNode};
use std::cmp::Ordering;

fn node(name: &str, dir: bool, children: Vec<FileTreeNode>) -> FileTreeNode {
    FileTreeNode {
        name: name.to_string(),
        path: name.to_string(),
        is_directory: dir,
        size_bytes: None,
        children,
    }
}

#[test]
fn tree_as_indented_text() {
    let tree = node(
        "vault",
        true,
        vec![node("Daily", true, vec![node("2025-01-20.md", false, vec![])]), node("a.md", false, vec![])],
    );
    assert_eq!(
        format_tree_visual(&tree, 0),
        "vault/\n  Daily/\n    2025-01-20.md\n  a.md\n"
    );
    assert_eq!(format_tree_visual(&node("x.md", false, vec![]), 2), "    x.md\n");
}

#[test]
fn directories_come_first_then_names() {
    let d = node("z", true, vec![]);
    let f = node("a.md", false, vec![]);
    assert_eq!(compare_entries(&d, &f), Ordering::Less);
    assert_eq!(compare_entries(&f, &d), Ordering::Greater);
    assert_eq!(compare_entries(&node("b", false, vec![]), &f), Ordering::Greater);
    assert_eq!(compare_entries(&f, &node("a.md", false, vec![])), Ordering::Equal);
}
