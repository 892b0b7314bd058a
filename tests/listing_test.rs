use md_task::listing::{list_entries, EntryKind};

fn lines_from(text: &str) -> Vec<String> {
    text.lines().map(|s| s.to_string()).collect()
}

fn shown(lines: &Vec<String>, all: bool) -> Vec<(EntryKind, usize, String)> {
    list_entries(lines, all)
        .into_iter()
        .map(|e| (e.kind, e.number, e.text))
        .collect()
}

const DOC: &str = "## タスク一覧\n\n- [ ] 🔴 a\n- [x] 🟡 b\n- [ ] 🟢 c\n\n## アーカイブ\n\n- [x] 🟡 d\n- [ ] 🟡 e\n- [x] 🟢 f";

#[test]
fn pending_tasks_are_numbered_from_one() {
    assert_eq!(
        shown(&lines_from(DOC), false),
        vec![
            (EntryKind::Pending, 1, "🔴 a".to_string()),
            (EntryKind::Pending, 2, "🟢 c".to_string()),
            (EntryKind::Pending, 3, "🟡 e".to_string()),
        ]
    );
}

#[test]
fn all_entries_number_archived_tasks_on_their_own() {
    assert_eq!(
        shown(&lines_from(DOC), true),
        vec![
            (EntryKind::Pending, 1, "🔴 a".to_string()),
            (EntryKind::Done, 0, "🟡 b".to_string()),
            (EntryKind::Pending, 2, "🟢 c".to_string()),
            (EntryKind::ArchiveStart, 0, String::new()),
            (EntryKind::Archived, 1, "🟡 d".to_string()),
            (EntryKind::Pending, 3, "🟡 e".to_string()),
            (EntryKind::Archived, 2, "🟢 f".to_string()),
        ]
    );
}

#[test]
fn empty_document_lists_nothing() {
    assert!(list_entries(&Vec::new(), true).is_empty());
}
