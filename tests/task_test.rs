use md_task::document::document_text;
use md_task::normalize::normalize;
use md_task::task::{
    append_task, archive_all, archive_task, mark_done, parse_priority, remove_task, TaskError,
};
use md_task::line::Priority;

fn lines_from(text: &str) -> Vec<String> {
    text.lines().map(|s| s.to_string()).collect()
}

fn text_of(lines: &Vec<String>) -> String {
    document_text(lines)
}

fn split_doc(text: &str) -> Vec<String> {
    text.split('\n').map(|s| s.to_string()).collect()
}

#[test]
fn test_add_task_to_file() {
    let lines = append_task(&Vec::new(), "テストタスク", parse_priority("high").unwrap());
    let content = text_of(&lines);
    assert!(content.contains("## タスク一覧"));
    assert!(content.contains("- [ ] 🔴 テストタスク"));

    let lines = append_task(&lines, "普通の優先度タスク", parse_priority("medium").unwrap());
    let content = text_of(&lines);
    assert!(content.contains("- [ ] 🔴 テストタスク"));
    assert!(content.contains("- [ ] 🟡 普通の優先度タスク"));
}

#[test]
fn test_normalize_task_file() {
    let content = r#"
- [ ] 優先度なしタスク

- [x] 優先度なし完了タスク


- [ ] 連続した空行があるタスク


## アーカイブ
- [ ] アーカイブ内の未完了タスク
- [x] 🟡 アーカイブ内の完了タスク
"#;
    let (lines, changed) = normalize(&lines_from(content), false);
    assert!(changed);
    let normalized = text_of(&lines);

    assert!(normalized.contains("## タスク一覧"));
    assert!(!normalized.contains("\n\n\n"));
    assert!(normalized.contains("- [ ] 🟡 優先度なしタスク"));
    assert!(normalized.contains("- [x] 🟡 優先度なし完了タスク"));

    let lines: Vec<&str> = normalized.lines().collect();
    let task_section_idx = lines.iter().position(|&l| l == "## タスク一覧").unwrap();
    let archive_section_idx = lines.iter().position(|&l| l == "## アーカイブ").unwrap();
    let task_moved = lines[task_section_idx..archive_section_idx]
        .iter()
        .any(|&l| l.contains("- [ ] 🟡 アーカイブ内の未完了タスク"));
    assert!(task_moved);
}

#[test]
fn test_archive_all_completed_tasks() {
    let content = r#"## タスク一覧

- [ ] 🔴 未完了の重要タスク
- [x] 🟡 完了済みタスク1
- [ ] 🟢 未完了の低優先度タスク
- [x] 🔴 完了済みタスク2
- [x] 🟢 完了済みタスク3

## アーカイブ

- [x] 🟡 既存のアーカイブタスク
"#;
    let result = text_of(&archive_all(&lines_from(content)));
    let lines: Vec<&str> = result.lines().collect();

    let task_section_idx = lines.iter().position(|&l| l == "## タスク一覧").unwrap();
    let archive_section_idx = lines.iter().position(|&l| l == "## アーカイブ").unwrap();

    let task_section_lines: Vec<&str> = lines[task_section_idx..archive_section_idx]
        .iter()
        .filter(|&&l| l.starts_with("- "))
        .cloned()
        .collect();
    assert_eq!(task_section_lines.len(), 2);
    assert!(task_section_lines.iter().all(|&l| l.starts_with("- [ ]")));
    assert!(task_section_lines.iter().any(|&l| l.contains("未完了の重要タスク")));
    assert!(task_section_lines.iter().any(|&l| l.contains("未完了の低優先度タスク")));

    let archive_section_lines: Vec<&str> = lines[archive_section_idx..]
        .iter()
        .filter(|&&l| l.starts_with("- [x]"))
        .cloned()
        .collect();
    assert_eq!(archive_section_lines.len(), 4);
    assert!(archive_section_lines.iter().any(|&l| l.contains("既存のアーカイブタスク")));
    assert!(archive_section_lines.iter().any(|&l| l.contains("完了済みタスク1")));
    assert!(archive_section_lines.iter().any(|&l| l.contains("完了済みタスク2")));
    assert!(archive_section_lines.iter().any(|&l| l.contains("完了済みタスク3")));
}

#[test]
fn append_to_empty_then_normalize_gives_minimal_document() {
    let lines = append_task(&Vec::new(), "buy milk", Priority::High);
    let (lines, _) = normalize(&lines, false);
    assert_eq!(text_of(&lines), "## タスク一覧\n\n- [ ] 🔴 buy milk\n");
}

#[test]
fn append_goes_before_archive_header() {
    let doc = lines_from("## タスク一覧\n\n- [ ] 🔴 a\n\n## アーカイブ\n\n- [x] 🟢 b");
    let r = append_task(&doc, "c", Priority::Low);
    assert_eq!(
        r,
        lines_from("## タスク一覧\n\n- [ ] 🔴 a\n\n- [ ] 🟢 c\n## アーカイブ\n\n- [x] 🟢 b")
    );
}

#[test]
fn remove_second_of_three_pending() {
    let doc = lines_from("## タスク一覧\n\n- [ ] 🔴 one\n- [x] 🟡 done\n- [ ] 🟡 two\n- [ ] 🟢 three\n");
    let r = remove_task(&doc, 2).unwrap();
    let pending: Vec<&String> = r.iter().filter(|l| l.starts_with("- [ ] ")).collect();
    assert_eq!(pending.len(), 2);
    assert_eq!(pending[0], "- [ ] 🔴 one");
    assert_eq!(pending[1], "- [ ] 🟢 three");
    assert!(!r.iter().any(|l| l.contains("two")));
    assert_eq!(r.len(), doc.len() - 1);
}

#[test]
fn remove_out_of_range_reports_not_found() {
    let doc = lines_from("## タスク一覧\n\n- [ ] 🔴 one\n");
    assert_eq!(remove_task(&doc, 0), Err(TaskError::TaskNotFound));
    assert_eq!(remove_task(&doc, 2), Err(TaskError::TaskNotFound));
}

#[test]
fn mark_done_changes_only_the_nth_pending_line() {
    let doc = lines_from("## タスク一覧\n\n- [x] 🟡 old\n- [ ] 🔴 a\n- [ ] 🟡 b\n- [ ] 🟢 c");
    let r = mark_done(&doc, 2).unwrap();
    let mut expected = doc.clone();
    expected[4] = "- [x] 🟡 b".to_string();
    assert_eq!(r, expected);
}

#[test]
fn mark_done_out_of_range_fails() {
    let doc = lines_from("## タスク一覧\n\n- [ ] 🔴 a\n- [ ] 🟡 b\n- [ ] 🟢 c");
    assert_eq!(mark_done(&doc, 0), Err(TaskError::TaskNotFound));
    assert_eq!(mark_done(&doc, 4), Err(TaskError::TaskNotFound));
    assert_eq!(mark_done(&Vec::new(), 1), Err(TaskError::TaskNotFound));
}

#[test]
fn archive_task_goes_right_under_existing_header() {
    let doc = lines_from("## タスク一覧\n\n- [x] 🔴 a\n- [x] 🟡 b\n\n## アーカイブ\n\n- [x] 🟢 old");
    let r = archive_task(&doc, 2).unwrap();
    assert_eq!(
        r,
        lines_from("## タスク一覧\n\n- [x] 🔴 a\n\n## アーカイブ\n- [x] 🟡 b\n\n- [x] 🟢 old")
    );
}

#[test]
fn archive_task_makes_archive_when_missing() {
    let doc = lines_from("## タスク一覧\n\n- [ ] 🔴 a\n- [x] 🟡 b");
    let r = archive_task(&doc, 1).unwrap();
    assert_eq!(
        r,
        lines_from("## タスク一覧\n\n- [ ] 🔴 a\n## アーカイブ\n\n- [x] 🟡 b")
    );
}

#[test]
fn archive_task_counts_archived_ones_too() {
    let doc = lines_from("## タスク一覧\n\n- [x] 🔴 a\n## アーカイブ\n- [x] 🟢 old");
    assert!(archive_task(&doc, 2).is_ok());
    assert_eq!(archive_task(&doc, 3), Err(TaskError::CompletedTaskNotFound));
    assert_eq!(archive_task(&doc, 0), Err(TaskError::CompletedTaskNotFound));
}

#[test]
fn archive_all_without_done_tasks_changes_nothing() {
    let doc = lines_from("## タスク一覧\n\n- [ ] 🔴 a\n");
    assert_eq!(archive_all(&doc), doc);
}

#[test]
fn archive_all_makes_archive_when_missing() {
    let doc = lines_from("## タスク一覧\n\n- [x] 🔴 a\n- [ ] 🟡 b\n- [x] 🟢 c");
    assert_eq!(
        archive_all(&doc),
        lines_from("## タスク一覧\n\n- [ ] 🟡 b\n## アーカイブ\n\n- [x] 🔴 a\n- [x] 🟢 c")
    );
}

#[test]
fn pending_task_in_archive_moves_before_header_with_medium_priority() {
    let doc = lines_from("## タスク一覧\n\n- [ ] 🔴 a\n\n## アーカイブ\n\n- [x] 🟢 old\n- [ ] x\n");
    let (r, changed) = normalize(&doc, false);
    assert!(changed);
    assert_eq!(
        r,
        split_doc("## タスク一覧\n\n- [ ] 🔴 a\n\n- [ ] 🟡 x\n## アーカイブ\n\n- [x] 🟢 old\n")
    );
}

#[test]
fn pending_task_in_archive_stays_when_allowed() {
    let doc = lines_from("## タスク一覧\n\n## アーカイブ\n- [ ] 🔴 x\n");
    let mut expected = doc.clone();
    expected.push(String::new());
    let (r, changed) = normalize(&doc, true);
    assert!(changed);
    assert_eq!(r, expected);
}

#[test]
fn normalize_twice_is_normalize_once() {
    let doc = lines_from("- [ ] a\n\n\n  \n- [x] b\n## アーカイブ\n- [ ] c\n- [x] 🔴 d");
    let (once, _) = normalize(&doc, false);
    let (twice, changed) = normalize(&once, false);
    assert_eq!(once, twice);
    assert!(!changed);
}

#[test]
fn normalize_collapses_white_space_runs() {
    let doc = lines_from("## タスク一覧\n\n   \n\t\n- [ ] 🔴 a\n");
    let (r, _) = normalize(&doc, false);
    assert_eq!(r, split_doc("## タスク一覧\n\n- [ ] 🔴 a\n"));
}

#[test]
fn normalize_of_canonical_document_reports_no_change() {
    let doc = split_doc("## タスク一覧\n\n- [ ] 🔴 a\n");
    let (r, changed) = normalize(&doc, false);
    assert_eq!(r, doc);
    assert!(!changed);
}

#[test]
fn normalize_empty_document_gives_header() {
    let (r, changed) = normalize(&Vec::new(), false);
    assert_eq!(r, vec!["## タスク一覧".to_string(), String::new()]);
    assert!(changed);
}

#[test]
fn task_count_is_kept_by_done_and_archive() {
    let count = |d: &Vec<String>| d.iter().filter(|l| l.starts_with("- [ ] ") || l.starts_with("- [x] ")).count();
    let doc = lines_from("## タスク一覧\n\n- [ ] 🔴 a\n- [x] 🟡 b\n## アーカイブ\n- [x] 🟢 c");
    assert_eq!(count(&mark_done(&doc, 1).unwrap()), 3);
    assert_eq!(count(&archive_task(&doc, 1).unwrap()), 3);
    assert_eq!(count(&archive_all(&doc)), 3);
    assert_eq!(count(&remove_task(&doc, 1).unwrap()), 2);
    assert_eq!(count(&append_task(&doc, "d", Priority::Low)), 4);
}

#[test]
fn parse_priority_rejects_unknown_names() {
    assert_eq!(parse_priority("high"), Ok(Priority::High));
    assert_eq!(parse_priority("medium"), Ok(Priority::Medium));
    assert_eq!(parse_priority("low"), Ok(Priority::Low));
    assert_eq!(parse_priority("urgent"), Err(TaskError::InvalidPriority));
    assert_eq!(parse_priority(""), Err(TaskError::InvalidPriority));
}

#[test]
fn document_text_joins_lines_with_newlines() {
    assert_eq!(document_text(&Vec::new()), "");
    assert_eq!(document_text(&vec!["a".to_string()]), "a");
    assert_eq!(document_text(&split_doc("a\n\nb\n")), "a\n\nb\n");
}

#[test]
fn lifting_a_task_out_of_the_archive_can_leave_a_blank_run() {
    let doc = split_doc("## タスク一覧\n\n## アーカイブ\n\n- [ ] x\n");
    let (once, _) = normalize(&doc, false);
    assert_eq!(once, split_doc("## タスク一覧\n\n- [ ] 🟡 x\n## アーカイブ\n\n"));
    let (twice, changed) = normalize(&once, false);
    assert!(changed);
    assert_eq!(twice, split_doc("## タスク一覧\n\n- [ ] 🟡 x\n## アーカイブ\n"));
}
