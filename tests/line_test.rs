use md_task::line::{blank, classify, priority_of, task_body, LineKind, Priority};

#[test]
fn classify_recognises_each_kind() {
    assert_eq!(classify("## タスク一覧"), LineKind::TaskListHeader);
    assert_eq!(classify("## アーカイブ"), LineKind::ArchiveHeader);
    assert_eq!(classify("- [ ] a"), LineKind::Pending);
    assert_eq!(classify("- [x] a"), LineKind::Done);
    assert_eq!(classify("- [ ]"), LineKind::Other);
    assert_eq!(classify("## アーカイブ "), LineKind::Other);
    assert_eq!(classify("text"), LineKind::Other);
}

#[test]
fn task_body_strips_the_marker() {
    assert_eq!(task_body("- [ ] 🔴 a"), Some("🔴 a"));
    assert_eq!(task_body("- [x] b"), Some("b"));
    assert_eq!(task_body("b"), None);
}

#[test]
fn priority_follows_the_marker() {
    assert_eq!(priority_of("- [ ] 🔴 a"), Some(Priority::High));
    assert_eq!(priority_of("- [x] 🟡 a"), Some(Priority::Medium));
    assert_eq!(priority_of("- [ ] 🟢 a"), Some(Priority::Low));
    assert_eq!(priority_of("- [ ] a 🔴"), None);
    assert_eq!(priority_of("🔴 a"), None);
}

#[test]
fn blank_means_white_space_only() {
    assert!(blank(""));
    assert!(blank("   "));
    assert!(blank("\t \u{3000}"));
    assert!(!blank(" a "));
    assert!(!blank("- [ ] "));
}
