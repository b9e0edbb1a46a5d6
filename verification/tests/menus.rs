use autumnk_gwt::tui::{
    default_worktree_path, display_width, first_available, move_branch_selection,
    render_branch_lines, render_worktree_lines, truncate_styled, KeyCode, KeyModifiers, PathEditor,
};
use autumnk_gwt::types::{BranchCandidate, Worktree};
use unicode_width::UnicodeWidthStr;

#[test]
fn worktree_selector_keeps_the_last_terminal_column_unused() {
    let width = 80;
    let worktree = Worktree::record(
        "/a/path/long/enough/to/make/the/table/use/all/available/columns".into(),
    );
    let lines = render_worktree_lines(&[worktree], 0, width, false, None, "select");

    assert!(
        lines.iter().all(|line| line.width() < width),
        "a full-width line can trigger an implicit wrap: {lines:?}"
    );
}

#[test]
fn narrow_colored_frames_are_clipped_by_visible_width() {
    let width = 24;
    let worktree = Worktree::record("/a/very/long/worktree/path".into());
    let lines = render_worktree_lines(
        &[worktree],
        0,
        width,
        true,
        Some("Select a worktree to remove:"),
        "remove",
    );

    assert!(lines.iter().all(|line| display_width(line) < width));
    assert!(lines.iter().any(|line| line.contains('\x1b')));
    assert_eq!(display_width(&truncate_styled("你好abcdef", 6)), 6);
    assert!(!truncate_styled("plain text", 5).contains('\x1b'));
}

#[test]
fn path_editor_handles_unicode_navigation_and_cancel() {
    let mut editor = PathEditor::new("分支".into());
    editor.apply(KeyCode::Left, KeyModifiers::NONE);
    editor.apply(KeyCode::Backspace, KeyModifiers::NONE);
    editor.apply(KeyCode::Char('新'), KeyModifiers::NONE);
    assert_eq!(editor.value, "新支");
    assert_eq!(editor.apply(KeyCode::Enter, KeyModifiers::NONE), Some(true));
    assert_eq!(editor.apply(KeyCode::Esc, KeyModifiers::NONE), Some(false));
}

#[test]
fn empty_path_cannot_be_submitted() {
    let mut editor = PathEditor::new(String::new());
    assert_eq!(editor.apply(KeyCode::Enter, KeyModifiers::NONE), None);
}

#[test]
fn default_path_includes_project_and_sanitized_branch_name() {
    assert_eq!(default_worktree_path("gwt", "main"), "../gwt_main");
    assert_eq!(
        default_worktree_path("项目", "feature/user/profile"),
        "../项目_feature_user_profile"
    );
}

fn branch(name: &str, occupied_by: Option<&str>) -> BranchCandidate {
    BranchCandidate {
        name: name.into(),
        occupied_by: occupied_by.map(Into::into),
    }
}

#[test]
fn branch_navigation_skips_occupied_entries_and_wraps() {
    let branches = [
        branch("main", Some("/repo")),
        branch("one", None),
        branch("two", Some("/repo/two")),
        branch("three", None),
    ];
    assert_eq!(first_available(&branches), 1);
    assert_eq!(move_branch_selection(&branches, 1, 1), 3);
    assert_eq!(move_branch_selection(&branches, 3, 1), 4);
    assert_eq!(move_branch_selection(&branches, 4, 1), 1);
    assert_eq!(move_branch_selection(&branches, 1, -1), 4);
}

#[test]
fn all_occupied_branches_select_create_new() {
    let branches = [branch("main", Some("/repo"))];
    assert_eq!(first_available(&branches), 1);
    assert_eq!(move_branch_selection(&branches, 1, 1), 1);
}

#[test]
fn occupied_branch_rendering_includes_path_and_respects_width() {
    let branches = [branch("main", Some("/repo/work tree-你好"))];
    let full = render_branch_lines(&branches, None, usize::MAX, false);
    assert_eq!(
        full,
        vec![
            "  main  in use: /repo/work tree-你好",
            "  Create new branch..."
        ]
    );
    let narrow = render_branch_lines(&branches, None, 18, false);
    assert!(unicode_width::UnicodeWidthStr::width(narrow[0].as_str()) <= 18);
    assert!(narrow[0].ends_with('…'));
    assert!(unicode_width::UnicodeWidthStr::width(narrow[1].as_str()) <= 18);

    let colored = render_branch_lines(&branches, None, usize::MAX, true);
    assert_eq!(
        colored[0],
        "  \x1b[33mmain\x1b[0m\x1b[2m  in use: /repo/work tree-你好\x1b[0m"
    );
    assert!(colored[0].contains("\x1b[33mmain\x1b[0m"));
    assert!(!full[0].contains('\x1b'));
}

#[test]
fn occupied_branch_name_stays_colored_when_truncated() {
    let branches = [branch("feature/你好", Some("/repo"))];
    assert_eq!(
        render_branch_lines(&branches, None, 8, true)[0],
        "  \x1b[33mfeatu…\x1b[0m"
    );
}

#[test]
fn empty_branch_list_still_offers_create_new() {
    let branches = [];
    assert_eq!(first_available(&branches), 0);
    assert_eq!(
        render_branch_lines(&branches, Some(0), usize::MAX, false),
        vec!["> Create new branch..."]
    );
}
