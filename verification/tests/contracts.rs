use autumnk_gwt::cli::{parse_command, Command};
use autumnk_gwt::git::{
    attach_status, current_index, failure, launch_failure, mark_occupied, parse_branches,
    parse_status, parse_worktrees, settle_record, split_bytes,
};
use autumnk_gwt::shell;
use autumnk_gwt::status;
use autumnk_gwt::table::{render, truncate};
use autumnk_gwt::text::{decimal_string, join};
use autumnk_gwt::theme::Theme;
use autumnk_gwt::tui::{
    branch_choice, branch_menu_step, cursor_column, display_width, fit_lines_to_terminal,
    initial_selection, truncate_styled, worktree_menu_step, Key, KeyCode, KeyModifiers,
    MenuStep, PathEditor,
};
use autumnk_gwt::types::{Availability, BranchCandidate, BranchSelection, StatusCounts, Worktree};

fn available(path: &str, counts: StatusCounts) -> Worktree {
    let mut w = Worktree::record(path.into());
    w.head = "0123456789abcdef0123".into();
    w.branch = Some("topic".into());
    w.availability = Availability::Available;
    w.status = Some(counts);
    w
}

#[test]
fn status_lists_every_nonzero_count_and_the_lock_reason() {
    let mut w = available(
        "/r",
        StatusCounts {
            conflicted: 2,
            staged: 10,
            modified: 3,
            untracked: 4,
        },
    );
    w.locked = Some("why".into());
    assert_eq!(
        status::format(&w),
        "2 conflicted, 10 staged, 3 modified, 4 untracked, locked: why"
    );
    w.locked = Some(String::new());
    w.status = Some(StatusCounts::default());
    assert_eq!(status::format(&w), "locked");
}

#[test]
fn status_reports_availability_first() {
    let mut w = available("/r", StatusCounts::default());
    w.availability = Availability::Prunable;
    assert_eq!(status::format(&w), "prunable");
    w.availability = Availability::Bare;
    assert_eq!(status::format(&w), "bare");
    w.availability = Availability::Unavailable;
    assert_eq!(status::format(&w), "unavailable");
    w.availability = Availability::Available;
    w.status = None;
    assert_eq!(status::format(&w), "unavailable");
}

#[test]
fn colored_status_paints_each_piece() {
    let w = available(
        "/r",
        StatusCounts {
            conflicted: 1,
            staged: 0,
            modified: 2,
            untracked: 0,
        },
    );
    let t = Theme { color: true };
    assert_eq!(
        t.status(&w),
        "\x1b[31m1 conflicted\x1b[0m, \x1b[94m2 modified\x1b[0m"
    );
    let clean = available("/r", StatusCounts::default());
    assert_eq!(t.status(&clean), "\x1b[32mclean\x1b[0m");
    assert_eq!(Theme { color: false }.status(&w), status::format(&w));
    assert_eq!(t.header("X"), "\x1b[1;37mX\x1b[0m");
    assert_eq!(Theme { color: false }.header("X"), "X");
}

#[test]
fn truncation_keeps_a_fitting_prefix_and_an_ellipsis() {
    assert_eq!(truncate("abcdef", 4), "abc…");
    assert_eq!(truncate("abcdef", 6), "abcdef");
    assert_eq!(truncate("abcdef", 1), "…");
    assert_eq!(truncate("abcdef", 0), "");
    assert_eq!(truncate("你好世界", 5), "你好…");
}

#[test]
fn narrow_tables_shrink_the_widest_column_first() {
    let w = available("/a/rather/long/path/for/a/worktree", StatusCounts::default());
    let lines = render(&[w], 40, false, Some(0));
    assert_eq!(lines.len(), 2);
    for line in &lines {
        assert!(unicode_width::UnicodeWidthStr::width(line.as_str()) <= 40, "{line:?}");
    }
    assert!(lines[1].contains('…'));
    let tiny = render(&[available("/p", StatusCounts::default())], 0, false, None);
    assert_eq!(tiny[0], "  BR…  PA…  COM…  ST…");
}

#[test]
fn status_rename_entries_skip_their_source_path() {
    let input = "2 .M N... x\0? looks-untracked\0";
    assert_eq!(
        parse_status(input.as_bytes()),
        StatusCounts {
            conflicted: 0,
            staged: 0,
            modified: 1,
            untracked: 0
        }
    );
    assert_eq!(parse_status(b""), StatusCounts::default());
}

#[test]
fn fields_outside_a_record_are_ignored_and_branches_are_shortened() {
    let input = "HEAD ignored\0worktree /x y\0branch refs/heads/a/b\0locked\0";
    let r = parse_worktrees(input.as_bytes());
    assert_eq!(r.len(), 1);
    assert_eq!(r[0].path, "/x y");
    assert_eq!(r[0].branch.as_deref(), Some("a/b"));
    assert_eq!(r[0].locked.as_deref(), Some(""));
    assert!(r[0].main);
    assert_eq!(r[0].availability, Availability::Unavailable);
}

#[test]
fn invalid_bytes_are_replaced_when_decoding() {
    assert_eq!(parse_branches(b"ok\n\xff\n\n"), vec!["ok", "\u{fffd}"]);
    let pieces: Vec<Vec<u8>> = split_bytes(b"a\0\0b", 0).iter().map(|s| s.to_vec()).collect();
    assert_eq!(pieces, vec![b"a".to_vec(), b"".to_vec(), b"b".to_vec()]);
}

#[test]
fn git_failures_name_the_command_or_the_directory() {
    let args = vec!["worktree".to_string(), "list".to_string()];
    assert_eq!(
        failure(&args, "fatal: not a git repository (or any parent)", "/tmp/x").0,
        "Not a Git repository: /tmp/x"
    );
    assert_eq!(
        failure(&args, "boom", "/tmp/x").0,
        "Git command failed: git worktree list\nboom"
    );
    assert_eq!(
        failure(&args, "", "/tmp/x").0,
        "Git command failed: git worktree list"
    );
    assert!(launch_failure().0.starts_with("Unable to run Git."));
}

#[test]
fn records_learn_their_state_and_status() {
    let mut w = Worktree::record("/r".into());
    settle_record(&mut w, true, true);
    assert!(w.current);
    assert_eq!(w.availability, Availability::Available);
    attach_status(&mut w, Some(b"? a\0"));
    assert_eq!(w.status.unwrap().untracked, 1);
    let mut gone = Worktree::record("/g".into());
    settle_record(&mut gone, false, false);
    assert_eq!(gone.availability, Availability::Unavailable);
    let mut p = Worktree::record("/p".into());
    p.prunable = Some("x".into());
    p.bare = true;
    settle_record(&mut p, false, true);
    assert_eq!(p.availability, Availability::Prunable);
    let mut failed = Worktree::record("/f".into());
    settle_record(&mut failed, false, true);
    attach_status(&mut failed, None);
    assert_eq!(failed.availability, Availability::Unavailable);
    assert_eq!(failed.status, None);
}

#[test]
fn current_worktree_is_the_deepest_containing_one() {
    let ws = vec![
        Worktree::record("/repo".into()),
        Worktree::record("/repo/nested".into()),
        Worktree::record("/other".into()),
    ];
    assert_eq!(current_index(&ws, &[true, true, false]), Some(1));
    assert_eq!(current_index(&ws, &[true, false, false]), Some(0));
    assert_eq!(current_index(&ws, &[false, false, false]), None);
    let same = vec![Worktree::record("/a".into()), Worktree::record("/b".into())];
    assert_eq!(current_index(&same, &[true, true]), Some(1));
}

#[test]
fn branches_in_use_name_their_worktree() {
    let mut w = Worktree::record("/repo/w".into());
    w.branch = Some("feature".into());
    let names = vec!["main".to_string(), "feature".to_string()];
    let c = mark_occupied(&names, &[w]);
    assert_eq!(c[0].occupied_by, None);
    assert!(c[0].available());
    assert_eq!(c[1].occupied_by.as_deref(), Some("/repo/w"));
    assert!(!c[1].available());
}

#[test]
fn commands_follow_their_argument_rules() {
    let args = |a: &[&str]| a.iter().map(|s| s.to_string()).collect::<Vec<_>>();
    assert_eq!(parse_command(&args(&[])), Command::Help);
    assert_eq!(parse_command(&args(&["-h"])), Command::Help);
    assert_eq!(parse_command(&args(&["-v"])), Command::Version);
    assert_eq!(parse_command(&args(&["init", "zsh"])), Command::Init);
    assert_eq!(parse_command(&args(&["init", "fish"])), Command::InitUsage);
    assert_eq!(parse_command(&args(&["list"])), Command::List { select: false });
    assert_eq!(parse_command(&args(&["list", "--select"])), Command::List { select: true });
    assert_eq!(parse_command(&args(&["list", "x"])), Command::ListUsage);
    assert_eq!(parse_command(&args(&["new"])), Command::NewNeedsShell);
    assert_eq!(parse_command(&args(&["new", "--select"])), Command::NewSelect);
    assert_eq!(parse_command(&args(&["new", "unexpected"])), Command::NewUsage);
    assert_eq!(parse_command(&args(&["remove"])), Command::Remove);
    assert_eq!(parse_command(&args(&["remove", "unexpected"])), Command::RemoveUsage);
    assert_eq!(parse_command(&args(&["wat"])), Command::Unknown("wat".into()));
}

#[test]
fn menus_wrap_and_choose() {
    assert_eq!(worktree_menu_step(0, 3, Key::Up), MenuStep::Stay(2));
    assert_eq!(worktree_menu_step(2, 3, Key::Down), MenuStep::Stay(0));
    assert_eq!(worktree_menu_step(1, 3, Key::Select), MenuStep::Choose(1));
    assert_eq!(worktree_menu_step(1, 3, Key::Cancel), MenuStep::Cancel);
    assert_eq!(worktree_menu_step(1, 3, Key::Unknown), MenuStep::Stay(1));
    let mut ws = vec![Worktree::record("/a".into()), Worktree::record("/b".into())];
    assert_eq!(initial_selection(&ws), 0);
    ws[1].current = true;
    assert_eq!(initial_selection(&ws), 1);
    let bs = vec![
        BranchCandidate { name: "a".into(), occupied_by: None },
        BranchCandidate { name: "b".into(), occupied_by: Some("/b".into()) },
    ];
    assert_eq!(branch_menu_step(&bs, 0, Key::Down), MenuStep::Stay(2));
    assert_eq!(branch_menu_step(&bs, 0, Key::Up), MenuStep::Stay(2));
    assert_eq!(branch_choice(&bs, 2), BranchSelection::CreateNew);
    assert_eq!(branch_choice(&bs, 0), BranchSelection::Existing(bs[0].clone()));
}

#[test]
fn editor_moves_by_characters() {
    let mut e = PathEditor::new("ab".into());
    assert_eq!(e.cursor, 2);
    e.apply(KeyCode::Home, KeyModifiers::NONE);
    assert_eq!(e.cursor, 0);
    e.apply(KeyCode::Char('x'), KeyModifiers::NONE);
    assert_eq!(e.value, "xab");
    e.apply(KeyCode::Char('y'), KeyModifiers::CONTROL);
    assert_eq!(e.value, "xab");
    assert_eq!(e.apply(KeyCode::Char('c'), KeyModifiers::CONTROL), Some(false));
    e.apply(KeyCode::End, KeyModifiers::NONE);
    e.apply(KeyCode::Right, KeyModifiers::NONE);
    assert_eq!(e.cursor, 3);
    e.apply(KeyCode::Backspace, KeyModifiers::NONE);
    assert_eq!(e.value, "xa");
    assert_eq!(cursor_column("> ", &e), 4);
    let wide = PathEditor::new("你好".into());
    assert_eq!(cursor_column("", &wide), 4);
}

#[test]
fn styled_width_ignores_escape_sequences() {
    assert_eq!(display_width("\x1b[31mab\x1b[0m"), 2);
    assert_eq!(display_width("你好"), 4);
    assert_eq!(truncate_styled("\x1b[31mabcdef\x1b[0m", 3), "\x1b[31mab…\x1b[0m");
    assert_eq!(truncate_styled("abc", 3), "abc");
    assert_eq!(truncate_styled("abc", 0), "");
    let fitted = fit_lines_to_terminal(vec!["abcdef".into(), "ab".into()], 4);
    assert_eq!(fitted, vec!["ab…", "ab"]);
}

#[test]
fn small_text_helpers() {
    assert_eq!(decimal_string(0), "0");
    assert_eq!(decimal_string(9071), "9071");
    assert_eq!(join(&vec!["a".into(), "b".into(), "c".into()], ", "), "a, b, c");
    assert_eq!(join(&vec![], ", "), "");
    assert!(shell::init().contains("command gwt list --select"));
}

#[test]
fn backspace_undoes_typing_and_down_undoes_up() {
    let mut e = PathEditor::new("路径".into());
    e.apply(KeyCode::Left, KeyModifiers::NONE);
    let before = e.clone();
    e.apply(KeyCode::Char('x'), KeyModifiers::NONE);
    assert_eq!(e.value, "路x径");
    e.apply(KeyCode::Backspace, KeyModifiers::NONE);
    assert_eq!(e, before);
    let MenuStep::Stay(up) = worktree_menu_step(0, 4, Key::Up) else {
        panic!("up closed the menu")
    };
    assert_eq!(worktree_menu_step(up, 4, Key::Down), MenuStep::Stay(0));
}

#[test]
fn one_record_per_worktree_line() {
    let input = "worktree /a\0\0worktree /b\0worktree /c\0bare\0\0";
    let r = parse_worktrees(input.as_bytes());
    assert_eq!(r.len(), 3);
    assert!(r[0].main);
    assert!(!r[1].main && !r[2].main);
    assert!(r[2].bare);
    assert!(parse_worktrees(b"").is_empty());
}
