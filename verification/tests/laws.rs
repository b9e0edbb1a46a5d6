use autumnk_gwt::cli::help;
use autumnk_gwt::git::{assemble, main_worktree, parse_worktrees, status_wanted};
use autumnk_gwt::shell;
use autumnk_gwt::status;
use autumnk_gwt::table::{render, truncate};
use autumnk_gwt::theme::Theme;
use autumnk_gwt::tui::{display_width, render_branch_frame, KeyCode, KeyModifiers, PathEditor};
use autumnk_gwt::types::{Availability, BranchCandidate, StatusCounts, Worktree};

fn strip(s: &str) -> String {
    let cs: Vec<char> = s.chars().collect();
    let mut out = String::new();
    let mut i = 0;
    while i < cs.len() {
        if cs[i] == '\x1b' && i + 1 < cs.len() && cs[i + 1] == '[' {
            i += 2;
            while i < cs.len() && !('\x40'..='\x7e').contains(&cs[i]) {
                i += 1;
            }
            i += 1;
        } else {
            out.push(cs[i]);
            i += 1;
        }
    }
    out
}

fn available(path: &str, counts: StatusCounts) -> Worktree {
    let mut w = Worktree::record(path.into());
    w.availability = Availability::Available;
    w.status = Some(counts);
    w
}

#[test]
fn shell_wrapper_turns_list_and_new_into_select_and_cd() {
    let script = shell::init();
    assert!(script.starts_with("gwt() {"));
    assert!(script.contains("_gwt_path=\"$(command gwt list --select)\" || return $?"));
    assert!(script.contains("[ \"$1\" = \"new\" ]; then"));
    assert!(script.contains("_gwt_path=\"$(command gwt new --select)\" || return $?"));
    assert_eq!(script.matches("builtin cd -- \"$_gwt_path\"").count(), 2);
    assert_eq!(script.matches("if [ -n \"$_gwt_path\" ]; then").count(), 2);
    assert!(script.contains("command gwt \"$@\""));
    assert!(script.ends_with("}"));
}

#[test]
fn help_names_the_version_and_every_command() {
    let text = help("9.8.7");
    assert!(text.starts_with("gwt 9.8.7 — switch between Git worktrees\n"));
    for command in ["gwt list", "gwt new", "gwt remove", "gwt init zsh", "gwt init bash"] {
        assert!(text.contains(command), "{command}");
    }
    assert!(text.ends_with("eval \"$(gwt init bash)\""));
}

#[test]
fn branch_frame_has_title_entries_and_keys() {
    let branches = [
        BranchCandidate {
            name: "main".into(),
            occupied_by: Some("/repo".into()),
        },
        BranchCandidate {
            name: "topic".into(),
            occupied_by: None,
        },
    ];
    let lines = render_branch_frame(&branches, 1, 80, false);
    assert_eq!(
        lines,
        vec![
            "Select a local branch or create one:",
            "  main  in use: /repo",
            "> topic",
            "  Create new branch...",
            "↑/↓ or j/k move • Enter select • q cancel",
        ]
    );
    let narrow = render_branch_frame(&branches, 1, 12, false);
    for line in &narrow {
        assert!(unicode_width::UnicodeWidthStr::width(line.as_str()) <= 11, "{line:?}");
    }
    let colored = render_branch_frame(&branches, 2, 80, true);
    assert_eq!(colored.len(), 5);
    assert_eq!(strip(&colored[0]), "Select a local branch or create one:");
    assert_eq!(strip(&colored[4]), "↑/↓ or j/k move • Enter select • q cancel");
}

#[test]
fn plain_text_that_fits_is_kept_whole() {
    assert_eq!(truncate("ab", 5), "ab");
    assert_eq!(truncate("ab", 2), "ab");
    assert_eq!(truncate("a…b", 3), "a…b");
    let cut = truncate("abcdefgh", 5);
    assert_eq!(cut, "abcd…");
    assert_eq!(cut.chars().count(), 5);
}

#[test]
fn colored_status_without_escapes_is_the_plain_status() {
    let t = Theme { color: true };
    let mut w = available(
        "/r",
        StatusCounts {
            conflicted: 2,
            staged: 3,
            modified: 0,
            untracked: 11,
        },
    );
    w.locked = Some("moving".into());
    assert_eq!(strip(&t.status(&w)), status::format(&w));
    assert_eq!(strip(&t.status(&w)), "2 conflicted, 3 staged, 11 untracked, locked: moving");
    let clean = available("/c", StatusCounts::default());
    assert_eq!(strip(&t.status(&clean)), status::format(&clean));
    let mut bare = Worktree::record("/b".into());
    bare.availability = Availability::Bare;
    assert_eq!(strip(&t.status(&bare)), "bare");
    let gone = Worktree::record("/g".into());
    assert_eq!(strip(&t.status(&gone)), status::format(&gone));
}

#[test]
fn theme_wrappers_take_no_room() {
    let t = Theme { color: true };
    for text in ["abc", "你好", "", "a b"] {
        let w = display_width(text);
        assert_eq!(display_width(&t.hint(text)), w);
        assert_eq!(display_width(&t.header(text)), w);
        assert_eq!(display_width(&t.selected(text)), w);
        assert_eq!(display_width(&t.key(text)), w);
        assert_eq!(display_width(&t.commit(text)), w);
        assert_eq!(strip(&t.branch(text)), text);
    }
    assert_eq!(display_width("\x1b[2mabc\x1b[0m"), 3);
}

#[test]
fn editor_outcomes() {
    let none = KeyModifiers::NONE;
    let mut e = PathEditor::new("ab".into());
    e.cursor = 1;
    assert_eq!(e.apply(KeyCode::Esc, none), Some(false));
    assert_eq!((e.value.as_str(), e.cursor), ("ab", 1));
    assert_eq!(e.apply(KeyCode::Char('c'), KeyModifiers::CONTROL), Some(false));
    assert_eq!((e.value.as_str(), e.cursor), ("ab", 1));
    assert_eq!(e.apply(KeyCode::Enter, none), Some(true));
    assert_eq!((e.value.as_str(), e.cursor), ("ab", 1));
    assert_eq!(e.apply(KeyCode::Home, none), None);
    assert_eq!((e.value.as_str(), e.cursor), ("ab", 0));
    assert_eq!(e.apply(KeyCode::End, none), None);
    assert_eq!((e.value.as_str(), e.cursor), ("ab", 2));
    assert_eq!(e.apply(KeyCode::Left, none), None);
    assert_eq!((e.value.as_str(), e.cursor), ("ab", 1));
    assert_eq!(e.apply(KeyCode::Right, none), None);
    assert_eq!((e.value.as_str(), e.cursor), ("ab", 2));
    let mut empty = PathEditor::new(String::new());
    assert_eq!(empty.apply(KeyCode::Enter, none), None);
    assert_eq!(empty.apply(KeyCode::Up, none), None);
    assert_eq!((empty.value.as_str(), empty.cursor), ("", 0));
}

#[test]
fn status_is_asked_only_of_present_plain_worktrees() {
    let plain = Worktree::record("/p".into());
    assert!(status_wanted(&plain, true));
    assert!(!status_wanted(&plain, false));
    let mut bare = Worktree::record("/b".into());
    bare.bare = true;
    assert!(!status_wanted(&bare, true));
    let mut prunable = Worktree::record("/x".into());
    prunable.prunable = Some("gone".into());
    assert!(!status_wanted(&prunable, true));
}

#[test]
fn listing_settles_every_record_in_order() {
    let input = "worktree /repo\0HEAD 1111111111111111111111111111111111111111\0branch refs/heads/main\0\0\
worktree /repo/a\0HEAD 2222222222222222222222222222222222222222\0branch refs/heads/a\0\0\
worktree /repo/gone\0HEAD 3333333333333333333333333333333333333333\0detached\0\0\
worktree /repo/old\0HEAD 4444444444444444444444444444444444444444\0prunable gitdir file points to non-existent location\0\0\
worktree /repo/broken\0HEAD 5555555555555555555555555555555555555555\0branch refs/heads/b\0\0";
    let records = parse_worktrees(input.as_bytes());
    assert_eq!(records.len(), 5);
    assert!(records.iter().all(|w| w.status.is_none() && !w.current));
    let present = [true, true, false, true, true];
    let outputs = [
        Some(b"1 .M N... 100644 100644 100644 x y f\0? new\0".to_vec()),
        Some(Vec::new()),
        Some(b"? ignored\0".to_vec()),
        Some(b"? ignored\0".to_vec()),
        None,
    ];
    let listed = assemble(&records, Some(1), &present, &outputs);
    assert_eq!(listed.len(), 5);
    let paths: Vec<&str> = listed.iter().map(|w| w.path.as_str()).collect();
    assert_eq!(paths, ["/repo", "/repo/a", "/repo/gone", "/repo/old", "/repo/broken"]);
    let current: Vec<bool> = listed.iter().map(|w| w.current).collect();
    assert_eq!(current, [false, true, false, false, false]);
    assert_eq!(listed[0].availability, Availability::Available);
    assert_eq!(
        listed[0].status,
        Some(StatusCounts {
            conflicted: 0,
            staged: 0,
            modified: 1,
            untracked: 1
        })
    );
    assert!(listed[0].main);
    assert_eq!(listed[0].branch.as_deref(), Some("main"));
    assert_eq!(listed[1].status, Some(StatusCounts::default()));
    assert_eq!(listed[2].availability, Availability::Unavailable);
    assert_eq!(listed[2].status, None);
    assert!(listed[2].detached);
    assert_eq!(listed[3].availability, Availability::Prunable);
    assert_eq!(listed[3].status, None);
    assert_eq!(listed[4].availability, Availability::Unavailable);
    assert_eq!(listed[4].status, None);
    for (before, after) in records.iter().zip(&listed) {
        assert_eq!(before.head, after.head);
        assert_eq!(before.branch, after.branch);
    }
    let nobody = assemble(&records, None, &present, &outputs);
    assert!(nobody.iter().all(|w| !w.current));
}

#[test]
fn a_table_that_fits_cuts_nothing() {
    let mut a = available(
        "/home/me/projects/a-rather-long-worktree-path",
        StatusCounts {
            conflicted: 0,
            staged: 1,
            modified: 2,
            untracked: 3,
        },
    );
    a.head = "0123456789abcdef0123".into();
    a.branch = Some("feature/very-long-branch-name".into());
    a.current = true;
    let mut b = available("/b", StatusCounts::default());
    b.head = String::new();
    let ws = [a, b];
    for selected in [None, Some(0), Some(1)] {
        let lines = render(&ws, usize::MAX, false, selected);
        assert_eq!(lines.len(), 3);
        assert_eq!(
            lines[1],
            "*  feature/very-long-branch-name  /home/me/projects/a-rather-long-worktree-path  0123456789ab  1 staged, 2 modified, 3 untracked"
        );
        assert_eq!(
            lines[2],
            "   detached                       /b                                             -             clean"
        );
        assert!(!lines.iter().any(|l| l.contains('…')));
    }
}

#[test]
fn a_lone_escape_in_a_lock_reason_still_strips_to_the_plain_status() {
    let t = Theme { color: true };
    let mut w = available(
        "/r",
        StatusCounts {
            conflicted: 0,
            staged: 1,
            modified: 0,
            untracked: 0,
        },
    );
    w.locked = Some("odd\x1bname\x1b".into());
    assert_eq!(strip(&t.status(&w)), status::format(&w));
    assert_eq!(strip(&t.status(&w)), "1 staged, locked: odd\x1bname\x1b");
}

#[test]
fn narrow_plain_tables_keep_all_but_the_status_within_the_terminal() {
    let mut a = available(
        "/home/me/projects/a-rather-long-worktree-path",
        StatusCounts {
            conflicted: 4,
            staged: 1,
            modified: 2,
            untracked: 3,
        },
    );
    a.head = "0123456789abcdef0123".into();
    a.branch = Some("feature/very-long-branch-name".into());
    let b = available("/b", StatusCounts::default());
    let ws = [a, b];
    for tw in [22usize, 24, 30, 40, 60] {
        let lines = render(&ws, tw, false, None);
        assert!(lines[0].chars().count() <= tw, "{tw} {:?}", lines[0]);
        for (line, w) in lines[1..].iter().zip(&ws) {
            let status = status::format(w);
            assert!(line.ends_with(&status));
            assert!(line.chars().count() <= tw - 3 + status.chars().count(), "{tw} {line:?}");
        }
    }
}

#[test]
fn the_project_is_named_by_the_main_worktree_or_the_first() {
    assert_eq!(main_worktree(&[]), None);
    let a = Worktree::record("/a".into());
    let mut b = Worktree::record("/b".into());
    b.main = true;
    assert_eq!(main_worktree(&[a.clone(), b.clone()]), Some(1));
    assert_eq!(main_worktree(&[a.clone(), a.clone()]), Some(0));
    let listed = parse_worktrees(b"worktree /main\0\0worktree /other\0\0");
    assert_eq!(main_worktree(&listed), Some(0));
}
