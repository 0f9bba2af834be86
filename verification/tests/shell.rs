use git_pincer_desktop::repo::{FileRow, LaunchKind, Op, SideStatus};
use git_pincer_desktop::settings::{Settings, WinSize};
use git_pincer_desktop::shell::{
    exit_suffix, form_changes, launch_outcome, on_screen, placement, push_recent, recent_entries, remove_recent, round_outcome, LaunchOutcome, RoundOutcome,
    Screen, WinForm, RECENT_LIMIT,
};

fn row(p: &str) -> FileRow {
    FileRow { path: p.into(), yours: SideStatus::Modified, theirs: SideStatus::Modified, binary: false }
}

fn strs(v: &[&str]) -> Vec<String> {
    v.iter().map(|s| s.to_string()).collect()
}

#[test]
fn window_forms() {
    assert_eq!(WinForm::Compact.idx(), 0);
    assert_eq!(WinForm::Large.idx(), 1);
    let s = Settings::default();
    assert_eq!(WinForm::Compact.sizes(&s), (WinSize { width: 380, height: 520 }, WinSize { width: 420, height: 640 }));
    assert_eq!(WinForm::Large.sizes(&s), (WinSize { width: 960, height: 640 }, WinSize { width: 1280, height: 800 }));
    let s = Settings {
        compact_size: Some(WinSize { width: 500, height: 100 }),
        large_size: Some(WinSize { width: 1500, height: 900 }),
        ..Settings::default()
    };
    assert_eq!(WinForm::Compact.sizes(&s).1, WinSize { width: 500, height: 520 });
    assert_eq!(WinForm::Large.sizes(&s).1, WinSize { width: 1500, height: 900 });
}

#[test]
fn exit_suffixes() {
    assert_eq!(exit_suffix(Some(1)), " (exit code 1)");
    assert_eq!(exit_suffix(Some(128)), " (exit code 128)");
    assert_eq!(exit_suffix(Some(-3)), " (exit code -3)");
    assert_eq!(exit_suffix(Some(i32::MIN)), " (exit code -2147483648)");
    assert_eq!(exit_suffix(None), " (terminated by signal)");
}

#[test]
fn launch_outcomes() {
    match launch_outcome(LaunchKind::Merge, false, Some(1), vec![row("a")]) {
        LaunchOutcome::Conflicts { files } => assert_eq!(files.len(), 1),
        other => panic!("unexpected: {other:?}"),
    }
    assert!(matches!(launch_outcome(LaunchKind::Pull, true, Some(0), vec![]), LaunchOutcome::CleanDone));
    match launch_outcome(LaunchKind::Pull, false, Some(1), vec![]) {
        LaunchOutcome::Failed { message } => assert_eq!(message, "git pull failed (exit code 1)"),
        other => panic!("unexpected: {other:?}"),
    }
}

#[test]
fn round_outcomes() {
    assert!(matches!(round_outcome(Op::Rebase, true, Some(0), vec![row("x")]), RoundOutcome::Done));
    match round_outcome(Op::Rebase, false, Some(1), vec![row("x"), row("y")]) {
        RoundOutcome::NextRound { files } => assert_eq!(files.len(), 2),
        other => panic!("unexpected: {other:?}"),
    }
    match round_outcome(Op::CherryPick, false, None, vec![]) {
        RoundOutcome::Failed { message } => {
            assert_eq!(message, "git cherry-pick --continue failed (terminated by signal)")
        }
        other => panic!("unexpected: {other:?}"),
    }
}

#[test]
fn recent_list() {
    let list = strs(&["/b", "/a", "/c", "/a"]);
    assert_eq!(push_recent(&list, "/a"), strs(&["/a", "/b", "/c"]));
    assert_eq!(push_recent(&vec![], "/z"), strs(&["/z"]));
    assert_eq!(remove_recent(&list, "/a"), strs(&["/b", "/c"]));
    let many: Vec<String> = (0..15).map(|i| format!("/r{i}")).collect();
    let pushed = push_recent(&many, "/new");
    assert_eq!(pushed.len(), RECENT_LIMIT);
    assert_eq!(pushed[0], "/new");
    assert_eq!(pushed[1..], many[..RECENT_LIMIT - 1]);
    assert_eq!(push_recent(&pushed, "/new"), pushed);
}

#[test]
fn positions_on_screens() {
    let screens = vec![
        Screen { x: 0, y: 0, width: 1920, height: 1080 },
        Screen { x: -1280, y: 0, width: 1280, height: 1024 },
    ];
    assert!(on_screen(0, 0, &screens));
    assert!(on_screen(1919, 1079, &screens));
    assert!(!on_screen(1920, 10, &screens));
    assert!(on_screen(-1280, 1023, &screens));
    assert!(!on_screen(-1281, 5, &screens));
    assert!(!on_screen(10, 10, &vec![]));
}

#[test]
fn window_sizes_stay_the_shells() {
    let current = Settings { compact_size: Some(WinSize { width: 500, height: 700 }), ..Settings::default() };
    let incoming = Settings { editor_font_size: 20, large_size: Some(WinSize { width: 1, height: 1 }), ..Settings::default() };
    let merged = incoming.with_window_sizes_of(&current);
    assert_eq!(merged.editor_font_size, 20);
    assert_eq!(merged.compact_size, Some(WinSize { width: 500, height: 700 }));
    assert_eq!(merged.large_size, None);
}

#[test]
fn window_placement() {
    assert!(form_changes(None, WinForm::Compact));
    assert!(form_changes(Some(WinForm::Large), WinForm::Compact));
    assert!(!form_changes(Some(WinForm::Large), WinForm::Large));
    let screens = vec![Screen { x: 0, y: 0, width: 800, height: 600 }];
    assert_eq!(placement(Some((10, 20)), &screens), Some((10, 20)));
    assert_eq!(placement(Some((900, 20)), &screens), None);
    assert_eq!(placement(None, &screens), None);
}

#[test]
fn recent_list_stays_free_of_duplicates_in_order() {
    let list = strs(&["/a", "/b", "/c", "/d"]);
    let pushed = push_recent(&list, "/c");
    assert_eq!(pushed, strs(&["/c", "/a", "/b", "/d"]));
    let mut seen = pushed.clone();
    seen.sort();
    seen.dedup();
    assert_eq!(seen.len(), pushed.len());
    let full: Vec<String> = (0..RECENT_LIMIT).map(|i| format!("/r{i}")).collect();
    let pushed = push_recent(&full, "/new");
    assert_eq!(pushed[0], "/new");
    assert_eq!(&pushed[1..], &full[..RECENT_LIMIT - 1]);
}

#[test]
fn missing_recent_repositories_stay_flagged() {
    let list = strs(&["/a", "/gone", "/c"]);
    let shown = recent_entries(&list, &vec![true, false, true]);
    let got: Vec<(String, bool)> = shown.into_iter().map(|e| (e.path, e.missing)).collect();
    assert_eq!(got, vec![("/a".into(), false), ("/gone".into(), true), ("/c".into(), false)]);
}
