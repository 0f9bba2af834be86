use git_pincer_desktop::error::ShellError;
use git_pincer_desktop::repo::{
    check, join_args, scrubbed_env, side_status, streaming_env, GitOutput, LabelFacts, LaunchKind, Op, OpMarkers, PickSide, Repo,
    SideStatus, SNIFF_BYTES,
};

fn ok(stdout: &str) -> GitOutput {
    GitOutput { success: true, stdout: stdout.into(), stderr: String::new() }
}

fn failed(stderr: &str) -> GitOutput {
    GitOutput { success: false, stdout: String::new(), stderr: stderr.into() }
}

fn strs(v: &[&str]) -> Vec<String> {
    v.iter().map(|s| s.to_string()).collect()
}

fn no_markers() -> OpMarkers {
    OpMarkers { rebase_merge: false, rebase_apply: false, merge_head: false, cherry_pick_head: false, revert_head: false }
}

#[test]
fn names_of_operations() {
    assert_eq!(Op::Merge.name(), "merge");
    assert_eq!(Op::Rebase.name(), "rebase");
    assert_eq!(Op::CherryPick.name(), "cherry-pick");
    assert_eq!(Op::Revert.name(), "revert");
    assert_eq!(LaunchKind::Pull.name(), "pull");
    assert_eq!(LaunchKind::Merge.name(), "merge");
    assert_eq!(LaunchKind::Rebase.name(), "rebase");
    assert_eq!(LaunchKind::CherryPick.name(), "cherry-pick");
    assert_eq!(LaunchKind::Revert.name(), "revert");
}

#[test]
fn side_status_from_stages() {
    assert_eq!(side_status(true, true), SideStatus::Modified);
    assert_eq!(side_status(true, false), SideStatus::Deleted);
    assert_eq!(side_status(false, false), SideStatus::Deleted);
    assert_eq!(side_status(false, true), SideStatus::Added);
}

#[test]
fn rebase_markers_win() {
    let all = OpMarkers { rebase_merge: false, rebase_apply: true, merge_head: true, cherry_pick_head: true, revert_head: true };
    assert_eq!(Repo::op(all), Some(Op::Rebase));
    assert_eq!(Repo::op(OpMarkers { rebase_merge: true, ..no_markers() }), Some(Op::Rebase));
    assert_eq!(Repo::op(OpMarkers { cherry_pick_head: true, revert_head: true, ..no_markers() }), Some(Op::CherryPick));
    assert_eq!(Repo::op(OpMarkers { revert_head: true, ..no_markers() }), Some(Op::Revert));
    assert_eq!(Repo::op(no_markers()), None);
}

#[test]
fn discover_needs_both_lines() {
    let r = Repo::discover("/x", &ok("/x/root\r\n/x/root/.git\n")).unwrap();
    assert_eq!((r.root.as_str(), r.git_dir.as_str()), ("/x/root", "/x/root/.git"));
    for out in [ok("/x/root\n"), ok(""), ok("\n/x/.git\n"), failed("fatal: not a git repository")] {
        match Repo::discover("/x", &out) {
            Err(ShellError::NotARepo(p)) => assert_eq!(p, "/x"),
            other => panic!("unexpected: {other:?}"),
        }
    }
    assert_eq!(Repo::discover_args(), strs(&["rev-parse", "--show-toplevel", "--absolute-git-dir"]));
}

#[test]
fn stage_records_are_parsed_strictly() {
    let text = "100644 a 2\tx\0100644 b +3\tx\0100644 c 0001\ty\0100644 d 4\tz\0100644 e 0\tz\0garbage\0\0100644 f x\tz\0160000 g 2\tsub dir/a\tb";
    let rows = Repo::conflict_stages(text);
    let got: Vec<(String, bool, bool, bool)> =
        rows.iter().map(|r| (r.path.clone(), r.base, r.ours, r.theirs)).collect();
    assert_eq!(
        got,
        vec![
            ("x".to_string(), false, true, true),
            ("y".to_string(), true, false, false),
            ("sub dir/a\tb".to_string(), false, true, false),
        ]
    );
}

#[test]
fn unmerged_args_scope_to_paths() {
    assert_eq!(Repo::unmerged_args(&vec![]), strs(&["ls-files", "-u", "-z"]));
    assert_eq!(
        Repo::unmerged_args(&strs(&["a b", "c"])),
        strs(&["ls-files", "-u", "-z", "--", "a b", "c"])
    );
}

#[test]
fn binary_sniff_looks_at_the_head_only() {
    assert!(Repo::looks_binary(&vec![1, 2, 0, 3]));
    assert!(!Repo::looks_binary(&vec![b'a'; 10]));
    let mut late = vec![b'a'; SNIFF_BYTES];
    late.push(0);
    assert!(!Repo::looks_binary(&late));
    late[SNIFF_BYTES - 1] = 0;
    assert!(Repo::looks_binary(&late));
}

#[test]
fn accept_side_plans_commands() {
    let stages = Repo::conflict_stages("100644 a 1\tc.txt\0100644 b 2\tc.txt\0100644 c 3\tc.txt\0100644 d 1\tdel.txt\0100644 e 3\tdel.txt\0");
    let paths = strs(&["c.txt", "del.txt", "gone.txt"]);
    let yours = Repo::accept_side(&paths, &stages, PickSide::Yours);
    assert_eq!(
        yours,
        vec![
            strs(&["checkout", "--ours", "--", "c.txt"]),
            strs(&["add", "--", "c.txt"]),
            strs(&["rm", "-f", "--ignore-unmatch", "--", "del.txt"]),
        ]
    );
    let theirs = Repo::accept_side(&paths, &stages, PickSide::Theirs);
    assert_eq!(
        theirs,
        vec![
            strs(&["checkout", "--theirs", "--", "c.txt"]),
            strs(&["add", "--", "c.txt"]),
            strs(&["checkout", "--theirs", "--", "del.txt"]),
            strs(&["add", "--", "del.txt"]),
        ]
    );
}

#[test]
fn show_args_name_the_stage() {
    assert_eq!(Repo::show_args(2, "dir/f.txt"), strs(&["show", ":2:dir/f.txt"]));
    assert_eq!(Repo::show_args(1, "a"), strs(&["show", ":1:a"]));
}

#[test]
fn command_builders() {
    assert_eq!(Repo::continue_args(Op::Rebase), strs(&["rebase", "--continue"]));
    assert_eq!(Repo::abort(Op::CherryPick), strs(&["cherry-pick", "--abort"]));
    assert_eq!(Repo::launch_args(LaunchKind::Pull, &vec![]), strs(&["pull"]));
    assert_eq!(
        Repo::launch_args(LaunchKind::CherryPick, &strs(&["abc", "def"])),
        strs(&["cherry-pick", "abc", "def"])
    );
    assert_eq!(Repo::switch("feature"), strs(&["switch", "feature"]));
    assert_eq!(Repo::branch_args(), strs(&["branch", "--format=%(HEAD) %(refname:short)"]));
    assert_eq!(Repo::status_args(), strs(&["status", "--porcelain"]));
    assert_eq!(
        Repo::log_args(false, 20),
        strs(&["log", "--no-decorate", "--pretty=format:%h%x00%S%x00%s", "-n", "20"])
    );
    assert_eq!(
        Repo::log_args(true, 7),
        strs(&["log", "--no-decorate", "--pretty=format:%h%x00%S%x00%s", "-n", "7", "--all", "--not", "HEAD"])
    );
    assert_eq!(Repo::head_name_args(), strs(&["rev-parse", "--abbrev-ref", "HEAD"]));
    assert_eq!(Repo::short_args("MERGE_HEAD"), strs(&["rev-parse", "--short", "MERGE_HEAD"]));
    assert_eq!(
        Repo::name_rev_args("MERGE_HEAD"),
        strs(&["name-rev", "--name-only", "--exclude=tags/*", "MERGE_HEAD"])
    );
    assert_eq!(
        Repo::points_at_args("0123abc"),
        strs(&["for-each-ref", "refs/heads", "--points-at", "0123abc", "--format=%(refname:short)"])
    );
}

#[test]
fn branches_are_parsed() {
    let b = Repo::branches("* main\n  feature\n\n  \n* \nébad\n  spaced name  \r\n");
    let got: Vec<(String, bool)> = b.into_iter().map(|x| (x.name, x.current)).collect();
    assert_eq!(
        got,
        vec![
            ("main".to_string(), true),
            ("feature".to_string(), false),
            ("spaced name".to_string(), false),
        ]
    );
}

#[test]
fn commits_are_parsed() {
    let text = "abc1234\0refs/heads/feature\0feature: conflict.txt\n\
def5678\0HEAD\0main: subject with \0 nul\n\
0011223\0 refs/remotes/origin/main \0remote one\n\
4455667\0refs/tags/v1\0tagged\n\
8899aab\0only one field\n\
ccddeef";
    let c = Repo::recent_commits(text);
    let got: Vec<(String, String, String)> = c.into_iter().map(|x| (x.sha, x.subject, x.branch)).collect();
    assert_eq!(
        got,
        vec![
            ("abc1234".to_string(), "feature: conflict.txt".to_string(), "feature".to_string()),
            ("def5678".to_string(), "main: subject with \0 nul".to_string(), String::new()),
            ("0011223".to_string(), "remote one".to_string(), "origin/main".to_string()),
            ("4455667".to_string(), "tagged".to_string(), "v1".to_string()),
        ]
    );
}

#[test]
fn dirty_count_counts_nonempty_lines() {
    assert_eq!(Repo::dirty_count(""), 0);
    assert_eq!(Repo::dirty_count(" M a.txt\n?? b.txt\n"), 2);
    assert_eq!(Repo::dirty_count("\n\nA  c\n\n"), 1);
}

#[test]
fn first_line_of_output() {
    assert_eq!(Repo::out_line(&ok("main\nother\n")), "main");
    assert_eq!(Repo::out_line(&ok("crlf\r\nx")), "crlf");
    assert_eq!(Repo::out_line(&ok("")), "");
    assert_eq!(Repo::out_line(&failed("boom")), "");
}

#[test]
fn ref_labels_fall_back_to_short_sha() {
    assert_eq!(Repo::ref_label("feature", "abc"), "feature");
    assert_eq!(Repo::ref_label("remotes/origin/dev", "abc"), "origin/dev");
    assert_eq!(Repo::ref_label("undefined", "abc"), "abc");
    assert_eq!(Repo::ref_label("feature~2", "abc"), "abc");
    assert_eq!(Repo::ref_label("main^0", "abc"), "abc");
    assert_eq!(Repo::ref_label("", "abc"), "abc");
    assert_eq!(Repo::ref_label("remotes/", "abc"), "abc");
}

#[test]
fn rebase_labels() {
    assert_eq!(Repo::onto_sha(&Some(" \n".into()), &Some("cafe\n".into())), Some("cafe".to_string()));
    assert_eq!(Repo::onto_sha(&Some("beef\n".into()), &Some("cafe\n".into())), Some("beef".to_string()));
    assert_eq!(Repo::onto_sha(&None, &None), None);
    assert_eq!(Repo::onto_label("main", "beef"), Some("main".to_string()));
    assert_eq!(Repo::onto_label("", "beef"), Some("beef".to_string()));
    assert_eq!(Repo::onto_label("", ""), None);
    assert_eq!(Repo::rebase_head_name(&Some("refs/heads/feature\n".into()), &None), "feature");
    assert_eq!(Repo::rebase_head_name(&None, &Some(" topic ".into())), "topic");
    assert_eq!(Repo::rebase_head_name(&None, &None), "");

    let facts = LabelFacts {
        head_name: "HEAD".into(),
        head_short: "1234567".into(),
        onto: Some("main".into()),
        merge_name: String::new(),
        merge_short: String::new(),
        rebase_name: "feature".into(),
        rebase_short: "7654321".into(),
        cherry_short: "c0ffee0".into(),
        revert_short: "dead000".into(),
    };
    assert_eq!(Repo::labels(Some(Op::Rebase), &facts), ("main".to_string(), "feature".to_string()));
    let no_onto = LabelFacts { onto: None, rebase_name: String::new(), ..facts.clone() };
    assert_eq!(Repo::labels(Some(Op::Rebase), &no_onto), ("1234567".to_string(), "7654321".to_string()));
    assert_eq!(Repo::labels(Some(Op::CherryPick), &facts).1, "c0ffee0");
    assert_eq!(Repo::labels(Some(Op::Revert), &facts).1, "dead000");
    assert_eq!(Repo::labels(None, &facts).1, "");
}

#[test]
fn failed_commands_report_git_errors() {
    let args = strs(&["switch", "nope"]);
    assert!(check(&args, &ok("")).is_ok());
    match check(&args, &failed("\n fatal: invalid reference: nope \n")) {
        Err(e @ ShellError::Git { .. }) => {
            assert_eq!(e.message(), "git switch nope: fatal: invalid reference: nope");
        }
        other => panic!("unexpected: {other:?}"),
    }
    assert_eq!(join_args(&strs(&["a", "b c", ""])), "a b c ");
    assert_eq!(join_args(&vec![]), "");
}

#[test]
fn error_messages() {
    assert_eq!(ShellError::NotARepo("/x".into()).message(), "Not a git repository: /x");
    assert_eq!(ShellError::NoRepoOpen.message(), "No repository is open");
    assert_eq!(ShellError::Io("disk full".into()).message(), "IO error: disk full");
    assert_eq!(ShellError::Internal("join".into()).message(), "Internal error: join");
}

#[test]
fn git_environment_policy() {
    let scrubbed = scrubbed_env();
    assert_eq!(scrubbed.len(), 8);
    for key in ["GIT_DIR", "GIT_WORK_TREE", "GIT_INDEX_FILE", "GIT_COMMON_DIR"] {
        assert!(scrubbed.contains(&key));
    }
    assert_eq!(
        streaming_env(),
        vec![("GIT_EDITOR", "true"), ("GIT_SEQUENCE_EDITOR", "true"), ("GIT_TERMINAL_PROMPT", "0")]
    );
}
