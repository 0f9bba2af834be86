//! The plumbing scenarios of a repository where `main` and `feature` both
//! changed `conflict.txt` and `bin.dat`, `main` deleted `del.txt` and
//! `feature` edited it, and `git merge feature` stopped on the conflicts;
//! each test feeds git's answers in that state to the library.

use git_pincer_desktop::repo::{GitOutput, LabelFacts, Op, OpMarkers, Repo, SideStatus, StageRow};

fn ok(stdout: &str) -> GitOutput {
    GitOutput { success: true, stdout: stdout.into(), stderr: String::new() }
}

fn failed(stderr: &str) -> GitOutput {
    GitOutput { success: false, stdout: String::new(), stderr: stderr.into() }
}

fn merge_markers() -> OpMarkers {
    OpMarkers { rebase_merge: false, rebase_apply: false, merge_head: true, cherry_pick_head: false, revert_head: false }
}

/// `git ls-files -u -z` in the merge-conflict state.
const UNMERGED: &str = "100644 1111111111111111111111111111111111111111 1\tbin.dat\0\
100644 2222222222222222222222222222222222222222 2\tbin.dat\0\
100644 3333333333333333333333333333333333333333 3\tbin.dat\0\
100644 4444444444444444444444444444444444444444 1\tconflict.txt\0\
100644 5555555555555555555555555555555555555555 2\tconflict.txt\0\
100644 6666666666666666666666666666666666666666 3\tconflict.txt\0\
100644 7777777777777777777777777777777777777777 1\tdel.txt\0\
100644 8888888888888888888888888888888888888888 3\tdel.txt\0";

fn facts(head_name: &str, merge_name: &str) -> LabelFacts {
    LabelFacts {
        head_name: head_name.into(),
        head_short: "a1b2c3d".into(),
        onto: None,
        merge_name: merge_name.into(),
        merge_short: "e4f5a6b".into(),
        rebase_name: String::new(),
        rebase_short: String::new(),
        cherry_short: String::new(),
        revert_short: String::new(),
    }
}

#[test]
fn discovers_op_and_labels() {
    let repo = Repo::discover("/tmp/r", &ok("/tmp/r\n/tmp/r/.git\n")).unwrap();
    assert_eq!(repo.root(), "/tmp/r");
    assert_eq!(repo.git_dir, "/tmp/r/.git");
    let op = Repo::op(merge_markers());
    assert_eq!(op, Some(Op::Merge));
    let (yours, theirs) = Repo::labels(op, &facts("main", "feature"));
    assert_eq!(yours, "main");
    assert_eq!(theirs, "feature");
}

#[test]
fn lists_conflicts_with_statuses() {
    let stages = Repo::conflict_stages(UNMERGED);
    // Only bin.dat starts with a NUL within its first bytes.
    let binary: Vec<bool> = stages
        .iter()
        .map(|s| {
            let head: &[u8] = match s.path.as_str() {
                "bin.dat" => b"BIN\x00main\x00",
                "conflict.txt" => b"line1\nmain-change\nline3\n",
                _ => b"",
            };
            Repo::looks_binary(&head.to_vec())
        })
        .collect();
    let rows = Repo::conflicts(&stages, &binary);
    assert_eq!(rows.len(), 3);

    let row = |p: &str| rows.iter().find(|r| r.path == p).unwrap().clone();
    let c = row("conflict.txt");
    assert_eq!(c.yours, SideStatus::Modified);
    assert_eq!(c.theirs, SideStatus::Modified);
    assert!(!c.binary);

    let d = row("del.txt");
    assert_eq!(d.yours, SideStatus::Deleted);
    assert_eq!(d.theirs, SideStatus::Modified);

    let b = row("bin.dat");
    assert_eq!(b.yours, SideStatus::Modified);
    assert_eq!(b.theirs, SideStatus::Modified);
    assert!(b.binary);
}

#[test]
fn reads_three_way_content() {
    let three = Repo::read_three(
        &ok("line1\nshared\nline3\n"),
        &ok("line1\nmain-change\nline3\n"),
        &ok("line1\nfeature-change\nline3\n"),
    );
    assert_eq!(three.base, "line1\nshared\nline3\n");
    assert_eq!(three.ours, "line1\nmain-change\nline3\n");
    assert_eq!(three.theirs, "line1\nfeature-change\nline3\n");

    // The deleted side's stage is missing: `git show :2:del.txt` fails.
    let three = Repo::read_three(
        &ok("keep me\n"),
        &failed("fatal: path 'del.txt' is in the index, but not at stage 2"),
        &ok("feature edited\n"),
    );
    assert_eq!(three.ours, "");
    assert_eq!(three.theirs, "feature edited\n");
}

#[test]
fn abort_restores_clean_state() {
    assert_eq!(Repo::abort(Op::Merge), vec!["merge".to_string(), "--abort".to_string()]);
    // After the abort the marker is gone and nothing is unmerged.
    let clean = OpMarkers { merge_head: false, ..merge_markers() };
    assert_eq!(Repo::op(clean), None);
    assert!(Repo::conflict_stages("").is_empty());
    let rows = Repo::conflicts(&Vec::<StageRow>::new(), &Vec::new());
    assert!(rows.is_empty());
}
