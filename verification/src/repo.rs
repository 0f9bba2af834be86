//! The git plumbing's decisions. Every git call goes to the user's git binary
//! with its arguments as an array, never through a shell; this module says
//! which commands to run and what their output means, and the shell around
//! it runs them.

use vstd::prelude::*;
use vstd::string::StrSliceExecFns;

use crate::emphasis::chars_equal;
use crate::error::ShellError;
use crate::text::{
    chars_of, decimal, decimal_chars, find_first, find_last, first_index, join_with, last_index, lines_view,
    push_all, slice_chars, split_chars, split_on, strip_all, strip_all_chars, string_from_chars, text_lines,
    text_lines_of, trim, trim_chars,
};

verus! {

/// A merge-like operation in progress.
#[derive(Clone, Copy, Debug, PartialEq, Eq, Structural)]
pub enum Op {
    /// `git merge`
    Merge,
    /// `git rebase`
    Rebase,
    /// `git cherry-pick`
    CherryPick,
    /// `git revert`
    Revert,
}

/// The git subcommand of an operation.
pub open spec fn op_name(op: Op) -> Seq<char> {
    match op {
        Op::Merge => "merge"@,
        Op::Rebase => "rebase"@,
        Op::CherryPick => "cherry-pick"@,
        Op::Revert => "revert"@,
    }
}

impl Op {
    /// The git subcommand that continues or aborts this operation.
    pub fn name(self) -> (r: &'static str)
        ensures
            r@ == op_name(self),
    {
        match self {
            Op::Merge => "merge",
            Op::Rebase => "rebase",
            Op::CherryPick => "cherry-pick",
            Op::Revert => "revert",
        }
    }
}

/// The state of one side of a conflicted file, read off its index stages.
#[derive(Clone, Copy, Debug, PartialEq, Eq, Structural)]
pub enum SideStatus {
    /// Both the base and this side exist.
    Modified,
    /// This side's stage is missing: this side deleted the file.
    Deleted,
    /// The base stage is missing: both sides added the file.
    Added,
}

/// One row of the conflicts list.
#[derive(Clone, Debug)]
pub struct FileRow {
    /// Path relative to the repository root.
    pub path: String,
    /// Our side (stage 2).
    pub yours: SideStatus,
    /// Their side (stage 3).
    pub theirs: SideStatus,
    /// Whether the file is binary (picked whole, never merged in panes).
    pub binary: bool,
}

/// The three versions of a conflicted file; a missing one is empty.
#[derive(Clone, Debug)]
pub struct ThreeWay {
    /// The common ancestor (stage 1).
    pub base: String,
    /// Ours (stage 2).
    pub ours: String,
    /// Theirs (stage 3).
    pub theirs: String,
}

/// Which side to take a whole file from.
#[derive(Clone, Copy, Debug, PartialEq, Eq, Structural)]
pub enum PickSide {
    /// Ours (stage 2).
    Yours,
    /// Theirs (stage 3).
    Theirs,
}

/// An operation the menu can start.
#[derive(Clone, Copy, Debug, PartialEq, Eq, Structural)]
pub enum LaunchKind {
    /// `git pull`, along the current branch's tracking configuration.
    Pull,
    /// `git merge <branch>`
    Merge,
    /// `git rebase <branch>`
    Rebase,
    /// `git cherry-pick <commit...>`
    CherryPick,
    /// `git revert <commit...>`
    Revert,
}

/// The git subcommand of a launchable operation.
pub open spec fn launch_name(kind: LaunchKind) -> Seq<char> {
    match kind {
        LaunchKind::Pull => "pull"@,
        LaunchKind::Merge => "merge"@,
        LaunchKind::Rebase => "rebase"@,
        LaunchKind::CherryPick => "cherry-pick"@,
        LaunchKind::Revert => "revert"@,
    }
}

impl LaunchKind {
    /// The git subcommand of this operation.
    pub fn name(self) -> (r: &'static str)
        ensures
            r@ == launch_name(self),
    {
        match self {
            LaunchKind::Pull => "pull",
            LaunchKind::Merge => "merge",
            LaunchKind::Rebase => "rebase",
            LaunchKind::CherryPick => "cherry-pick",
            LaunchKind::Revert => "revert",
        }
    }
}

/// A local branch.
#[derive(Clone, Debug)]
pub struct Branch {
    /// Its name.
    pub name: String,
    /// Whether it is checked out.
    pub current: bool,
}

/// A commit offered for cherry-pick or revert.
#[derive(Clone, Debug)]
pub struct CommitInfo {
    /// Abbreviated sha.
    pub sha: String,
    /// Subject line.
    pub subject: String,
    /// The ref it was reached from; empty for the current branch's history.
    pub branch: String,
}

/// Where a repository is: nothing else is kept.
#[derive(Clone, Debug)]
pub struct Repo {
    /// The work tree's root.
    pub root: String,
    /// The absolute git directory.
    pub git_dir: String,
}

/// What a finished git command gave back: whether it exited successfully,
/// and its stdout and stderr as text.
#[derive(Clone, Debug)]
pub struct GitOutput {
    pub success: bool,
    pub stdout: String,
    pub stderr: String,
}

/// Which operation markers the git directory holds.
#[derive(Clone, Copy, Debug, PartialEq, Eq, Structural)]
pub struct OpMarkers {
    /// `rebase-merge/` exists.
    pub rebase_merge: bool,
    /// `rebase-apply/` exists.
    pub rebase_apply: bool,
    /// `MERGE_HEAD` exists.
    pub merge_head: bool,
    /// `CHERRY_PICK_HEAD` exists.
    pub cherry_pick_head: bool,
    /// `REVERT_HEAD` exists.
    pub revert_head: bool,
}

/// The contents of a list of strings.
pub open spec fn strings_view(v: Seq<String>) -> Seq<Seq<char>> {
    v.map_values(|s: String| s@)
}

/// The operation in progress: a rebase marker wins (a rebase may leave other
/// markers behind), then merge, cherry-pick and revert.
pub open spec fn op_spec(m: OpMarkers) -> Option<Op> {
    if m.rebase_merge || m.rebase_apply {
        Some(Op::Rebase)
    } else if m.merge_head {
        Some(Op::Merge)
    } else if m.cherry_pick_head {
        Some(Op::CherryPick)
    } else if m.revert_head {
        Some(Op::Revert)
    } else {
        None
    }
}

/// A side's status from whether the base stage and that side's stage exist.
pub open spec fn side_status_spec(base: bool, side: bool) -> SideStatus {
    if !side {
        SideStatus::Deleted
    } else if !base {
        SideStatus::Added
    } else {
        SideStatus::Modified
    }
}

/// A side's status from whether the base stage and that side's stage exist.
pub fn side_status(base: bool, side: bool) -> (r: SideStatus)
    ensures
        r == side_status_spec(base, side),
{
    if !side {
        SideStatus::Deleted
    } else if !base {
        SideStatus::Added
    } else {
        SideStatus::Modified
    }
}

/// The first line of a command's output; empty when it failed or printed
/// nothing.
pub open spec fn out_line_spec(out: GitOutput) -> Seq<char> {
    if out.success && text_lines(out.stdout@).len() > 0 {
        text_lines(out.stdout@)[0]
    } else {
        Seq::empty()
    }
}

/// A list of strings from literal pieces.
fn strings(parts: &Vec<&str>) -> (r: Vec<String>)
    ensures
        strings_view(r@) == parts@.map_values(|s: &str| s@),
{
    let mut r: Vec<String> = Vec::new();
    let mut i: usize = 0;
    while i < parts.len()
        invariant
            i <= parts.len(),
            r@.len() == i,
            forall|j: int| 0 <= j < i ==> (#[trigger] r@[j])@ == parts@[j]@,
        decreases parts.len() - i,
    {
        let x = parts[i].to_owned();
        r.push(x);
        i = i + 1;
    }
    proof {
        assert(strings_view(r@) =~= parts@.map_values(|s: &str| s@));
    }
    r
}

/// Appends owned copies of `tail` to `out`.
fn push_strings(out: &mut Vec<String>, tail: &Vec<String>)
    ensures
        strings_view(final(out)@) == strings_view(old(out)@) + strings_view(tail@),
{
    let mut i: usize = 0;
    let ghost n0 = out@.len();
    while i < tail.len()
        invariant
            i <= tail.len(),
            n0 == old(out)@.len(),
            out@.len() == n0 + i,
            forall|j: int| 0 <= j < n0 ==> (#[trigger] out@[j])@ == old(out)@[j]@,
            forall|j: int| 0 <= j < i ==> (#[trigger] out@[n0 + j])@ == tail@[j]@,
        decreases tail.len() - i,
    {
        let x = tail[i].as_str().to_owned();
        out.push(x);
        i = i + 1;
    }
    proof {
        assert forall|j: int| 0 <= j < out@.len() implies #[trigger] strings_view(out@)[j] == (strings_view(
            old(out)@,
        ) + strings_view(tail@))[j] by {
            if j >= n0 {
                assert(out@[n0 + (j - n0)]@ == tail@[j - n0]@);
            }
        }
        assert(strings_view(out@) =~= strings_view(old(out)@) + strings_view(tail@));
    }
}

/// Appends `x` to `r`.
fn push_string(r: &mut Vec<String>, x: String)
    ensures
        strings_view(final(r)@) == strings_view(old(r)@).push(x@),
{
    r.push(x);
    proof {
        assert forall|j: int| 0 <= j < r@.len() implies #[trigger] strings_view(r@)[j] == strings_view(old(r)@).push(
            x@,
        )[j] by {
            if j < old(r)@.len() {
                assert(r@[j] == old(r)@[j]);
            }
        }
        assert(strings_view(r@) =~= strings_view(old(r)@).push(x@));
    }
}

/// Appends the command `c` to `r`.
fn push_command(r: &mut Vec<Vec<String>>, c: Vec<String>)
    ensures
        commands_view(final(r)@) == commands_view(old(r)@).push(strings_view(c@)),
{
    let ghost cv = strings_view(c@);
    r.push(c);
    proof {
        assert forall|j: int| 0 <= j < r@.len() implies #[trigger] commands_view(r@)[j] == commands_view(
            old(r)@,
        ).push(cv)[j] by {
            if j < old(r)@.len() {
                assert(r@[j] == old(r)@[j]);
            }
        }
        assert(commands_view(r@) =~= commands_view(old(r)@).push(cv));
    }
}

/// Arguments joined by spaces, as a failed command is reported.
pub fn join_args(args: &Vec<String>) -> (r: String)
    ensures
        r@ == join_with(strings_view(args@), " "@),
{
    let sep = chars_of(" ");
    let mut out: Vec<char> = Vec::new();
    let mut i: usize = 0;
    while i < args.len()
        invariant
            i <= args.len(),
            sep@ == " "@,
            out@ == join_with(strings_view(args@).take(i as int), " "@),
        decreases args.len() - i,
    {
        let a = chars_of(args[i].as_str());
        proof {
            let v = strings_view(args@);
            assert(v.take(i + 1).drop_last() =~= v.take(i as int));
            assert(v.take(i + 1).last() == a@);
        }
        if i > 0 {
            push_all(&mut out, &sep);
        }
        push_all(&mut out, &a);
        i = i + 1;
        proof {
            if i == 1 {
                assert(out@ =~= strings_view(args@).take(1)[0]);
            }
        }
    }
    proof {
        assert(strings_view(args@).take(i as int) =~= strings_view(args@));
    }
    string_from_chars(&out)
}

/// A command that must succeed: `Ok` when it did, else the git error with
/// its arguments and trimmed stderr.
pub fn check(args: &Vec<String>, out: &GitOutput) -> (r: Result<(), ShellError>)
    ensures
        match r {
            Ok(_) => out.success,
            Err(ShellError::Git { args: a, stderr: e }) => !out.success && a@ == join_with(
                strings_view(args@),
                " "@,
            ) && e@ == trim(out.stderr@),
            Err(_) => false,
        },
{
    if out.success {
        Ok(())
    } else {
        let a = join_args(args);
        let e = trim_chars(&chars_of(out.stderr.as_str()));
        Err(ShellError::Git { args: a, stderr: string_from_chars(&e) })
    }
}

impl Repo {
    /// The work tree's root.
    pub fn root(&self) -> (r: &str)
        ensures
            r@ == self.root@,
    {
        self.root.as_str()
    }

    /// The first line of a command's output; empty when it failed or printed
    /// nothing.
    pub fn out_line(out: &GitOutput) -> (r: String)
        ensures
            r@ == out_line_spec(*out),
    {
        if !out.success {
            return String::new();
        }
        let chars = chars_of(out.stdout.as_str());
        let lines = text_lines_of(&chars);
        if lines.len() == 0 {
            return String::new();
        }
        proof {
            assert(lines@[0]@ == text_lines(out.stdout@)[0]);
        }
        string_from_chars(&lines[0])
    }

    /// The repository found from `dir`, given what
    /// `git rev-parse --show-toplevel --absolute-git-dir` printed there: its
    /// first line is the root, its second the git directory; a failed
    /// command or a missing line means `dir` is not in a repository.
    pub fn discover(dir: &str, out: &GitOutput) -> (r: Result<Repo, ShellError>)
        ensures
            ({
                let ls = text_lines(out.stdout@);
                let root = if ls.len() > 0 {
                    ls[0]
                } else {
                    Seq::empty()
                };
                let git_dir = if ls.len() > 1 {
                    ls[1]
                } else {
                    Seq::empty()
                };
                match r {
                    Ok(repo) => out.success && root.len() > 0 && git_dir.len() > 0 && repo.root@ == root
                        && repo.git_dir@ == git_dir,
                    Err(ShellError::NotARepo(p)) => p@ == dir@ && !(out.success && root.len() > 0
                        && git_dir.len() > 0),
                    Err(_) => false,
                }
            }),
    {
        let chars = chars_of(out.stdout.as_str());
        let lines = text_lines_of(&chars);
        if !out.success || lines.len() < 2 || lines[0].len() == 0 || lines[1].len() == 0 {
            return Err(ShellError::NotARepo(dir.to_owned()));
        }
        Ok(Repo { root: string_from_chars(&lines[0]), git_dir: string_from_chars(&lines[1]) })
    }

    /// The git command that finds the repository around a directory.
    pub fn discover_args() -> (r: Vec<String>)
        ensures
            strings_view(r@) == seq!["rev-parse"@, "--show-toplevel"@, "--absolute-git-dir"@],
    {
        let r = strings(&vec!["rev-parse", "--show-toplevel", "--absolute-git-dir"]);
        proof {
            assert(strings_view(r@) =~= seq!["rev-parse"@, "--show-toplevel"@, "--absolute-git-dir"@]);
        }
        r
    }

    /// The operation in progress, from the markers in the git directory (see
    /// `op_spec`).
    pub fn op(markers: OpMarkers) -> (r: Option<Op>)
        ensures
            r == op_spec(markers),
    {
        if markers.rebase_merge || markers.rebase_apply {
            Some(Op::Rebase)
        } else if markers.merge_head {
            Some(Op::Merge)
        } else if markers.cherry_pick_head {
            Some(Op::CherryPick)
        } else if markers.revert_head {
            Some(Op::Revert)
        } else {
            None
        }
    }

    /// The git command that aborts `op`.
    pub fn abort(op: Op) -> (r: Vec<String>)
        ensures
            strings_view(r@) == seq![op_name(op), "--abort"@],
    {
        let r = strings(&vec![op.name(), "--abort"]);
        proof {
            assert(strings_view(r@) =~= seq![op_name(op), "--abort"@]);
        }
        r
    }

    /// The git command that continues `op`.
    pub fn continue_args(op: Op) -> (r: Vec<String>)
        ensures
            strings_view(r@) == seq![op_name(op), "--continue"@],
    {
        let r = strings(&vec![op.name(), "--continue"]);
        proof {
            assert(strings_view(r@) =~= seq![op_name(op), "--continue"@]);
        }
        r
    }

    /// The git command that starts `kind` on `targets` (none for a pull, one
    /// branch for a merge or rebase, commits for a cherry-pick or revert).
    pub fn launch_args(kind: LaunchKind, targets: &Vec<String>) -> (r: Vec<String>)
        ensures
            strings_view(r@) == seq![launch_name(kind)] + strings_view(targets@),
    {
        let mut r = strings(&vec![kind.name()]);
        push_strings(&mut r, targets);
        proof {
            assert(strings_view(r@) =~= seq![launch_name(kind)] + strings_view(targets@));
        }
        r
    }

    /// The git command that switches to branch `name`.
    pub fn switch(name: &str) -> (r: Vec<String>)
        ensures
            strings_view(r@) == seq!["switch"@, name@],
    {
        let r = strings(&vec!["switch", name]);
        proof {
            assert(strings_view(r@) =~= seq!["switch"@, name@]);
        }
        r
    }
}


// ---------------------------------------------------------------------------
// Conflicted paths: `git ls-files -u -z`

/// The index stages that exist for one conflicted path.
#[derive(Clone, Debug)]
pub struct StageRow {
    /// Path relative to the repository root.
    pub path: String,
    /// Stage 1 (the base) exists.
    pub base: bool,
    /// Stage 2 (ours) exists.
    pub ours: bool,
    /// Stage 3 (theirs) exists.
    pub theirs: bool,
}

/// A path with which of its stages exist.
pub type StageModel = (Seq<char>, bool, bool, bool);

impl View for StageRow {
    type V = StageModel;

    open spec fn view(&self) -> StageModel {
        (self.path@, self.base, self.ours, self.theirs)
    }
}

/// `c` is an ASCII digit.
pub open spec fn is_digit(c: char) -> bool {
    '0' <= c <= '9'
}

/// The value of a string of decimal digits.
pub open spec fn digits_value(s: Seq<char>) -> int
    decreases s.len(),
{
    if s.len() == 0 {
        0
    } else {
        digits_value(s.drop_last()) * 10 + (s.last() as int - 48)
    }
}

/// Every character of `d` is a digit.
pub open spec fn all_digits(d: Seq<char>) -> bool {
    forall|i: int| 0 <= i < d.len() ==> is_digit(#[trigger] d[i])
}

/// The digits of an unsigned number: without one leading `+`.
pub open spec fn unsigned_digits(f: Seq<char>) -> Seq<char> {
    if f.len() > 0 && f[0] == '+' {
        f.drop_first()
    } else {
        f
    }
}

/// The stage number written in `f`, as `str::parse::<usize>` reads it (an
/// optional `+`, then at least one digit), when it is 1, 2 or 3.
pub open spec fn stage_of(f: Seq<char>) -> Option<int> {
    let d = unsigned_digits(f);
    if d.len() > 0 && all_digits(d) && 1 <= digits_value(d) <= 3 {
        Some(digits_value(d))
    } else {
        None
    }
}

/// What one record `"<mode> <oid> <stage>\t<path>"` says: the path and its
/// stage, if the record has a tab and its last space-separated field before
/// the tab is a stage number.
pub open spec fn record_entry(r: Seq<char>) -> Option<(Seq<char>, int)> {
    let tab = first_index(r, '\t');
    if tab < 0 {
        None
    } else {
        let meta = r.take(tab);
        let field = meta.skip(last_index(meta, ' ') + 1);
        match stage_of(field) {
            Some(st) => Some((r.skip(tab + 1), st)),
            None => None,
        }
    }
}

/// The entries of records, in order; records that say nothing are skipped.
pub open spec fn entries_of(recs: Seq<Seq<char>>) -> Seq<(Seq<char>, int)>
    decreases recs.len(),
{
    if recs.len() == 0 {
        Seq::empty()
    } else {
        let p = entries_of(recs.drop_last());
        match record_entry(recs.last()) {
            Some(e) => p.push(e),
            None => p,
        }
    }
}

/// Index of the last row for `path`; -1 when there is none.
pub open spec fn find_path(rows: Seq<StageModel>, path: Seq<char>) -> int
    decreases rows.len(),
{
    if rows.len() == 0 {
        -1
    } else if rows.last().0 == path {
        rows.len() - 1
    } else {
        find_path(rows.drop_last(), path)
    }
}

/// A row with stage `st` marked.
pub open spec fn mark_stage(row: StageModel, st: int) -> StageModel {
    (row.0, row.1 || st == 1, row.2 || st == 2, row.3 || st == 3)
}

/// Rows after one more entry: its path's row gets the stage marked; a new
/// path opens a row at the end.
pub open spec fn add_entry(rows: Seq<StageModel>, e: (Seq<char>, int)) -> Seq<StageModel> {
    let j = find_path(rows, e.0);
    if j >= 0 {
        rows.update(j, mark_stage(rows[j], e.1))
    } else {
        rows.push(mark_stage((e.0, false, false, false), e.1))
    }
}

/// The rows of entries, paths in order of first appearance.
pub open spec fn gather(entries: Seq<(Seq<char>, int)>) -> Seq<StageModel>
    decreases entries.len(),
{
    if entries.len() == 0 {
        Seq::empty()
    } else {
        add_entry(gather(entries.drop_last()), entries.last())
    }
}

/// The conflicted paths and their stages in the NUL-separated output of
/// `git ls-files -u -z`.
pub open spec fn stages_spec(text: Seq<char>) -> Seq<StageModel> {
    gather(entries_of(split_on(text, '\0')))
}

/// The stage number in `f`, if it is 1, 2 or 3.
fn parse_stage(f: &Vec<char>) -> (r: Option<u8>)
    ensures
        match r {
            Some(st) => stage_of(f@) == Some(st as int),
            None => stage_of(f@) is None,
        },
{
    let start: usize = if f.len() > 0 && f[0] == '+' {
        1
    } else {
        0
    };
    let ghost d = unsigned_digits(f@);
    assert(d =~= f@.skip(start as int));
    if start >= f.len() {
        return None;
    }
    let mut v: u8 = 0;
    let mut i: usize = start;
    while i < f.len()
        invariant
            start <= i <= f.len(),
            d == f@.skip(start as int),
            d == unsigned_digits(f@),
            forall|k: int| start <= k < i ==> is_digit(#[trigger] f@[k]),
            v == (if digits_value(f@.subrange(start as int, i as int)) >= 4 {
                4
            } else {
                digits_value(f@.subrange(start as int, i as int))
            }),
            digits_value(f@.subrange(start as int, i as int)) >= 0,
        decreases f.len() - i,
    {
        let c = f[i];
        if !('0' <= c && c <= '9') {
            proof {
                assert(d[i - start] == c);
                assert(!is_digit(d[i - start]));
                assert(!all_digits(d));
            }
            return None;
        }
        let dig = (c as u32 - 48) as u8;
        let ghost before = f@.subrange(start as int, i as int);
        proof {
            assert(f@.subrange(start as int, i + 1).drop_last() =~= before);
            assert(f@.subrange(start as int, i + 1).last() == c);
        }
        if v < 4 {
            let w = v * 10 + dig;
            v = if w >= 4 {
                4
            } else {
                w
            };
        }
        i = i + 1;
    }
    proof {
        assert(f@.subrange(start as int, i as int) =~= d);
        assert forall|k: int| 0 <= k < d.len() implies is_digit(#[trigger] d[k]) by {
            assert(d[k] == f@[start + k]);
        }
    }
    if 1 <= v && v <= 3 {
        Some(v)
    } else {
        None
    }
}

/// What one `ls-files` record says (see `record_entry`).
fn parse_record(r: &Vec<char>) -> (e: Option<(Vec<char>, u8)>)
    ensures
        match e {
            Some((p, st)) => record_entry(r@) == Some((p@, st as int)),
            None => record_entry(r@) is None,
        },
{
    let tab = match find_first(r, '\t') {
        Some(t) => t,
        None => return None,
    };
    let meta = slice_chars(r, 0, tab);
    assert(meta@ =~= r@.take(tab as int));
    let from = match find_last(&meta, ' ') {
        Some(k) => k + 1,
        None => 0,
    };
    let field = slice_chars(&meta, from, meta.len());
    assert(field@ =~= meta@.skip(last_index(meta@, ' ') + 1));
    match parse_stage(&field) {
        Some(st) => {
            let path = slice_chars(r, tab + 1, r.len());
            assert(path@ =~= r@.skip(tab + 1));
            Some((path, st))
        },
        None => None,
    }
}

/// The row for `path` marked with stage `st`, or a new row for it.
fn add_stage(rows: &mut Vec<StageRow>, path: Vec<char>, st: u8)
    requires
        1 <= st <= 3,
    ensures
        final(rows)@.map_values(|r: StageRow| r@) == add_entry(
            old(rows)@.map_values(|r: StageRow| r@),
            (path@, st as int),
        ),
{
    let ghost m = rows@.map_values(|r: StageRow| r@);
    let mut found: Option<usize> = None;
    let mut j: usize = 0;
    while j < rows.len()
        invariant
            j <= rows.len(),
            rows@ == old(rows)@,
            m == rows@.map_values(|r: StageRow| r@),
            match found {
                Some(k) => k < j && find_path(m.take(j as int), path@) == k,
                None => find_path(m.take(j as int), path@) == -1,
            },
        decreases rows.len() - j,
    {
        let name = chars_of(rows[j].path.as_str());
        proof {
            assert(m.take(j + 1).drop_last() =~= m.take(j as int));
            assert(m.take(j + 1).last() == rows@[j as int]@);
        }
        if chars_equal(&name, &path) {
            found = Some(j);
        }
        j = j + 1;
    }
    proof {
        assert(m.take(j as int) =~= m);
    }
    match found {
        Some(k) => {
            let base = rows[k].base || st == 1;
            let ours = rows[k].ours || st == 2;
            let theirs = rows[k].theirs || st == 3;
            let p = rows[k].path.as_str().to_owned();
            let row = StageRow { path: p, base, ours, theirs };
            rows.set(k, row);
            proof {
                assert(rows@.map_values(|r: StageRow| r@) =~= add_entry(m, (path@, st as int)));
            }
        },
        None => {
            let row = StageRow {
                path: string_from_chars(&path),
                base: st == 1,
                ours: st == 2,
                theirs: st == 3,
            };
            rows.push(row);
            proof {
                assert(rows@.map_values(|r: StageRow| r@) =~= add_entry(m, (path@, st as int)));
            }
        },
    }
}

impl Repo {
    /// The git command that lists unmerged index entries, for `paths` only
    /// when some are given.
    pub fn unmerged_args(paths: &Vec<String>) -> (r: Vec<String>)
        ensures
            strings_view(r@) == seq!["ls-files"@, "-u"@, "-z"@] + if paths.len() > 0 {
                seq!["--"@] + strings_view(paths@)
            } else {
                Seq::empty()
            },
    {
        let mut r = strings(&vec!["ls-files", "-u", "-z"]);
        if paths.len() > 0 {
            let dash = strings(&vec!["--"]);
            push_strings(&mut r, &dash);
            push_strings(&mut r, paths);
        }
        proof {
            if paths.len() > 0 {
                assert(strings_view(r@) =~= seq!["ls-files"@, "-u"@, "-z"@] + (seq!["--"@] + strings_view(
                    paths@,
                )));
            } else {
                assert(strings_view(r@) =~= seq!["ls-files"@, "-u"@, "-z"@] + Seq::empty());
            }
        }
        r
    }

    /// The conflicted paths and their stages, from what
    /// `git ls-files -u -z` printed (see `stages_spec`).
    pub fn conflict_stages(text: &str) -> (r: Vec<StageRow>)
        ensures
            r@.map_values(|row: StageRow| row@) == stages_spec(text@),
    {
        let chars = chars_of(text);
        let recs = split_chars(&chars, '\0');
        let ghost rv = split_on(text@, '\0');
        let mut rows: Vec<StageRow> = Vec::new();
        let mut i: usize = 0;
        while i < recs.len()
            invariant
                i <= recs.len(),
                lines_view(&recs) == rv,
                rows@.map_values(|row: StageRow| row@) == gather(entries_of(rv.take(i as int))),
            decreases recs.len() - i,
        {
            proof {
                assert(rv.take(i + 1).drop_last() =~= rv.take(i as int));
                assert(rv.take(i + 1).last() == recs@[i as int]@);
            }
            let ghost p0 = entries_of(rv.take(i as int));
            match parse_record(&recs[i]) {
                Some((path, st)) => {
                    proof {
                        assert(p0.push((path@, st as int)).drop_last() =~= p0);
                    }
                    add_stage(&mut rows, path, st);
                },
                None => {},
            }
            i = i + 1;
        }
        proof {
            assert(rv.take(i as int) =~= rv);
        }
        rows
    }
}


/// Git variables removed from the environment of every git call, so that a
/// host that started the app (a git hook, say) cannot redirect git to
/// another repository, work tree, index or object store.
pub fn scrubbed_env() -> (r: Vec<&'static str>)
    ensures
        r@ == seq![
            "GIT_DIR",
            "GIT_WORK_TREE",
            "GIT_INDEX_FILE",
            "GIT_NAMESPACE",
            "GIT_PREFIX",
            "GIT_OBJECT_DIRECTORY",
            "GIT_ALTERNATE_OBJECT_DIRECTORIES",
            "GIT_COMMON_DIR",
        ],
{
    vec![
        "GIT_DIR",
        "GIT_WORK_TREE",
        "GIT_INDEX_FILE",
        "GIT_NAMESPACE",
        "GIT_PREFIX",
        "GIT_OBJECT_DIRECTORY",
        "GIT_ALTERNATE_OBJECT_DIRECTORIES",
        "GIT_COMMON_DIR",
    ]
}

/// Variables set for a streamed operation (merge, rebase, cherry-pick,
/// continue): the editor is `true`, since the operation may commit by itself
/// with no one to edit the message, and terminal prompts are off, so that
/// git fails at once instead of waiting for input no terminal can give.
pub fn streaming_env() -> (r: Vec<(&'static str, &'static str)>)
    ensures
        r@ == seq![("GIT_EDITOR", "true"), ("GIT_SEQUENCE_EDITOR", "true"), ("GIT_TERMINAL_PROMPT", "0")],
{
    vec![("GIT_EDITOR", "true"), ("GIT_SEQUENCE_EDITOR", "true"), ("GIT_TERMINAL_PROMPT", "0")]
}

/// How many leading bytes of a file are checked for a NUL.
pub const SNIFF_BYTES: usize = 8192;

/// A conflicted file's row: each side's status from its stages.
pub open spec fn file_row_ok(r: FileRow, st: StageModel, binary: bool) -> bool {
    &&& r.path@ == st.0
    &&& r.yours == side_status_spec(st.1, st.2)
    &&& r.theirs == side_status_spec(st.1, st.3)
    &&& r.binary == binary
}

/// The git command that shows one stage of a path: `git show :<stage>:<path>`.
pub open spec fn show_spec(stage: u8, path: Seq<char>) -> Seq<Seq<char>> {
    seq!["show"@, ":"@ + decimal(stage as nat) + ":"@ + path]
}

/// What a `git show` of one stage gives: its output, or nothing when the
/// stage is missing (the command failed).
pub open spec fn stage_text(out: GitOutput) -> Seq<char> {
    if out.success {
        out.stdout@
    } else {
        Seq::empty()
    }
}

/// The commands that take `side` for one path with the stages `row`: a side
/// that deleted the file removes it from the index and the work tree;
/// otherwise that side's version is checked out and staged.
pub open spec fn accept_cmds(path: Seq<char>, row: StageModel, side: PickSide) -> Seq<Seq<Seq<char>>> {
    let (status, flag) = match side {
        PickSide::Yours => (side_status_spec(row.1, row.2), "--ours"@),
        PickSide::Theirs => (side_status_spec(row.1, row.3), "--theirs"@),
    };
    if status == SideStatus::Deleted {
        seq![seq!["rm"@, "-f"@, "--ignore-unmatch"@, "--"@, path]]
    } else {
        seq![seq!["checkout"@, flag, "--"@, path], seq!["add"@, "--"@, path]]
    }
}

/// The commands that take `side` for each of `paths`, in order; a path
/// without conflicted stages is left alone.
pub open spec fn accept_plan(paths: Seq<Seq<char>>, rows: Seq<StageModel>, side: PickSide) -> Seq<Seq<Seq<char>>>
    decreases paths.len(),
{
    if paths.len() == 0 {
        Seq::empty()
    } else {
        let p = accept_plan(paths.drop_last(), rows, side);
        let j = find_path(rows, paths.last());
        if j < 0 {
            p
        } else {
            p + accept_cmds(paths.last(), rows[j], side)
        }
    }
}

/// The contents of a list of commands.
pub open spec fn commands_view(v: Seq<Vec<String>>) -> Seq<Seq<Seq<char>>> {
    v.map_values(|c: Vec<String>| strings_view(c@))
}

/// A branch of `git branch --format='%(HEAD) %(refname:short)'`: the line
/// after its first character (which must be a one-byte character), trimmed,
/// and whether that first character is `*`; none for an empty name.
pub open spec fn branch_of(l: Seq<char>) -> Option<(Seq<char>, bool)> {
    if l.len() == 0 || (l[0] as u32) >= 0x80 {
        None
    } else {
        let name = trim(l.drop_first());
        if name.len() == 0 {
            None
        } else {
            Some((name, l[0] == '*'))
        }
    }
}

/// The branches of lines, in order.
pub open spec fn branches_of(lines: Seq<Seq<char>>) -> Seq<(Seq<char>, bool)>
    decreases lines.len(),
{
    if lines.len() == 0 {
        Seq::empty()
    } else {
        let p = branches_of(lines.drop_last());
        match branch_of(lines.last()) {
            Some(b) => p.push(b),
            None => p,
        }
    }
}

/// The readable name of the ref a commit was reached from: without leading
/// `refs/heads/`, then `refs/remotes/`, then `refs/tags/`; empty for `HEAD`
/// (the current branch's own history).
pub open spec fn source_branch(source: Seq<char>) -> Seq<char> {
    let name = strip_all(strip_all(strip_all(source, "refs/heads/"@), "refs/remotes/"@), "refs/tags/"@);
    if name == "HEAD"@ {
        Seq::empty()
    } else {
        name
    }
}

/// A commit of `git log --pretty=format:%h%x00%S%x00%s`: sha, subject and
/// source branch, from the line's first two NUL-separated fields and the
/// rest; none for a line with fewer than two NULs.
pub open spec fn commit_of(l: Seq<char>) -> Option<(Seq<char>, Seq<char>, Seq<char>)> {
    let i = first_index(l, '\0');
    if i < 0 {
        None
    } else {
        let rest = l.skip(i + 1);
        let j = first_index(rest, '\0');
        if j < 0 {
            None
        } else {
            Some((l.take(i), rest.skip(j + 1), source_branch(trim(rest.take(j)))))
        }
    }
}

/// The commits of lines, in order.
pub open spec fn commits_of(lines: Seq<Seq<char>>) -> Seq<(Seq<char>, Seq<char>, Seq<char>)>
    decreases lines.len(),
{
    if lines.len() == 0 {
        Seq::empty()
    } else {
        let p = commits_of(lines.drop_last());
        match commit_of(lines.last()) {
            Some(c) => p.push(c),
            None => p,
        }
    }
}

/// How many of `pieces` are not empty.
pub open spec fn count_nonempty(pieces: Seq<Seq<char>>) -> int
    decreases pieces.len(),
{
    if pieces.len() == 0 {
        0
    } else {
        count_nonempty(pieces.drop_last()) + if pieces.last().len() > 0 {
            1int
        } else {
            0
        }
    }
}

impl View for Branch {
    type V = (Seq<char>, bool);

    open spec fn view(&self) -> (Seq<char>, bool) {
        (self.name@, self.current)
    }
}

impl View for CommitInfo {
    type V = (Seq<char>, Seq<char>, Seq<char>);

    open spec fn view(&self) -> (Seq<char>, Seq<char>, Seq<char>) {
        (self.sha@, self.subject@, self.branch@)
    }
}

impl Repo {
    /// The conflicts list: one row per conflicted path, in order, each side's
    /// status read off the stages, with whether the file is binary
    /// (`binary[i]` for `stages[i]`).
    pub fn conflicts(stages: &Vec<StageRow>, binary: &Vec<bool>) -> (r: Vec<FileRow>)
        requires
            binary.len() == stages.len(),
        ensures
            r.len() == stages.len(),
            forall|i: int| 0 <= i < r.len() ==> file_row_ok(#[trigger] r@[i], stages@[i]@, binary@[i]),
    {
        let mut r: Vec<FileRow> = Vec::new();
        let mut i: usize = 0;
        while i < stages.len()
            invariant
                i <= stages.len() == binary.len(),
                r.len() == i,
                forall|k: int| 0 <= k < i ==> file_row_ok(#[trigger] r@[k], stages@[k]@, binary@[k]),
            decreases stages.len() - i,
        {
            let st = &stages[i];
            let row = FileRow {
                path: st.path.as_str().to_owned(),
                yours: side_status(st.base, st.ours),
                theirs: side_status(st.base, st.theirs),
                binary: binary[i],
            };
            r.push(row);
            i = i + 1;
        }
        r
    }

    /// Whether a file whose first bytes are `head` is binary: a NUL within
    /// the first `SNIFF_BYTES` bytes.
    pub fn looks_binary(head: &Vec<u8>) -> (r: bool)
        ensures
            r == exists|i: int| 0 <= i < head.len() && i < SNIFF_BYTES && head@[i] == 0,
    {
        let mut i: usize = 0;
        while i < head.len() && i < SNIFF_BYTES
            invariant
                i <= head.len(),
                i <= SNIFF_BYTES,
                forall|k: int| 0 <= k < i ==> head@[k] != 0,
            decreases head.len() - i,
        {
            if head[i] == 0 {
                return true;
            }
            i = i + 1;
        }
        false
    }

    /// The git command that shows one stage of a path.
    pub fn show_args(stage: u8, path: &str) -> (r: Vec<String>)
        ensures
            strings_view(r@) == show_spec(stage, path@),
    {
        let mut spec: Vec<char> = chars_of(":");
        push_all(&mut spec, &decimal_chars(stage as u64));
        push_all(&mut spec, &chars_of(":"));
        push_all(&mut spec, &chars_of(path));
        let mut r = strings(&vec!["show"]);
        push_string(&mut r, string_from_chars(&spec));
        proof {
            assert(strings_view(r@) =~= show_spec(stage, path@));
        }
        r
    }

    /// The three versions of a file from the `git show` of stages 1, 2 and
    /// 3: a missing stage gives an empty text.
    pub fn read_three(base: &GitOutput, ours: &GitOutput, theirs: &GitOutput) -> (r: ThreeWay)
        ensures
            r.base@ == stage_text(*base),
            r.ours@ == stage_text(*ours),
            r.theirs@ == stage_text(*theirs),
    {
        let b = if base.success {
            base.stdout.as_str().to_owned()
        } else {
            String::new()
        };
        let o = if ours.success {
            ours.stdout.as_str().to_owned()
        } else {
            String::new()
        };
        let t = if theirs.success {
            theirs.stdout.as_str().to_owned()
        } else {
            String::new()
        };
        ThreeWay { base: b, ours: o, theirs: t }
    }

    /// The commands that take `side` for each of `paths` (see
    /// `accept_plan`), given the stages `git ls-files -u` listed for them.
    pub fn accept_side(paths: &Vec<String>, stages: &Vec<StageRow>, side: PickSide) -> (r: Vec<Vec<String>>)
        ensures
            commands_view(r@) == accept_plan(strings_view(paths@), stages@.map_values(|row: StageRow| row@), side),
    {
        let ghost rows = stages@.map_values(|row: StageRow| row@);
        let ghost pv = strings_view(paths@);
        let mut r: Vec<Vec<String>> = Vec::new();
        let mut i: usize = 0;
        while i < paths.len()
            invariant
                i <= paths.len(),
                rows == stages@.map_values(|row: StageRow| row@),
                pv == strings_view(paths@),
                commands_view(r@) == accept_plan(pv.take(i as int), rows, side),
            decreases paths.len() - i,
        {
            let path = paths[i].as_str();
            let pc = chars_of(path);
            proof {
                assert(pv.take(i + 1).drop_last() =~= pv.take(i as int));
                assert(pv.take(i + 1).last() == path@);
            }
            let mut found: Option<usize> = None;
            let mut j: usize = 0;
            while j < stages.len()
                invariant
                    j <= stages.len(),
                    rows == stages@.map_values(|row: StageRow| row@),
                    match found {
                        Some(k) => k < j && find_path(rows.take(j as int), pc@) == k,
                        None => find_path(rows.take(j as int), pc@) == -1,
                    },
                decreases stages.len() - j,
            {
                proof {
                    assert(rows.take(j + 1).drop_last() =~= rows.take(j as int));
                    assert(rows.take(j + 1).last() == stages@[j as int]@);
                }
                if chars_equal(&chars_of(stages[j].path.as_str()), &pc) {
                    found = Some(j);
                }
                j = j + 1;
            }
            proof {
                assert(rows.take(j as int) =~= rows);
            }
            let ghost r0 = commands_view(r@);
            match found {
                Some(k) => {
                    let st = &stages[k];
                    let (status, flag) = match side {
                        PickSide::Yours => (side_status(st.base, st.ours), "--ours"),
                        PickSide::Theirs => (side_status(st.base, st.theirs), "--theirs"),
                    };
                    proof {
                        assert(rows[k as int] == stages@[k as int]@);
                        let want = match side {
                            PickSide::Yours => "--ours"@,
                            PickSide::Theirs => "--theirs"@,
                        };
                        assert(flag@ == want);
                        let ss = match side {
                            PickSide::Yours => side_status_spec(rows[k as int].1, rows[k as int].2),
                            PickSide::Theirs => side_status_spec(rows[k as int].1, rows[k as int].3),
                        };
                        assert(status == ss);
                    }
                    match status {
                        SideStatus::Deleted => {
                            let cmd = strings(&vec!["rm", "-f", "--ignore-unmatch", "--", path]);
                            proof {
                                assert(strings_view(cmd@) =~= seq!["rm"@, "-f"@, "--ignore-unmatch"@, "--"@, path@]);
                            }
                            push_command(&mut r, cmd);
                        },
                        _ => {
                            let checkout = strings(&vec!["checkout", flag, "--", path]);
                            let add = strings(&vec!["add", "--", path]);
                            proof {
                                assert(strings_view(checkout@) =~= seq!["checkout"@, flag@, "--"@, path@]);
                                assert(strings_view(add@) =~= seq!["add"@, "--"@, path@]);
                            }
                            push_command(&mut r, checkout);
                            push_command(&mut r, add);
                        },
                    }
                    proof {
                        assert(commands_view(r@) =~= r0 + accept_cmds(path@, rows[k as int], side));
                    }
                },
                None => {},
            }
            i = i + 1;
        }
        proof {
            assert(pv.take(i as int) =~= pv);
        }
        r
    }

    /// The git command that lists local branches, marking the current one.
    pub fn branch_args() -> (r: Vec<String>)
        ensures
            strings_view(r@) == seq!["branch"@, "--format=%(HEAD) %(refname:short)"@],
    {
        let r = strings(&vec!["branch", "--format=%(HEAD) %(refname:short)"]);
        proof {
            assert(strings_view(r@) =~= seq!["branch"@, "--format=%(HEAD) %(refname:short)"@]);
        }
        r
    }

    /// Local branches from what `git branch` printed (see `branch_of`).
    pub fn branches(text: &str) -> (r: Vec<Branch>)
        ensures
            r@.map_values(|b: Branch| b@) == branches_of(text_lines(text@)),
    {
        let lines = text_lines_of(&chars_of(text));
        let ghost lv = text_lines(text@);
        let mut r: Vec<Branch> = Vec::new();
        let mut i: usize = 0;
        while i < lines.len()
            invariant
                i <= lines.len(),
                lines_view(&lines) == lv,
                r@.map_values(|b: Branch| b@) == branches_of(lv.take(i as int)),
            decreases lines.len() - i,
        {
            let line = &lines[i];
            proof {
                assert(lv.take(i + 1).drop_last() =~= lv.take(i as int));
                assert(lv.take(i + 1).last() == line@);
            }
            let ghost r0 = r@.map_values(|b: Branch| b@);
            if line.len() > 0 && (line[0] as u32) < 0x80 {
                let rest = slice_chars(line, 1, line.len());
                assert(rest@ =~= line@.drop_first());
                let name = trim_chars(&rest);
                if name.len() > 0 {
                    r.push(Branch { name: string_from_chars(&name), current: line[0] == '*' });
                    proof {
                        assert(r@.map_values(|b: Branch| b@) =~= r0.push((name@, line@[0] == '*')));
                    }
                }
            }
            i = i + 1;
        }
        proof {
            assert(lv.take(i as int) =~= lv);
        }
        r
    }

    /// The git command that lists up to `limit` recent commits, only those
    /// the current branch lacks when `others_only`.
    pub fn log_args(others_only: bool, limit: usize) -> (r: Vec<String>)
        ensures
            strings_view(r@) == seq![
                "log"@,
                "--no-decorate"@,
                "--pretty=format:%h%x00%S%x00%s"@,
                "-n"@,
                decimal(limit as nat),
            ] + if others_only {
                seq!["--all"@, "--not"@, "HEAD"@]
            } else {
                Seq::empty()
            },
    {
        let mut r = strings(&vec!["log", "--no-decorate", "--pretty=format:%h%x00%S%x00%s", "-n"]);
        push_string(&mut r, string_from_chars(&decimal_chars(limit as u64)));
        if others_only {
            let more = strings(&vec!["--all", "--not", "HEAD"]);
            push_strings(&mut r, &more);
        }
        proof {
            let head = seq![
                "log"@,
                "--no-decorate"@,
                "--pretty=format:%h%x00%S%x00%s"@,
                "-n"@,
                decimal(limit as nat),
            ];
            if others_only {
                assert(strings_view(r@) =~= head + seq!["--all"@, "--not"@, "HEAD"@]);
            } else {
                assert(strings_view(r@) =~= head + Seq::empty());
            }
        }
        r
    }

    /// Recent commits from what `git log` printed (see `commit_of`).
    pub fn recent_commits(text: &str) -> (r: Vec<CommitInfo>)
        ensures
            r@.map_values(|c: CommitInfo| c@) == commits_of(text_lines(text@)),
    {
        let lines = text_lines_of(&chars_of(text));
        let ghost lv = text_lines(text@);
        let heads = chars_of("refs/heads/");
        let remotes = chars_of("refs/remotes/");
        let tags = chars_of("refs/tags/");
        let head = chars_of("HEAD");
        let mut r: Vec<CommitInfo> = Vec::new();
        let mut i: usize = 0;
        while i < lines.len()
            invariant
                i <= lines.len(),
                lines_view(&lines) == lv,
                heads@ == "refs/heads/"@,
                remotes@ == "refs/remotes/"@,
                tags@ == "refs/tags/"@,
                head@ == "HEAD"@,
                r@.map_values(|c: CommitInfo| c@) == commits_of(lv.take(i as int)),
            decreases lines.len() - i,
        {
            let line = &lines[i];
            proof {
                assert(lv.take(i + 1).drop_last() =~= lv.take(i as int));
                assert(lv.take(i + 1).last() == line@);
            }
            let ghost r0 = r@.map_values(|c: CommitInfo| c@);
            match find_first(line, '\0') {
                Some(a) => {
                    let rest = slice_chars(line, a + 1, line.len());
                    assert(rest@ =~= line@.skip(a + 1));
                    match find_first(&rest, '\0') {
                        Some(b) => {
                            let sha = slice_chars(line, 0, a);
                            let field = slice_chars(&rest, 0, b);
                            let source = trim_chars(&field);
                            let subject = slice_chars(&rest, b + 1, rest.len());
                            let n1 = strip_all_chars(&source, &heads);
                            let n2 = strip_all_chars(&n1, &remotes);
                            let name = strip_all_chars(&n2, &tags);
                            let branch = if chars_equal(&name, &head) {
                                Vec::new()
                            } else {
                                name
                            };
                            proof {
                                assert(sha@ =~= line@.take(a as int));
                                assert(subject@ =~= rest@.skip(b + 1));
                                assert(field@ =~= rest@.take(b as int));
                                assert(branch@ =~= source_branch(trim(rest@.take(b as int))));
                            }
                            r.push(
                                CommitInfo {
                                    sha: string_from_chars(&sha),
                                    subject: string_from_chars(&subject),
                                    branch: string_from_chars(&branch),
                                },
                            );
                            proof {
                                assert(r@.map_values(|c: CommitInfo| c@) =~= r0.push(commit_of(line@).unwrap()));
                            }
                        },
                        None => {},
                    }
                },
                None => {},
            }
            i = i + 1;
        }
        proof {
            assert(lv.take(i as int) =~= lv);
        }
        r
    }

    /// The git command that lists uncommitted changes, one per line.
    pub fn status_args() -> (r: Vec<String>)
        ensures
            strings_view(r@) == seq!["status"@, "--porcelain"@],
    {
        let r = strings(&vec!["status", "--porcelain"]);
        proof {
            assert(strings_view(r@) =~= seq!["status"@, "--porcelain"@]);
        }
        r
    }

    /// The number of uncommitted changes: the non-empty lines of what
    /// `git status --porcelain` printed.
    pub fn dirty_count(text: &str) -> (r: usize)
        ensures
            r == count_nonempty(split_on(text@, '\n')),
    {
        let pieces = split_chars(&chars_of(text), '\n');
        let ghost pv = split_on(text@, '\n');
        let mut n: usize = 0;
        let mut i: usize = 0;
        while i < pieces.len()
            invariant
                i <= pieces.len(),
                lines_view(&pieces) == pv,
                n <= i,
                n == count_nonempty(pv.take(i as int)),
            decreases pieces.len() - i,
        {
            proof {
                assert(pv.take(i + 1).drop_last() =~= pv.take(i as int));
                assert(pv.take(i + 1).last() == pieces@[i as int]@);
            }
            if pieces[i].len() > 0 {
                n = n + 1;
            }
            i = i + 1;
        }
        proof {
            assert(pv.take(i as int) =~= pv);
        }
        n
    }
}


// ---------------------------------------------------------------------------
// Labels of the two sides

/// What the side labels are read from: the first lines of git's answers (empty
/// where a command failed) and what the rebase markers hold.
#[derive(Clone, Debug)]
pub struct LabelFacts {
    /// `git rev-parse --abbrev-ref HEAD`: the current branch, or `HEAD` when
    /// detached.
    pub head_name: String,
    /// `git rev-parse --short HEAD`.
    pub head_short: String,
    /// The readable onto side of a rebase in progress (see `onto_label`).
    pub onto: Option<String>,
    /// `git name-rev --name-only --exclude=tags/* MERGE_HEAD`.
    pub merge_name: String,
    /// `git rev-parse --short MERGE_HEAD`.
    pub merge_short: String,
    /// The branch being rebased (see `rebase_head_name`).
    pub rebase_name: String,
    /// `git rev-parse --short REBASE_HEAD`.
    pub rebase_short: String,
    /// `git rev-parse --short CHERRY_PICK_HEAD`.
    pub cherry_short: String,
    /// `git rev-parse --short REVERT_HEAD`.
    pub revert_short: String,
}

/// A readable label for a ref from what `git name-rev` printed: the name
/// without leading `remotes/`, unless that is empty, `undefined`, or a
/// relative name (with `~` or `^`), in which case the short sha.
pub open spec fn ref_label_spec(name: Seq<char>, short: Seq<char>) -> Seq<char> {
    let n = strip_all(name, "remotes/"@);
    if n.len() == 0 || n == "undefined"@ || first_index(n, '~') >= 0 || first_index(n, '^') >= 0 {
        short
    } else {
        n
    }
}

/// Our label: the current branch; when `HEAD` is detached, a rebase's onto
/// side if known, else the short sha.
pub open spec fn yours_spec(f: LabelFacts) -> Seq<char> {
    if f.head_name@.len() == 0 || f.head_name@ == "HEAD"@ {
        match f.onto {
            Some(o) => o@,
            None => f.head_short@,
        }
    } else {
        f.head_name@
    }
}

/// Their label, by operation: the merged ref's name, the rebased branch (or
/// the short sha of `REBASE_HEAD`), or the picked or reverted commit.
pub open spec fn theirs_spec(op: Option<Op>, f: LabelFacts) -> Seq<char> {
    match op {
        Some(Op::Merge) => ref_label_spec(f.merge_name@, f.merge_short@),
        Some(Op::Rebase) => if f.rebase_name@.len() == 0 {
            f.rebase_short@
        } else {
            f.rebase_name@
        },
        Some(Op::CherryPick) => f.cherry_short@,
        Some(Op::Revert) => f.revert_short@,
        None => Seq::empty(),
    }
}

/// The onto sha of a rebase: the first marker file (`rebase-merge/onto`,
/// then `rebase-apply/onto`) that could be read and is not blank, trimmed.
pub open spec fn onto_sha_spec(merge: Option<Seq<char>>, apply: Option<Seq<char>>) -> Option<Seq<char>> {
    match merge {
        Some(m) if trim(m).len() > 0 => Some(trim(m)),
        _ => match apply {
            Some(a) if trim(a).len() > 0 => Some(trim(a)),
            _ => None,
        },
    }
}

/// The contents of an optional string.
pub open spec fn opt_view(o: Option<String>) -> Option<Seq<char>> {
    match o {
        Some(s) => Some(s@),
        None => None,
    }
}

/// The branch being rebased, from the first readable `head-name` marker
/// (`rebase-merge`, then `rebase-apply`): trimmed, without leading
/// `refs/heads/`; empty when neither could be read.
pub open spec fn rebase_head_spec(merge: Option<Seq<char>>, apply: Option<Seq<char>>) -> Seq<char> {
    match merge {
        Some(m) => strip_all(trim(m), "refs/heads/"@),
        None => match apply {
            Some(a) => strip_all(trim(a), "refs/heads/"@),
            None => Seq::empty(),
        },
    }
}

/// The text of an optional string, trimmed, if that is not blank.
fn trimmed_nonblank(s: &Option<String>) -> (r: Option<String>)
    ensures
        match opt_view(*s) {
            Some(v) if trim(v).len() > 0 => r matches Some(t) && t@ == trim(v),
            _ => r is None,
        },
{
    match s {
        Some(v) => {
            let t = trim_chars(&chars_of(v.as_str()));
            if t.len() > 0 {
                Some(string_from_chars(&t))
            } else {
                None
            }
        },
        None => None,
    }
}

impl Repo {
    /// The git command that names the current branch.
    pub fn head_name_args() -> (r: Vec<String>)
        ensures
            strings_view(r@) == seq!["rev-parse"@, "--abbrev-ref"@, "HEAD"@],
    {
        let r = strings(&vec!["rev-parse", "--abbrev-ref", "HEAD"]);
        proof {
            assert(strings_view(r@) =~= seq!["rev-parse"@, "--abbrev-ref"@, "HEAD"@]);
        }
        r
    }

    /// The git command that abbreviates `rev` to a short sha.
    pub fn short_args(rev: &str) -> (r: Vec<String>)
        ensures
            strings_view(r@) == seq!["rev-parse"@, "--short"@, rev@],
    {
        let r = strings(&vec!["rev-parse", "--short", rev]);
        proof {
            assert(strings_view(r@) =~= seq!["rev-parse"@, "--short"@, rev@]);
        }
        r
    }

    /// The git command that names the branch a ref is on (tags excluded).
    pub fn name_rev_args(refname: &str) -> (r: Vec<String>)
        ensures
            strings_view(r@) == seq!["name-rev"@, "--name-only"@, "--exclude=tags/*"@, refname@],
    {
        let r = strings(&vec!["name-rev", "--name-only", "--exclude=tags/*", refname]);
        proof {
            assert(strings_view(r@) =~= seq!["name-rev"@, "--name-only"@, "--exclude=tags/*"@, refname@]);
        }
        r
    }

    /// The git command that lists the local branches pointing at `sha`.
    pub fn points_at_args(sha: &str) -> (r: Vec<String>)
        ensures
            strings_view(r@) == seq![
                "for-each-ref"@,
                "refs/heads"@,
                "--points-at"@,
                sha@,
                "--format=%(refname:short)"@,
            ],
    {
        let r = strings(&vec!["for-each-ref", "refs/heads", "--points-at", sha, "--format=%(refname:short)"]);
        proof {
            assert(strings_view(r@) =~= seq![
                "for-each-ref"@,
                "refs/heads"@,
                "--points-at"@,
                sha@,
                "--format=%(refname:short)"@,
            ]);
        }
        r
    }

    /// The onto sha of a rebase from the contents of its marker files (see
    /// `onto_sha_spec`); `None` outside a rebase.
    pub fn onto_sha(merge: &Option<String>, apply: &Option<String>) -> (r: Option<String>)
        ensures
            opt_view(r) == onto_sha_spec(opt_view(*merge), opt_view(*apply)),
    {
        match trimmed_nonblank(merge) {
            Some(t) => Some(t),
            None => trimmed_nonblank(apply),
        }
    }

    /// The readable onto side of a rebase: a branch pointing at the onto sha
    /// (the first line of `for-each-ref`), else its short sha, else nothing.
    pub fn onto_label(branch: &str, short: &str) -> (r: Option<String>)
        ensures
            opt_view(r) == if branch@.len() > 0 {
                Some(branch@)
            } else if short@.len() > 0 {
                Some(short@)
            } else {
                None
            },
    {
        if branch.unicode_len() > 0 {
            Some(branch.to_owned())
        } else if short.unicode_len() > 0 {
            Some(short.to_owned())
        } else {
            None
        }
    }

    /// The branch being rebased (see `rebase_head_spec`).
    pub fn rebase_head_name(merge: &Option<String>, apply: &Option<String>) -> (r: String)
        ensures
            r@ == rebase_head_spec(opt_view(*merge), opt_view(*apply)),
    {
        let text = match merge {
            Some(m) => m,
            None => match apply {
                Some(a) => a,
                None => return String::new(),
            },
        };
        let t = trim_chars(&chars_of(text.as_str()));
        let name = strip_all_chars(&t, &chars_of("refs/heads/"));
        string_from_chars(&name)
    }

    /// A readable label for a ref (see `ref_label_spec`).
    pub fn ref_label(name: &str, short: &str) -> (r: String)
        ensures
            r@ == ref_label_spec(name@, short@),
    {
        let n = strip_all_chars(&chars_of(name), &chars_of("remotes/"));
        let relative = match find_first(&n, '~') {
            Some(_) => true,
            None => match find_first(&n, '^') {
                Some(_) => true,
                None => false,
            },
        };
        if n.len() == 0 || chars_equal(&n, &chars_of("undefined")) || relative {
            short.to_owned()
        } else {
            string_from_chars(&n)
        }
    }

    /// The labels of our side and their side (see `yours_spec` and
    /// `theirs_spec`).
    pub fn labels(op: Option<Op>, facts: &LabelFacts) -> (r: (String, String))
        ensures
            r.0@ == yours_spec(*facts),
            r.1@ == theirs_spec(op, *facts),
    {
        let head = chars_of(facts.head_name.as_str());
        let yours = if head.len() == 0 || chars_equal(&head, &chars_of("HEAD")) {
            match &facts.onto {
                Some(o) => o.as_str().to_owned(),
                None => facts.head_short.as_str().to_owned(),
            }
        } else {
            facts.head_name.as_str().to_owned()
        };
        let theirs = match op {
            Some(Op::Merge) => Repo::ref_label(facts.merge_name.as_str(), facts.merge_short.as_str()),
            Some(Op::Rebase) => if facts.rebase_name.as_str().unicode_len() == 0 {
                facts.rebase_short.as_str().to_owned()
            } else {
                facts.rebase_name.as_str().to_owned()
            },
            Some(Op::CherryPick) => facts.cherry_short.as_str().to_owned(),
            Some(Op::Revert) => facts.revert_short.as_str().to_owned(),
            None => String::new(),
        };
        (yours, theirs)
    }
}


// ---------------------------------------------------------------------------
// Laws

/// `find_path` gives the last row of a path, or `-1` where no row has it.
proof fn lemma_find_path(rows: Seq<StageModel>, path: Seq<char>)
    ensures
        -1 <= find_path(rows, path) < rows.len(),
        find_path(rows, path) >= 0 ==> rows[find_path(rows, path)].0 == path,
        find_path(rows, path) >= 0 ==> forall|k: int|
            find_path(rows, path) < k < rows.len() ==> (#[trigger] rows[k]).0 != path,
        find_path(rows, path) == -1 ==> forall|i: int| 0 <= i < rows.len() ==> (#[trigger] rows[i]).0 != path,
    decreases rows.len(),
{
    if rows.len() > 0 {
        lemma_find_path(rows.drop_last(), path);
        assert(rows.last() == rows[rows.len() - 1]);
        let f = find_path(rows, path);
        if f >= 0 && rows.last().0 != path {
            assert forall|k: int| f < k < rows.len() implies (#[trigger] rows[k]).0 != path by {
                if k < rows.len() - 1 {
                    assert(rows.drop_last()[k] == rows[k]);
                }
            }
        }
        if find_path(rows, path) == -1 {
            assert forall|i: int| 0 <= i < rows.len() implies (#[trigger] rows[i]).0 != path by {
                if i < rows.len() - 1 {
                    assert(rows.drop_last()[i] == rows[i]);
                }
            }
        }
    }
}

proof fn lemma_entries_stage(recs: Seq<Seq<char>>)
    ensures
        forall|i: int| 0 <= i < entries_of(recs).len() ==> 1 <= (#[trigger] entries_of(recs)[i]).1 <= 3,
    decreases recs.len(),
{
    if recs.len() > 0 {
        lemma_entries_stage(recs.drop_last());
        let p = entries_of(recs.drop_last());
        match record_entry(recs.last()) {
            Some(e) => {
                assert forall|i: int| 0 <= i < p.push(e).len() implies 1 <= (#[trigger] p.push(e)[i]).1 <= 3 by {
                    if i < p.len() {
                        assert(p.push(e)[i] == p[i]);
                    }
                }
            },
            None => {},
        }
    }
}

/// Rows with distinct paths, each with some stage marked.
pub open spec fn rows_ok(rows: Seq<StageModel>) -> bool {
    &&& forall|i: int, j: int| 0 <= i < j < rows.len() ==> (#[trigger] rows[i]).0 != (#[trigger] rows[j]).0
    &&& forall|i: int| 0 <= i < rows.len() ==> (#[trigger] rows[i]).1 || rows[i].2 || rows[i].3
}

proof fn lemma_gather(entries: Seq<(Seq<char>, int)>)
    requires
        forall|i: int| 0 <= i < entries.len() ==> 1 <= (#[trigger] entries[i]).1 <= 3,
    ensures
        rows_ok(gather(entries)),
    decreases entries.len(),
{
    if entries.len() > 0 {
        let p = entries.drop_last();
        assert forall|i: int| 0 <= i < p.len() implies 1 <= (#[trigger] p[i]).1 <= 3 by {
            assert(p[i] == entries[i]);
        }
        lemma_gather(p);
        let rows = gather(p);
        let e = entries.last();
        assert(e == entries[entries.len() - 1]);
        lemma_find_path(rows, e.0);
        let r2 = add_entry(rows, e);
        let k = find_path(rows, e.0);
        if k >= 0 {
            assert forall|i: int, j: int| 0 <= i < j < r2.len() implies (#[trigger] r2[i]).0 != (
            #[trigger] r2[j]).0 by {
                assert(rows[i].0 != rows[j].0);
            }
            assert forall|i: int| 0 <= i < r2.len() implies (#[trigger] r2[i]).1 || r2[i].2 || r2[i].3 by {
                assert(rows[i].1 || rows[i].2 || rows[i].3);
            }
        } else {
            assert forall|i: int, j: int| 0 <= i < j < r2.len() implies (#[trigger] r2[i]).0 != (
            #[trigger] r2[j]).0 by {
                if j < rows.len() {
                    assert(rows[i].0 != rows[j].0);
                } else {
                    assert(rows[i].0 != e.0);
                }
            }
            assert forall|i: int| 0 <= i < r2.len() implies (#[trigger] r2[i]).1 || r2[i].2 || r2[i].3 by {
                if i < rows.len() {
                    assert(rows[i].1 || rows[i].2 || rows[i].3);
                }
            }
        }
    }
}

/// Each marker names its operation: a rebase directory means a rebase
/// whatever else is present; otherwise `MERGE_HEAD` means a merge, then
/// `CHERRY_PICK_HEAD` a cherry-pick, then `REVERT_HEAD` a revert; and no
/// operation is in progress exactly when no marker is present.
pub proof fn law_op_markers(m: OpMarkers)
    ensures
        m.rebase_merge ==> op_spec(m) == Some(Op::Rebase),
        m.rebase_apply ==> op_spec(m) == Some(Op::Rebase),
        !m.rebase_merge && !m.rebase_apply && m.merge_head ==> op_spec(m) == Some(Op::Merge),
        !m.rebase_merge && !m.rebase_apply && !m.merge_head && m.cherry_pick_head ==> op_spec(m) == Some(
            Op::CherryPick,
        ),
        !m.rebase_merge && !m.rebase_apply && !m.merge_head && !m.cherry_pick_head && m.revert_head ==> op_spec(m)
            == Some(Op::Revert),
        op_spec(m) is None <==> !m.rebase_merge && !m.rebase_apply && !m.merge_head && !m.cherry_pick_head
            && !m.revert_head,
{
}

/// Taking a side for one path whose stages are `row`: when that side's
/// stage is missing (the side deleted the file) the plan is the single
/// `rm -f --ignore-unmatch -- path`, whichever side was picked; when it is
/// there, the plan checks that side's version out (`--ours` for ours,
/// `--theirs` for theirs) and stages it.
pub proof fn law_accept_one(path: Seq<char>, row: StageModel, side: PickSide)
    ensures
        (side == PickSide::Yours && !row.2) || (side == PickSide::Theirs && !row.3) ==> accept_cmds(path, row, side)
            == seq![seq!["rm"@, "-f"@, "--ignore-unmatch"@, "--"@, path]],
        side == PickSide::Yours && row.2 ==> accept_cmds(path, row, side) == seq![
            seq!["checkout"@, "--ours"@, "--"@, path],
            seq!["add"@, "--"@, path],
        ],
        side == PickSide::Theirs && row.3 ==> accept_cmds(path, row, side) == seq![
            seq!["checkout"@, "--theirs"@, "--"@, path],
            seq!["add"@, "--"@, path],
        ],
{
}

/// The plan for several paths is the plans for each path, one after the
/// other; a path without conflicted stages contributes nothing, and one
/// with stages contributes what `law_accept_one` says for the stages
/// listed for it (the last row of that path).
pub proof fn law_accept_plan(paths: Seq<Seq<char>>, more: Seq<Seq<char>>, rows: Seq<StageModel>, side: PickSide)
    ensures
        accept_plan(paths + more, rows, side) == accept_plan(paths, rows, side) + accept_plan(more, rows, side),
        accept_plan(Seq::empty(), rows, side) == Seq::<Seq<Seq<char>>>::empty(),
        forall|p: Seq<char>|
            (forall|j: int| 0 <= j < rows.len() ==> (#[trigger] rows[j]).0 != p) ==> #[trigger] accept_plan(
                seq![p],
                rows,
                side,
            ) == Seq::<Seq<Seq<char>>>::empty(),
        forall|j: int|
            0 <= j < rows.len() && (forall|k: int| j < k < rows.len() ==> (#[trigger] rows[k]).0 != rows[j].0)
                ==> accept_plan(seq![(#[trigger] rows[j]).0], rows, side) == accept_cmds(rows[j].0, rows[j], side),
{
    lemma_accept_concat(paths, more, rows, side);
    assert forall|p: Seq<char>|
        (forall|j: int| 0 <= j < rows.len() ==> (#[trigger] rows[j]).0 != p) implies #[trigger] accept_plan(
            seq![p],
            rows,
            side,
        ) == Seq::<Seq<Seq<char>>>::empty() by {
        lemma_accept_single(p, rows, side);
        lemma_find_path(rows, p);
        if find_path(rows, p) >= 0 {
            assert(rows[find_path(rows, p)].0 == p);
        }
    }
    assert forall|j: int|
        0 <= j < rows.len() && (forall|k: int| j < k < rows.len() ==> (#[trigger] rows[k]).0 != rows[j].0)
            implies accept_plan(seq![(#[trigger] rows[j]).0], rows, side) == accept_cmds(rows[j].0, rows[j], side) by {
        let p = rows[j].0;
        lemma_accept_single(p, rows, side);
        lemma_find_path(rows, p);
        if find_path(rows, p) != j {
            if find_path(rows, p) < j {
                assert(rows[j].0 == p);
            } else {
                assert(rows[find_path(rows, p)].0 == p);
            }
        }
    }
}

/// The plan for two lists of paths, one after the other, is their plans one
/// after the other.
proof fn lemma_accept_concat(paths: Seq<Seq<char>>, more: Seq<Seq<char>>, rows: Seq<StageModel>, side: PickSide)
    ensures
        accept_plan(paths + more, rows, side) == accept_plan(paths, rows, side) + accept_plan(more, rows, side),
        accept_plan(Seq::empty(), rows, side) == Seq::<Seq<Seq<char>>>::empty(),
    decreases more.len(),
{
    if more.len() > 0 {
        lemma_accept_concat(paths, more.drop_last(), rows, side);
        assert((paths + more).drop_last() =~= paths + more.drop_last());
        assert((paths + more).last() == more.last());
    } else {
        assert(paths + more =~= paths);
    }
}

/// The plan for one path: its row's commands, or nothing without a row.
proof fn lemma_accept_single(p: Seq<char>, rows: Seq<StageModel>, side: PickSide)
    ensures
        accept_plan(seq![p], rows, side) == (if find_path(rows, p) < 0 {
            Seq::<Seq<Seq<char>>>::empty()
        } else {
            accept_cmds(p, rows[find_path(rows, p)], side)
        }),
{
    assert(seq![p].drop_last() =~= Seq::<Seq<char>>::empty());
    assert(seq![p].last() == p);
    assert(accept_plan(Seq::<Seq<char>>::empty(), rows, side) =~= Seq::<Seq<Seq<char>>>::empty());
    if find_path(rows, p) >= 0 {
        let c = accept_cmds(p, rows[find_path(rows, p)], side);
        assert(Seq::<Seq<Seq<char>>>::empty() + c =~= c);
    }
}

/// The conflicts list holds each path once, and every listed path has at
/// least one of its stages: what `git ls-files -u` printed is gathered by
/// path, never repeated.
pub proof fn law_stages_by_path(text: Seq<char>)
    ensures
        rows_ok(stages_spec(text)),
{
    lemma_entries_stage(split_on(text, '\0'));
    lemma_gather(entries_of(split_on(text, '\0')));
}

} // verus!
