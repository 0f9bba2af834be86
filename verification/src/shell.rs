//! The desktop shell's decisions: window forms and their sizes, how a
//! launched or continued operation ended, and the list of recent
//! repositories.

use vstd::prelude::*;
use vstd::string::StringExecFns;

use crate::repo::{launch_name, op_name, strings_view, FileRow, LaunchKind, Op};
use crate::settings::{
    clamp_min_spec, compact_default, compact_min, large_default, large_min, Settings, WinSize,
};
use crate::emphasis::chars_equal;
use crate::text::{chars_of, decimal, decimal_chars, push_all, string_from_chars};

verus! {

/// Most repositories the recent list keeps.
pub const RECENT_LIMIT: usize = 10;

/// The form of the single window, chosen by the route shown.
#[derive(Clone, Copy, Debug, PartialEq, Eq, Structural)]
pub enum WinForm {
    /// The compact window: the open page and the menu (420 x 640).
    Compact,
    /// The large window: the conflicts list and the merge panes (1280 x 800).
    Large,
}

impl WinForm {
    /// The slot of this form's remembered position.
    pub fn idx(self) -> (r: usize)
        ensures
            r == (match self {
                WinForm::Compact => 0usize,
                WinForm::Large => 1usize,
            }),
    {
        match self {
            WinForm::Compact => 0,
            WinForm::Large => 1,
        }
    }

    /// The smallest size and the size to apply for this form: the size the
    /// user left it at, grown to the smallest size, or the factory size.
    pub fn sizes(self, settings: &Settings) -> (r: (WinSize, WinSize))
        ensures
            r == (match self {
                WinForm::Compact => form_sizes(
                    WinSize { width: 380, height: 520 },
                    WinSize { width: 420, height: 640 },
                    settings.compact_size,
                ),
                WinForm::Large => form_sizes(
                    WinSize { width: 960, height: 640 },
                    WinSize { width: 1280, height: 800 },
                    settings.large_size,
                ),
            }),
    {
        let (min, default, remembered) = match self {
            WinForm::Compact => (compact_min(), compact_default(), settings.compact_size),
            WinForm::Large => (large_min(), large_default(), settings.large_size),
        };
        let size = match remembered {
            Some(z) => z.clamp_min(min),
            None => default,
        };
        (min, size)
    }
}

/// The smallest size and the size to apply: a remembered size grown to the
/// smallest, else the factory default.
pub open spec fn form_sizes(min: WinSize, default: WinSize, remembered: Option<WinSize>) -> (WinSize, WinSize) {
    (
        min,
        match remembered {
            Some(z) => clamp_min_spec(z, min),
            None => default,
        },
    )
}

/// What the open page and the conflicts list show of a repository.
#[derive(Clone, Debug)]
pub struct RepoInfo {
    /// The work tree's root.
    pub root: String,
    /// The operation in progress, if any.
    pub op: Option<Op>,
    /// Our label (branch name or short sha).
    pub yours_label: String,
    /// Their label.
    pub theirs_label: String,
    /// Number of uncommitted changes.
    pub dirty: usize,
}

/// How an operation started from the menu ended.
#[derive(Clone, Debug)]
pub enum LaunchOutcome {
    /// It finished without conflicts.
    CleanDone,
    /// It left conflicts: the app takes over.
    Conflicts {
        /// The conflicted files.
        files: Vec<FileRow>,
    },
    /// It failed without conflicts (dirty tree, network, no upstream...).
    Failed {
        /// A one-line summary; the details went to the output stream.
        message: String,
    },
}

/// How one round of `--continue` ended.
#[derive(Clone, Debug)]
pub enum RoundOutcome {
    /// The operation is complete.
    Done,
    /// The next round stopped on new conflicts (a rebase or a cherry-pick of
    /// several commits).
    NextRound {
        /// The newly conflicted files.
        files: Vec<FileRow>,
    },
    /// It failed without new conflicts (a hook refused, say).
    Failed {
        /// A one-line summary; the details went to the output stream.
        message: String,
    },
}

/// One line of a running command's output.
#[derive(Clone, Debug)]
pub struct OutputLine {
    /// `stdout` or `stderr`.
    pub stream: &'static str,
    /// The line.
    pub line: String,
}

/// A process's exit as a readable suffix: ` (exit code N)`, or
/// ` (terminated by signal)` when it has no exit code.
pub open spec fn exit_suffix_spec(code: Option<i32>) -> Seq<char> {
    match code {
        Some(c) => " (exit code "@ + signed_decimal(c as int) + ")"@,
        None => " (terminated by signal)"@,
    }
}

/// The decimal digits of `n`, with a leading `-` when it is negative.
pub open spec fn signed_decimal(n: int) -> Seq<char> {
    if n < 0 {
        seq!['-'] + decimal((-n) as nat)
    } else {
        decimal(n as nat)
    }
}

/// A process's exit as a readable suffix (see `exit_suffix_spec`).
pub fn exit_suffix(code: Option<i32>) -> (r: String)
    ensures
        r@ == exit_suffix_spec(code),
{
    match code {
        Some(c) => {
            let mut out = chars_of(" (exit code ");
            if c < 0 {
                out.push('-');
                let m: i64 = -(c as i64);
                push_all(&mut out, &decimal_chars(m as u64));
            } else {
                push_all(&mut out, &decimal_chars(c as u64));
            }
            push_all(&mut out, &chars_of(")"));
            proof {
                if c < 0 {
                    assert(out@ =~= " (exit code "@ + signed_decimal(c as int) + ")"@);
                } else {
                    assert(out@ =~= " (exit code "@ + signed_decimal(c as int) + ")"@);
                }
            }
            string_from_chars(&out)
        },
        None => " (terminated by signal)".to_owned(),
    }
}

/// The outcome of a launched operation: any conflict means the app takes
/// over, whatever the exit status; else a successful exit is a clean finish
/// and anything else a failure, `git <kind> failed` with the exit suffix.
pub fn launch_outcome(kind: LaunchKind, success: bool, code: Option<i32>, files: Vec<FileRow>) -> (r: LaunchOutcome)
    ensures
        match r {
            LaunchOutcome::Conflicts { files: f } => files.len() > 0 && f@ == files@,
            LaunchOutcome::CleanDone => files.len() == 0 && success,
            LaunchOutcome::Failed { message } => files.len() == 0 && !success && message@ == "git "@
                + launch_name(kind) + " failed"@ + exit_suffix_spec(code),
        },
{
    if files.len() > 0 {
        return LaunchOutcome::Conflicts { files };
    }
    if success {
        LaunchOutcome::CleanDone
    } else {
        let mut message = "git ".to_owned();
        message.append(kind.name());
        message.append(" failed");
        let suffix = exit_suffix(code);
        message.append(suffix.as_str());
        LaunchOutcome::Failed { message }
    }
}

/// The outcome of one `git <op> --continue` round: a successful exit
/// finishes the operation; otherwise new conflicts are the next round, and no
/// conflicts a failure, `git <op> --continue failed` with the exit suffix.
pub fn round_outcome(op: Op, success: bool, code: Option<i32>, files: Vec<FileRow>) -> (r: RoundOutcome)
    ensures
        match r {
            RoundOutcome::Done => success,
            RoundOutcome::NextRound { files: f } => !success && files.len() > 0 && f@ == files@,
            RoundOutcome::Failed { message } => !success && files.len() == 0 && message@ == "git "@
                + op_name(op) + " --continue failed"@ + exit_suffix_spec(code),
        },
{
    if success {
        return RoundOutcome::Done;
    }
    if files.len() > 0 {
        RoundOutcome::NextRound { files }
    } else {
        let mut message = "git ".to_owned();
        message.append(op.name());
        message.append(" --continue failed");
        let suffix = exit_suffix(code);
        message.append(suffix.as_str());
        RoundOutcome::Failed { message }
    }
}

/// `list` without any entry equal to `x`, in order.
pub open spec fn without(list: Seq<Seq<char>>, x: Seq<char>) -> Seq<Seq<char>>
    decreases list.len(),
{
    if list.len() == 0 {
        Seq::empty()
    } else {
        let p = without(list.drop_last(), x);
        if list.last() == x {
            p
        } else {
            p.push(list.last())
        }
    }
}

/// The recent list after opening `root`: it moves to the front (once), the
/// others keep their order, and the list keeps at most `RECENT_LIMIT`
/// entries.
pub open spec fn push_recent_spec(list: Seq<Seq<char>>, root: Seq<char>) -> Seq<Seq<char>> {
    let l = seq![root] + without(list, root);
    if l.len() <= RECENT_LIMIT {
        l
    } else {
        l.take(RECENT_LIMIT as int)
    }
}

/// `list` without the entries equal to `x`.
pub fn remove_recent(list: &Vec<String>, x: &str) -> (r: Vec<String>)
    ensures
        strings_view(r@) == without(strings_view(list@), x@),
{
    let xc = chars_of(x);
    let ghost lv = strings_view(list@);
    let mut r: Vec<String> = Vec::new();
    let mut i: usize = 0;
    while i < list.len()
        invariant
            i <= list.len(),
            xc@ == x@,
            lv == strings_view(list@),
            strings_view(r@) == without(lv.take(i as int), x@),
        decreases list.len() - i,
    {
        proof {
            assert(lv.take(i + 1).drop_last() =~= lv.take(i as int));
            assert(lv.take(i + 1).last() == list@[i as int]@);
        }
        let ghost r0 = strings_view(r@);
        if !chars_equal(&chars_of(list[i].as_str()), &xc) {
            let s = list[i].as_str().to_owned();
            r.push(s);
            proof {
                assert(strings_view(r@) =~= r0.push(list@[i as int]@));
            }
        }
        i = i + 1;
    }
    proof {
        assert(lv.take(i as int) =~= lv);
    }
    r
}

/// The recent list after opening `root` (see `push_recent_spec`).
pub fn push_recent(list: &Vec<String>, root: &str) -> (r: Vec<String>)
    ensures
        strings_view(r@) == push_recent_spec(strings_view(list@), root@),
{
    let rest = remove_recent(list, root);
    let ghost l = seq![root@] + strings_view(rest@);
    let mut r: Vec<String> = Vec::new();
    r.push(root.to_owned());
    let mut i: usize = 0;
    while i < rest.len() && r.len() < RECENT_LIMIT
        invariant
            i <= rest.len(),
            r@.len() == i + 1,
            r@.len() <= RECENT_LIMIT,
            l == seq![root@] + strings_view(rest@),
            strings_view(r@) == l.take(i + 1),
        decreases rest.len() - i,
    {
        let ghost r0 = strings_view(r@);
        let s = rest[i].as_str().to_owned();
        r.push(s);
        i = i + 1;
        proof {
            assert(strings_view(r@) =~= r0.push(rest@[i - 1]@));
            assert(l.take(i + 1) =~= l.take(i as int).push(l[i as int]));
        }
    }
    proof {
        if l.len() <= RECENT_LIMIT {
            assert(l.take(i + 1) =~= l);
        }
    }
    r
}


proof fn lemma_without(list: Seq<Seq<char>>, x: Seq<char>)
    ensures
        without(list, x).len() <= list.len(),
        forall|i: int| 0 <= i < without(list, x).len() ==> #[trigger] without(list, x)[i] != x,
        (forall|i: int| 0 <= i < list.len() ==> #[trigger] list[i] != x) ==> without(list, x) == list,
    decreases list.len(),
{
    if list.len() > 0 {
        let p = list.drop_last();
        lemma_without(p, x);
        if forall|i: int| 0 <= i < list.len() ==> #[trigger] list[i] != x {
            assert forall|i: int| 0 <= i < p.len() implies #[trigger] p[i] != x by {
                assert(p[i] == list[i]);
            }
            assert(list[list.len() - 1] != x);
            assert(p.push(list.last()) =~= list);
        }
    }
}

/// One entry of the recent list as shown: a repository whose directory is
/// gone stays in the list, flagged missing, until the user removes it.
#[derive(Clone, Debug)]
pub struct RecentEntry {
    pub path: String,
    pub missing: bool,
}

/// The recent list as shown, where `present[i]` tells whether the directory
/// of `list[i]` still exists: every entry stays, in order, and those whose
/// directory is gone are flagged missing.
pub fn recent_entries(list: &Vec<String>, present: &Vec<bool>) -> (r: Vec<RecentEntry>)
    requires
        present.len() == list.len(),
    ensures
        r.len() == list.len(),
        forall|i: int| 0 <= i < r.len() ==> (#[trigger] r@[i]).path@ == list@[i]@ && r@[i].missing == !present@[i],
{
    let mut r: Vec<RecentEntry> = Vec::new();
    let mut i: usize = 0;
    while i < list.len()
        invariant
            present.len() == list.len(),
            i <= list.len(),
            r.len() == i,
            forall|j: int| 0 <= j < i ==> (#[trigger] r@[j]).path@ == list@[j]@ && r@[j].missing == !present@[j],
        decreases list.len() - i,
    {
        r.push(RecentEntry { path: list[i].as_str().to_owned(), missing: !present[i] });
        i = i + 1;
    }
    r
}

/// After opening a repository the recent list starts with it, holds it
/// exactly once and at most `RECENT_LIMIT` entries; opening it again changes
/// nothing; and after removing an entry none equal to it is left.
pub proof fn law_recent_list(list: Seq<Seq<char>>, root: Seq<char>)
    ensures
        push_recent_spec(list, root).len() >= 1,
        push_recent_spec(list, root)[0] == root,
        push_recent_spec(list, root).len() <= RECENT_LIMIT,
        forall|i: int| 0 < i < push_recent_spec(list, root).len() ==> #[trigger] push_recent_spec(list, root)[i] != root,
        push_recent_spec(push_recent_spec(list, root), root) == push_recent_spec(list, root),
        forall|i: int| 0 <= i < without(list, root).len() ==> #[trigger] without(list, root)[i] != root,
{
    lemma_without(list, root);
    let w = without(list, root);
    let l = seq![root] + w;
    let r = push_recent_spec(list, root);
    assert forall|i: int| 0 < i < r.len() implies #[trigger] r[i] != root by {
        assert(r[i] == l[i]);
        assert(l[i] == w[i - 1]);
    }
    // Opening `root` again: the rest of the list holds no `root`.
    let rest = r.drop_first();
    assert(r =~= seq![root] + rest);
    assert forall|i: int| 0 <= i < rest.len() implies #[trigger] rest[i] != root by {
        assert(rest[i] == r[i + 1]);
    }
    lemma_without(rest, root);
    lemma_without(r, root);
    assert(r.drop_last() =~= r.take(r.len() - 1));
    assert(without(r, root) == rest) by {
        lemma_without_front(root, rest);
    }
}

/// `u` comes before `v` in `list`.
pub open spec fn before(list: Seq<Seq<char>>, u: Seq<char>, v: Seq<char>) -> bool {
    exists|p: int, q: int| 0 <= p < q < list.len() && list[p] == u && list[q] == v
}

/// Each entry of `without(list, x)` comes from `list`, and any two of them
/// come in the order they had there.
proof fn lemma_without_order(list: Seq<Seq<char>>, x: Seq<char>)
    ensures
        forall|i: int| 0 <= i < without(list, x).len() ==> list.contains(#[trigger] without(list, x)[i]),
        forall|i: int, j: int|
            0 <= i < j < without(list, x).len() ==> before(
                list,
                #[trigger] without(list, x)[i],
                #[trigger] without(list, x)[j],
            ),
    decreases list.len(),
{
    if list.len() > 0 {
        let l0 = list.drop_last();
        let w0 = without(l0, x);
        let w = without(list, x);
        lemma_without_order(l0, x);
        assert forall|i: int| 0 <= i < w0.len() implies list.contains(#[trigger] w0[i]) by {
            let p = choose|p: int| 0 <= p < l0.len() && l0[p] == w0[i];
            assert(list[p] == l0[p]);
        }
        assert forall|i: int, j: int| 0 <= i < j < w0.len() implies before(
            list,
            #[trigger] w0[i],
            #[trigger] w0[j],
        ) by {
            let (p, q) = choose|p: int, q: int| 0 <= p < q < l0.len() && l0[p] == w0[i] && l0[q] == w0[j];
            assert(list[p] == l0[p] && list[q] == l0[q]);
        }
        if list.last() != x {
            let n = list.len() - 1;
            assert(w == w0.push(list[n]));
            assert forall|i: int| 0 <= i < w.len() implies list.contains(#[trigger] w[i]) by {
                if i < w0.len() {
                    assert(w[i] == w0[i]);
                } else {
                    assert(w[i] == list[n]);
                }
            }
            assert forall|i: int, j: int| 0 <= i < j < w.len() implies before(
                list,
                #[trigger] w[i],
                #[trigger] w[j],
            ) by {
                assert(w[i] == w0[i]);
                if j < w0.len() {
                    assert(w[j] == w0[j]);
                } else {
                    let p = choose|p: int| 0 <= p < l0.len() && l0[p] == w0[i];
                    assert(list[p] == l0[p]);
                    assert(w[j] == list[n]);
                }
            }
        }
    }
}

/// Opening `root` keeps a recent list without duplicates free of them; every
/// other entry of the new list comes from the old one, and they keep the
/// order they had there.
pub proof fn law_recent_order(list: Seq<Seq<char>>, root: Seq<char>)
    requires
        list.no_duplicates(),
    ensures
        push_recent_spec(list, root).no_duplicates(),
        forall|i: int|
            0 < i < push_recent_spec(list, root).len() ==> list.contains(
                #[trigger] push_recent_spec(list, root)[i],
            ),
        forall|i: int, j: int|
            0 < i < j < push_recent_spec(list, root).len() ==> before(
                list,
                #[trigger] push_recent_spec(list, root)[i],
                #[trigger] push_recent_spec(list, root)[j],
            ),
{
    lemma_without(list, root);
    lemma_without_order(list, root);
    let w = without(list, root);
    let l = seq![root] + w;
    let r = push_recent_spec(list, root);
    assert forall|i: int| 0 < i < r.len() implies #[trigger] r[i] == w[i - 1] by {
        assert(r[i] == l[i]);
    }
    assert forall|i: int| 0 < i < r.len() implies list.contains(#[trigger] r[i]) by {
        assert(r[i] == w[i - 1]);
    }
    assert forall|i: int, j: int| 0 < i < j < r.len() implies before(list, #[trigger] r[i], #[trigger] r[j]) by {
        assert(r[i] == w[i - 1] && r[j] == w[j - 1]);
    }
    assert forall|i: int, j: int| 0 <= i < r.len() && 0 <= j < r.len() && i != j implies r[i] != r[j] by {
        assert(r[0] == root);
        if i > 0 && j > 0 {
            assert(r[i] == w[i - 1] && r[j] == w[j - 1]);
            let (a, b) = if i < j {
                (i, j)
            } else {
                (j, i)
            };
            assert(before(list, r[a], r[b]));
            let (p, q) = choose|p: int, q: int| 0 <= p < q < list.len() && list[p] == r[a] && list[q] == r[b];
            assert(list[p] != list[q]);
        } else if i > 0 {
            assert(r[i] == w[i - 1]);
        } else {
            assert(r[j] == w[j - 1]);
        }
    }
}

/// Dropping `x` from a list that starts with `x` and holds it nowhere else
/// leaves the rest.
proof fn lemma_without_front(x: Seq<char>, rest: Seq<Seq<char>>)
    requires
        forall|i: int| 0 <= i < rest.len() ==> #[trigger] rest[i] != x,
    ensures
        without(seq![x] + rest, x) == rest,
    decreases rest.len(),
{
    if rest.len() == 0 {
        let l = seq![x] + rest;
        assert(l.drop_last() =~= Seq::<Seq<char>>::empty());
        assert(l.last() == x);
        assert(without(l.drop_last(), x) =~= Seq::<Seq<char>>::empty());
        assert(rest =~= Seq::<Seq<char>>::empty());
    } else {
        let l = seq![x] + rest;
        let p = rest.drop_last();
        assert forall|i: int| 0 <= i < p.len() implies #[trigger] p[i] != x by {
            assert(p[i] == rest[i]);
        }
        lemma_without_front(x, p);
        assert(l.drop_last() =~= seq![x] + p);
        assert(l.last() == rest.last());
        assert(rest[rest.len() - 1] != x);
        assert(p.push(rest.last()) =~= rest);
        assert(without(l, x) == without(l.drop_last(), x).push(l.last()));
    }
}


/// A screen: its top-left corner and its size, in physical pixels.
#[derive(Clone, Copy, Debug, PartialEq, Eq, Structural)]
pub struct Screen {
    pub x: i32,
    pub y: i32,
    pub width: u32,
    pub height: u32,
}

/// Point `(x, y)` lies on screen `m` (sizes read as `i32`, as the window
/// system's signed coordinates take them).
pub open spec fn on_screen_spec(x: i32, y: i32, m: Screen) -> bool {
    &&& m.x <= x < m.x + (m.width as i32)
    &&& m.y <= y < m.y + (m.height as i32)
}

/// Whether a window's top-left corner `(x, y)` still lies on one of the
/// screens (a position remembered before a screen was unplugged may not).
pub fn on_screen(x: i32, y: i32, screens: &Vec<Screen>) -> (r: bool)
    ensures
        r == exists|i: int| 0 <= i < screens.len() && on_screen_spec(x, y, #[trigger] screens@[i]),
{
    let mut i: usize = 0;
    while i < screens.len()
        invariant
            i <= screens.len(),
            forall|j: int| 0 <= j < i ==> !on_screen_spec(x, y, #[trigger] screens@[j]),
        decreases screens.len() - i,
    {
        let m = screens[i];
        let w = m.width as i32;
        let h = m.height as i32;
        let right = m.x as i64 + w as i64;
        let bottom = m.y as i64 + h as i64;
        if m.x <= x && (x as i64) < right && m.y <= y && (y as i64) < bottom {
            proof {
                assert(on_screen_spec(x, y, screens@[i as int]));
            }
            return true;
        }
        i = i + 1;
    }
    false
}


/// Whether asking for `form` changes anything: a form already applied is
/// left alone, so a window the user moved or resized is not pulled back.
pub fn form_changes(current: Option<WinForm>, form: WinForm) -> (r: bool)
    ensures
        r == (current != Some(form)),
{
    match current {
        Some(f) => f != form,
        None => true,
    }
}

/// Where to put the window of a form: its remembered position when that
/// still lies on a screen, else none (the window is centred).
pub fn placement(saved: Option<(i32, i32)>, screens: &Vec<Screen>) -> (r: Option<(i32, i32)>)
    ensures
        match saved {
            Some((x, y)) => if exists|i: int| 0 <= i < screens.len() && on_screen_spec(x, y, #[trigger] screens@[i]) {
                r == Some((x, y))
            } else {
                r is None
            },
            None => r is None,
        },
{
    match saved {
        Some((x, y)) => if on_screen(x, y, screens) {
            Some((x, y))
        } else {
            None
        },
        None => None,
    }
}

} // verus!
