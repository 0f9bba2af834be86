//! Edit scripts between two sequences, as the `similar` crate computes them,
//! and the structure that every valid edit script has.

use std::time::{Duration, Instant};

use vstd::prelude::*;

use crate::text::lines_view;

verus! {

/// Kind of one operation of an edit script.
#[derive(Clone, Copy, Debug, PartialEq, Eq, Structural)]
pub enum DiffTag {
    /// The old range equals the new range.
    Equal,
    /// The old range was removed (the new range is empty).
    Delete,
    /// The new range was inserted (the old range is empty).
    Insert,
    /// The old range was replaced by the new range.
    Replace,
}

/// One operation of an edit script: `old[old_start..old_end]` becomes
/// `new[new_start..new_end]`.
#[derive(Clone, Copy, Debug, PartialEq, Eq, Structural)]
pub struct DiffRange {
    pub tag: DiffTag,
    pub old_start: usize,
    pub old_end: usize,
    pub new_start: usize,
    pub new_end: usize,
}

/// `ops` is an edit script from `old` to `new`: the operations tile both
/// sequences from the start to the end, in order, and every `Equal`
/// operation covers equal stretches of both.
pub open spec fn is_alignment<T>(ops: Seq<DiffRange>, old: Seq<T>, new: Seq<T>) -> bool {
    &&& forall|i: int|
        0 <= i < ops.len() ==> #[trigger] ops[i].old_start <= ops[i].old_end && ops[i].new_start
            <= ops[i].new_end
    &&& ops.len() == 0 ==> old.len() == 0 && new.len() == 0
    &&& ops.len() > 0 ==> {
        &&& ops[0].old_start == 0
        &&& ops[0].new_start == 0
        &&& ops.last().old_end == old.len()
        &&& ops.last().new_end == new.len()
    }
    &&& forall|i: int|
        0 < i < ops.len() ==> #[trigger] ops[i].old_start == ops[i - 1].old_end
            && ops[i].new_start == ops[i - 1].new_end
    &&& forall|i: int|
        0 <= i < ops.len() && (#[trigger] ops[i]).tag == DiffTag::Equal ==> {
            &&& ops[i].old_end - ops[i].old_start == ops[i].new_end - ops[i].new_start
            &&& old.subrange(ops[i].old_start as int, ops[i].old_end as int) == new.subrange(
                ops[i].new_start as int,
                ops[i].new_end as int,
            )
        }
}

/// How many lines of the old sequence lie under changing (non-`Equal`)
/// operations of `ops`.
pub open spec fn changed_old(ops: Seq<DiffRange>) -> int
    decreases ops.len(),
{
    if ops.len() == 0 {
        0
    } else {
        changed_old(ops.drop_last()) + if ops.last().tag == DiffTag::Equal {
            0
        } else {
            ops.last().old_end - ops.last().old_start
        }
    }
}

/// How many lines of the new sequence lie under changing (non-`Equal`)
/// operations of `ops`.
pub open spec fn changed_new(ops: Seq<DiffRange>) -> int
    decreases ops.len(),
{
    if ops.len() == 0 {
        0
    } else {
        changed_new(ops.drop_last()) + if ops.last().tag == DiffTag::Equal {
            0
        } else {
            ops.last().new_end - ops.last().new_start
        }
    }
}

/// `old` and `new` share their first `k` and their last `s` entries, and
/// these do not overlap on either side.
pub open spec fn common_ends<T>(old: Seq<T>, new: Seq<T>, k: int, s: int) -> bool {
    &&& 0 <= k
    &&& 0 <= s
    &&& k + s <= old.len()
    &&& k + s <= new.len()
    &&& old.take(k) == new.take(k)
    &&& old.skip(old.len() - s) == new.skip(new.len() - s)
}

/// `ops` changes no line of a common prefix and suffix of `old` and `new`:
/// on each side, the lines under changing operations number at most that
/// side's length less any common prefix and suffix.
pub open spec fn trims_common_ends<T>(ops: Seq<DiffRange>, old: Seq<T>, new: Seq<T>) -> bool {
    forall|k: int, s: int|
        #[trigger] common_ends(old, new, k, s) ==> changed_old(ops) <= old.len() - k - s && changed_new(ops)
            <= new.len() - k - s
}

/// Every operation of `ops` is `Equal`.
pub open spec fn all_equal(ops: Seq<DiffRange>) -> bool {
    forall|i: int| 0 <= i < ops.len() ==> (#[trigger] ops[i]).tag == DiffTag::Equal
}

/// The edit script that `similar`'s Myers diff (no deadline) computes
/// between two character sequences.
pub uninterp spec fn char_diff(old: Seq<char>, new: Seq<char>) -> Seq<DiffRange>;

#[verifier::external_type_specification]
#[verifier::external_body]
pub struct ExInstant(Instant);

/// `std::time::Instant::now`: the current time; nothing is claimed of it.
#[verifier::external_body]
pub(crate) fn clock_now() -> Instant {
    Instant::now()
}

/// `std::time::Duration::from_millis`: a span of `ms` milliseconds; nothing
/// is claimed of it.
#[verifier::external_body]
pub(crate) fn millis(ms: u64) -> Duration {
    Duration::from_millis(ms)
}

/// `std::time::Instant::checked_add`: `start` moved on by `span`, or `None`
/// where that cannot be represented; nothing is claimed of the result.
#[verifier::external_body]
pub(crate) fn clock_after(start: Instant, span: Duration) -> Option<Instant> {
    start.checked_add(span)
}

/// `similar::capture_diff_slices_deadline` with the Myers algorithm, each
/// operation turned into a `DiffRange`. Claimed: the result is an edit script
/// from `old` to `new` (the crate documents that `Equal` ranges are equal and
/// the operations cover both sequences in order; past the deadline it falls
/// back to coarser but still complete scripts). Also claimed, whatever the
/// deadline: the crate first emits the longest common prefix and then the
/// longest common suffix of what is left as `Equal`, and searches only the
/// middle; its compaction slides and merges changed hunks without changing
/// their sizes. So the changed lines on each side are at most that side's
/// length less any common prefix and suffix, and equal line sequences give
/// `Equal` operations only. Which script comes back otherwise depends on
/// the clock and is not stated.
#[verifier::external_body]
pub(crate) fn line_diff(old: &Vec<Vec<char>>, new: &Vec<Vec<char>>, deadline: Option<Instant>) -> (ops:
    Vec<DiffRange>)
    ensures
        is_alignment(ops@, lines_view(old), lines_view(new)),
        trims_common_ends(ops@, lines_view(old), lines_view(new)),
        lines_view(old) == lines_view(new) ==> all_equal(ops@),
{
    let mut out = Vec::new();
    for op in similar::capture_diff_slices_deadline(similar::Algorithm::Myers, old, new, deadline) {
        let (tag, o, n) = op.as_tag_tuple();
        let tag = match tag {
            similar::DiffTag::Equal => DiffTag::Equal,
            similar::DiffTag::Delete => DiffTag::Delete,
            similar::DiffTag::Insert => DiffTag::Insert,
            similar::DiffTag::Replace => DiffTag::Replace,
        };
        out.push(DiffRange { tag, old_start: o.start, old_end: o.end, new_start: n.start, new_end: n.end });
    }
    out
}

/// `similar::capture_diff_slices` with the Myers algorithm on two character
/// sequences, each operation turned into a `DiffRange`. Claimed: the result
/// is `char_diff(old, new)` (it depends on the two sequences alone: the
/// crate's per-process hash keys only bucket candidates, which are then
/// compared by equality) and it is an edit script from `old` to `new`.
#[verifier::external_body]
pub(crate) fn char_diff_ops(old: &Vec<char>, new: &Vec<char>) -> (ops: Vec<DiffRange>)
    ensures
        ops@ == char_diff(old@, new@),
        is_alignment(ops@, old@, new@),
{
    let mut out = Vec::new();
    for op in similar::capture_diff_slices(similar::Algorithm::Myers, old, new) {
        let (tag, o, n) = op.as_tag_tuple();
        let tag = match tag {
            similar::DiffTag::Equal => DiffTag::Equal,
            similar::DiffTag::Delete => DiffTag::Delete,
            similar::DiffTag::Insert => DiffTag::Insert,
            similar::DiffTag::Replace => DiffTag::Replace,
        };
        out.push(DiffRange { tag, old_start: o.start, old_end: o.end, new_start: n.start, new_end: n.end });
    }
    out
}

/// A changed stretch of an edit script: `base[base_start..base_end]` became
/// `side[side_start..side_end]`.
#[derive(Clone, Copy, Debug, PartialEq, Eq, Structural)]
pub struct Seg {
    pub base_start: usize,
    pub base_end: usize,
    pub side_start: usize,
    pub side_end: usize,
}

pub open spec fn seg_of(op: DiffRange) -> Seg {
    Seg {
        base_start: op.old_start,
        base_end: op.old_end,
        side_start: op.new_start,
        side_end: op.new_end,
    }
}

/// The non-`Equal` operations of `ops`, in order.
pub open spec fn segs_of(ops: Seq<DiffRange>) -> Seq<Seg>
    decreases ops.len(),
{
    if ops.len() == 0 {
        Seq::empty()
    } else {
        let p = segs_of(ops.drop_last());
        if ops.last().tag == DiffTag::Equal {
            p
        } else {
            p.push(seg_of(ops.last()))
        }
    }
}

/// How many lines a changed stretch adds (negative: removes).
pub open spec fn seg_delta(s: Seg) -> int {
    (s.side_end - s.side_start) - (s.base_end - s.base_start)
}

/// Net line offset of the first `k` changed stretches.
pub open spec fn prefix_delta(segs: Seq<Seg>, k: int) -> int
    decreases k,
{
    if k <= 0 {
        0
    } else {
        prefix_delta(segs, k - 1) + seg_delta(segs[k - 1])
    }
}

/// Start of the unchanged region before stretch `k` (after stretch `k - 1`).
pub open spec fn region_lo(segs: Seq<Seg>, k: int) -> int {
    if k == 0 {
        0
    } else {
        segs[k - 1].base_end as int
    }
}

/// End of the unchanged region before stretch `k`; `n` closes the last one.
pub open spec fn region_hi(segs: Seq<Seg>, k: int, n: int) -> int {
    if k == segs.len() {
        n
    } else {
        segs[k].base_start as int
    }
}

/// What an edit script from `old` to `new` tells about its changed stretches:
/// they are well formed and in order on both sides, each starts on the side
/// where the unchanged lines before it put it, and between them `old` and
/// `new` agree line for line, shifted by the offset of the stretches before.
pub open spec fn segs_structured<T>(segs: Seq<Seg>, old: Seq<T>, new: Seq<T>) -> bool {
    &&& forall|k: int|
        0 <= k < segs.len() ==> {
            &&& (#[trigger] segs[k]).base_start <= segs[k].base_end <= old.len()
            &&& segs[k].side_start <= segs[k].side_end <= new.len()
        }
    &&& forall|k: int|
        0 <= k < segs.len() ==> segs[k].side_start == segs[k].base_start + #[trigger] prefix_delta(segs, k)
    &&& forall|k: int, l: int|
        0 <= k < l < segs.len() ==> (#[trigger] segs[k]).base_end <= (#[trigger] segs[l]).base_start
            && segs[k].side_end <= segs[l].side_start
    &&& old.len() + prefix_delta(segs, segs.len() as int) == new.len()
    &&& forall|k: int, x: int|
        0 <= k <= segs.len() && region_lo(segs, k) <= x < region_hi(segs, k, old.len() as int)
            ==> #[trigger] old[x] == new[x + #[trigger] prefix_delta(segs, k)]
}

/// Every edit script has structured changed stretches.
/// An edit script of `Equal` operations only has no changed stretch.
pub proof fn lemma_equal_no_segs(ops: Seq<DiffRange>)
    requires
        all_equal(ops),
    ensures
        segs_of(ops).len() == 0,
    decreases ops.len(),
{
    if ops.len() > 0 {
        let p = ops.drop_last();
        assert forall|i: int| 0 <= i < p.len() implies (#[trigger] p[i]).tag == DiffTag::Equal by {
            assert(p[i] == ops[i]);
        }
        lemma_equal_no_segs(p);
        assert(ops[ops.len() - 1].tag == DiffTag::Equal);
    }
}

pub proof fn lemma_alignment_segs<T>(ops: Seq<DiffRange>, old: Seq<T>, new: Seq<T>)
    requires
        is_alignment(ops, old, new),
    ensures
        segs_structured(segs_of(ops), old, new),
{
    lemma_prefix_all(ops, old, new, ops.len() as int);
    assert(ops.take(ops.len() as int) =~= ops);
}

proof fn lemma_prefix_all<T>(ops: Seq<DiffRange>, old: Seq<T>, new: Seq<T>, i: int)
    requires
        is_alignment(ops, old, new),
        0 <= i <= ops.len(),
    ensures
        prefix_structured(segs_of(ops.take(i)), old, new, cursor_old(ops, i), cursor_new(ops, i)),
    decreases i,
{
    if i == 0 {
        assert(ops.take(0) =~= Seq::<DiffRange>::empty());
        assert(segs_of(ops.take(0)) =~= Seq::<Seg>::empty());
    } else {
        lemma_prefix_all(ops, old, new, i - 1);
        lemma_prefix_step(ops, old, new, i - 1);
    }
}

/// Position in `old` reached after the first `i` operations.
pub open spec fn cursor_old(ops: Seq<DiffRange>, i: int) -> int {
    if i == 0 {
        0
    } else {
        ops[i - 1].old_end as int
    }
}

/// Position in `new` reached after the first `i` operations.
pub open spec fn cursor_new(ops: Seq<DiffRange>, i: int) -> int {
    if i == 0 {
        0
    } else {
        ops[i - 1].new_end as int
    }
}

/// `segs_structured`, for an edit script that has so far reached `co` in
/// `old` and `cn` in `new`.
pub open spec fn prefix_structured<T>(segs: Seq<Seg>, old: Seq<T>, new: Seq<T>, co: int, cn: int) -> bool {
    &&& co <= old.len()
    &&& cn <= new.len()
    &&& forall|k: int|
        0 <= k < segs.len() ==> {
            &&& (#[trigger] segs[k]).base_start <= segs[k].base_end <= co
            &&& segs[k].side_start <= segs[k].side_end <= cn
        }
    &&& forall|k: int|
        0 <= k < segs.len() ==> segs[k].side_start == segs[k].base_start + #[trigger] prefix_delta(segs, k)
    &&& forall|k: int, l: int|
        0 <= k < l < segs.len() ==> (#[trigger] segs[k]).base_end <= (#[trigger] segs[l]).base_start
            && segs[k].side_end <= segs[l].side_start
    &&& co + prefix_delta(segs, segs.len() as int) == cn
    &&& forall|k: int, x: int|
        0 <= k <= segs.len() && region_lo(segs, k) <= x < region_hi(segs, k, co) ==> #[trigger] old[x]
            == new[x + #[trigger] prefix_delta(segs, k)]
}

proof fn lemma_prefix_delta_push(segs: Seq<Seg>, s: Seg, k: int)
    requires
        0 <= k <= segs.len(),
    ensures
        prefix_delta(segs.push(s), k) == prefix_delta(segs, k),
    decreases k,
{
    if k > 0 {
        lemma_prefix_delta_push(segs, s, k - 1);
    }
}

proof fn lemma_prefix_step<T>(ops: Seq<DiffRange>, old: Seq<T>, new: Seq<T>, i: int)
    requires
        is_alignment(ops, old, new),
        0 <= i < ops.len(),
        prefix_structured(segs_of(ops.take(i)), old, new, cursor_old(ops, i), cursor_new(ops, i)),
    ensures
        prefix_structured(
            segs_of(ops.take(i + 1)),
            old,
            new,
            cursor_old(ops, i + 1),
            cursor_new(ops, i + 1),
        ),
{
    let segs = segs_of(ops.take(i));
    let op = ops[i];
    let co = cursor_old(ops, i);
    let cn = cursor_new(ops, i);
    assert(ops.take(i + 1).drop_last() =~= ops.take(i));
    assert(ops.take(i + 1).last() == op);
    assert(op.old_start == co && op.new_start == cn) by {
        if i > 0 {
            assert(ops[i].old_start == ops[i - 1].old_end);
        }
    }
    assert(op.old_end <= old.len() && op.new_end <= new.len()) by {
        lemma_cursor_bound(ops, old, new, i + 1);
    }
    assert(op.old_start <= op.old_end && op.new_start <= op.new_end);
    if op.tag == DiffTag::Equal {
        assert(segs_of(ops.take(i + 1)) == segs);
        lemma_equal_step(segs, old, new, op);
    } else {
        assert(segs_of(ops.take(i + 1)) == segs.push(seg_of(op)));
        lemma_change_step(segs, old, new, op);
    }
}

proof fn lemma_equal_step<T>(segs: Seq<Seg>, old: Seq<T>, new: Seq<T>, op: DiffRange)
    requires
        prefix_structured(segs, old, new, op.old_start as int, op.new_start as int),
        op.old_start <= op.old_end <= old.len(),
        op.new_start <= op.new_end <= new.len(),
        op.old_end - op.old_start == op.new_end - op.new_start,
        old.subrange(op.old_start as int, op.old_end as int) == new.subrange(
            op.new_start as int,
            op.new_end as int,
        ),
    ensures
        prefix_structured(segs, old, new, op.old_end as int, op.new_end as int),
{
    let n = segs.len() as int;
    let co = op.old_start as int;
    assert forall|k: int, x: int|
        0 <= k <= segs.len() && region_lo(segs, k) <= x < region_hi(segs, k, op.old_end as int)
            implies #[trigger] old[x] == new[x + #[trigger] prefix_delta(segs, k)] by {
        if k == n && x >= co {
            let j = x - co;
            assert(old.subrange(co, op.old_end as int)[j] == old[x]);
            assert(new.subrange(op.new_start as int, op.new_end as int)[j] == new[op.new_start
                + j]);
        } else {
            assert(region_hi(segs, k, op.old_end as int) == region_hi(segs, k, co) || x < co);
        }
    }
}

proof fn lemma_change_step<T>(segs: Seq<Seg>, old: Seq<T>, new: Seq<T>, op: DiffRange)
    requires
        prefix_structured(segs, old, new, op.old_start as int, op.new_start as int),
        op.old_start <= op.old_end <= old.len(),
        op.new_start <= op.new_end <= new.len(),
    ensures
        prefix_structured(segs.push(seg_of(op)), old, new, op.old_end as int, op.new_end as int),
{
    let s = seg_of(op);
    let segs2 = segs.push(s);
    let n = segs.len() as int;
    let co = op.old_start as int;
    assert forall|k: int| 0 <= k <= n implies prefix_delta(segs2, k) == prefix_delta(segs, k) by {
        lemma_prefix_delta_push(segs, s, k);
    }
    assert(prefix_delta(segs2, n + 1) == prefix_delta(segs, n) + seg_delta(s));
    assert forall|k: int|
        0 <= k < segs2.len() implies {
            &&& (#[trigger] segs2[k]).base_start <= segs2[k].base_end <= op.old_end
            &&& segs2[k].side_start <= segs2[k].side_end <= op.new_end
            &&& segs2[k].side_start == segs2[k].base_start + prefix_delta(segs2, k)
        } by {
        if k < n {
            assert(segs2[k] == segs[k]);
        }
    }
    assert forall|k: int, l: int|
        0 <= k < l < segs2.len() implies (#[trigger] segs2[k]).base_end <= (
        #[trigger] segs2[l]).base_start && segs2[k].side_end <= segs2[l].side_start by {
        assert(segs2[k] == segs[k]);
        if l < n {
            assert(segs2[l] == segs[l]);
        }
    }
    assert forall|k: int, x: int|
        0 <= k <= segs2.len() && region_lo(segs2, k) <= x < region_hi(segs2, k, op.old_end as int)
            implies #[trigger] old[x] == new[x + #[trigger] prefix_delta(segs2, k)] by {
        if k <= n {
            if k > 0 {
                assert(segs2[k - 1] == segs[k - 1]);
            }
            if k < n {
                assert(segs2[k] == segs[k]);
            }
            assert(region_lo(segs2, k) == region_lo(segs, k));
            assert(region_hi(segs2, k, op.old_end as int) == region_hi(segs, k, co));
            assert(old[x] == new[x + prefix_delta(segs, k)]);
        } else {
            assert(region_lo(segs2, k) == op.old_end);
        }
    }
}

/// Every operation of an edit script stays within both sequences.
pub proof fn lemma_op_bounds<T>(ops: Seq<DiffRange>, old: Seq<T>, new: Seq<T>, i: int)
    requires
        is_alignment(ops, old, new),
        0 <= i < ops.len(),
    ensures
        ops[i].old_start <= ops[i].old_end <= old.len(),
        ops[i].new_start <= ops[i].new_end <= new.len(),
{
    lemma_cursor_bound(ops, old, new, i + 1);
}

proof fn lemma_cursor_bound<T>(ops: Seq<DiffRange>, old: Seq<T>, new: Seq<T>, i: int)
    requires
        is_alignment(ops, old, new),
        0 <= i <= ops.len(),
    ensures
        cursor_old(ops, i) <= old.len(),
        cursor_new(ops, i) <= new.len(),
    decreases ops.len() - i,
{
    if i < ops.len() && i > 0 {
        lemma_cursor_bound(ops, old, new, i + 1);
        assert(ops[i].old_start == ops[i - 1].old_end);
        assert(ops[i].old_start <= ops[i].old_end);
    }
}

} // verus!
