//! Three-way merge chunking engine: two line-level diffs against the base
//! (Myers via `similar`, deadline-guarded) are grouped by base-range
//! collision. Pure logic, no git, no UI. Deliberately conservative: one
//! conflict too many beats a silently wrong merge.

use vstd::prelude::*;

use crate::cluster::{
    clusters, flag_of, lemma_spans, side_flag, segs_end_by, segs_sorted, side_before, side_within, sp_sep, spans_bounded, spans_facts, spans_of, Span,
};
use crate::diff::{
    all_equal, trims_common_ends, clock_after, clock_now, millis, is_alignment, lemma_equal_no_segs, lemma_alignment_segs, line_diff, prefix_delta, seg_delta, seg_of, segs_of, segs_structured, DiffRange, DiffTag, Seg,
};
use crate::emphasis::{chars_equal, emphasis, emphasis_spec, has_row, rows_within, short_differing};
use crate::text::{lines_of, lines_view, split_lines};

verus! {

/// Time budget of one line-level diff, in milliseconds; past it the diff
/// falls back to a coarser script.
pub const DIFF_DEADLINE_MS: u64 = 500;

/// A side larger than this many bytes degrades to one whole-file conflict.
pub const MAX_DIFF_BYTES: usize = 2097152;

/// Word emphasis is computed only for chunks of at most this many lines.
pub const MAX_EMPHASIS_LINES: usize = 200;

/// Word emphasis compares only lines of at most this many characters.
pub const MAX_EMPHASIS_LINE_CHARS: usize = 1000;

/// Which side a chunk comes from.
#[derive(Clone, Copy, Debug, PartialEq, Eq, Structural)]
pub enum ChunkKind {
    /// Only our side changed.
    Ours,
    /// Only their side changed.
    Theirs,
    /// Both sides changed, to the same lines.
    Agree,
    /// Both sides changed, differently.
    Conflict,
}

/// How a chunk is coloured.
#[derive(Clone, Copy, Debug, PartialEq, Eq, Structural)]
pub enum ChunkVisual {
    /// Lines added where the base had none.
    Added,
    /// Lines removed: the changed side is empty.
    Deleted,
    /// Lines changed.
    Modified,
    /// A collision of both sides.
    Conflict,
}

/// One chunk of the snapshot. Line ranges are `[start, end)` over the text
/// split at every `'\n'`.
#[derive(Clone, Debug)]
pub struct ChunkView {
    /// Index, from 0 in base order.
    pub id: usize,
    /// Which side the chunk comes from.
    pub kind: ChunkKind,
    /// How it is coloured.
    pub visual: ChunkVisual,
    /// Lines in the left pane (ours).
    pub left_range: [usize; 2],
    /// Lines in the middle pane (result, initially the base).
    pub result_range: [usize; 2],
    /// Lines in the right pane (theirs).
    pub right_range: [usize; 2],
    /// Left-pane word emphasis: `[line within the chunk, UTF-16 start, UTF-16 end]`.
    pub left_emphasis: Vec<[u32; 3]>,
    /// Right-pane word emphasis.
    pub right_emphasis: Vec<[u32; 3]>,
}

/// The three-pane snapshot of one conflicted file.
#[derive(Debug)]
pub struct MergeSnapshot {
    /// Path of the file, relative to the repository root.
    pub path: String,
    /// Left pane text (ours).
    pub left: String,
    /// Middle pane initial text (the base).
    pub result: String,
    /// Right pane text (theirs).
    pub right: String,
    /// All chunks, in base order.
    pub chunks: Vec<ChunkView>,
    /// Number of changes (chunks).
    pub changes: usize,
    /// Number of conflicts.
    pub conflicts: usize,
}

/// What a chunk is, with its line ranges as pairs.
pub struct ChunkModel {
    pub id: int,
    pub kind: ChunkKind,
    pub visual: ChunkVisual,
    pub left: (int, int),
    pub result: (int, int),
    pub right: (int, int),
    pub left_emphasis: Seq<[u32; 3]>,
    pub right_emphasis: Seq<[u32; 3]>,
}

impl View for ChunkView {
    type V = ChunkModel;

    open spec fn view(&self) -> ChunkModel {
        ChunkModel {
            id: self.id as int,
            kind: self.kind,
            visual: self.visual,
            left: (self.left_range[0] as int, self.left_range[1] as int),
            result: (self.result_range[0] as int, self.result_range[1] as int),
            right: (self.right_range[0] as int, self.right_range[1] as int),
            left_emphasis: self.left_emphasis@,
            right_emphasis: self.right_emphasis@,
        }
    }
}

/// What a snapshot is.
pub struct SnapshotModel {
    pub path: Seq<char>,
    pub left: Seq<char>,
    pub result: Seq<char>,
    pub right: Seq<char>,
    pub chunks: Seq<ChunkModel>,
    pub changes: int,
    pub conflicts: int,
}

impl View for MergeSnapshot {
    type V = SnapshotModel;

    open spec fn view(&self) -> SnapshotModel {
        SnapshotModel {
            path: self.path@,
            left: self.left@,
            result: self.result@,
            right: self.right@,
            chunks: self.chunks@.map_values(|c: ChunkView| c@),
            changes: self.changes as int,
            conflicts: self.conflicts as int,
        }
    }
}

// ---------------------------------------------------------------------------
// Chunk line ranges

/// How many stretches start before base line `x`.
pub open spec fn count_lt(segs: Seq<Seg>, x: int) -> int
    decreases segs.len(),
{
    if segs.len() == 0 {
        0
    } else {
        count_lt(segs.drop_last(), x) + if segs.last().base_start < x {
            1int
        } else {
            0
        }
    }
}

/// How many stretches start at or before base line `x`.
pub open spec fn count_le(segs: Seq<Seg>, x: int) -> int
    decreases segs.len(),
{
    if segs.len() == 0 {
        0
    } else {
        count_le(segs.drop_last(), x) + if segs.last().base_start <= x {
            1int
        } else {
            0
        }
    }
}

/// The lines of one side that a cluster covers: its base range shifted by
/// the net offset of that side's stretches before it (for the start) and up
/// to its end (for the end).
pub open spec fn side_range(segs: Seq<Seg>, sp: Span) -> (int, int) {
    (
        sp.start + prefix_delta(segs, count_lt(segs, sp.start as int)),
        sp.end + prefix_delta(segs, count_le(segs, sp.end as int)),
    )
}

/// Only one side changed: that side; both changed: agree or conflict by
/// whether they changed to the same lines.
pub open spec fn kind_spec(sp: Span, ours: Seq<Seq<char>>, theirs: Seq<Seq<char>>) -> ChunkKind {
    if sp.has_a && sp.has_b {
        if ours == theirs {
            ChunkKind::Agree
        } else {
            ChunkKind::Conflict
        }
    } else if sp.has_a {
        ChunkKind::Ours
    } else {
        ChunkKind::Theirs
    }
}

/// Conflicts are red; otherwise an empty changed side is a deletion, an
/// empty base range an addition, anything else a modification.
pub open spec fn visual_spec(kind: ChunkKind, sp: Span, left: (int, int), right: (int, int)) -> ChunkVisual {
    if kind == ChunkKind::Conflict {
        ChunkVisual::Conflict
    } else {
        let side_len = if kind == ChunkKind::Theirs {
            right.1 - right.0
        } else {
            left.1 - left.0
        };
        if side_len == 0 {
            ChunkVisual::Deleted
        } else if sp.end == sp.start {
            ChunkVisual::Added
        } else {
            ChunkVisual::Modified
        }
    }
}

// ---------------------------------------------------------------------------
// Chunks and snapshot

/// The chunk of cluster `sp`, numbered `id`.
pub open spec fn chunk_spec(
    id: int,
    sp: Span,
    b: Seq<Seq<char>>,
    o: Seq<Seq<char>>,
    t: Seq<Seq<char>>,
    sa: Seq<Seg>,
    sb: Seq<Seg>,
) -> ChunkModel {
    let l = side_range(sa, sp);
    let r = side_range(sb, sp);
    let ol = o.subrange(l.0, l.1);
    let tl = t.subrange(r.0, r.1);
    let bl = b.subrange(sp.start as int, sp.end as int);
    let kind = kind_spec(sp, ol, tl);
    let e = emphasis_spec(kind, bl, ol, tl);
    ChunkModel {
        id,
        kind,
        visual: visual_spec(kind, sp, l, r),
        left: l,
        result: (sp.start as int, sp.end as int),
        right: r,
        left_emphasis: e.0,
        right_emphasis: e.1,
    }
}

/// The chunks of base lines `b`, our lines `o` and their lines `t`, given
/// the edit scripts `ops_a` (base to ours) and `ops_b` (base to theirs).
pub open spec fn spec_chunks(
    b: Seq<Seq<char>>,
    o: Seq<Seq<char>>,
    t: Seq<Seq<char>>,
    ops_a: Seq<DiffRange>,
    ops_b: Seq<DiffRange>,
) -> Seq<ChunkModel> {
    let sa = segs_of(ops_a);
    let sb = segs_of(ops_b);
    let spans = spans_of(sa, sb);
    Seq::new(spans.len(), |i: int| chunk_spec(i, spans[i], b, o, t, sa, sb))
}

/// The single chunk of a file too large to diff: everything conflicts.
pub open spec fn whole_file_chunk(b: Seq<Seq<char>>, o: Seq<Seq<char>>, t: Seq<Seq<char>>) -> ChunkModel {
    ChunkModel {
        id: 0,
        kind: ChunkKind::Conflict,
        visual: ChunkVisual::Conflict,
        left: (0, o.len() as int),
        result: (0, b.len() as int),
        right: (0, t.len() as int),
        left_emphasis: Seq::empty(),
        right_emphasis: Seq::empty(),
    }
}

/// A chunk's word emphasis is well formed: every row names a line of that
/// pane's part of the chunk and a non-empty UTF-16 range within that line.
pub open spec fn emphasis_within(c: ChunkModel, o: Seq<Seq<char>>, t: Seq<Seq<char>>) -> bool {
    &&& rows_within(c.left_emphasis, o.subrange(c.left.0, c.left.1))
    &&& rows_within(c.right_emphasis, t.subrange(c.right.0, c.right.1))
}

/// A conflict chunk of at most `MAX_EMPHASIS_LINES` lines per side
/// emphasises every pair of differing short lines on one side or the other.
pub open spec fn conflict_rows_present(c: ChunkModel, o: Seq<Seq<char>>, t: Seq<Seq<char>>) -> bool {
    c.kind == ChunkKind::Conflict && c.left.1 - c.left.0 <= MAX_EMPHASIS_LINES && c.right.1 - c.right.0
        <= MAX_EMPHASIS_LINES ==> forall|j: int|
        0 <= j < c.left.1 - c.left.0 && j < c.right.1 - c.right.0 && #[trigger] short_differing(
            o[c.left.0 + j],
            t[c.right.0 + j],
        ) ==> has_row(c.left_emphasis, j) || has_row(c.right_emphasis, j)
}

/// Every conflict chunk of a snapshot emphasises its differing short lines
/// (see `conflict_rows_present`).
pub open spec fn snapshot_conflicts_emphasised(s: SnapshotModel) -> bool {
    forall|i: int|
        0 <= i < s.chunks.len() ==> #[trigger] conflict_rows_present(
            s.chunks[i],
            split_lines(s.left),
            split_lines(s.right),
        )
}

/// Every chunk of a snapshot has well-formed word emphasis.
pub open spec fn snapshot_emphasis_ok(s: SnapshotModel) -> bool {
    forall|i: int|
        0 <= i < s.chunks.len() ==> #[trigger] emphasis_within(s.chunks[i], split_lines(s.left), split_lines(s.right))
}

/// How many chunks conflict.
pub open spec fn count_conflicts(chunks: Seq<ChunkModel>) -> int
    decreases chunks.len(),
{
    if chunks.len() == 0 {
        0
    } else {
        count_conflicts(chunks.drop_last()) + if chunks.last().kind == ChunkKind::Conflict {
            1int
        } else {
            0
        }
    }
}

/// A snapshot of the given texts with the given chunks.
pub open spec fn snapshot_spec(
    path: Seq<char>,
    base: Seq<char>,
    ours: Seq<char>,
    theirs: Seq<char>,
    chunks: Seq<ChunkModel>,
) -> SnapshotModel {
    SnapshotModel {
        path,
        left: ours,
        result: base,
        right: theirs,
        chunks,
        changes: chunks.len() as int,
        conflicts: count_conflicts(chunks),
    }
}

/// Some side is larger than `MAX_DIFF_BYTES` bytes (UTF-8).
pub open spec fn oversized(base: &str, ours: &str, theirs: &str) -> bool {
    base.len() > MAX_DIFF_BYTES || ours.len() > MAX_DIFF_BYTES || theirs.len() > MAX_DIFF_BYTES
}

/// `a` and `b` are edit scripts from the base lines to our lines and to
/// their lines.
pub open spec fn valid_diffs(
    base: Seq<char>,
    ours: Seq<char>,
    theirs: Seq<char>,
    a: Seq<DiffRange>,
    b: Seq<DiffRange>,
) -> bool {
    &&& is_alignment(a, split_lines(base), split_lines(ours))
    &&& is_alignment(b, split_lines(base), split_lines(theirs))
}

/// The snapshot of the texts chunked along the edit scripts `a` and `b`.
pub open spec fn diffs_snapshot(
    path: Seq<char>,
    base: Seq<char>,
    ours: Seq<char>,
    theirs: Seq<char>,
    a: Seq<DiffRange>,
    b: Seq<DiffRange>,
) -> SnapshotModel {
    snapshot_spec(
        path,
        base,
        ours,
        theirs,
        spec_chunks(split_lines(base), split_lines(ours), split_lines(theirs), a, b),
    )
}

/// The snapshot of a file too large to diff.
pub open spec fn oversized_snapshot(
    path: Seq<char>,
    base: Seq<char>,
    ours: Seq<char>,
    theirs: Seq<char>,
) -> SnapshotModel {
    snapshot_spec(
        path,
        base,
        ours,
        theirs,
        seq![whole_file_chunk(split_lines(base), split_lines(ours), split_lines(theirs))],
    )
}

// ---------------------------------------------------------------------------
// Computing the chunks

/// The changed stretches of an edit script.
pub fn segments(ops: &Vec<DiffRange>) -> (out: Vec<Seg>)
    ensures
        out@ == segs_of(ops@),
{
    let mut out: Vec<Seg> = Vec::new();
    let mut i: usize = 0;
    while i < ops.len()
        invariant
            i <= ops.len(),
            out@ == segs_of(ops@.take(i as int)),
        decreases ops.len() - i,
    {
        let op = ops[i];
        proof {
            assert(ops@.take(i + 1).drop_last() =~= ops@.take(i as int));
            assert(ops@.take(i + 1).last() == op);
        }
        if op.tag != DiffTag::Equal {
            out.push(Seg {
                base_start: op.old_start,
                base_end: op.old_end,
                side_start: op.new_start,
                side_end: op.new_end,
            });
            proof {
                assert(seg_of(op) == out@.last());
            }
        }
        i = i + 1;
    }
    proof {
        assert(ops@.take(ops@.len() as int) =~= ops@);
    }
    out
}

/// `count_lt` is the number of stretches that start before `x`, whatever
/// their order.
pub proof fn lemma_count_lt(segs: Seq<Seg>, x: int, k: int)
    requires
        0 <= k <= segs.len(),
        forall|j: int| 0 <= j < segs.len() ==> ((#[trigger] segs[j]).base_start < x <==> j < k),
    ensures
        count_lt(segs, x) == k,
    decreases segs.len(),
{
    if segs.len() > 0 {
        let p = segs.drop_last();
        let n = segs.len() - 1;
        assert(segs[n] == segs.last());
        let k2 = if k == segs.len() { k - 1 } else { k };
        assert forall|j: int| 0 <= j < p.len() implies ((#[trigger] p[j]).base_start < x <==> j < k2) by {
            assert(p[j] == segs[j]);
        }
        lemma_count_lt(p, x, k2);
    }
}

/// `count_le` is the number of stretches that start at or before `x`.
pub proof fn lemma_count_le(segs: Seq<Seg>, x: int, k: int)
    requires
        0 <= k <= segs.len(),
        forall|j: int| 0 <= j < segs.len() ==> ((#[trigger] segs[j]).base_start <= x <==> j < k),
    ensures
        count_le(segs, x) == k,
    decreases segs.len(),
{
    if segs.len() > 0 {
        let p = segs.drop_last();
        let n = segs.len() - 1;
        assert(segs[n] == segs.last());
        let k2 = if k == segs.len() { k - 1 } else { k };
        assert forall|j: int| 0 <= j < p.len() implies ((#[trigger] p[j]).base_start <= x <==> j < k2) by {
            assert(p[j] == segs[j]);
        }
        lemma_count_le(p, x, k2);
    }
}

/// Stretch `s` starts before `x` (`strict`) or at or before it.
pub open spec fn starts_by(s: Seg, x: usize, strict: bool) -> bool {
    if strict {
        s.base_start < x
    } else {
        s.base_start <= x
    }
}

fn starts_by_exec(s: &Seg, x: usize, strict: bool) -> (r: bool)
    ensures
        r == starts_by(*s, x, strict),
{
    if strict {
        s.base_start < x
    } else {
        s.base_start <= x
    }
}

/// Moves `k` past the stretches that start before `x` (`strict`) or at or
/// before it.
fn advance(segs: &Vec<Seg>, k: usize, x: usize, strict: bool) -> (r: usize)
    requires
        segs_sorted(segs@),
        k <= segs.len(),
        forall|j: int| 0 <= j < k ==> starts_by(#[trigger] segs@[j], x, strict),
    ensures
        k <= r <= segs.len(),
        forall|j: int| 0 <= j < segs.len() ==> (starts_by(#[trigger] segs@[j], x, strict) <==> j < r),
{
    let mut r = k;
    while r < segs.len() && starts_by_exec(&segs[r], x, strict)
        invariant
            segs_sorted(segs@),
            k <= r <= segs.len(),
            forall|j: int| 0 <= j < r ==> starts_by(#[trigger] segs@[j], x, strict),
        decreases segs.len() - r,
    {
        r = r + 1;
    }
    assert forall|j: int| 0 <= j < segs.len() && j >= r implies !starts_by(#[trigger] segs@[j], x, strict) by {
        assert(segs@[r as int].base_start <= segs@[j].base_start);
    }
    r
}

/// Base line `x` lies in the unchanged region before stretch `k`.
pub open spec fn in_region(segs: Seq<Seg>, k: int, x: int, n: int) -> bool {
    &&& 0 <= k <= segs.len()
    &&& 0 <= x
    &&& k > 0 ==> segs[k - 1].base_end <= x
    &&& k < segs.len() ==> x <= segs[k].base_start
    &&& k == segs.len() ==> x <= n
}

/// A base position in an unchanged region maps into the side, and can be
/// found from the stretch before it.
pub proof fn lemma_region_pos<T>(segs: Seq<Seg>, old: Seq<T>, new: Seq<T>, k: int, x: int)
    requires
        segs_structured(segs, old, new),
        in_region(segs, k, x, old.len() as int),
    ensures
        0 <= x + prefix_delta(segs, k) <= new.len(),
        k > 0 ==> x + prefix_delta(segs, k) == segs[k - 1].side_end + (x - segs[k - 1].base_end),
        k < segs.len() ==> x + prefix_delta(segs, k) <= segs[k].side_start,
{
    if k > 0 {
        assert(segs[k - 1].side_start == segs[k - 1].base_start + prefix_delta(segs, k - 1));
        assert(prefix_delta(segs, k) == prefix_delta(segs, k - 1) + seg_delta(segs[k - 1]));
    }
    if k < segs.len() {
        assert(segs[k].side_start == segs[k].base_start + prefix_delta(segs, k));
    }
}

/// Mapping unchanged positions to a side keeps their order.
pub proof fn lemma_region_mono<T>(segs: Seq<Seg>, old: Seq<T>, new: Seq<T>, k0: int, x0: int, k1: int, x1: int)
    requires
        segs_structured(segs, old, new),
        in_region(segs, k0, x0, old.len() as int),
        in_region(segs, k1, x1, old.len() as int),
        k0 <= k1,
        x0 <= x1,
    ensures
        x0 + prefix_delta(segs, k0) <= x1 + prefix_delta(segs, k1),
{
    lemma_region_pos(segs, old, new, k0, x0);
    lemma_region_pos(segs, old, new, k1, x1);
    if k0 < k1 {
        assert(segs[k0].side_start <= segs[k0].side_end);
        if k0 < k1 - 1 {
            assert(segs[k0].side_end <= segs[k1 - 1].side_start);
            assert(segs[k1 - 1].side_start <= segs[k1 - 1].side_end);
        }
    }
}

/// The position on a side of base line `x`, in the unchanged region before
/// stretch `k`: `x + prefix_delta(segs, k)`.
fn side_pos(segs: &Vec<Seg>, k: usize, x: usize, base: &Vec<Vec<char>>, side: &Vec<Vec<char>>) -> (p: usize)
    requires
        segs_structured(segs@, lines_view(base), lines_view(side)),
        in_region(segs@, k as int, x as int, base.len() as int),
    ensures
        p == x + prefix_delta(segs@, k as int),
        p <= side.len(),
{
    proof {
        lemma_region_pos(segs@, lines_view(base), lines_view(side), k as int, x as int);
    }
    if k == 0 {
        x
    } else {
        assert(segs@[k - 1].side_end + (x - segs@[k - 1].base_end) <= side.len());
        segs[k - 1].side_end + (x - segs[k - 1].base_end)
    }
}

/// Whether `x[xlo..xhi]` and `y[ylo..yhi]` hold the same lines.
fn lines_equal(x: &Vec<Vec<char>>, xlo: usize, xhi: usize, y: &Vec<Vec<char>>, ylo: usize, yhi: usize) -> (r: bool)
    requires
        xlo <= xhi <= x.len(),
        ylo <= yhi <= y.len(),
    ensures
        r == (lines_view(x).subrange(xlo as int, xhi as int) == lines_view(y).subrange(
            ylo as int,
            yhi as int,
        )),
{
    let ghost xs = lines_view(x).subrange(xlo as int, xhi as int);
    let ghost ys = lines_view(y).subrange(ylo as int, yhi as int);
    if xhi - xlo != yhi - ylo {
        assert(xs.len() != ys.len());
        return false;
    }
    let n = xhi - xlo;
    let mut i: usize = 0;
    while i < n
        invariant
            n == xhi - xlo == yhi - ylo,
            xlo <= xhi <= x.len(),
            ylo <= yhi <= y.len(),
            xs == lines_view(x).subrange(xlo as int, xhi as int),
            ys == lines_view(y).subrange(ylo as int, yhi as int),
            i <= n,
            forall|j: int| 0 <= j < i ==> xs[j] == ys[j],
        decreases n - i,
    {
        if !chars_equal(&x[xlo + i], &y[ylo + i]) {
            proof {
                assert(xs[i as int] == x@[xlo + i]@);
                assert(ys[i as int] == y@[ylo + i]@);
            }
            return false;
        }
        proof {
            assert(xs[i as int] == x@[xlo + i]@);
            assert(ys[i as int] == y@[ylo + i]@);
        }
        i = i + 1;
    }
    assert(xs =~= ys);
    true
}

/// What is known while computing chunks: both sides' stretches come from
/// edit scripts and the clusters are theirs.
pub open spec fn chunk_ctx(
    b: Seq<Seq<char>>,
    o: Seq<Seq<char>>,
    t: Seq<Seq<char>>,
    sa: Seq<Seg>,
    sb: Seq<Seg>,
    spans: Seq<Span>,
) -> bool {
    &&& segs_structured(sa, b, o)
    &&& segs_structured(sb, b, t)
    &&& segs_sorted(sa)
    &&& segs_sorted(sb)
    &&& spans == spans_of(sa, sb)
    &&& spans_facts(sa, sb, spans, b.len() as int)
}

/// The line range on one side of cluster `sp`, moving the stretch cursor
/// `k` (all stretches before it end before `sp`) past the cluster.
fn chunk_side(
    segs: &Vec<Seg>,
    k: usize,
    sp: Span,
    base: &Vec<Vec<char>>,
    side: &Vec<Vec<char>>,
    Ghost(spans): Ghost<Seq<Span>>,
    Ghost(i): Ghost<int>,
    Ghost(from_a): Ghost<bool>,
) -> (r: (usize, usize, usize))
    requires
        segs_structured(segs@, lines_view(base), lines_view(side)),
        segs_sorted(segs@),
        side_before(segs@, spans),
        side_within(segs@, spans, from_a),
        spans_bounded(spans, base.len() as int),
        0 <= i < spans.len(),
        spans[i] == sp,
        k <= segs.len(),
        forall|j: int| 0 <= j < k ==> (#[trigger] segs@[j]).base_start < sp.start,
    ensures
        r.0 as int == side_range(segs@, sp).0,
        r.1 as int == side_range(segs@, sp).1,
        r.0 <= r.1 <= side.len(),
        k <= r.2 <= segs.len(),
        forall|j: int| 0 <= j < segs.len() ==> ((#[trigger] segs@[j]).base_start <= sp.end <==> j < r.2),
{
    proof {
        reveal(spans_bounded);
        reveal(side_before);
        reveal(side_within);
        assert(sp.start <= sp.end <= base.len());
    }
    assert forall|j: int| 0 <= j < k implies starts_by(#[trigger] segs@[j], sp.start, true) by {
        assert(segs@[j].base_start < sp.start);
    }
    let k0 = advance(segs, k, sp.start, true);
    proof {
        assert forall|j: int| 0 <= j < segs.len() implies ((#[trigger] segs@[j]).base_start < sp.start <==> j < k0) by {
            assert(starts_by(segs@[j], sp.start, true) == (segs@[j].base_start < sp.start));
        }
        lemma_count_lt(segs@, sp.start as int, k0 as int);
        if k0 > 0 {
            assert(segs@[k0 - 1].base_start < sp.start);
        }
    }
    let lo = side_pos(segs, k0, sp.start, base, side);
    assert forall|j: int| 0 <= j < k0 implies starts_by(#[trigger] segs@[j], sp.end, false) by {
        assert(segs@[j].base_start < sp.start);
    }
    let k1 = advance(segs, k0, sp.end, false);
    proof {
        assert forall|j: int| 0 <= j < segs.len() implies ((#[trigger] segs@[j]).base_start <= sp.end <==> j < k1) by {
            assert(starts_by(segs@[j], sp.end, false) == (segs@[j].base_start <= sp.end));
        }
        lemma_count_le(segs@, sp.end as int, k1 as int);
        if k1 > 0 {
            let j = k1 - 1;
            assert(segs@[j].base_start <= sp.end);
            if segs@[j].base_start >= sp.start {
                assert(spans[i].start <= segs@[j].base_start <= spans[i].end);
            } else {
                assert(segs@[j].base_start < spans[i].start);
            }
        }
    }
    let hi = side_pos(segs, k1, sp.end, base, side);
    proof {
        lemma_region_mono(segs@, lines_view(base), lines_view(side), k0 as int, sp.start as int, k1 as int, sp.end as int);
    }
    (lo, hi, k1)
}

/// Computes the chunks of the clusters `spans`.
fn build_chunks(
    b: &Vec<Vec<char>>,
    o: &Vec<Vec<char>>,
    t: &Vec<Vec<char>>,
    sa: &Vec<Seg>,
    sb: &Vec<Seg>,
    spans: &Vec<Span>,
) -> (out: Vec<ChunkView>)
    requires
        chunk_ctx(lines_view(b), lines_view(o), lines_view(t), sa@, sb@, spans@),
    ensures
        out@.len() == spans@.len(),
        forall|j: int|
            0 <= j < out@.len() ==> (#[trigger] out@[j])@ == chunk_spec(
                j,
                spans@[j],
                lines_view(b),
                lines_view(o),
                lines_view(t),
                sa@,
                sb@,
            ),
        forall|j: int| 0 <= j < out@.len() ==> #[trigger] emphasis_within(out@[j]@, lines_view(o), lines_view(t)),
        forall|j: int| 0 <= j < out@.len() ==> #[trigger] conflict_rows_present(out@[j]@, lines_view(o), lines_view(t)),
{
    let mut out: Vec<ChunkView> = Vec::new();
    let mut ka: usize = 0;
    let mut kb: usize = 0;
    let mut i: usize = 0;
    while i < spans.len()
        invariant
            chunk_ctx(lines_view(b), lines_view(o), lines_view(t), sa@, sb@, spans@),
            i <= spans.len(),
            out@.len() == i,
            forall|j: int|
                0 <= j < i ==> (#[trigger] out@[j])@ == chunk_spec(
                    j,
                    spans@[j],
                    lines_view(b),
                    lines_view(o),
                    lines_view(t),
                    sa@,
                    sb@,
                ),
            forall|j: int| 0 <= j < i ==> #[trigger] emphasis_within(out@[j]@, lines_view(o), lines_view(t)),
            forall|j: int| 0 <= j < i ==> #[trigger] conflict_rows_present(out@[j]@, lines_view(o), lines_view(t)),
            ka <= sa.len(),
            kb <= sb.len(),
            i < spans.len() ==> forall|j: int| 0 <= j < ka ==> (#[trigger] sa@[j]).base_start < spans@[i as int].start,
            i < spans.len() ==> forall|j: int| 0 <= j < kb ==> (#[trigger] sb@[j]).base_start < spans@[i as int].start,
        decreases spans.len() - i,
    {
        let sp = spans[i];
        proof {
            reveal(spans_bounded);
            assert(sp.start <= sp.end <= b.len());
        }
        let (la, ha, ka2) = chunk_side(sa, ka, sp, b, o, Ghost(spans@), Ghost(i as int), Ghost(true));
        let (lb, hb, kb2) = chunk_side(sb, kb, sp, b, t, Ghost(spans@), Ghost(i as int), Ghost(false));
        let kind = if sp.has_a && sp.has_b {
            if lines_equal(o, la, ha, t, lb, hb) {
                ChunkKind::Agree
            } else {
                ChunkKind::Conflict
            }
        } else if sp.has_a {
            ChunkKind::Ours
        } else {
            ChunkKind::Theirs
        };
        let visual = match kind {
            ChunkKind::Conflict => ChunkVisual::Conflict,
            _ => {
                let side_len = match kind {
                    ChunkKind::Theirs => hb - lb,
                    _ => ha - la,
                };
                if side_len == 0 {
                    ChunkVisual::Deleted
                } else if sp.end == sp.start {
                    ChunkVisual::Added
                } else {
                    ChunkVisual::Modified
                }
            },
        };
        let ghost same = lines_view(o).subrange(la as int, ha as int) == lines_view(t).subrange(lb as int, hb as int);
        let (le, re) = emphasis(kind, b, sp.start, sp.end, o, la, ha, t, lb, hb);
        let chunk = ChunkView {
            id: i,
            kind,
            visual,
            left_range: [la, ha],
            result_range: [sp.start, sp.end],
            right_range: [lb, hb],
            left_emphasis: le,
            right_emphasis: re,
        };
        proof {
            assert(chunk@ == chunk_spec(
                i as int,
                spans@[i as int],
                lines_view(b),
                lines_view(o),
                lines_view(t),
                sa@,
                sb@,
            ));
        }
        proof {
            if kind == ChunkKind::Agree {
                assert(same);
            }
            assert(emphasis_within(chunk@, lines_view(o), lines_view(t)));
            assert(conflict_rows_present(chunk@, lines_view(o), lines_view(t)));
        }
        out.push(chunk);
        ka = ka2;
        kb = kb2;
        i = i + 1;
        proof {
            reveal(sp_sep);
            if i < spans.len() {
                assert(spans@[i - 1].end < spans@[i as int].start);
            }
        }
    }
    out
}


/// The stretches of an edit script are sorted by base line and end within
/// the base.
pub proof fn lemma_structured_sorted<T>(segs: Seq<Seg>, old: Seq<T>, new: Seq<T>)
    requires
        segs_structured(segs, old, new),
    ensures
        segs_sorted(segs),
        segs_end_by(segs, old.len() as int),
{
    assert forall|k: int, l: int| 0 <= k < l < segs.len() implies (#[trigger] segs[k]).base_start
        <= (#[trigger] segs[l]).base_start by {
        assert(segs[k].base_start <= segs[k].base_end);
        assert(segs[k].base_end <= segs[l].base_start);
    }
}

/// Where one side's edit script changes nothing, every chunk is the other
/// side's change alone; where neither changes anything, there is no chunk.
pub proof fn lemma_unchanged_side_kinds(
    b: Seq<Seq<char>>,
    o: Seq<Seq<char>>,
    t: Seq<Seq<char>>,
    ops_a: Seq<DiffRange>,
    ops_b: Seq<DiffRange>,
)
    requires
        is_alignment(ops_a, b, o),
        is_alignment(ops_b, b, t),
    ensures
        all_equal(ops_a) ==> forall|i: int|
            0 <= i < spec_chunks(b, o, t, ops_a, ops_b).len() ==> (#[trigger] spec_chunks(
                b,
                o,
                t,
                ops_a,
                ops_b,
            )[i]).kind == ChunkKind::Theirs,
        all_equal(ops_b) ==> forall|i: int|
            0 <= i < spec_chunks(b, o, t, ops_a, ops_b).len() ==> (#[trigger] spec_chunks(
                b,
                o,
                t,
                ops_a,
                ops_b,
            )[i]).kind == ChunkKind::Ours,
        all_equal(ops_a) && all_equal(ops_b) ==> spec_chunks(b, o, t, ops_a, ops_b).len() == 0,
{
    let sa = segs_of(ops_a);
    let sb = segs_of(ops_b);
    lemma_alignment_segs(ops_a, b, o);
    lemma_alignment_segs(ops_b, b, t);
    lemma_structured_sorted(sa, b, o);
    lemma_structured_sorted(sb, b, t);
    lemma_spans(sa, sb, b.len() as int);
    let spans = spans_of(sa, sb);
    let cs = spec_chunks(b, o, t, ops_a, ops_b);
    reveal(side_flag);
    reveal(spans_bounded);
    if all_equal(ops_a) {
        lemma_equal_no_segs(ops_a);
        assert forall|i: int| 0 <= i < cs.len() implies (#[trigger] cs[i]).kind == ChunkKind::Theirs by {
            assert(!flag_of(spans[i], true));
        }
    }
    if all_equal(ops_b) {
        lemma_equal_no_segs(ops_b);
        assert forall|i: int| 0 <= i < cs.len() implies (#[trigger] cs[i]).kind == ChunkKind::Ours by {
            assert(!flag_of(spans[i], false));
            assert(spans[i].has_a || spans[i].has_b);
        }
    }
    if all_equal(ops_a) && all_equal(ops_b) && cs.len() > 0 {
        assert(!flag_of(spans[0], true));
        assert(!flag_of(spans[0], false));
        assert(spans[0].has_a || spans[0].has_b);
    }
}

/// The number of conflicting chunks.
fn count_conflict_chunks(chunks: &Vec<ChunkView>) -> (n: usize)
    ensures
        n == count_conflicts(chunks@.map_values(|c: ChunkView| c@)),
{
    let ghost m = chunks@.map_values(|c: ChunkView| c@);
    let mut n: usize = 0;
    let mut i: usize = 0;
    while i < chunks.len()
        invariant
            i <= chunks.len(),
            m == chunks@.map_values(|c: ChunkView| c@),
            n <= i,
            n == count_conflicts(m.take(i as int)),
        decreases chunks.len() - i,
    {
        proof {
            assert(m.take(i + 1).drop_last() =~= m.take(i as int));
            assert(m.take(i + 1).last() == chunks@[i as int]@);
        }
        match chunks[i].kind {
            ChunkKind::Conflict => {
                n = n + 1;
            },
            _ => {},
        }
        i = i + 1;
    }
    proof {
        assert(m.take(i as int) =~= m);
    }
    n
}

/// Puts a snapshot together from the texts and their chunks.
fn assemble(path: &str, base: &str, ours: &str, theirs: &str, chunks: Vec<ChunkView>) -> (s: MergeSnapshot)
    ensures
        s@ == snapshot_spec(path@, base@, ours@, theirs@, chunks@.map_values(|c: ChunkView| c@)),
{
    let changes = chunks.len();
    let conflicts = count_conflict_chunks(&chunks);
    MergeSnapshot {
        path: path.to_owned(),
        left: ours.to_owned(),
        result: base.to_owned(),
        right: theirs.to_owned(),
        chunks,
        changes,
        conflicts,
    }
}

/// The single whole-file conflict chunk.
fn whole_file_conflict(b: &Vec<Vec<char>>, o: &Vec<Vec<char>>, t: &Vec<Vec<char>>) -> (c: ChunkView)
    ensures
        c@ == whole_file_chunk(lines_view(b), lines_view(o), lines_view(t)),
{
    ChunkView {
        id: 0,
        kind: ChunkKind::Conflict,
        visual: ChunkVisual::Conflict,
        left_range: [0, o.len()],
        result_range: [0, b.len()],
        right_range: [0, t.len()],
        left_emphasis: Vec::new(),
        right_emphasis: Vec::new(),
    }
}

/// The snapshot of texts already split into lines `b`, `o` and `t`, along
/// the edit scripts `ops_a` and `ops_b`.
fn snapshot_from_lines(
    path: &str,
    base: &str,
    ours: &str,
    theirs: &str,
    b: &Vec<Vec<char>>,
    o: &Vec<Vec<char>>,
    t: &Vec<Vec<char>>,
    ops_a: &Vec<DiffRange>,
    ops_b: &Vec<DiffRange>,
) -> (s: MergeSnapshot)
    requires
        lines_view(b) == split_lines(base@),
        lines_view(o) == split_lines(ours@),
        lines_view(t) == split_lines(theirs@),
        valid_diffs(base@, ours@, theirs@, ops_a@, ops_b@),
    ensures
        s@ == diffs_snapshot(path@, base@, ours@, theirs@, ops_a@, ops_b@),
        snapshot_emphasis_ok(s@),
        snapshot_conflicts_emphasised(s@),
{
    let sa = segments(ops_a);
    let sb = segments(ops_b);
    proof {
        lemma_alignment_segs(ops_a@, lines_view(b), lines_view(o));
        lemma_alignment_segs(ops_b@, lines_view(b), lines_view(t));
        lemma_structured_sorted(sa@, lines_view(b), lines_view(o));
        lemma_structured_sorted(sb@, lines_view(b), lines_view(t));
        lemma_spans(sa@, sb@, b.len() as int);
    }
    let spans = clusters(&sa, &sb);
    let chunks = build_chunks(b, o, t, &sa, &sb, &spans);
    proof {
        assert(chunks@.map_values(|c: ChunkView| c@) =~= spec_chunks(
            split_lines(base@),
            split_lines(ours@),
            split_lines(theirs@),
            ops_a@,
            ops_b@,
        ));
    }
    let s = assemble(path, base, ours, theirs, chunks);
    proof {
        assert forall|i: int| 0 <= i < s@.chunks.len() implies #[trigger] emphasis_within(
            s@.chunks[i],
            split_lines(s@.left),
            split_lines(s@.right),
        ) by {
            assert(s@.chunks[i] == chunks@[i]@);
            assert(emphasis_within(chunks@[i]@, lines_view(o), lines_view(t)));
        }
        assert forall|i: int| 0 <= i < s@.chunks.len() implies #[trigger] conflict_rows_present(
            s@.chunks[i],
            split_lines(s@.left),
            split_lines(s@.right),
        ) by {
            assert(s@.chunks[i] == chunks@[i]@);
            assert(conflict_rows_present(chunks@[i]@, lines_view(o), lines_view(t)));
        }
    }
    s
}

/// The snapshot of three texts chunked along given edit scripts: `ours_ops`
/// from the base lines to our lines, `theirs_ops` from the base lines to
/// their lines.
pub fn snapshot_from_diffs(
    path: &str,
    base: &str,
    ours: &str,
    theirs: &str,
    ours_ops: &Vec<DiffRange>,
    theirs_ops: &Vec<DiffRange>,
) -> (s: MergeSnapshot)
    requires
        valid_diffs(base@, ours@, theirs@, ours_ops@, theirs_ops@),
    ensures
        s@ == diffs_snapshot(path@, base@, ours@, theirs@, ours_ops@, theirs_ops@),
        snapshot_emphasis_ok(s@),
        snapshot_conflicts_emphasised(s@),
{
    let b = lines_of(base);
    let o = lines_of(ours);
    let t = lines_of(theirs);
    snapshot_from_lines(path, base, ours, theirs, &b, &o, &t, ours_ops, theirs_ops)
}

/// Builds the three-pane snapshot of one conflicted file. A side larger than
/// `MAX_DIFF_BYTES` makes the whole file one conflict; otherwise both sides
/// are diffed line by line against the base (each diff within
/// `DIFF_DEADLINE_MS`) and chunked along those edit scripts.
pub fn build_snapshot(path: &str, base: &str, ours: &str, theirs: &str) -> (s: MergeSnapshot)
    ensures
        oversized(base, ours, theirs) ==> s@ == oversized_snapshot(path@, base@, ours@, theirs@),
        snapshot_emphasis_ok(s@),
        !oversized(base, ours, theirs) ==> snapshot_conflicts_emphasised(s@),
        !oversized(base, ours, theirs) && split_lines(ours@) == split_lines(base@) ==> forall|i: int|
            0 <= i < s@.chunks.len() ==> (#[trigger] s@.chunks[i]).kind == ChunkKind::Theirs,
        !oversized(base, ours, theirs) && split_lines(theirs@) == split_lines(base@) ==> forall|i: int|
            0 <= i < s@.chunks.len() ==> (#[trigger] s@.chunks[i]).kind == ChunkKind::Ours,
        !oversized(base, ours, theirs) && ours@ == base@ && theirs@ == base@ ==> s@.chunks.len() == 0,
        !oversized(base, ours, theirs) ==> exists|a: Seq<DiffRange>, b: Seq<DiffRange>|
            #[trigger] valid_diffs(base@, ours@, theirs@, a, b) && trims_common_ends(
                a,
                split_lines(base@),
                split_lines(ours@),
            ) && trims_common_ends(b, split_lines(base@), split_lines(theirs@)) && s@ == diffs_snapshot(
                path@,
                base@,
                ours@,
                theirs@,
                a,
                b,
            ),
{
    let b = lines_of(base);
    let o = lines_of(ours);
    let t = lines_of(theirs);
    if base.len() > MAX_DIFF_BYTES || ours.len() > MAX_DIFF_BYTES || theirs.len() > MAX_DIFF_BYTES {
        let mut chunks: Vec<ChunkView> = Vec::new();
        chunks.push(whole_file_conflict(&b, &o, &t));
        proof {
            assert(chunks@.map_values(|c: ChunkView| c@) =~= seq![
                whole_file_chunk(split_lines(base@), split_lines(ours@), split_lines(theirs@)),
            ]);
        }
        let s = assemble(path, base, ours, theirs, chunks);
        proof {
            assert forall|i: int| 0 <= i < s@.chunks.len() implies #[trigger] emphasis_within(
                s@.chunks[i],
                split_lines(s@.left),
                split_lines(s@.right),
            ) by {
                assert(s@.chunks[i].left_emphasis.len() == 0);
                assert(s@.chunks[i].right_emphasis.len() == 0);
            }
        }
        s
    } else {
        let deadline = clock_after(clock_now(), millis(DIFF_DEADLINE_MS));
        let ops_a = line_diff(&b, &o, deadline);
        let ops_b = line_diff(&b, &t, deadline);
        let s = snapshot_from_lines(path, base, ours, theirs, &b, &o, &t, &ops_a, &ops_b);
        proof {
            assert(valid_diffs(base@, ours@, theirs@, ops_a@, ops_b@));
            lemma_unchanged_side_kinds(lines_view(&b), lines_view(&o), lines_view(&t), ops_a@, ops_b@);
        }
        s
    }
}

} // verus!
