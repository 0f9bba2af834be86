//! What every merge snapshot promises, whatever edit scripts it was chunked
//! along: chunks are ordered and disjoint, nothing changes outside them, and
//! each chunk's kind says truly which side changed.

use vstd::prelude::*;

use crate::cluster::{
    flag_of, in_span, lemma_spans, segs_sorted, side_before, side_cover, side_within, sp_sep, spans_bounded,
    spans_of, Span,
};
use crate::diff::{lemma_alignment_segs, prefix_delta, DiffRange, region_hi, region_lo, segs_of, segs_structured, Seg};
use crate::merge::{
    chunk_spec, count_conflicts, count_le, count_lt, diffs_snapshot, snapshot_spec, in_region, lemma_region_mono, lemma_region_pos,
    lemma_structured_sorted, side_range, valid_diffs, ChunkKind, ChunkModel, ChunkVisual, SnapshotModel, MAX_EMPHASIS_LINES,
};
use crate::emphasis::{emphasis_spec, law_chunk_line_emphasis, line_emph, line_rows, min_len, pair_emph, tag_ranges};
use crate::text::split_lines;

verus! {

// ---------------------------------------------------------------------------
// One side against the clusters

/// In sorted stretches, those that start before `x` come first.
proof fn lemma_count_lt_sorted(segs: Seq<Seg>, x: int)
    requires
        segs_sorted(segs),
    ensures
        0 <= count_lt(segs, x) <= segs.len(),
        forall|j: int| 0 <= j < segs.len() ==> ((#[trigger] segs[j]).base_start < x <==> j < count_lt(segs, x)),
    decreases segs.len(),
{
    if segs.len() > 0 {
        let p = segs.drop_last();
        let n = segs.len() - 1;
        assert forall|k: int, l: int| 0 <= k < l < p.len() implies (#[trigger] p[k]).base_start
            <= (#[trigger] p[l]).base_start by {
            assert(p[k] == segs[k] && p[l] == segs[l]);
        }
        assert forall|k: int| 0 <= k < p.len() implies (#[trigger] p[k]).base_start <= p[k].base_end by {
            assert(p[k] == segs[k]);
        }
        lemma_count_lt_sorted(p, x);
        let c = count_lt(p, x);
        assert(segs.last() == segs[n]);
        if segs[n].base_start < x {
            if n > 0 {
                assert(p[n - 1] == segs[n - 1]);
                assert(segs[n - 1].base_start <= segs[n].base_start);
            }
        }
        assert forall|j: int| 0 <= j < segs.len() implies ((#[trigger] segs[j]).base_start < x <==> j
            < count_lt(segs, x)) by {
            if j < n {
                assert(p[j] == segs[j]);
                if segs[n].base_start < x {
                    assert(segs[j].base_start <= segs[n].base_start);
                }
            }
        }
    }
}

/// In sorted stretches, those that start at or before `x` come first.
proof fn lemma_count_le_sorted(segs: Seq<Seg>, x: int)
    requires
        segs_sorted(segs),
    ensures
        0 <= count_le(segs, x) <= segs.len(),
        forall|j: int| 0 <= j < segs.len() ==> ((#[trigger] segs[j]).base_start <= x <==> j < count_le(segs, x)),
    decreases segs.len(),
{
    if segs.len() > 0 {
        let p = segs.drop_last();
        let n = segs.len() - 1;
        assert forall|k: int, l: int| 0 <= k < l < p.len() implies (#[trigger] p[k]).base_start
            <= (#[trigger] p[l]).base_start by {
            assert(p[k] == segs[k] && p[l] == segs[l]);
        }
        assert forall|k: int| 0 <= k < p.len() implies (#[trigger] p[k]).base_start <= p[k].base_end by {
            assert(p[k] == segs[k]);
        }
        lemma_count_le_sorted(p, x);
        assert(segs.last() == segs[n]);
        if segs[n].base_start <= x {
            if n > 0 {
                assert(p[n - 1] == segs[n - 1]);
                assert(segs[n - 1].base_start <= segs[n].base_start);
            }
        }
        assert forall|j: int| 0 <= j < segs.len() implies ((#[trigger] segs[j]).base_start <= x <==> j
            < count_le(segs, x)) by {
            if j < n {
                assert(p[j] == segs[j]);
                if segs[n].base_start <= x {
                    assert(segs[j].base_start <= segs[n].base_start);
                }
            }
        }
    }
}

/// One unchanged base line and its copy on the side.
proof fn lemma_region_point<T>(segs: Seq<Seg>, old: Seq<T>, new: Seq<T>, k: int, x: int)
    requires
        segs_structured(segs, old, new),
        0 <= k <= segs.len(),
        region_lo(segs, k) <= x < region_hi(segs, k, old.len() as int),
    ensures
        old[x] == new[x + prefix_delta(segs, k)],
{
}

/// Between `x0` and `x1`, in the unchanged region before stretch `k`, the
/// side holds the base's lines shifted by the offset of the stretches before.
proof fn lemma_region_copy<T>(segs: Seq<Seg>, old: Seq<T>, new: Seq<T>, k: int, x0: int, x1: int)
    requires
        segs_structured(segs, old, new),
        in_region(segs, k, x0, old.len() as int),
        in_region(segs, k, x1, old.len() as int),
        x0 <= x1,
    ensures
        0 <= x0 + prefix_delta(segs, k) <= x1 + prefix_delta(segs, k) <= new.len(),
        new.subrange(x0 + prefix_delta(segs, k), x1 + prefix_delta(segs, k)) == old.subrange(x0, x1),
{
    let d = prefix_delta(segs, k);
    assert(0 <= x0 + d <= x1 + d <= new.len() && 0 <= x0 <= x1 <= old.len()) by {
        lemma_region_pos(segs, old, new, k, x0);
        lemma_region_pos(segs, old, new, k, x1);
        if k < segs.len() {
            assert(segs[k].base_start <= old.len());
        }
    }
    let lo = region_lo(segs, k);
    let hi = region_hi(segs, k, old.len() as int);
    assert(lo <= x0 && x1 <= hi);
    assert forall|y: int| 0 <= y < x1 - x0 implies new.subrange(x0 + d, x1 + d)[y] == old.subrange(x0, x1)[y] by {
        lemma_region_point(segs, old, new, k, x0 + y);
    }
    assert(new.subrange(x0 + d, x1 + d) =~= old.subrange(x0, x1));
}

/// One side's stretches come from an edit script from `old` to `new`, and
/// `spans` are the clusters of both sides' stretches.
pub open spec fn side_ctx<T>(segs: Seq<Seg>, old: Seq<T>, new: Seq<T>, spans: Seq<Span>, from_a: bool) -> bool {
    &&& segs_structured(segs, old, new)
    &&& segs_sorted(segs)
    &&& side_before(segs, spans)
    &&& side_within(segs, spans, from_a)
    &&& side_cover(segs, spans)
    &&& sp_sep(spans)
    &&& spans_bounded(spans, old.len() as int)
}

/// The start and the end of a cluster lie in unchanged regions of the side,
/// the same one when the side changed nothing in the cluster.
proof fn lemma_span_regions<T>(segs: Seq<Seg>, old: Seq<T>, new: Seq<T>, spans: Seq<Span>, from_a: bool, i: int)
    requires
        side_ctx(segs, old, new, spans, from_a),
        0 <= i < spans.len(),
    ensures
        in_region(segs, count_lt(segs, spans[i].start as int), spans[i].start as int, old.len() as int),
        in_region(segs, count_le(segs, spans[i].end as int), spans[i].end as int, old.len() as int),
        count_lt(segs, spans[i].start as int) <= count_le(segs, spans[i].end as int),
        !flag_of(spans[i], from_a) ==> count_lt(segs, spans[i].start as int) == count_le(
            segs,
            spans[i].end as int,
        ),
{
    reveal(spans_bounded);
    reveal(side_before);
    reveal(side_within);
    let sp = spans[i];
    let x0 = sp.start as int;
    let x1 = sp.end as int;
    assert(sp.start <= sp.end <= old.len());
    lemma_count_lt_sorted(segs, x0);
    lemma_count_le_sorted(segs, x1);
    let k0 = count_lt(segs, x0);
    let k1 = count_le(segs, x1);
    if k0 > 0 {
        assert(segs[k0 - 1].base_start < x0);
    }
    if k0 < segs.len() {
        assert(!(segs[k0].base_start < x0));
    }
    if k1 > 0 {
        let j = k1 - 1;
        assert(segs[j].base_start <= x1);
        if segs[j].base_start < x0 {
            assert(segs[j].base_end < spans[i].start);
        } else {
            assert(spans[i].start <= segs[j].base_start <= spans[i].end);
        }
    }
    if k1 < segs.len() {
        assert(!(segs[k1].base_start <= x1));
    }
    if k0 > k1 {
        assert(segs[k1].base_start < x0);
    }
    if !flag_of(sp, from_a) && k0 < k1 {
        let j = k0;
        assert(segs[j].base_start <= x1);
        assert(!(segs[j].base_start < x0));
        assert(spans[i].start <= segs[j].base_start <= spans[i].end);
    }
}

/// A side's line range of a cluster lies within the side, and is the
/// cluster's base lines when that side changed nothing there.
proof fn lemma_side_range<T>(segs: Seq<Seg>, old: Seq<T>, new: Seq<T>, spans: Seq<Span>, from_a: bool, i: int)
    requires
        side_ctx(segs, old, new, spans, from_a),
        0 <= i < spans.len(),
    ensures
        0 <= side_range(segs, spans[i]).0 <= side_range(segs, spans[i]).1 <= new.len(),
        !flag_of(spans[i], from_a) ==> new.subrange(side_range(segs, spans[i]).0, side_range(segs, spans[i]).1)
            == old.subrange(spans[i].start as int, spans[i].end as int),
{
    reveal(spans_bounded);
    lemma_span_regions(segs, old, new, spans, from_a, i);
    let x0 = spans[i].start as int;
    let x1 = spans[i].end as int;
    let k0 = count_lt(segs, x0);
    let k1 = count_le(segs, x1);
    lemma_region_pos(segs, old, new, k0, x0);
    lemma_region_pos(segs, old, new, k1, x1);
    lemma_region_mono(segs, old, new, k0, x0, k1, x1);
    if !flag_of(spans[i], from_a) {
        lemma_region_copy(segs, old, new, k0, x0, x1);
    }
}

/// Every stretch of a side starts by the end of the cluster before gap `i`
/// or at or after the start of the cluster after it.
proof fn lemma_seg_beside_gap<T>(segs: Seq<Seg>, old: Seq<T>, new: Seq<T>, spans: Seq<Span>, from_a: bool, i: int, j: int)
    requires
        side_ctx(segs, old, new, spans, from_a),
        0 <= i <= spans.len(),
        0 <= j < segs.len(),
    ensures
        (i > 0 && segs[j].base_start <= spans[i - 1].end) || (i < spans.len() && segs[j].base_start
            >= spans[i].start),
{
    reveal(side_cover);
    reveal(sp_sep);
    reveal(spans_bounded);
    assert(segs[j] == segs[j]);
    let i2 = choose|i2: int| 0 <= i2 < spans.len() && in_span(spans[i2], segs[j]);
    assert(segs[j].base_start <= segs[j].base_end);
    if i2 < i {
        if i2 < i - 1 {
            assert(spans[i2].end < spans[i - 1].start);
        }
    } else {
        if i2 > i {
            assert(spans[i].end < spans[i2].start);
        }
    }
}

/// The base lines of gap `i`: after cluster `i - 1` (or from the start) up to
/// cluster `i` (or to the end, `n`).
pub open spec fn gap_bounds(spans: Seq<Span>, i: int, n: int) -> (int, int) {
    (
        if i == 0 {
            0
        } else {
            spans[i - 1].end as int
        },
        if i == spans.len() {
            n
        } else {
            spans[i].start as int
        },
    )
}

/// The side's lines of gap `i`; `m` is the side's length.
pub open spec fn side_gap(segs: Seq<Seg>, spans: Seq<Span>, i: int, m: int) -> (int, int) {
    (
        if i == 0 {
            0
        } else {
            side_range(segs, spans[i - 1]).1
        },
        if i == spans.len() {
            m
        } else {
            side_range(segs, spans[i]).0
        },
    )
}

/// Between clusters a side holds the base's lines.
proof fn lemma_side_gap<T>(segs: Seq<Seg>, old: Seq<T>, new: Seq<T>, spans: Seq<Span>, from_a: bool, i: int)
    requires
        side_ctx(segs, old, new, spans, from_a),
        0 <= i <= spans.len(),
    ensures
        0 <= gap_bounds(spans, i, old.len() as int).0 <= gap_bounds(spans, i, old.len() as int).1 <= old.len(),
        side_gap(segs, spans, i, new.len() as int).1 - side_gap(segs, spans, i, new.len() as int).0
            == gap_bounds(spans, i, old.len() as int).1 - gap_bounds(spans, i, old.len() as int).0,
        new.subrange(side_gap(segs, spans, i, new.len() as int).0, side_gap(segs, spans, i, new.len() as int).1)
            == old.subrange(gap_bounds(spans, i, old.len() as int).0, gap_bounds(spans, i, old.len() as int).1),
{
    reveal(sp_sep);
    reveal(spans_bounded);
    let n = old.len() as int;
    let g = gap_bounds(spans, i, n);
    let len = spans.len() as int;
    let kl = if i == 0 {
        0
    } else {
        count_le(segs, spans[i - 1].end as int)
    };
    let kh = if i == len {
        segs.len() as int
    } else {
        count_lt(segs, spans[i].start as int)
    };
    if i > 0 {
        lemma_span_regions(segs, old, new, spans, from_a, i - 1);
        lemma_count_le_sorted(segs, spans[i - 1].end as int);
    }
    if i < len {
        lemma_span_regions(segs, old, new, spans, from_a, i);
        lemma_count_lt_sorted(segs, spans[i].start as int);
    }
    if i > 0 && i < len {
        assert(spans[i - 1].end < spans[i].start);
    }
    // The gap holds no stretch start, so both ends see the same stretches.
    if kl < kh {
        let j = kl;
        lemma_seg_beside_gap(segs, old, new, spans, from_a, i, j);
        if i < len {
            assert(segs[j].base_start < spans[i].start);
        }
    }
    if kh < kl {
        let j = kh;
        lemma_seg_beside_gap(segs, old, new, spans, from_a, i, j);
        if i > 0 {
            assert(segs[j].base_start <= spans[i - 1].end);
        }
    }
    assert(kl == kh);
    if i == 0 {
        assert(prefix_delta(segs, 0) == 0);
        assert(in_region(segs, kl, g.0, n));
    }
    if i == len {
        if kh > 0 {
            assert(segs[kh - 1].base_end <= old.len());
        }
        assert(in_region(segs, kh, g.1, n));
    }
    lemma_region_copy(segs, old, new, kl, g.0, g.1);
}


/// A side's clusters start in base order on that side too.
proof fn lemma_start_mono<T>(segs: Seq<Seg>, old: Seq<T>, new: Seq<T>, spans: Seq<Span>, from_a: bool, i: int, j: int)
    requires
        side_ctx(segs, old, new, spans, from_a),
        0 <= i <= j < spans.len(),
    ensures
        side_range(segs, spans[i]).0 <= side_range(segs, spans[j]).0,
{
    reveal(sp_sep);
    reveal(spans_bounded);
    let x0 = spans[i].start as int;
    let x1 = spans[j].start as int;
    if i < j {
        assert(spans[i].end < spans[j].start);
    }
    assert(x0 <= x1);
    lemma_span_regions(segs, old, new, spans, from_a, i);
    lemma_span_regions(segs, old, new, spans, from_a, j);
    lemma_count_lt_sorted(segs, x0);
    lemma_count_lt_sorted(segs, x1);
    let k0 = count_lt(segs, x0);
    let k1 = count_lt(segs, x1);
    if k0 > k1 {
        assert(segs[k1].base_start < x0);
    }
    lemma_region_mono(segs, old, new, k0, x0, k1, x1);
}

// ---------------------------------------------------------------------------
// The laws

/// The facts every law rests on: each side's stretches against the clusters.
proof fn lemma_diffs_ctx(base: Seq<char>, ours: Seq<char>, theirs: Seq<char>, a: Seq<DiffRange>, b: Seq<DiffRange>)
    requires
        valid_diffs(base, ours, theirs, a, b),
    ensures
        side_ctx(
            segs_of(a),
            split_lines(base),
            split_lines(ours),
            spans_of(segs_of(a), segs_of(b)),
            true,
        ),
        side_ctx(
            segs_of(b),
            split_lines(base),
            split_lines(theirs),
            spans_of(segs_of(a), segs_of(b)),
            false,
        ),
{
    let bl = split_lines(base);
    let ol = split_lines(ours);
    let tl = split_lines(theirs);
    let sa = segs_of(a);
    let sb = segs_of(b);
    lemma_alignment_segs(a, bl, ol);
    lemma_alignment_segs(b, bl, tl);
    lemma_structured_sorted(sa, bl, ol);
    lemma_structured_sorted(sb, bl, tl);
    lemma_spans(sa, sb, bl.len() as int);
}

/// Chunk `i` is numbered `i` and its ranges lie within their panes.
pub open spec fn chunk_in_panes(s: SnapshotModel, i: int) -> bool {
    let c = s.chunks[i];
    &&& c.id == i
    &&& 0 <= c.result.0 <= c.result.1 <= split_lines(s.result).len()
    &&& 0 <= c.left.0 <= c.left.1 <= split_lines(s.left).len()
    &&& 0 <= c.right.0 <= c.right.1 <= split_lines(s.right).len()
}

/// Chunk `i` ends before chunk `j` starts, on every pane, with at least one
/// line between them.
pub open spec fn chunks_apart(s: SnapshotModel, i: int, j: int) -> bool {
    &&& s.chunks[i].result.1 < s.chunks[j].result.0
    &&& s.chunks[i].left.1 < s.chunks[j].left.0
    &&& s.chunks[i].right.1 < s.chunks[j].right.0
}

/// Chunks are numbered in order, lie within the panes, and come in the same
/// order on all three panes without touching.
pub open spec fn chunks_in_order(s: SnapshotModel) -> bool {
    &&& forall|i: int| 0 <= i < s.chunks.len() ==> #[trigger] chunk_in_panes(s, i)
    &&& forall|i: int, j: int| 0 <= i < j < s.chunks.len() ==> #[trigger] chunks_apart(s, i, j)
}

/// Gap `i` (before chunk `i`, after chunk `i - 1`) holds the same lines on
/// all three panes.
pub open spec fn gap_agrees(s: SnapshotModel, i: int) -> bool {
    let b = split_lines(s.result);
    let o = split_lines(s.left);
    let t = split_lines(s.right);
    let n = s.chunks.len() as int;
    let (bl, ol, tl) = if i == 0 {
        (0, 0, 0)
    } else {
        (s.chunks[i - 1].result.1, s.chunks[i - 1].left.1, s.chunks[i - 1].right.1)
    };
    let (bh, oh, th) = if i == n {
        (b.len() as int, o.len() as int, t.len() as int)
    } else {
        (s.chunks[i].result.0, s.chunks[i].left.0, s.chunks[i].right.0)
    };
    &&& o.subrange(ol, oh) == b.subrange(bl, bh)
    &&& t.subrange(tl, th) == b.subrange(bl, bh)
}

/// Outside its chunks nothing differs: before the first chunk, between
/// chunks and after the last one the three panes hold the same lines.
pub open spec fn unchanged_outside_chunks(s: SnapshotModel) -> bool {
    forall|i: int| 0 <= i <= s.chunks.len() ==> #[trigger] gap_agrees(s, i)
}

/// What chunk `i`'s kind and colour say holds of its lines: a chunk of ours
/// leaves their lines as the base's, one of theirs leaves ours as the base's,
/// agreeing sides hold the same lines (and show the same emphasis), and
/// conflicting sides differ; a deletion empties the changed side, an
/// addition fills an empty base range.
pub open spec fn chunk_tells_truth(s: SnapshotModel, i: int) -> bool {
    let c = s.chunks[i];
    let bl = split_lines(s.result).subrange(c.result.0, c.result.1);
    let ol = split_lines(s.left).subrange(c.left.0, c.left.1);
    let tl = split_lines(s.right).subrange(c.right.0, c.right.1);
    let side = if c.kind == ChunkKind::Theirs {
        c.right
    } else {
        c.left
    };
    &&& c.kind == ChunkKind::Ours ==> tl == bl
    &&& c.kind == ChunkKind::Theirs ==> ol == bl
    &&& c.kind == ChunkKind::Agree ==> ol == tl && c.left_emphasis == c.right_emphasis
    &&& c.kind == ChunkKind::Conflict ==> ol != tl
    &&& (c.visual == ChunkVisual::Conflict <==> c.kind == ChunkKind::Conflict)
    &&& c.visual == ChunkVisual::Deleted ==> side.0 == side.1
    &&& c.visual == ChunkVisual::Added ==> side.0 < side.1 && c.result.0 == c.result.1
    &&& c.visual == ChunkVisual::Modified ==> side.0 < side.1 && c.result.0 < c.result.1
}

/// Chunks of a snapshot are numbered in order, lie within the three panes,
/// and follow one another in the same order on every pane, never touching.
pub proof fn law_chunks_in_order(
    path: Seq<char>,
    base: Seq<char>,
    ours: Seq<char>,
    theirs: Seq<char>,
    a: Seq<DiffRange>,
    b: Seq<DiffRange>,
)
    requires
        valid_diffs(base, ours, theirs, a, b),
    ensures
        chunks_in_order(diffs_snapshot(path, base, ours, theirs, a, b)),
{
    lemma_diffs_ctx(base, ours, theirs, a, b);
    let s = diffs_snapshot(path, base, ours, theirs, a, b);
    let bl = split_lines(base);
    let ol = split_lines(ours);
    let tl = split_lines(theirs);
    let sa = segs_of(a);
    let sb = segs_of(b);
    let spans = spans_of(sa, sb);
    assert(s.chunks.len() == spans.len());
    assert forall|i: int| 0 <= i < s.chunks.len() implies #[trigger] chunk_in_panes(s, i) by {
        reveal(spans_bounded);
        lemma_side_range(sa, bl, ol, spans, true, i);
        lemma_side_range(sb, bl, tl, spans, false, i);
        assert(s.chunks[i] == chunk_spec(i, spans[i], bl, ol, tl, sa, sb));
    }
    assert forall|i: int, j: int| 0 <= i < j < s.chunks.len() implies #[trigger] chunks_apart(s, i, j) by {
        reveal(sp_sep);
        assert(spans[i].end < spans[j].start);
        lemma_side_gap(sa, bl, ol, spans, true, i + 1);
        lemma_side_gap(sb, bl, tl, spans, false, i + 1);
        assert(spans[i].end < spans[i + 1].start);
        lemma_start_mono(sa, bl, ol, spans, true, i + 1, j);
        lemma_start_mono(sb, bl, tl, spans, false, i + 1, j);
        assert(s.chunks[i] == chunk_spec(i, spans[i], bl, ol, tl, sa, sb));
        assert(s.chunks[i + 1] == chunk_spec(i + 1, spans[i + 1], bl, ol, tl, sa, sb));
        assert(s.chunks[j] == chunk_spec(j, spans[j], bl, ol, tl, sa, sb));
    }
}

/// Outside its chunks a snapshot's three panes agree line for line: every
/// difference between the base and either side lies inside some chunk.
pub proof fn law_unchanged_outside_chunks(
    path: Seq<char>,
    base: Seq<char>,
    ours: Seq<char>,
    theirs: Seq<char>,
    a: Seq<DiffRange>,
    b: Seq<DiffRange>,
)
    requires
        valid_diffs(base, ours, theirs, a, b),
    ensures
        unchanged_outside_chunks(diffs_snapshot(path, base, ours, theirs, a, b)),
{
    lemma_diffs_ctx(base, ours, theirs, a, b);
    let s = diffs_snapshot(path, base, ours, theirs, a, b);
    let bl = split_lines(base);
    let ol = split_lines(ours);
    let tl = split_lines(theirs);
    let sa = segs_of(a);
    let sb = segs_of(b);
    let spans = spans_of(sa, sb);
    assert forall|i: int| 0 <= i <= s.chunks.len() implies #[trigger] gap_agrees(s, i) by {
        lemma_side_gap(sa, bl, ol, spans, true, i);
        lemma_side_gap(sb, bl, tl, spans, false, i);
        if i > 0 {
            assert(s.chunks[i - 1] == chunk_spec(i - 1, spans[i - 1], bl, ol, tl, sa, sb));
        }
        if i < s.chunks.len() {
            assert(s.chunks[i] == chunk_spec(i, spans[i], bl, ol, tl, sa, sb));
        }
    }
}

/// Every chunk's kind and colour tell the truth about its lines; in
/// particular a chunk that is not a conflict never hides a change of the
/// other side.
pub proof fn law_chunks_tell_truth(
    path: Seq<char>,
    base: Seq<char>,
    ours: Seq<char>,
    theirs: Seq<char>,
    a: Seq<DiffRange>,
    b: Seq<DiffRange>,
)
    requires
        valid_diffs(base, ours, theirs, a, b),
    ensures
        forall|i: int|
            0 <= i < diffs_snapshot(path, base, ours, theirs, a, b).chunks.len() ==> #[trigger] chunk_tells_truth(
                diffs_snapshot(path, base, ours, theirs, a, b),
                i,
            ),
{
    lemma_diffs_ctx(base, ours, theirs, a, b);
    let s = diffs_snapshot(path, base, ours, theirs, a, b);
    let bl = split_lines(base);
    let ol = split_lines(ours);
    let tl = split_lines(theirs);
    let sa = segs_of(a);
    let sb = segs_of(b);
    let spans = spans_of(sa, sb);
    assert forall|i: int| 0 <= i < s.chunks.len() implies #[trigger] chunk_tells_truth(s, i) by {
        reveal(spans_bounded);
        lemma_side_range(sa, bl, ol, spans, true, i);
        lemma_side_range(sb, bl, tl, spans, false, i);
        assert(s.chunks[i] == chunk_spec(i, spans[i], bl, ol, tl, sa, sb));
    }
}


/// Chunk `c`'s lines on our pane (`left`) or on their pane.
pub open spec fn pane_range(c: ChunkModel, left: bool) -> (int, int) {
    if left {
        c.left
    } else {
        c.right
    }
}

/// The base lines of gap `i` between chunks `cs` of a base of `n` lines.
pub open spec fn base_gap(cs: Seq<ChunkModel>, i: int, n: int) -> (int, int) {
    (
        if i == 0 {
            0
        } else {
            cs[i - 1].result.1
        },
        if i == cs.len() {
            n
        } else {
            cs[i].result.0
        },
    )
}

/// The base lines before gap `k`, with chunks `0..k` taken from one pane
/// (`side` holds that pane's lines).
pub open spec fn applied_prefix(
    b: Seq<Seq<char>>,
    side: Seq<Seq<char>>,
    cs: Seq<ChunkModel>,
    left: bool,
    k: int,
) -> Seq<Seq<char>>
    decreases k,
{
    if k <= 0 {
        Seq::empty()
    } else {
        let g = base_gap(cs, k - 1, b.len() as int);
        let p = pane_range(cs[k - 1], left);
        applied_prefix(b, side, cs, left, k - 1) + b.subrange(g.0, g.1) + side.subrange(p.0, p.1)
    }
}

/// The result pane after every chunk has been applied from one pane: the
/// base lines, with each chunk's base range replaced by its lines there.
pub open spec fn apply_all(b: Seq<Seq<char>>, side: Seq<Seq<char>>, cs: Seq<ChunkModel>, left: bool) -> Seq<
    Seq<char>,
> {
    let g = base_gap(cs, cs.len() as int, b.len() as int);
    applied_prefix(b, side, cs, left, cs.len() as int) + b.subrange(g.0, g.1)
}

/// The lines of one side's pane of a snapshot.
pub open spec fn pane_lines(s: SnapshotModel, left: bool) -> Seq<Seq<char>> {
    if left {
        split_lines(s.left)
    } else {
        split_lines(s.right)
    }
}

/// Applying chunks `0..k` from one pane rebuilds that pane up to the end of
/// chunk `k - 1`.
proof fn lemma_applied_prefix(s: SnapshotModel, left: bool, k: int)
    requires
        chunks_in_order(s),
        unchanged_outside_chunks(s),
        0 <= k <= s.chunks.len(),
    ensures
        applied_prefix(split_lines(s.result), pane_lines(s, left), s.chunks, left, k) == pane_lines(s, left).take(
            if k == 0 {
                0
            } else {
                pane_range(s.chunks[k - 1], left).1
            },
        ),
    decreases k,
{
    let b = split_lines(s.result);
    let side = pane_lines(s, left);
    let cs = s.chunks;
    if k > 0 {
        lemma_applied_prefix(s, left, k - 1);
        let e = if k - 1 == 0 {
            0
        } else {
            pane_range(cs[k - 2], left).1
        };
        let p = pane_range(cs[k - 1], left);
        let g = base_gap(cs, k - 1, b.len() as int);
        assert(chunk_in_panes(s, k - 1));
        assert(gap_agrees(s, k - 1));
        if k - 1 > 0 {
            assert(chunk_in_panes(s, k - 2));
            assert(chunks_apart(s, k - 2, k - 1));
        }
        assert(side.subrange(e, p.0) == b.subrange(g.0, g.1));
        assert(side.take(e) + side.subrange(e, p.0) + side.subrange(p.0, p.1) =~= side.take(p.1));
    }
}

/// Applying every chunk from our pane turns the result pane (the base) into
/// ours, and applying every chunk from their pane turns it into theirs: the
/// chunks hold every change, and nothing else.
pub proof fn law_apply_all_rebuilds_sides(
    path: Seq<char>,
    base: Seq<char>,
    ours: Seq<char>,
    theirs: Seq<char>,
    a: Seq<DiffRange>,
    b: Seq<DiffRange>,
)
    requires
        valid_diffs(base, ours, theirs, a, b),
    ensures
        apply_all(
            split_lines(base),
            split_lines(ours),
            diffs_snapshot(path, base, ours, theirs, a, b).chunks,
            true,
        ) == split_lines(ours),
        apply_all(
            split_lines(base),
            split_lines(theirs),
            diffs_snapshot(path, base, ours, theirs, a, b).chunks,
            false,
        ) == split_lines(theirs),
{
    let s = diffs_snapshot(path, base, ours, theirs, a, b);
    law_chunks_in_order(path, base, ours, theirs, a, b);
    law_unchanged_outside_chunks(path, base, ours, theirs, a, b);
    lemma_rebuild_side(s, true);
    lemma_rebuild_side(s, false);
}

/// Applying every chunk from one pane rebuilds that pane.
proof fn lemma_rebuild_side(s: SnapshotModel, left: bool)
    requires
        chunks_in_order(s),
        unchanged_outside_chunks(s),
    ensures
        apply_all(split_lines(s.result), pane_lines(s, left), s.chunks, left) == pane_lines(s, left),
{
    let b = split_lines(s.result);
    let side = pane_lines(s, left);
    let cs = s.chunks;
    let n = cs.len() as int;
    lemma_applied_prefix(s, left, n);
    let e = if n == 0 {
        0
    } else {
        pane_range(cs[n - 1], left).1
    };
    assert(gap_agrees(s, n));
    if n > 0 {
        assert(chunk_in_panes(s, n - 1));
    }
    assert(side.take(e) + side.subrange(e, side.len() as int) =~= side);
}


/// `count_conflicts` counts the conflicting chunks.
proof fn lemma_count_conflicts(chunks: Seq<ChunkModel>)
    ensures
        0 <= count_conflicts(chunks) <= chunks.len(),
        count_conflicts(chunks) == 0 <==> forall|i: int|
            0 <= i < chunks.len() ==> (#[trigger] chunks[i]).kind != ChunkKind::Conflict,
        count_conflicts(chunks) == chunks.filter(|c: ChunkModel| c.kind == ChunkKind::Conflict).len(),
    decreases chunks.len(),
{
    reveal(Seq::filter);
    if chunks.len() > 0 {
        let p = chunks.drop_last();
        lemma_count_conflicts(p);
        assert(chunks.last() == chunks[chunks.len() - 1]);
        assert forall|i: int| 0 <= i < p.len() implies #[trigger] p[i] == chunks[i] by {}
        if count_conflicts(chunks) == 0 {
            assert forall|i: int| 0 <= i < chunks.len() implies (#[trigger] chunks[i]).kind
                != ChunkKind::Conflict by {
                if i < p.len() {
                    assert(p[i] == chunks[i]);
                }
            }
        }
    }
}

/// A snapshot counts every chunk as a change, and as conflicts exactly the
/// chunks that conflict: at most as many as changes, and none exactly when
/// no chunk is one.
pub proof fn law_conflict_count(
    path: Seq<char>,
    base: Seq<char>,
    ours: Seq<char>,
    theirs: Seq<char>,
    chunks: Seq<ChunkModel>,
)
    ensures
        snapshot_spec(path, base, ours, theirs, chunks).changes == chunks.len(),
        0 <= snapshot_spec(path, base, ours, theirs, chunks).conflicts <= snapshot_spec(
            path,
            base,
            ours,
            theirs,
            chunks,
        ).changes,
        snapshot_spec(path, base, ours, theirs, chunks).conflicts == 0 <==> forall|i: int|
            0 <= i < chunks.len() ==> (#[trigger] chunks[i]).kind != ChunkKind::Conflict,
        snapshot_spec(path, base, ours, theirs, chunks).conflicts == chunks.filter(
            |c: ChunkModel| c.kind == ChunkKind::Conflict,
        ).len(),
{
    lemma_count_conflicts(chunks);
}


/// Every emphasis row of the first `k` line pairs names one of those lines.
proof fn lemma_pair_rows(xs: Seq<Seq<char>>, ys: Seq<Seq<char>>, k: int)
    requires
        k <= MAX_EMPHASIS_LINES,
    ensures
        forall|j: int| 0 <= j < pair_emph(xs, ys, k).0.len() ==> (#[trigger] pair_emph(xs, ys, k).0[j])[0] < k,
        forall|j: int| 0 <= j < pair_emph(xs, ys, k).1.len() ==> (#[trigger] pair_emph(xs, ys, k).1[j])[0] < k,
    decreases k,
{
    if k > 0 {
        lemma_pair_rows(xs, ys, k - 1);
        let p = pair_emph(xs, ys, k - 1);
        let e = line_emph(xs[k - 1], ys[k - 1]);
        let l = p.0 + tag_ranges(k - 1, e.0);
        let r = p.1 + tag_ranges(k - 1, e.1);
        assert forall|j: int| 0 <= j < l.len() implies (#[trigger] l[j])[0] < k by {
            if j >= p.0.len() {
                assert(l[j] == tag_ranges(k - 1, e.0)[j - p.0.len()]);
            }
        }
        assert forall|j: int| 0 <= j < r.len() implies (#[trigger] r[j])[0] < k by {
            if j >= p.1.len() {
                assert(r[j] == tag_ranges(k - 1, e.1)[j - p.1.len()]);
            }
        }
    }
}

/// Every emphasis row names a line of its pane when agreeing sides hold the
/// same lines.
proof fn lemma_emphasis_rows(kind: ChunkKind, base: Seq<Seq<char>>, ours: Seq<Seq<char>>, theirs: Seq<Seq<char>>)
    requires
        kind == ChunkKind::Agree ==> ours == theirs,
    ensures
        forall|j: int|
            0 <= j < emphasis_spec(kind, base, ours, theirs).0.len() ==> (#[trigger] emphasis_spec(
                kind,
                base,
                ours,
                theirs,
            ).0[j])[0] < ours.len(),
        forall|j: int|
            0 <= j < emphasis_spec(kind, base, ours, theirs).1.len() ==> (#[trigger] emphasis_spec(
                kind,
                base,
                ours,
                theirs,
            ).1[j])[0] < theirs.len(),
{
    let n_ot = min_len(ours.len() as int, theirs.len() as int);
    let n_bo = min_len(base.len() as int, ours.len() as int);
    let n_bt = min_len(base.len() as int, theirs.len() as int);
    if ours.len() <= MAX_EMPHASIS_LINES && theirs.len() <= MAX_EMPHASIS_LINES {
        lemma_pair_rows(ours, theirs, n_ot);
    }
    if ours.len() <= MAX_EMPHASIS_LINES && base.len() <= MAX_EMPHASIS_LINES {
        lemma_pair_rows(base, ours, n_bo);
    }
    if theirs.len() <= MAX_EMPHASIS_LINES && base.len() <= MAX_EMPHASIS_LINES {
        lemma_pair_rows(base, theirs, n_bt);
    }
}


/// Every emphasis row of chunk `i` names a line of that pane's chunk.
pub open spec fn emphasis_in_chunk(s: SnapshotModel, i: int) -> bool {
    let c = s.chunks[i];
    &&& forall|j: int|
        0 <= j < c.left_emphasis.len() ==> (#[trigger] c.left_emphasis[j])[0] < c.left.1 - c.left.0
    &&& forall|j: int|
        0 <= j < c.right_emphasis.len() ==> (#[trigger] c.right_emphasis[j])[0] < c.right.1 - c.right.0
}

/// Word emphasis stays inside its chunk: every row of a pane's emphasis
/// names a line of that pane within the chunk.
pub proof fn law_emphasis_in_chunks(
    path: Seq<char>,
    base: Seq<char>,
    ours: Seq<char>,
    theirs: Seq<char>,
    a: Seq<DiffRange>,
    b: Seq<DiffRange>,
)
    requires
        valid_diffs(base, ours, theirs, a, b),
    ensures
        forall|i: int|
            0 <= i < diffs_snapshot(path, base, ours, theirs, a, b).chunks.len() ==> #[trigger] emphasis_in_chunk(
                diffs_snapshot(path, base, ours, theirs, a, b),
                i,
            ),
{
    let s = diffs_snapshot(path, base, ours, theirs, a, b);
    law_chunks_in_order(path, base, ours, theirs, a, b);
    law_chunks_tell_truth(path, base, ours, theirs, a, b);
    assert forall|i: int| 0 <= i < s.chunks.len() implies #[trigger] emphasis_in_chunk(s, i) by {
        let c = s.chunks[i];
        assert(chunk_in_panes(s, i));
        assert(chunk_tells_truth(s, i));
        let bl = split_lines(base).subrange(c.result.0, c.result.1);
        let ol = split_lines(ours).subrange(c.left.0, c.left.1);
        let tl = split_lines(theirs).subrange(c.right.0, c.right.1);
        let sa = segs_of(a);
        let sb = segs_of(b);
        let spans = spans_of(sa, sb);
        assert(c == chunk_spec(i, spans[i], split_lines(base), split_lines(ours), split_lines(theirs), sa, sb));
        assert((c.left_emphasis, c.right_emphasis) == emphasis_spec(c.kind, bl, ol, tl));
        lemma_emphasis_rows(c.kind, bl, ol, tl);
    }
}


/// What a pane shows of one line of a chunk: the ranges emphasised on line
/// `j` of a one-sided or agreeing chunk's changed pane are exactly the
/// word emphasis, on the side's part, of that chunk's base line `j` against
/// its side line `j`, for every `j` that both have, in a chunk of at most
/// `MAX_EMPHASIS_LINES` lines on each; the unchanged pane of a one-sided
/// chunk shows none.
pub proof fn law_side_line_emphasis(
    path: Seq<char>,
    base: Seq<char>,
    ours: Seq<char>,
    theirs: Seq<char>,
    a: Seq<DiffRange>,
    b: Seq<DiffRange>,
    i: int,
    j: int,
)
    requires
        valid_diffs(base, ours, theirs, a, b),
        0 <= i < diffs_snapshot(path, base, ours, theirs, a, b).chunks.len(),
    ensures
        ({
            let c = diffs_snapshot(path, base, ours, theirs, a, b).chunks[i];
            let nb = c.result.1 - c.result.0;
            let no = c.left.1 - c.left.0;
            let nt = c.right.1 - c.right.0;
            let bl = split_lines(base);
            let ol = split_lines(ours);
            let tl = split_lines(theirs);
            &&& (c.kind == ChunkKind::Ours || c.kind == ChunkKind::Agree) && nb <= MAX_EMPHASIS_LINES && no
                <= MAX_EMPHASIS_LINES && 0 <= j < nb && j < no ==> line_rows(c.left_emphasis, j) == line_emph(
                bl[c.result.0 + j],
                ol[c.left.0 + j],
            ).1
            &&& c.kind == ChunkKind::Agree && nb <= MAX_EMPHASIS_LINES && no <= MAX_EMPHASIS_LINES && 0 <= j < nb
                && j < no ==> line_rows(c.right_emphasis, j) == line_emph(bl[c.result.0 + j], ol[c.left.0 + j]).1
            &&& c.kind == ChunkKind::Theirs && nb <= MAX_EMPHASIS_LINES && nt <= MAX_EMPHASIS_LINES && 0 <= j < nb
                && j < nt ==> line_rows(c.right_emphasis, j) == line_emph(bl[c.result.0 + j], tl[c.right.0 + j]).1
            &&& c.kind == ChunkKind::Ours ==> c.right_emphasis.len() == 0
            &&& c.kind == ChunkKind::Theirs ==> c.left_emphasis.len() == 0
        }),
{
    let s = diffs_snapshot(path, base, ours, theirs, a, b);
    law_chunks_in_order(path, base, ours, theirs, a, b);
    assert(chunk_in_panes(s, i));
    let c = s.chunks[i];
    let bl = split_lines(base).subrange(c.result.0, c.result.1);
    let ol = split_lines(ours).subrange(c.left.0, c.left.1);
    let tl = split_lines(theirs).subrange(c.right.0, c.right.1);
    let sa = segs_of(a);
    let sb = segs_of(b);
    let spans = spans_of(sa, sb);
    assert(c == chunk_spec(i, spans[i], split_lines(base), split_lines(ours), split_lines(theirs), sa, sb));
    assert((c.left_emphasis, c.right_emphasis) == emphasis_spec(c.kind, bl, ol, tl));
    law_chunk_line_emphasis(c.kind, bl, ol, tl, j);
}

/// Changes of both sides whose base ranges overlap or touch always meet in
/// one chunk, and that chunk is an agreement or a conflict: colliding
/// changes are never applied apart.
pub proof fn law_touching_changes_meet(
    path: Seq<char>,
    base: Seq<char>,
    ours: Seq<char>,
    theirs: Seq<char>,
    a: Seq<DiffRange>,
    b: Seq<DiffRange>,
    k: int,
    l: int,
)
    requires
        valid_diffs(base, ours, theirs, a, b),
        0 <= k < segs_of(a).len(),
        0 <= l < segs_of(b).len(),
        segs_of(a)[k].base_start <= segs_of(b)[l].base_end,
        segs_of(b)[l].base_start <= segs_of(a)[k].base_end,
    ensures
        exists|i: int|
            0 <= i < diffs_snapshot(path, base, ours, theirs, a, b).chunks.len() && {
                let c = #[trigger] diffs_snapshot(path, base, ours, theirs, a, b).chunks[i];
                &&& c.result.0 <= segs_of(a)[k].base_start
                &&& segs_of(a)[k].base_end <= c.result.1
                &&& c.result.0 <= segs_of(b)[l].base_start
                &&& segs_of(b)[l].base_end <= c.result.1
                &&& (c.kind == ChunkKind::Agree || c.kind == ChunkKind::Conflict)
            },
{
    lemma_diffs_ctx(base, ours, theirs, a, b);
    let s = diffs_snapshot(path, base, ours, theirs, a, b);
    let sa = segs_of(a);
    let sb = segs_of(b);
    let spans = spans_of(sa, sb);
    reveal(side_cover);
    reveal(side_within);
    reveal(sp_sep);
    reveal(spans_bounded);
    assert(sa[k] == sa[k]);
    assert(sb[l] == sb[l]);
    let i = choose|i: int| 0 <= i < spans.len() && in_span(spans[i], sa[k]);
    let j = choose|j: int| 0 <= j < spans.len() && in_span(spans[j], sb[l]);
    if i < j {
        assert(spans[i].end < spans[j].start);
    }
    if j < i {
        assert(spans[j].end < spans[i].start);
    }
    assert(i == j);
    assert(sa[k].base_start <= sa[k].base_end);
    assert(sb[l].base_start <= sb[l].base_end);
    assert(spans[i].start <= sa[k].base_start <= spans[i].end);
    assert(spans[i].start <= sb[l].base_start <= spans[i].end);
    assert(flag_of(spans[i], true));
    assert(flag_of(spans[i], false));
    let bl = split_lines(base);
    let ol = split_lines(ours);
    let tl = split_lines(theirs);
    assert(s.chunks[i] == chunk_spec(i, spans[i], bl, ol, tl, sa, sb));
}

} // verus!
