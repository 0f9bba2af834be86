//! Word-level emphasis inside chunks: character diffs of line pairs, as
//! UTF-16 offsets (the editor's document coordinates).

use vstd::prelude::*;

use crate::diff::{char_diff, char_diff_ops, is_alignment, lemma_op_bounds, DiffRange, DiffTag};
use crate::merge::{ChunkKind, MAX_EMPHASIS_LINES, MAX_EMPHASIS_LINE_CHARS};
use crate::text::lines_view;

verus! {

/// UTF-16 code units of one character.
pub open spec fn utf16_units(c: char) -> int {
    if (c as u32) >= 0x10000 {
        2
    } else {
        1
    }
}

/// UTF-16 length of a character sequence.
pub open spec fn utf16_len(s: Seq<char>) -> int
    decreases s.len(),
{
    if s.len() == 0 {
        0
    } else {
        utf16_len(s.drop_last()) + utf16_units(s.last())
    }
}

/// The UTF-16 offsets of the characters `start..end` of `chars`; none when
/// the range is empty.
pub open spec fn utf16_range(chars: Seq<char>, start: int, end: int) -> Option<(u32, u32)> {
    if start >= end {
        None
    } else {
        Some((utf16_len(chars.take(start)) as u32, utf16_len(chars.take(end)) as u32))
    }
}

/// Appends an emphasis range, merging it into the last one when they touch.
pub open spec fn append_range_spec(out: Seq<(u32, u32)>, r: Option<(u32, u32)>) -> Seq<(u32, u32)> {
    match r {
        None => out,
        Some((from, to)) => if out.len() > 0 && out.last().1 >= from {
            out.update(
                out.len() - 1,
                (
                    out.last().0,
                    if out.last().1 >= to {
                        out.last().1
                    } else {
                        to
                    },
                ),
            )
        } else {
            out.push((from, to))
        },
    }
}

/// The changed character ranges of an edit script, on both sides.
pub open spec fn emph_fold(ops: Seq<DiffRange>, a: Seq<char>, b: Seq<char>) -> (Seq<(u32, u32)>, Seq<(u32, u32)>)
    decreases ops.len(),
{
    if ops.len() == 0 {
        (Seq::empty(), Seq::empty())
    } else {
        let p = emph_fold(ops.drop_last(), a, b);
        let op = ops.last();
        if op.tag == DiffTag::Equal {
            p
        } else {
            (
                append_range_spec(p.0, utf16_range(a, op.old_start as int, op.old_end as int)),
                append_range_spec(p.1, utf16_range(b, op.new_start as int, op.new_end as int)),
            )
        }
    }
}

/// The word emphasis of two lines: none when they are equal or either is
/// longer than `MAX_EMPHASIS_LINE_CHARS`; else the changed ranges of their
/// character diff.
pub open spec fn line_emph(a: Seq<char>, b: Seq<char>) -> (Seq<(u32, u32)>, Seq<(u32, u32)>) {
    if a == b || a.len() > MAX_EMPHASIS_LINE_CHARS || b.len() > MAX_EMPHASIS_LINE_CHARS {
        (Seq::empty(), Seq::empty())
    } else {
        emph_fold(char_diff(a, b), a, b)
    }
}

/// Emphasis ranges of one line, tagged with the line's index in the chunk.
pub open spec fn tag_ranges(line: int, rs: Seq<(u32, u32)>) -> Seq<[u32; 3]> {
    rs.map_values(|r: (u32, u32)| [line as u32, r.0, r.1])
}

/// Emphasis of the first `k` line pairs of `xs` and `ys`.
pub open spec fn pair_emph(xs: Seq<Seq<char>>, ys: Seq<Seq<char>>, k: int) -> (Seq<[u32; 3]>, Seq<[u32; 3]>)
    decreases k,
{
    if k <= 0 {
        (Seq::empty(), Seq::empty())
    } else {
        let p = pair_emph(xs, ys, k - 1);
        let e = line_emph(xs[k - 1], ys[k - 1]);
        (p.0 + tag_ranges(k - 1, e.0), p.1 + tag_ranges(k - 1, e.1))
    }
}

pub open spec fn min_len(a: int, b: int) -> int {
    if a <= b {
        a
    } else {
        b
    }
}

/// One side's emphasis against the base, line by line (unmatched tail lines
/// get none); none at all for chunks over `MAX_EMPHASIS_LINES` lines.
pub open spec fn side_emph(base: Seq<Seq<char>>, side: Seq<Seq<char>>) -> Seq<[u32; 3]> {
    if side.len() > MAX_EMPHASIS_LINES || base.len() > MAX_EMPHASIS_LINES {
        Seq::empty()
    } else {
        pair_emph(base, side, min_len(base.len() as int, side.len() as int)).1
    }
}

/// Word emphasis of a chunk: a conflict compares ours with theirs; a
/// one-sided or agreeing chunk compares the changed side with the base (an
/// agreeing chunk shows it on both panes).
pub open spec fn emphasis_spec(kind: ChunkKind, base: Seq<Seq<char>>, ours: Seq<Seq<char>>, theirs: Seq<Seq<char>>) -> (Seq<[u32; 3]>, Seq<[u32; 3]>) {
    match kind {
        ChunkKind::Conflict => if ours.len() <= MAX_EMPHASIS_LINES && theirs.len()
            <= MAX_EMPHASIS_LINES {
            pair_emph(ours, theirs, min_len(ours.len() as int, theirs.len() as int))
        } else {
            (Seq::empty(), Seq::empty())
        },
        ChunkKind::Ours => (side_emph(base, ours), Seq::empty()),
        ChunkKind::Agree => (side_emph(base, ours), side_emph(base, ours)),
        ChunkKind::Theirs => (Seq::empty(), side_emph(base, theirs)),
    }
}


/// The ranges of the emphasis rows that name line `j`, in order.
pub open spec fn line_rows(rows: Seq<[u32; 3]>, j: int) -> Seq<(u32, u32)>
    decreases rows.len(),
{
    if rows.len() == 0 {
        Seq::empty()
    } else {
        let p = line_rows(rows.drop_last(), j);
        if rows.last()[0] == j {
            p.push((rows.last()[1], rows.last()[2]))
        } else {
            p
        }
    }
}

/// Picking one line's rows out of two lists of rows, one after the other.
proof fn lemma_line_rows_concat(a: Seq<[u32; 3]>, b: Seq<[u32; 3]>, j: int)
    ensures
        line_rows(a + b, j) == line_rows(a, j) + line_rows(b, j),
    decreases b.len(),
{
    if b.len() == 0 {
        assert(a + b =~= a);
        assert(line_rows(a, j) + line_rows(b, j) =~= line_rows(a, j));
    } else {
        lemma_line_rows_concat(a, b.drop_last(), j);
        assert((a + b).drop_last() =~= a + b.drop_last());
        assert((a + b).last() == b.last());
        assert(line_rows(a + b, j) =~= line_rows(a, j) + line_rows(b, j));
    }
}

/// The rows of line `l` name line `j` exactly when `l == j`.
proof fn lemma_line_rows_tag(l: int, rs: Seq<(u32, u32)>, j: int)
    requires
        0 <= l < MAX_EMPHASIS_LINES,
    ensures
        line_rows(tag_ranges(l, rs), j) == (if l == j {
            rs
        } else {
            Seq::empty()
        }),
    decreases rs.len(),
{
    if rs.len() > 0 {
        lemma_line_rows_tag(l, rs.drop_last(), j);
        assert(tag_ranges(l, rs).drop_last() =~= tag_ranges(l, rs.drop_last()));
        assert(tag_ranges(l, rs).last() == [l as u32, rs.last().0, rs.last().1]);
        if l == j {
            assert(rs.drop_last().push(rs.last()) =~= rs);
        }
    } else {
        assert(tag_ranges(l, rs) =~= Seq::<[u32; 3]>::empty());
    }
}

/// Line by line, the emphasis of the first `k` line pairs: line `j` gets the
/// ranges of the word emphasis of pair `j` on each side when `j < k`, and
/// none otherwise.
proof fn lemma_pair_line_rows(xs: Seq<Seq<char>>, ys: Seq<Seq<char>>, k: int, j: int)
    requires
        k <= MAX_EMPHASIS_LINES,
    ensures
        line_rows(pair_emph(xs, ys, k).0, j) == (if 0 <= j < k {
            line_emph(xs[j], ys[j]).0
        } else {
            Seq::empty()
        }),
        line_rows(pair_emph(xs, ys, k).1, j) == (if 0 <= j < k {
            line_emph(xs[j], ys[j]).1
        } else {
            Seq::empty()
        }),
    decreases k,
{
    if k > 0 {
        lemma_pair_line_rows(xs, ys, k - 1, j);
        let p = pair_emph(xs, ys, k - 1);
        let e = line_emph(xs[k - 1], ys[k - 1]);
        lemma_line_rows_concat(p.0, tag_ranges(k - 1, e.0), j);
        lemma_line_rows_concat(p.1, tag_ranges(k - 1, e.1), j);
        lemma_line_rows_tag(k - 1, e.0, j);
        lemma_line_rows_tag(k - 1, e.1, j);
        assert(line_rows(pair_emph(xs, ys, k).0, j) =~= (if 0 <= j < k {
            line_emph(xs[j], ys[j]).0
        } else {
            Seq::empty()
        }));
        assert(line_rows(pair_emph(xs, ys, k).1, j) =~= (if 0 <= j < k {
            line_emph(xs[j], ys[j]).1
        } else {
            Seq::empty()
        }));
    } else {
        assert(line_rows(Seq::<[u32; 3]>::empty(), j) =~= Seq::<(u32, u32)>::empty());
    }
}

/// What a chunk's word emphasis says of each of its lines. In a chunk of at
/// most `MAX_EMPHASIS_LINES` lines on the panes compared, line `j` of a pane
/// carries exactly the word emphasis of line pair `j` on that pane's side:
/// - one-sided or agreeing chunks compare the changed side's line `j` with
///   base line `j`, shown on the changed pane (both panes when they agree),
///   for every `j` that both have; the other pane of a one-sided chunk, and
///   lines past the shorter of base and side, get none;
/// - a conflict compares our line `j` with their line `j`, each pane showing
///   its own side, for every `j` that both sides have; longer tails get none.
/// Larger chunks get no emphasis at all.
pub proof fn law_chunk_line_emphasis(
    kind: ChunkKind,
    base: Seq<Seq<char>>,
    ours: Seq<Seq<char>>,
    theirs: Seq<Seq<char>>,
    j: int,
)
    ensures
        (kind == ChunkKind::Ours || kind == ChunkKind::Agree) && base.len() <= MAX_EMPHASIS_LINES && ours.len()
            <= MAX_EMPHASIS_LINES ==> line_rows(emphasis_spec(kind, base, ours, theirs).0, j) == (if 0 <= j
            < base.len() && j < ours.len() {
            line_emph(base[j], ours[j]).1
        } else {
            Seq::empty()
        }),
        kind == ChunkKind::Agree && base.len() <= MAX_EMPHASIS_LINES && ours.len() <= MAX_EMPHASIS_LINES
            ==> line_rows(emphasis_spec(kind, base, ours, theirs).1, j) == (if 0 <= j < base.len() && j
            < ours.len() {
            line_emph(base[j], ours[j]).1
        } else {
            Seq::empty()
        }),
        kind == ChunkKind::Theirs && base.len() <= MAX_EMPHASIS_LINES && theirs.len() <= MAX_EMPHASIS_LINES
            ==> line_rows(emphasis_spec(kind, base, ours, theirs).1, j) == (if 0 <= j < base.len() && j
            < theirs.len() {
            line_emph(base[j], theirs[j]).1
        } else {
            Seq::empty()
        }),
        kind == ChunkKind::Ours ==> emphasis_spec(kind, base, ours, theirs).1.len() == 0,
        kind == ChunkKind::Theirs ==> emphasis_spec(kind, base, ours, theirs).0.len() == 0,
        kind == ChunkKind::Conflict && ours.len() <= MAX_EMPHASIS_LINES && theirs.len() <= MAX_EMPHASIS_LINES
            ==> line_rows(emphasis_spec(kind, base, ours, theirs).0, j) == (if 0 <= j < ours.len() && j
            < theirs.len() {
            line_emph(ours[j], theirs[j]).0
        } else {
            Seq::empty()
        }),
        kind == ChunkKind::Conflict && ours.len() <= MAX_EMPHASIS_LINES && theirs.len() <= MAX_EMPHASIS_LINES
            ==> line_rows(emphasis_spec(kind, base, ours, theirs).1, j) == (if 0 <= j < ours.len() && j
            < theirs.len() {
            line_emph(ours[j], theirs[j]).1
        } else {
            Seq::empty()
        }),
        base.len() > MAX_EMPHASIS_LINES && kind != ChunkKind::Conflict ==> emphasis_spec(
            kind,
            base,
            ours,
            theirs,
        ).0.len() == 0 && emphasis_spec(kind, base, ours, theirs).1.len() == 0,
        (ours.len() > MAX_EMPHASIS_LINES || theirs.len() > MAX_EMPHASIS_LINES) && kind == ChunkKind::Conflict
            ==> emphasis_spec(kind, base, ours, theirs).0.len() == 0 && emphasis_spec(kind, base, ours, theirs).1.len()
            == 0,
{
    if base.len() <= MAX_EMPHASIS_LINES && ours.len() <= MAX_EMPHASIS_LINES {
        lemma_pair_line_rows(base, ours, min_len(base.len() as int, ours.len() as int), j);
    }
    if base.len() <= MAX_EMPHASIS_LINES && theirs.len() <= MAX_EMPHASIS_LINES {
        lemma_pair_line_rows(base, theirs, min_len(base.len() as int, theirs.len() as int), j);
    }
    if ours.len() <= MAX_EMPHASIS_LINES && theirs.len() <= MAX_EMPHASIS_LINES {
        lemma_pair_line_rows(ours, theirs, min_len(ours.len() as int, theirs.len() as int), j);
    }
}

/// `utf16_len` grows by one or two units per character.
pub proof fn lemma_utf16_len_bound(s: Seq<char>)
    ensures
        s.len() <= utf16_len(s) <= 2 * s.len(),
    decreases s.len(),
{
    if s.len() > 0 {
        lemma_utf16_len_bound(s.drop_last());
    }
}

/// The UTF-16 code units of `c`.
fn utf16_units_of(c: char) -> (n: u32)
    ensures
        n == utf16_units(c),
{
    if (c as u32) >= 0x10000 {
        2
    } else {
        1
    }
}

/// The UTF-16 offsets of the characters `start..end` of a line.
fn char_range_to_utf16(chars: &Vec<char>, start: usize, end: usize) -> (r: Option<(u32, u32)>)
    requires
        start <= end <= chars.len() <= MAX_EMPHASIS_LINE_CHARS,
    ensures
        r == utf16_range(chars@, start as int, end as int),
{
    if start >= end {
        return None;
    }
    let mut acc: u32 = 0;
    let mut from: u32 = 0;
    let mut i: usize = 0;
    while i < end
        invariant
            start < end <= chars.len() <= MAX_EMPHASIS_LINE_CHARS,
            i <= end,
            acc == utf16_len(chars@.take(i as int)),
            i > start ==> from == utf16_len(chars@.take(start as int)),
        decreases end - i,
    {
        proof {
            lemma_utf16_len_bound(chars@.take(i as int));
        }
        if i == start {
            from = acc;
        }
        acc = acc + utf16_units_of(chars[i]);
        proof {
            assert(chars@.take(i + 1).drop_last() =~= chars@.take(i as int));
        }
        i = i + 1;
    }
    proof {
        lemma_utf16_len_bound(chars@.take(start as int));
        lemma_utf16_len_bound(chars@.take(end as int));
    }
    Some((from, acc))
}

/// Appends an emphasis range, merging it into the last one when they touch
/// (see `append_range_spec`).
fn append_range(out: &mut Vec<(u32, u32)>, r: Option<(u32, u32)>)
    ensures
        final(out)@ == append_range_spec(old(out)@, r),
{
    if let Some((from, to)) = r {
        let n = out.len();
        if n > 0 && out[n - 1].1 >= from {
            let last = out[n - 1];
            let end = if last.1 >= to {
                last.1
            } else {
                to
            };
            out.set(n - 1, (last.0, end));
        } else {
            out.push((from, to));
        }
    }
}

/// Whether two lines are equal.
pub fn chars_equal(a: &Vec<char>, b: &Vec<char>) -> (r: bool)
    ensures
        r == (a@ == b@),
{
    if a.len() != b.len() {
        return false;
    }
    let mut i: usize = 0;
    while i < a.len()
        invariant
            a.len() == b.len(),
            i <= a.len(),
            forall|j: int| 0 <= j < i ==> a@[j] == b@[j],
        decreases a.len() - i,
    {
        if a[i] != b[i] {
            return false;
        }
        i = i + 1;
    }
    assert(a@ =~= b@);
    true
}

/// Whether a line is too long for word emphasis.
pub fn too_long(line: &Vec<char>) -> (r: bool)
    ensures
        r == (line.len() > MAX_EMPHASIS_LINE_CHARS),
{
    line.len() > MAX_EMPHASIS_LINE_CHARS
}

/// The changed ranges of an edit script between two lines, in UTF-16
/// offsets on both sides (see `emph_fold`).
pub fn diff_ranges(ops: &Vec<DiffRange>, a: &Vec<char>, b: &Vec<char>) -> (r: (Vec<(u32, u32)>, Vec<(u32, u32)>))
    requires
        is_alignment(ops@, a@, b@),
        a.len() <= MAX_EMPHASIS_LINE_CHARS,
        b.len() <= MAX_EMPHASIS_LINE_CHARS,
    ensures
        (r.0@, r.1@) == emph_fold(ops@, a@, b@),
        ranges_ok(r.0@, utf16_len(a@)),
        ranges_ok(r.1@, utf16_len(b@)),
        a@ != b@ ==> r.0@.len() + r.1@.len() > 0,
{
    proof {
        law_emphasis_ranges(ops@, a@, b@);
        if a@ != b@ {
            lemma_fold_nonempty(ops@, a@, b@);
        }
    }
    let mut ra: Vec<(u32, u32)> = Vec::new();
    let mut rb: Vec<(u32, u32)> = Vec::new();
    let mut i: usize = 0;
    while i < ops.len()
        invariant
            is_alignment(ops@, a@, b@),
            a.len() <= MAX_EMPHASIS_LINE_CHARS,
            b.len() <= MAX_EMPHASIS_LINE_CHARS,
            i <= ops.len(),
            (ra@, rb@) == emph_fold(ops@.take(i as int), a@, b@),
        decreases ops.len() - i,
    {
        let op = ops[i];
        proof {
            lemma_op_bounds(ops@, a@, b@, i as int);
            assert(ops@.take(i + 1).drop_last() =~= ops@.take(i as int));
            assert(ops@.take(i + 1).last() == op);
        }
        if op.tag != DiffTag::Equal {
            let x = char_range_to_utf16(a, op.old_start, op.old_end);
            let y = char_range_to_utf16(b, op.new_start, op.new_end);
            append_range(&mut ra, x);
            append_range(&mut rb, y);
        }
        i = i + 1;
    }
    proof {
        assert(ops@.take(ops@.len() as int) =~= ops@);
    }
    (ra, rb)
}

/// The word emphasis of two lines (see `line_emph`).
pub fn line_emphasis(a: &Vec<char>, b: &Vec<char>) -> (r: (Vec<(u32, u32)>, Vec<(u32, u32)>))
    ensures
        (r.0@, r.1@) == line_emph(a@, b@),
        ranges_ok(r.0@, utf16_len(a@)),
        ranges_ok(r.1@, utf16_len(b@)),
        a@ != b@ && a.len() <= MAX_EMPHASIS_LINE_CHARS && b.len() <= MAX_EMPHASIS_LINE_CHARS ==> r.0@.len()
            + r.1@.len() > 0,
{
    if chars_equal(a, b) || too_long(a) || too_long(b) {
        return (Vec::new(), Vec::new());
    }
    let ops = char_diff_ops(a, b);
    diff_ranges(&ops, a, b)
}

/// Appends one line's emphasis ranges, tagged with the line index.
fn push_ranges(out: &mut Vec<[u32; 3]>, line: usize, ranges: &Vec<(u32, u32)>)
    requires
        line < MAX_EMPHASIS_LINES,
    ensures
        final(out)@ == old(out)@ + tag_ranges(line as int, ranges@),
{
    let ghost start = out@;
    let mut j: usize = 0;
    while j < ranges.len()
        invariant
            line < MAX_EMPHASIS_LINES,
            j <= ranges.len(),
            out@ == start + tag_ranges(line as int, ranges@.take(j as int)),
        decreases ranges.len() - j,
    {
        let r = ranges[j];
        out.push([line as u32, r.0, r.1]);
        proof {
            assert(ranges@.take(j + 1) =~= ranges@.take(j as int).push(r));
            assert(tag_ranges(line as int, ranges@.take(j + 1)) =~= tag_ranges(
                line as int,
                ranges@.take(j as int),
            ).push([line as u32, r.0, r.1]));
            assert(out@ =~= start + tag_ranges(line as int, ranges@.take(j + 1)));
        }
        j = j + 1;
    }
    proof {
        assert(ranges@.take(ranges@.len() as int) =~= ranges@);
    }
}

/// Every emphasis row names a line of `lines` and a non-empty UTF-16 range
/// within that line, and the rows come in line order, those of one line in
/// order with a gap between each two.
pub open spec fn rows_within(rows: Seq<[u32; 3]>, lines: Seq<Seq<char>>) -> bool {
    &&& forall|j: int|
        0 <= j < rows.len() ==> {
            &&& (#[trigger] rows[j])[0] < lines.len()
            &&& rows[j][1] < rows[j][2] <= utf16_len(lines[rows[j][0] as int])
        }
    &&& rows_ordered(rows)
}

/// Rows come in line order; those of one line in order and apart.
pub open spec fn rows_ordered(rows: Seq<[u32; 3]>) -> bool {
    forall|p: int, q: int|
        0 <= p < q < rows.len() ==> (#[trigger] rows[p])[0] < (#[trigger] rows[q])[0] || (rows[p][0]
            == rows[q][0] && rows[p][2] < rows[q][1])
}

/// Every row names a line before `k`.
pub open spec fn rows_below(rows: Seq<[u32; 3]>, k: int) -> bool {
    forall|j: int| 0 <= j < rows.len() ==> (#[trigger] rows[j])[0] < k
}

/// Line pair `j` of `xs` and `ys` has well-formed emphasis ranges on both
/// sides.
pub open spec fn pair_ok(xs: Seq<Seq<char>>, ys: Seq<Seq<char>>, j: int) -> bool {
    &&& ranges_ok(line_emph(xs[j], ys[j]).0, utf16_len(xs[j]))
    &&& ranges_ok(line_emph(xs[j], ys[j]).1, utf16_len(ys[j]))
    &&& short_differing(xs[j], ys[j]) ==> line_emph(xs[j], ys[j]).0.len() + line_emph(xs[j], ys[j]).1.len() > 0
}

/// Two lines differ and both are short enough for word emphasis.
pub open spec fn short_differing(a: Seq<char>, b: Seq<char>) -> bool {
    a != b && a.len() <= MAX_EMPHASIS_LINE_CHARS && b.len() <= MAX_EMPHASIS_LINE_CHARS
}

/// Some emphasis row names line `j`.
pub open spec fn has_row(rows: Seq<[u32; 3]>, j: int) -> bool {
    exists|q: int| 0 <= q < rows.len() && (#[trigger] rows[q])[0] == j
}

/// A differing pair of short lines among the first `k` gets some emphasis
/// row on one side or the other.
proof fn lemma_pair_rows_present(xs: Seq<Seq<char>>, ys: Seq<Seq<char>>, k: int, j: int)
    requires
        0 <= j < k <= xs.len(),
        k <= ys.len(),
        k <= MAX_EMPHASIS_LINES,
        forall|i: int| 0 <= i < k ==> #[trigger] pair_ok(xs, ys, i),
        short_differing(xs[j], ys[j]),
    ensures
        has_row(pair_emph(xs, ys, k).0, j) || has_row(pair_emph(xs, ys, k).1, j),
    decreases k,
{
    let p = pair_emph(xs, ys, k - 1);
    let e = line_emph(xs[k - 1], ys[k - 1]);
    let l = p.0 + tag_ranges(k - 1, e.0);
    let r = p.1 + tag_ranges(k - 1, e.1);
    if j < k - 1 {
        lemma_pair_rows_present(xs, ys, k - 1, j);
        if has_row(p.0, j) {
            let q = choose|q: int| 0 <= q < p.0.len() && (#[trigger] p.0[q])[0] == j;
            assert(l[q] == p.0[q]);
        } else {
            let q = choose|q: int| 0 <= q < p.1.len() && (#[trigger] p.1[q])[0] == j;
            assert(r[q] == p.1[q]);
        }
    } else {
        assert(pair_ok(xs, ys, k - 1));
        if e.0.len() > 0 {
            assert(l[p.0.len() as int] == tag_ranges(k - 1, e.0)[0]);
        } else {
            assert(r[p.1.len() as int] == tag_ranges(k - 1, e.1)[0]);
        }
    }
}

/// Appending the well-formed ranges of line `line` to ordered rows of
/// earlier lines keeps them ordered.
proof fn lemma_tagged_rows(rows: Seq<[u32; 3]>, line: int, rs: Seq<(u32, u32)>, limit: int)
    requires
        0 <= line < MAX_EMPHASIS_LINES,
        rows_ordered(rows),
        rows_below(rows, line),
        ranges_ok(rs, limit),
    ensures
        rows_ordered(rows + tag_ranges(line, rs)),
        rows_below(rows + tag_ranges(line, rs), line + 1),
{
    let l = rows + tag_ranges(line, rs);
    let n = rows.len() as int;
    assert forall|p: int, q: int| 0 <= p < q < l.len() implies (#[trigger] l[p])[0] < (#[trigger] l[q])[0]
        || (l[p][0] == l[q][0] && l[p][2] < l[q][1]) by {
        if q < n {
            assert(l[p] == rows[p] && l[q] == rows[q]);
        } else if p < n {
            assert(l[p] == rows[p]);
            assert(l[q] == tag_ranges(line, rs)[q - n]);
        } else {
            assert(l[p] == tag_ranges(line, rs)[p - n]);
            assert(l[q] == tag_ranges(line, rs)[q - n]);
            assert(rs[p - n].1 < rs[q - n].0);
        }
    }
    assert forall|j: int| 0 <= j < l.len() implies (#[trigger] l[j])[0] < line + 1 by {
        if j < n {
            assert(l[j] == rows[j]);
        } else {
            assert(l[j] == tag_ranges(line, rs)[j - n]);
        }
    }
}

/// Well-formed line pairs give emphasis rows within their lines.
proof fn lemma_pair_rows_within(xs: Seq<Seq<char>>, ys: Seq<Seq<char>>, k: int)
    requires
        0 <= k <= xs.len(),
        k <= ys.len(),
        k <= MAX_EMPHASIS_LINES,
        forall|j: int| 0 <= j < k ==> #[trigger] pair_ok(xs, ys, j),
    ensures
        rows_within(pair_emph(xs, ys, k).0, xs),
        rows_within(pair_emph(xs, ys, k).1, ys),
        rows_below(pair_emph(xs, ys, k).0, k),
        rows_below(pair_emph(xs, ys, k).1, k),
    decreases k,
{
    if k > 0 {
        lemma_pair_rows_within(xs, ys, k - 1);
        let p = pair_emph(xs, ys, k - 1);
        let e = line_emph(xs[k - 1], ys[k - 1]);
        assert(pair_ok(xs, ys, k - 1));
        lemma_tagged_rows(p.0, k - 1, e.0, utf16_len(xs[k - 1]));
        lemma_tagged_rows(p.1, k - 1, e.1, utf16_len(ys[k - 1]));
        let l = p.0 + tag_ranges(k - 1, e.0);
        let r = p.1 + tag_ranges(k - 1, e.1);
        assert forall|j: int| 0 <= j < l.len() implies {
            &&& (#[trigger] l[j])[0] < xs.len()
            &&& l[j][1] < l[j][2] <= utf16_len(xs[l[j][0] as int])
        } by {
            if j >= p.0.len() {
                let q = j - p.0.len();
                assert(l[j] == tag_ranges(k - 1, e.0)[q]);
                assert(e.0[q].0 < e.0[q].1 <= utf16_len(xs[k - 1]));
            } else {
                assert(l[j] == p.0[j]);
            }
        }
        assert forall|j: int| 0 <= j < r.len() implies {
            &&& (#[trigger] r[j])[0] < ys.len()
            &&& r[j][1] < r[j][2] <= utf16_len(ys[r[j][0] as int])
        } by {
            if j >= p.1.len() {
                let q = j - p.1.len();
                assert(r[j] == tag_ranges(k - 1, e.1)[q]);
                assert(e.1[q].0 < e.1[q].1 <= utf16_len(ys[k - 1]));
            } else {
                assert(r[j] == p.1[j]);
            }
        }
    }
}

/// Emphasis of the first `n` line pairs of `xs[xlo..xhi]` and `ys[ylo..yhi]`.
fn pair_emphasis(
    xs: &Vec<Vec<char>>,
    xlo: usize,
    xhi: usize,
    ys: &Vec<Vec<char>>,
    ylo: usize,
    yhi: usize,
    n: usize,
) -> (r: (Vec<[u32; 3]>, Vec<[u32; 3]>))
    requires
        xlo <= xhi <= xs.len(),
        ylo <= yhi <= ys.len(),
        n <= xhi - xlo,
        n <= yhi - ylo,
        n <= MAX_EMPHASIS_LINES,
    ensures
        (r.0@, r.1@) == pair_emph(
            lines_view(xs).subrange(xlo as int, xhi as int),
            lines_view(ys).subrange(ylo as int, yhi as int),
            n as int,
        ),
        rows_within(r.0@, lines_view(xs).subrange(xlo as int, xhi as int)),
        rows_within(r.1@, lines_view(ys).subrange(ylo as int, yhi as int)),
        forall|j: int|
            0 <= j < n ==> #[trigger] pair_ok(
                lines_view(xs).subrange(xlo as int, xhi as int),
                lines_view(ys).subrange(ylo as int, yhi as int),
                j,
            ),
{
    let ghost xsub = lines_view(xs).subrange(xlo as int, xhi as int);
    let ghost ysub = lines_view(ys).subrange(ylo as int, yhi as int);
    let mut l: Vec<[u32; 3]> = Vec::new();
    let mut r: Vec<[u32; 3]> = Vec::new();
    let mut i: usize = 0;
    while i < n
        invariant
            xlo <= xhi <= xs.len(),
            ylo <= yhi <= ys.len(),
            n <= xhi - xlo,
            n <= yhi - ylo,
            n <= MAX_EMPHASIS_LINES,
            xsub == lines_view(xs).subrange(xlo as int, xhi as int),
            ysub == lines_view(ys).subrange(ylo as int, yhi as int),
            i <= n,
            (l@, r@) == pair_emph(xsub, ysub, i as int),
            forall|j: int| 0 <= j < i ==> #[trigger] pair_ok(xsub, ysub, j),
        decreases n - i,
    {
        let e = line_emphasis(&xs[xlo + i], &ys[ylo + i]);
        proof {
            assert(xsub[i as int] == xs@[xlo + i]@);
            assert(ysub[i as int] == ys@[ylo + i]@);
            assert(pair_ok(xsub, ysub, i as int));
        }
        push_ranges(&mut l, i, &e.0);
        push_ranges(&mut r, i, &e.1);
        i = i + 1;
    }
    proof {
        lemma_pair_rows_within(xsub, ysub, n as int);
    }
    (l, r)
}

/// One side's emphasis against the base (see `side_emph`).
fn side_emphasis(
    base: &Vec<Vec<char>>,
    blo: usize,
    bhi: usize,
    side: &Vec<Vec<char>>,
    slo: usize,
    shi: usize,
) -> (r: Vec<[u32; 3]>)
    requires
        blo <= bhi <= base.len(),
        slo <= shi <= side.len(),
    ensures
        r@ == side_emph(
            lines_view(base).subrange(blo as int, bhi as int),
            lines_view(side).subrange(slo as int, shi as int),
        ),
        rows_within(r@, lines_view(side).subrange(slo as int, shi as int)),
{
    if shi - slo > MAX_EMPHASIS_LINES || bhi - blo > MAX_EMPHASIS_LINES {
        return Vec::new();
    }
    let n = if bhi - blo <= shi - slo {
        bhi - blo
    } else {
        shi - slo
    };
    let e = pair_emphasis(base, blo, bhi, side, slo, shi, n);
    e.1
}

/// A copy of an emphasis list.
fn copy_emphasis(v: &Vec<[u32; 3]>) -> (r: Vec<[u32; 3]>)
    ensures
        r@ == v@,
{
    let mut r: Vec<[u32; 3]> = Vec::new();
    let mut i: usize = 0;
    while i < v.len()
        invariant
            i <= v.len(),
            r@ == v@.take(i as int),
        decreases v.len() - i,
    {
        r.push(v[i]);
        proof {
            assert(v@.take(i + 1) =~= v@.take(i as int).push(v@[i as int]));
        }
        i = i + 1;
    }
    proof {
        assert(v@.take(v@.len() as int) =~= v@);
    }
    r
}

/// The word emphasis of one chunk (see `emphasis_spec`).
pub fn emphasis(
    kind: ChunkKind,
    b: &Vec<Vec<char>>,
    blo: usize,
    bhi: usize,
    o: &Vec<Vec<char>>,
    olo: usize,
    ohi: usize,
    t: &Vec<Vec<char>>,
    tlo: usize,
    thi: usize,
) -> (r: (Vec<[u32; 3]>, Vec<[u32; 3]>))
    requires
        blo <= bhi <= b.len(),
        olo <= ohi <= o.len(),
        tlo <= thi <= t.len(),
    ensures
        (r.0@, r.1@) == emphasis_spec(
            kind,
            lines_view(b).subrange(blo as int, bhi as int),
            lines_view(o).subrange(olo as int, ohi as int),
            lines_view(t).subrange(tlo as int, thi as int),
        ),
        rows_within(r.0@, lines_view(o).subrange(olo as int, ohi as int)),
        rows_within(
            r.1@,
            if kind == ChunkKind::Agree {
                lines_view(o).subrange(olo as int, ohi as int)
            } else {
                lines_view(t).subrange(tlo as int, thi as int)
            },
        ),
        kind == ChunkKind::Conflict && ohi - olo <= MAX_EMPHASIS_LINES && thi - tlo <= MAX_EMPHASIS_LINES
            ==> forall|j: int|
            0 <= j < ohi - olo && j < thi - tlo && #[trigger] short_differing(
                lines_view(o)[olo + j],
                lines_view(t)[tlo + j],
            ) ==> has_row(r.0@, j) || has_row(r.1@, j),
{
    match kind {
        ChunkKind::Conflict => {
            if ohi - olo <= MAX_EMPHASIS_LINES && thi - tlo <= MAX_EMPHASIS_LINES {
                let n = if ohi - olo <= thi - tlo {
                    ohi - olo
                } else {
                    thi - tlo
                };
                let e = pair_emphasis(o, olo, ohi, t, tlo, thi, n);
                proof {
                    let xsub = lines_view(o).subrange(olo as int, ohi as int);
                    let ysub = lines_view(t).subrange(tlo as int, thi as int);
                    assert forall|j: int|
                        0 <= j < ohi - olo && j < thi - tlo && #[trigger] short_differing(
                            lines_view(o)[olo + j],
                            lines_view(t)[tlo + j],
                        ) implies has_row(e.0@, j) || has_row(e.1@, j) by {
                        assert(xsub[j] == lines_view(o)[olo + j]);
                        assert(ysub[j] == lines_view(t)[tlo + j]);
                        lemma_pair_rows_present(xsub, ysub, n as int, j);
                    }
                }
                e
            } else {
                (Vec::new(), Vec::new())
            }
        },
        ChunkKind::Ours => (side_emphasis(b, blo, bhi, o, olo, ohi), Vec::new()),
        ChunkKind::Agree => {
            let e = side_emphasis(b, blo, bhi, o, olo, ohi);
            let copy = copy_emphasis(&e);
            (e, copy)
        },
        ChunkKind::Theirs => (Vec::new(), side_emphasis(b, blo, bhi, t, tlo, thi)),
    }
}


/// Ranges that are non-empty, end by `limit`, and come in order with a gap
/// between each two.
pub open spec fn ranges_ok(rs: Seq<(u32, u32)>, limit: int) -> bool {
    &&& forall|i: int| 0 <= i < rs.len() ==> (#[trigger] rs[i]).0 < rs[i].1 <= limit
    &&& forall|i: int, j: int| 0 <= i < j < rs.len() ==> (#[trigger] rs[i]).1 < (#[trigger] rs[j]).0
}

/// A longer prefix has at least one more UTF-16 unit per extra character.
proof fn lemma_utf16_take_grows(s: Seq<char>, i: int, j: int)
    requires
        0 <= i <= j <= s.len(),
    ensures
        utf16_len(s.take(i)) + (j - i) <= utf16_len(s.take(j)),
    decreases j - i,
{
    if i < j {
        lemma_utf16_take_grows(s, i, j - 1);
        assert(s.take(j).drop_last() =~= s.take(j - 1));
    }
}

/// Appending a range that starts at or after every range so far, and ends
/// by `limit`, keeps the ranges in order and apart.
proof fn lemma_append_range_ok(rs: Seq<(u32, u32)>, old_limit: int, f: u32, t: u32, limit: int)
    requires
        ranges_ok(rs, old_limit),
        old_limit <= f,
        f < t <= limit,
    ensures
        ranges_ok(append_range_spec(rs, Some((f, t))), limit),
{
    let r = append_range_spec(rs, Some((f, t)));
    let n = rs.len();
    if n > 0 && rs.last().1 >= f {
        assert(rs.last() == rs[n - 1]);
        assert forall|i: int| 0 <= i < r.len() implies (#[trigger] r[i]).0 < r[i].1 <= limit by {
            if i < n - 1 {
                assert(r[i] == rs[i]);
            }
        }
        assert forall|i: int, j: int| 0 <= i < j < r.len() implies (#[trigger] r[i]).1 < (#[trigger] r[j]).0 by {
            assert(r[i] == rs[i]);
            if j < n - 1 {
                assert(r[j] == rs[j]);
            }
        }
    } else {
        if n > 0 {
            assert(rs.last() == rs[n - 1]);
        }
        assert forall|i: int, j: int| 0 <= i < j < r.len() implies (#[trigger] r[i]).1 < (#[trigger] r[j]).0 by {
            assert(r[i] == rs[i]);
            if j < n {
                assert(r[j] == rs[j]);
            } else if i < n - 1 {
                assert(rs[i].1 < rs[n - 1].0);
            }
        }
    }
}

proof fn lemma_fold_ok(ops: Seq<DiffRange>, a: Seq<char>, b: Seq<char>, k: int)
    requires
        is_alignment(ops, a, b),
        a.len() <= MAX_EMPHASIS_LINE_CHARS,
        b.len() <= MAX_EMPHASIS_LINE_CHARS,
        0 <= k <= ops.len(),
    ensures
        ranges_ok(
            emph_fold(ops.take(k), a, b).0,
            utf16_len(a.take(if k == 0 {
                0
            } else {
                ops[k - 1].old_end as int
            })),
        ),
        ranges_ok(
            emph_fold(ops.take(k), a, b).1,
            utf16_len(b.take(if k == 0 {
                0
            } else {
                ops[k - 1].new_end as int
            })),
        ),
    decreases k,
{
    if k == 0 {
        assert(ops.take(0) =~= Seq::<DiffRange>::empty());
    } else {
        lemma_fold_ok(ops, a, b, k - 1);
        let op = ops[k - 1];
        lemma_op_bounds(ops, a, b, k - 1);
        let os = if k - 1 == 0 {
            0
        } else {
            ops[k - 2].old_end as int
        };
        let ns = if k - 1 == 0 {
            0
        } else {
            ops[k - 2].new_end as int
        };
        assert(op.old_start == os && op.new_start == ns);
        assert(ops.take(k).drop_last() =~= ops.take(k - 1));
        assert(ops.take(k).last() == op);
        let p = emph_fold(ops.take(k - 1), a, b);
        lemma_utf16_take_grows(a, os, op.old_end as int);
        lemma_utf16_take_grows(b, ns, op.new_end as int);
        lemma_utf16_len_bound(a.take(op.old_end as int));
        lemma_utf16_len_bound(b.take(op.new_end as int));
        lemma_utf16_len_bound(a.take(os));
        lemma_utf16_len_bound(b.take(ns));
        let la = utf16_len(a.take(os));
        let lb = utf16_len(b.take(ns));
        let ea = utf16_len(a.take(op.old_end as int));
        let eb = utf16_len(b.take(op.new_end as int));
        if op.tag != DiffTag::Equal {
            if os < op.old_end {
                lemma_append_range_ok(p.0, la, la as u32, ea as u32, ea);
            }
            if ns < op.new_end {
                lemma_append_range_ok(p.1, lb, lb as u32, eb as u32, eb);
            }
        }
    }
}

/// The emphasis ranges of a line are non-empty, ordered, apart from one
/// another (touching ranges are merged) and within the line's UTF-16
/// length, on both sides, for any edit script between the two lines.
pub proof fn law_emphasis_ranges(ops: Seq<DiffRange>, a: Seq<char>, b: Seq<char>)
    requires
        is_alignment(ops, a, b),
        a.len() <= MAX_EMPHASIS_LINE_CHARS,
        b.len() <= MAX_EMPHASIS_LINE_CHARS,
    ensures
        ranges_ok(emph_fold(ops, a, b).0, utf16_len(a)),
        ranges_ok(emph_fold(ops, a, b).1, utf16_len(b)),
{
    lemma_fold_ok(ops, a, b, ops.len() as int);
    assert(ops.take(ops.len() as int) =~= ops);
    if ops.len() > 0 {
        assert(a.take(a.len() as int) =~= a);
        assert(b.take(b.len() as int) =~= b);
    } else {
        assert(a.len() == 0 && b.len() == 0);
        assert(a.take(0) =~= a);
        assert(b.take(0) =~= b);
    }
}


/// With both sides' changed ranges empty up to operation `k`, the two lines
/// agree up to where the script has reached.
proof fn lemma_fold_empty(ops: Seq<DiffRange>, a: Seq<char>, b: Seq<char>, k: int)
    requires
        is_alignment(ops, a, b),
        0 <= k <= ops.len(),
        emph_fold(ops.take(k), a, b).0.len() == 0,
        emph_fold(ops.take(k), a, b).1.len() == 0,
    ensures
        a.take(if k == 0 {
            0
        } else {
            ops[k - 1].old_end as int
        }) == b.take(if k == 0 {
            0
        } else {
            ops[k - 1].new_end as int
        }),
    decreases k,
{
    if k == 0 {
        assert(a.take(0) =~= b.take(0));
    } else {
        let op = ops[k - 1];
        lemma_op_bounds(ops, a, b, k - 1);
        assert(ops.take(k).drop_last() =~= ops.take(k - 1));
        assert(ops.take(k).last() == op);
        let p = emph_fold(ops.take(k - 1), a, b);
        let os = if k - 1 == 0 {
            0
        } else {
            ops[k - 2].old_end as int
        };
        let ns = if k - 1 == 0 {
            0
        } else {
            ops[k - 2].new_end as int
        };
        assert(op.old_start == os && op.new_start == ns);
        if op.tag != DiffTag::Equal {
            assert(append_range_spec(p.0, utf16_range(a, os, op.old_end as int)).len() >= p.0.len());
            assert(append_range_spec(p.1, utf16_range(b, ns, op.new_end as int)).len() >= p.1.len());
        }
        lemma_fold_empty(ops, a, b, k - 1);
        if op.tag == DiffTag::Equal {
            assert(a.take(op.old_end as int) =~= a.take(os) + a.subrange(os, op.old_end as int));
            assert(b.take(op.new_end as int) =~= b.take(ns) + b.subrange(ns, op.new_end as int));
        } else {
            assert(op.old_end as int == os);
            assert(op.new_end as int == ns);
        }
    }
}

/// An edit script between two different lines marks some range on one side.
proof fn lemma_fold_nonempty(ops: Seq<DiffRange>, a: Seq<char>, b: Seq<char>)
    requires
        is_alignment(ops, a, b),
        a != b,
    ensures
        emph_fold(ops, a, b).0.len() + emph_fold(ops, a, b).1.len() > 0,
{
    assert(ops.take(ops.len() as int) =~= ops);
    if emph_fold(ops, a, b).0.len() + emph_fold(ops, a, b).1.len() == 0 {
        lemma_fold_empty(ops, a, b, ops.len() as int);
        if ops.len() > 0 {
            assert(a.take(a.len() as int) =~= a);
            assert(b.take(b.len() as int) =~= b);
        } else {
            assert(a =~= b);
        }
    }
}

} // verus!
