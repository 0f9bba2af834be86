//! Grouping the changed stretches of both sides into collision clusters: a
//! stretch that starts at or before the end of the current group (by base
//! line) joins it. Deliberately conservative: touching changes collide.

use vstd::prelude::*;

use crate::diff::Seg;

verus! {

/// A collision cluster: the base lines `start..end` and which sides changed
/// something there.
#[derive(Clone, Copy, Debug, PartialEq, Eq, Structural)]
pub struct Span {
    pub start: usize,
    pub end: usize,
    pub has_a: bool,
    pub has_b: bool,
}

/// The changed stretches of both sides in base order (ties: side A first),
/// each tagged with whether it comes from side A.
pub open spec fn merge_segs(a: Seq<Seg>, b: Seq<Seg>) -> Seq<(Seg, bool)>
    decreases a.len() + b.len(),
{
    if a.len() == 0 && b.len() == 0 {
        Seq::empty()
    } else if b.len() == 0 || (a.len() > 0 && a[0].base_start <= b[0].base_start) {
        seq![(a[0], true)] + merge_segs(a.drop_first(), b)
    } else {
        seq![(b[0], false)] + merge_segs(a, b.drop_first())
    }
}

/// The end of a span grown by a stretch that ends at `e`.
pub open spec fn grow_end(span_end: usize, e: usize) -> usize {
    if e > span_end {
        e
    } else {
        span_end
    }
}

/// The clusters after one more stretch `s` (from side A when `from_a`): it
/// joins the last cluster when it starts at or before that cluster's end,
/// else it opens a new one.
pub open spec fn next_spans(p: Seq<Span>, s: Seg, from_a: bool) -> Seq<Span> {
    if p.len() > 0 && s.base_start <= p.last().end {
        p.update(
            p.len() - 1,
            Span {
                start: p.last().start,
                end: grow_end(p.last().end, s.base_end),
                has_a: p.last().has_a || from_a,
                has_b: p.last().has_b || !from_a,
            },
        )
    } else {
        p.push(Span { start: s.base_start, end: s.base_end, has_a: from_a, has_b: !from_a })
    }
}

/// Clusters of the stretches `m`, taken in order.
pub open spec fn sweep(m: Seq<(Seg, bool)>) -> Seq<Span>
    decreases m.len(),
{
    if m.len() == 0 {
        Seq::empty()
    } else {
        next_spans(sweep(m.drop_last()), m.last().0, m.last().1)
    }
}

/// The collision clusters of the changed stretches `a` and `b` of two sides.
pub open spec fn spans_of(a: Seq<Seg>, b: Seq<Seg>) -> Seq<Span> {
    sweep(merge_segs(a, b))
}

/// Computes the collision clusters of two sides' changed stretches.
pub fn clusters(sa: &Vec<Seg>, sb: &Vec<Seg>) -> (out: Vec<Span>)
    ensures
        out@ == spans_of(sa@, sb@),
{
    let mut out: Vec<Span> = Vec::new();
    let mut i: usize = 0;
    let mut j: usize = 0;
    let ghost mut m: Seq<(Seg, bool)> = Seq::empty();
    assert(sa@.skip(0) =~= sa@);
    assert(sb@.skip(0) =~= sb@);
    while i < sa.len() || j < sb.len()
        invariant
            i <= sa.len(),
            j <= sb.len(),
            merge_segs(sa@, sb@) == m + merge_segs(sa@.skip(i as int), sb@.skip(j as int)),
            out@ == sweep(m),
        decreases sa.len() + sb.len() - i - j,
    {
        let take_a = if i < sa.len() && j < sb.len() {
            sa[i].base_start <= sb[j].base_start
        } else {
            i < sa.len()
        };
        let s = if take_a {
            sa[i]
        } else {
            sb[j]
        };
        proof {
            let ra = sa@.skip(i as int);
            let rb = sb@.skip(j as int);
            if take_a {
                assert(ra.drop_first() =~= sa@.skip(i + 1));
                assert(merge_segs(ra, rb) == seq![(s, true)] + merge_segs(sa@.skip(i + 1), rb));
            } else {
                assert(rb.drop_first() =~= sb@.skip(j + 1));
                assert(merge_segs(ra, rb) == seq![(s, false)] + merge_segs(ra, sb@.skip(j + 1)));
            }
        }
        let ghost m2 = m.push((s, take_a));
        proof {
            assert(m2.drop_last() =~= m);
        }
        let n = out.len();
        if n > 0 && s.base_start <= out[n - 1].end {
            let last = out[n - 1];
            let end = if s.base_end > last.end {
                s.base_end
            } else {
                last.end
            };
            out.set(
                n - 1,
                Span {
                    start: last.start,
                    end,
                    has_a: last.has_a || take_a,
                    has_b: last.has_b || !take_a,
                },
            );
        } else {
            out.push(Span { start: s.base_start, end: s.base_end, has_a: take_a, has_b: !take_a });
        }
        if take_a {
            i = i + 1;
        } else {
            j = j + 1;
        }
        proof {
            assert(m + merge_segs(sa@.skip(i - (if take_a { 1int } else { 0 })), sb@.skip(j - (if take_a { 0int } else { 1 })))
                == m2 + merge_segs(sa@.skip(i as int), sb@.skip(j as int))) by {
                let rest = merge_segs(sa@.skip(i as int), sb@.skip(j as int));
                assert(m + (seq![(s, take_a)] + rest) =~= m2 + rest);
            }
            m = m2;
        }
    }
    proof {
        assert(sa@.skip(i as int) =~= Seq::<Seg>::empty());
        assert(sb@.skip(j as int) =~= Seq::<Seg>::empty());
        assert(m + Seq::<(Seg, bool)>::empty() =~= m);
    }
    out
}

/// Stretches in order of their start, each well formed.
pub open spec fn starts_sorted(m: Seq<(Seg, bool)>) -> bool {
    &&& forall|p: int| 0 <= p < m.len() ==> (#[trigger] m[p]).0.base_start <= m[p].0.base_end
    &&& forall|p: int, q: int|
        0 <= p < q < m.len() ==> (#[trigger] m[p]).0.base_start <= (#[trigger] m[q]).0.base_start
}

/// Stretch `s` lies within cluster `sp`.
pub open spec fn in_span(sp: Span, s: Seg) -> bool {
    sp.start <= s.base_start && s.base_end <= sp.end
}

/// Clusters are well formed.
#[verifier::opaque]
pub open spec fn sp_wf(spans: Seq<Span>) -> bool {
    forall|i: int| 0 <= i < spans.len() ==> (#[trigger] spans[i]).start <= spans[i].end
}

/// Clusters are in order and never touch.
#[verifier::opaque]
pub open spec fn sp_sep(spans: Seq<Span>) -> bool {
    forall|i: int, j: int|
        0 <= i < j < spans.len() ==> (#[trigger] spans[i]).end < (#[trigger] spans[j]).start
}

/// Every stretch lies in a cluster.
#[verifier::opaque]
pub open spec fn sp_cover(m: Seq<(Seg, bool)>, spans: Seq<Span>) -> bool {
    forall|p: int|
        0 <= p < m.len() ==> exists|i: int| 0 <= i < spans.len() && in_span(spans[i], (#[trigger] m[p]).0)
}

/// A stretch that starts before a cluster ends before it.
#[verifier::opaque]
pub open spec fn sp_before(m: Seq<(Seg, bool)>, spans: Seq<Span>) -> bool {
    forall|p: int, i: int|
        0 <= p < m.len() && 0 <= i < spans.len() && (#[trigger] m[p]).0.base_start < (
        #[trigger] spans[i]).start ==> m[p].0.base_end < spans[i].start
}

/// A stretch that starts within a cluster lies in it and marks its side.
#[verifier::opaque]
pub open spec fn sp_within(m: Seq<(Seg, bool)>, spans: Seq<Span>) -> bool {
    forall|p: int, i: int|
        0 <= p < m.len() && 0 <= i < spans.len() && (#[trigger] spans[i]).start <= (
        #[trigger] m[p]).0.base_start <= spans[i].end ==> {
            &&& m[p].0.base_end <= spans[i].end
            &&& m[p].1 ==> spans[i].has_a
            &&& !m[p].1 ==> spans[i].has_b
        }
}

/// Stretch `p` of `m` comes from side A exactly when `from_a`, and starts
/// within cluster `sp`.
pub open spec fn starts_in(m: Seq<(Seg, bool)>, p: int, sp: Span, from_a: bool) -> bool {
    0 <= p < m.len() && m[p].1 == from_a && sp.start <= m[p].0.base_start <= sp.end
}

/// A side is marked only where one of its stretches starts.
#[verifier::opaque]
pub open spec fn sp_flag_wit(m: Seq<(Seg, bool)>, spans: Seq<Span>) -> bool {
    forall|i: int|
        0 <= i < spans.len() ==> {
            &&& (#[trigger] spans[i]).has_a ==> exists|p: int| starts_in(m, p, spans[i], true)
            &&& spans[i].has_b ==> exists|p: int| starts_in(m, p, spans[i], false)
        }
}

/// Each cluster starts where a stretch starts.
#[verifier::opaque]
pub open spec fn sp_start_wit(m: Seq<(Seg, bool)>, spans: Seq<Span>) -> bool {
    forall|i: int|
        0 <= i < spans.len() ==> exists|p: int|
            0 <= p < m.len() && (#[trigger] spans[i]).start == m[p].0.base_start
}

/// Each cluster ends where a stretch ends.
#[verifier::opaque]
pub open spec fn sp_end_wit(m: Seq<(Seg, bool)>, spans: Seq<Span>) -> bool {
    forall|i: int|
        0 <= i < spans.len() ==> exists|p: int|
            0 <= p < m.len() && (#[trigger] spans[i]).end == m[p].0.base_end
}

/// Every stretch ends by the end of the last cluster.
#[verifier::opaque]
pub open spec fn sp_allend(m: Seq<(Seg, bool)>, spans: Seq<Span>) -> bool {
    &&& m.len() > 0 ==> spans.len() > 0
    &&& spans.len() > 0 ==> forall|p: int| 0 <= p < m.len() ==> (#[trigger] m[p]).0.base_end <= spans.last().end
}

/// Base position `y` lies within cluster `sp` (its end included).
pub open spec fn in_range(sp: Span, y: int) -> bool {
    sp.start <= y <= sp.end
}

/// Base position `y` lies within stretch `s` (its end included).
pub open spec fn seg_holds(s: Seg, y: int) -> bool {
    s.base_start <= y <= s.base_end
}

/// Clusters have no holes: every base position from a cluster's start to
/// its end lies within one of the cluster's stretches.
#[verifier::opaque]
pub open spec fn sp_nohole(m: Seq<(Seg, bool)>, spans: Seq<Span>) -> bool {
    forall|i: int, y: int|
        0 <= i < spans.len() && #[trigger] in_range(spans[i], y) ==> exists|p: int|
            0 <= p < m.len() && in_span(spans[i], (#[trigger] m[p]).0) && seg_holds(m[p].0, y)
}

/// What the clusters `spans` of the stretches `m` are (see the parts).
pub open spec fn sweep_props(m: Seq<(Seg, bool)>, spans: Seq<Span>) -> bool {
    &&& sp_wf(spans)
    &&& sp_sep(spans)
    &&& sp_cover(m, spans)
    &&& sp_before(m, spans)
    &&& sp_within(m, spans)
    &&& sp_flag_wit(m, spans)
    &&& sp_start_wit(m, spans)
    &&& sp_end_wit(m, spans)
    &&& sp_allend(m, spans)
    &&& sp_nohole(m, spans)
}

/// How `m` extends its prefix `m0` by the stretch `x` (from side A when `xa`),
/// which starts no earlier than any stretch before it.
pub open spec fn step_ctx(m: Seq<(Seg, bool)>, m0: Seq<(Seg, bool)>, x: Seg, xa: bool) -> bool {
    &&& m.len() > 0
    &&& m0 == m.drop_last()
    &&& x == m.last().0
    &&& xa == m.last().1
    &&& x.base_start <= x.base_end
    &&& forall|p: int| 0 <= p < m0.len() ==> #[trigger] m[p] == m0[p]
    &&& forall|p: int| 0 <= p < m0.len() ==> (#[trigger] m0[p]).0.base_start <= x.base_start
    &&& forall|p: int| 0 <= p < m0.len() ==> (#[trigger] m0[p]).0.base_start <= m0[p].0.base_end
}

/// The sweep over stretches in start order yields well-behaved clusters.
pub proof fn lemma_sweep(m: Seq<(Seg, bool)>)
    requires
        starts_sorted(m),
    ensures
        sweep_props(m, sweep(m)),
    decreases m.len(),
{
    if m.len() == 0 {
        reveal(sp_wf);
        reveal(sp_sep);
        reveal(sp_cover);
        reveal(sp_before);
        reveal(sp_within);
        reveal(sp_flag_wit);
        reveal(sp_start_wit);
        reveal(sp_end_wit);
        reveal(sp_allend);
        reveal(sp_nohole);
        return;
    }
    let m0 = m.drop_last();
    let n0 = m0.len() as int;
    assert(starts_sorted(m0)) by {
        assert forall|p: int, q: int| 0 <= p < q < m0.len() implies (#[trigger] m0[p]).0.base_start
            <= (#[trigger] m0[q]).0.base_start by {
            assert(m0[p] == m[p] && m0[q] == m[q]);
        }
        assert forall|p: int| 0 <= p < m0.len() implies (#[trigger] m0[p]).0.base_start
            <= m0[p].0.base_end by {
            assert(m0[p] == m[p]);
        }
    }
    lemma_sweep(m0);
    let x = m.last().0;
    let xa = m.last().1;
    assert(m[n0] == m.last());
    assert forall|p: int| 0 <= p < n0 implies #[trigger] m[p] == m0[p] by {}
    assert(x.base_start <= x.base_end);
    assert forall|p: int| 0 <= p < n0 implies (#[trigger] m0[p]).0.base_start <= x.base_start by {
        assert(m[p].0.base_start <= m[n0].0.base_start);
    }
    assert forall|p: int| 0 <= p < n0 implies (#[trigger] m0[p]).0.base_start <= m0[p].0.base_end by {
        assert(m[p] == m0[p]);
    }
    assert(step_ctx(m, m0, x, xa));
    let sp0 = sweep(m0);
    assert(sweep(m) == next_spans(sp0, x, xa));
    lemma_step_shape(m, m0, sp0, x, xa);
    lemma_step_wf_sep(m, m0, sp0, x, xa);
    lemma_step_cover(m, m0, sp0, x, xa);
    lemma_step_before(m, m0, sp0, x, xa);
    lemma_step_within(m, m0, sp0, x, xa);
    lemma_step_flag(m, m0, sp0, x, xa);
    lemma_step_start_end(m, m0, sp0, x, xa);
    lemma_step_allend(m, m0, sp0, x, xa);
    lemma_step_nohole(m, m0, sp0, x, xa);
}

proof fn lemma_step_nohole(m: Seq<(Seg, bool)>, m0: Seq<(Seg, bool)>, sp0: Seq<Span>, x: Seg, xa: bool)
    requires
        step_ctx(m, m0, x, xa),
        sweep_props(m0, sp0),
        shape_facts(sp0, m0, x),
    ensures
        sp_nohole(m, next_spans(sp0, x, xa)),
{
    reveal(sp_nohole);
    let sp = next_spans(sp0, x, xa);
    let n0 = m0.len() as int;
    assert(m[n0] == m.last());
    let join = sp0.len() > 0 && x.base_start <= sp0.last().end;
    let L = sp0.len() - 1;
    assert forall|i: int, y: int| 0 <= i < sp.len() && #[trigger] in_range(sp[i], y) implies exists|p: int|
        0 <= p < m.len() && in_span(sp[i], (#[trigger] m[p]).0) && seg_holds(m[p].0, y) by {
        if i < sp0.len() && !(join && i == L) {
            assert(sp[i] == sp0[i]);
            assert(in_range(sp0[i], y));
            let p = choose|p: int| 0 <= p < m0.len() && in_span(sp0[i], (#[trigger] m0[p]).0) && seg_holds(m0[p].0, y);
            assert(m[p] == m0[p]);
        } else if join && i == L && y <= sp0.last().end {
            assert(sp0.last() == sp0[L]);
            assert(in_range(sp0[L], y));
            let p = choose|p: int| 0 <= p < m0.len() && in_span(sp0[L], (#[trigger] m0[p]).0) && seg_holds(m0[p].0, y);
            assert(m[p] == m0[p]);
            assert(in_span(sp[i], m[p].0));
        } else {
            if join {
                assert(sp0.last() == sp0[L]);
                assert(sp0[L].start <= x.base_start);
            }
            assert(in_span(sp[i], m[n0].0));
            assert(seg_holds(m[n0].0, y));
        }
    }
}

/// Facts about the old clusters that every step needs: the last one ends
/// after all others, and no cluster starts after the new stretch does.
pub open spec fn shape_facts(sp0: Seq<Span>, m0: Seq<(Seg, bool)>, x: Seg) -> bool {
    &&& forall|i: int| 0 <= i < sp0.len() ==> (#[trigger] sp0[i]).start <= x.base_start
    &&& forall|i: int| 0 <= i < sp0.len() - 1 ==> (#[trigger] sp0[i]).end < sp0.last().start
    &&& sp0.len() > 0 ==> sp0.last().start <= sp0.last().end
    &&& sp0.len() > 0 ==> forall|p: int|
        0 <= p < m0.len() ==> (#[trigger] m0[p]).0.base_end <= sp0.last().end
    &&& m0.len() > 0 ==> sp0.len() > 0
}

proof fn lemma_step_shape(m: Seq<(Seg, bool)>, m0: Seq<(Seg, bool)>, sp0: Seq<Span>, x: Seg, xa: bool)
    requires
        step_ctx(m, m0, x, xa),
        sweep_props(m0, sp0),
    ensures
        shape_facts(sp0, m0, x),
{
    reveal(sp_start_wit);
    reveal(sp_sep);
    reveal(sp_wf);
    reveal(sp_allend);
    assert forall|i: int| 0 <= i < sp0.len() implies (#[trigger] sp0[i]).start <= x.base_start by {
        let q = choose|q: int| 0 <= q < m0.len() && sp0[i].start == m0[q].0.base_start;
        assert(m0[q].0.base_start <= x.base_start);
    }
    assert forall|i: int| 0 <= i < sp0.len() - 1 implies (#[trigger] sp0[i]).end < sp0.last().start by {
        assert(sp0[i].end < sp0[sp0.len() - 1].start);
    }
}

proof fn lemma_step_wf_sep(m: Seq<(Seg, bool)>, m0: Seq<(Seg, bool)>, sp0: Seq<Span>, x: Seg, xa: bool)
    requires
        step_ctx(m, m0, x, xa),
        sweep_props(m0, sp0),
        shape_facts(sp0, m0, x),
    ensures
        sp_wf(next_spans(sp0, x, xa)),
        sp_sep(next_spans(sp0, x, xa)),
{
    reveal(sp_wf);
    reveal(sp_sep);
    let sp = next_spans(sp0, x, xa);
    let L = sp0.len() - 1;
    assert forall|i: int, j: int| 0 <= i < j < sp.len() implies (#[trigger] sp[i]).end < (
    #[trigger] sp[j]).start by {
        if j < sp0.len() && !(j == L && sp.len() == sp0.len()) {
            assert(sp0[i].end < sp0[j].start);
        } else if j == L {
            assert(sp0[i].end < sp0[j].start);
        } else {
            assert(sp[i] == sp0[i]);
        }
    }
}

proof fn lemma_step_cover(m: Seq<(Seg, bool)>, m0: Seq<(Seg, bool)>, sp0: Seq<Span>, x: Seg, xa: bool)
    requires
        step_ctx(m, m0, x, xa),
        sweep_props(m0, sp0),
        shape_facts(sp0, m0, x),
    ensures
        sp_cover(m, next_spans(sp0, x, xa)),
{
    reveal(sp_cover);
    let sp = next_spans(sp0, x, xa);
    let n0 = m0.len() as int;
    let L = sp.len() - 1;
    assert(m[n0] == m.last());
    assert(in_span(sp[L], x));
    assert forall|p: int|
        0 <= p < m.len() implies exists|i: int| 0 <= i < sp.len() && in_span(sp[i], (#[trigger] m[p]).0) by {
        if p < n0 {
            let i = choose|i: int| 0 <= i < sp0.len() && in_span(sp0[i], (#[trigger] m0[p]).0);
            assert(in_span(sp[i], m[p].0));
        } else {
            assert(in_span(sp[L], m[p].0));
        }
    }
}

proof fn lemma_step_before(m: Seq<(Seg, bool)>, m0: Seq<(Seg, bool)>, sp0: Seq<Span>, x: Seg, xa: bool)
    requires
        step_ctx(m, m0, x, xa),
        sweep_props(m0, sp0),
        shape_facts(sp0, m0, x),
    ensures
        sp_before(m, next_spans(sp0, x, xa)),
{
    reveal(sp_before);
    let sp = next_spans(sp0, x, xa);
    let n0 = m0.len() as int;
    assert(m[n0] == m.last());
    assert forall|p: int, i: int|
        0 <= p < m.len() && 0 <= i < sp.len() && (#[trigger] m[p]).0.base_start < (
        #[trigger] sp[i]).start implies m[p].0.base_end < sp[i].start by {
        if p < n0 {
            if i < sp0.len() {
                assert(sp[i].start == sp0[i].start);
                assert(m0[p].0.base_start < sp0[i].start);
            } else {
                assert(m0[p].0.base_end <= sp0.last().end);
            }
        } else if i < sp0.len() {
            assert(sp[i].start == sp0[i].start);
        }
    }
}

proof fn lemma_step_within(m: Seq<(Seg, bool)>, m0: Seq<(Seg, bool)>, sp0: Seq<Span>, x: Seg, xa: bool)
    requires
        step_ctx(m, m0, x, xa),
        sweep_props(m0, sp0),
        shape_facts(sp0, m0, x),
    ensures
        sp_within(m, next_spans(sp0, x, xa)),
{
    reveal(sp_within);
    let sp = next_spans(sp0, x, xa);
    let n0 = m0.len() as int;
    let L = sp0.len() - 1;
    assert(m[n0] == m.last());
    let extend = sp0.len() > 0 && x.base_start <= sp0.last().end;
    assert forall|p: int, i: int|
        0 <= p < m.len() && 0 <= i < sp.len() && (#[trigger] sp[i]).start <= (
        #[trigger] m[p]).0.base_start <= sp[i].end implies {
            &&& m[p].0.base_end <= sp[i].end
            &&& m[p].1 ==> sp[i].has_a
            &&& !m[p].1 ==> sp[i].has_b
        } by {
        if extend {
            if p < n0 {
                assert(m0[p].0.base_start <= x.base_start);
                assert(sp0[i].start <= m0[p].0.base_start <= sp0[i].end);
            } else if i < L {
                assert(sp0[i].end < sp0.last().start);
            }
        } else {
            if p < n0 {
                if i < sp0.len() {
                    assert(sp[i] == sp0[i]);
                    assert(sp0[i].start <= m0[p].0.base_start <= sp0[i].end);
                } else {
                    assert(m0[p].0.base_start <= x.base_start);
                    assert(m0[p].0.base_end <= sp0.last().end);
                }
            } else if i < sp0.len() {
                assert(sp[i] == sp0[i]);
                if i < L {
                    assert(sp0[i].end < sp0.last().start);
                }
            }
        }
    }
}

proof fn lemma_step_flag(m: Seq<(Seg, bool)>, m0: Seq<(Seg, bool)>, sp0: Seq<Span>, x: Seg, xa: bool)
    requires
        step_ctx(m, m0, x, xa),
        sweep_props(m0, sp0),
        shape_facts(sp0, m0, x),
    ensures
        sp_flag_wit(m, next_spans(sp0, x, xa)),
{
    reveal(sp_flag_wit);
    let sp = next_spans(sp0, x, xa);
    let n0 = m0.len() as int;
    let L = sp0.len() - 1;
    assert(m[n0] == m.last());
    assert forall|i: int| 0 <= i < sp.len() implies {
        &&& (#[trigger] sp[i]).has_a ==> exists|p: int| starts_in(m, p, sp[i], true)
        &&& sp[i].has_b ==> exists|p: int| starts_in(m, p, sp[i], false)
    } by {
        if i < sp0.len() && !(i == L && sp.len() == sp0.len()) {
            assert(sp[i] == sp0[i]);
            if sp[i].has_a {
                let p = choose|p: int| starts_in(m0, p, sp0[i], true);
                assert(starts_in(m, p, sp[i], true));
            }
            if sp[i].has_b {
                let p = choose|p: int| starts_in(m0, p, sp0[i], false);
                assert(starts_in(m, p, sp[i], false));
            }
        } else if i == L && sp.len() == sp0.len() {
            if sp[i].has_a {
                if sp0[L].has_a {
                    let p = choose|p: int| starts_in(m0, p, sp0[L], true);
                    assert(starts_in(m, p, sp[i], true));
                } else {
                    assert(starts_in(m, n0, sp[i], true));
                }
            }
            if sp[i].has_b {
                if sp0[L].has_b {
                    let p = choose|p: int| starts_in(m0, p, sp0[L], false);
                    assert(starts_in(m, p, sp[i], false));
                } else {
                    assert(starts_in(m, n0, sp[i], false));
                }
            }
        } else {
            if sp[i].has_a {
                assert(starts_in(m, n0, sp[i], true));
            }
            if sp[i].has_b {
                assert(starts_in(m, n0, sp[i], false));
            }
        }
    }
}

proof fn lemma_step_start_end(m: Seq<(Seg, bool)>, m0: Seq<(Seg, bool)>, sp0: Seq<Span>, x: Seg, xa: bool)
    requires
        step_ctx(m, m0, x, xa),
        sweep_props(m0, sp0),
        shape_facts(sp0, m0, x),
    ensures
        sp_start_wit(m, next_spans(sp0, x, xa)),
        sp_end_wit(m, next_spans(sp0, x, xa)),
{
    reveal(sp_start_wit);
    reveal(sp_end_wit);
    let sp = next_spans(sp0, x, xa);
    let n0 = m0.len() as int;
    let L = sp0.len() - 1;
    assert(m[n0] == m.last());
    assert forall|i: int| 0 <= i < sp.len() implies exists|p: int|
        0 <= p < m.len() && (#[trigger] sp[i]).start == m[p].0.base_start by {
        if i < sp0.len() {
            let p = choose|p: int| 0 <= p < m0.len() && sp0[i].start == m0[p].0.base_start;
            assert(m[p] == m0[p]);
        } else {
            assert(sp[i].start == m[n0].0.base_start);
        }
    }
    assert forall|i: int| 0 <= i < sp.len() implies exists|p: int|
        0 <= p < m.len() && (#[trigger] sp[i]).end == m[p].0.base_end by {
        if i < sp0.len() && (sp[i].end == sp0[i].end) {
            let p = choose|p: int| 0 <= p < m0.len() && sp0[i].end == m0[p].0.base_end;
            assert(m[p] == m0[p]);
        } else {
            assert(sp[i].end == m[n0].0.base_end);
        }
    }
}

proof fn lemma_step_allend(m: Seq<(Seg, bool)>, m0: Seq<(Seg, bool)>, sp0: Seq<Span>, x: Seg, xa: bool)
    requires
        step_ctx(m, m0, x, xa),
        sweep_props(m0, sp0),
        shape_facts(sp0, m0, x),
    ensures
        sp_allend(m, next_spans(sp0, x, xa)),
{
    reveal(sp_allend);
    let sp = next_spans(sp0, x, xa);
    let n0 = m0.len() as int;
    assert(m[n0] == m.last());
    assert forall|p: int| 0 <= p < m.len() implies (#[trigger] m[p]).0.base_end <= sp.last().end by {
        if p < n0 {
            assert(m0[p].0.base_end <= sp0.last().end);
        }
    }
}

/// Stretches in order of their start, each well formed.
pub open spec fn segs_sorted(a: Seq<Seg>) -> bool {
    &&& forall|k: int| 0 <= k < a.len() ==> (#[trigger] a[k]).base_start <= a[k].base_end
    &&& forall|k: int, l: int|
        0 <= k < l < a.len() ==> (#[trigger] a[k]).base_start <= (#[trigger] a[l]).base_start
}

/// Merging two sides in start order keeps start order and loses nothing.
pub proof fn lemma_merge(a: Seq<Seg>, b: Seq<Seg>)
    requires
        segs_sorted(a),
        segs_sorted(b),
    ensures
        starts_sorted(merge_segs(a, b)),
    decreases a.len() + b.len(),
{
    if a.len() == 0 && b.len() == 0 {
        return;
    }
    if b.len() == 0 || (a.len() > 0 && a[0].base_start <= b[0].base_start) {
        let a1 = a.drop_first();
        lemma_sorted_drop_first(a);
        lemma_merge(a1, b);
        let r = merge_segs(a1, b);
        assert(merge_segs(a, b) == seq![(a[0], true)] + r);
        assert forall|p: int| 0 <= p < r.len() implies a[0].base_start <= (#[trigger] r[p]).0.base_start by {
            lemma_origin(a1, b, p);
            let k = origin(a1, b, p);
            if r[p].1 {
                assert(a[0].base_start <= a[k + 1].base_start);
            } else if k > 0 {
                assert(b[0].base_start <= b[k].base_start);
            }
        }
        lemma_merge_sorted_a(a, b, r);
    } else {
        let b1 = b.drop_first();
        lemma_sorted_drop_first(b);
        lemma_merge(a, b1);
        let r = merge_segs(a, b1);
        assert(merge_segs(a, b) == seq![(b[0], false)] + r);
        assert forall|p: int| 0 <= p < r.len() implies b[0].base_start <= (#[trigger] r[p]).0.base_start by {
            lemma_origin(a, b1, p);
            let k = origin(a, b1, p);
            if r[p].1 {
                if k > 0 {
                    assert(a[0].base_start <= a[k].base_start);
                }
            } else {
                assert(b[0].base_start <= b[k + 1].base_start);
            }
        }
        lemma_merge_sorted_b(a, b, r);
    }
}

proof fn lemma_sorted_drop_first(a: Seq<Seg>)
    requires
        segs_sorted(a),
        a.len() > 0,
    ensures
        segs_sorted(a.drop_first()),
{
    let a1 = a.drop_first();
    assert forall|k: int, l: int| 0 <= k < l < a1.len() implies (#[trigger] a1[k]).base_start
        <= (#[trigger] a1[l]).base_start by {
        assert(a1[k] == a[k + 1] && a1[l] == a[l + 1]);
    }
    assert forall|k: int| 0 <= k < a1.len() implies (#[trigger] a1[k]).base_start
        <= a1[k].base_end by {
        assert(a1[k] == a[k + 1]);
    }
}

proof fn lemma_merge_sorted_a(a: Seq<Seg>, b: Seq<Seg>, r: Seq<(Seg, bool)>)
    requires
        segs_sorted(a),
        segs_sorted(b),
        a.len() > 0,
        b.len() == 0 || a[0].base_start <= b[0].base_start,
        starts_sorted(r),
        forall|p: int| 0 <= p < r.len() ==> a[0].base_start <= (#[trigger] r[p]).0.base_start,
    ensures
        starts_sorted(seq![(a[0], true)] + r),
{
    let a1 = a.drop_first();
    let m = seq![(a[0], true)] + r;
    assert forall|p: int| 0 <= p < r.len() implies #[trigger] m[p + 1] == r[p] by {}
    assert forall|p: int, q: int| 0 <= p < q < m.len() implies (#[trigger] m[p]).0.base_start
        <= (#[trigger] m[q]).0.base_start by {
        assert(m[q] == r[q - 1]);
        if p > 0 {
            assert(m[p] == r[p - 1]);
        }
    }
    assert forall|p: int| 0 <= p < m.len() implies (#[trigger] m[p]).0.base_start <= m[p].0.base_end by {
        if p > 0 {
            assert(m[p] == r[p - 1]);
        }
    }
}

proof fn lemma_merge_sorted_b(a: Seq<Seg>, b: Seq<Seg>, r: Seq<(Seg, bool)>)
    requires
        segs_sorted(a),
        segs_sorted(b),
        b.len() > 0,
        a.len() == 0 || b[0].base_start < a[0].base_start,
        starts_sorted(r),
        forall|p: int| 0 <= p < r.len() ==> b[0].base_start <= (#[trigger] r[p]).0.base_start,
    ensures
        starts_sorted(seq![(b[0], false)] + r),
{
    let b1 = b.drop_first();
    let m = seq![(b[0], false)] + r;
    assert forall|p: int| 0 <= p < r.len() implies #[trigger] m[p + 1] == r[p] by {}
    assert forall|p: int, q: int| 0 <= p < q < m.len() implies (#[trigger] m[p]).0.base_start
        <= (#[trigger] m[q]).0.base_start by {
        assert(m[q] == r[q - 1]);
        if p > 0 {
            assert(m[p] == r[p - 1]);
        }
    }
    assert forall|p: int| 0 <= p < m.len() implies (#[trigger] m[p]).0.base_start <= m[p].0.base_end by {
        if p > 0 {
            assert(m[p] == r[p - 1]);
        }
    }
}

/// Where stretch `k` of side A lands in the merged order.
pub open spec fn pos_a(a: Seq<Seg>, b: Seq<Seg>, k: int) -> int
    decreases a.len() + b.len(),
{
    if a.len() == 0 && b.len() == 0 {
        0
    } else if b.len() == 0 || (a.len() > 0 && a[0].base_start <= b[0].base_start) {
        if k == 0 {
            0
        } else {
            1 + pos_a(a.drop_first(), b, k - 1)
        }
    } else {
        1 + pos_a(a, b.drop_first(), k)
    }
}

/// Where stretch `k` of side B lands in the merged order.
pub open spec fn pos_b(a: Seq<Seg>, b: Seq<Seg>, k: int) -> int
    decreases a.len() + b.len(),
{
    if a.len() == 0 && b.len() == 0 {
        0
    } else if b.len() == 0 || (a.len() > 0 && a[0].base_start <= b[0].base_start) {
        1 + pos_b(a.drop_first(), b, k)
    } else {
        if k == 0 {
            0
        } else {
            1 + pos_b(a, b.drop_first(), k - 1)
        }
    }
}

/// Which stretch of its side entry `p` of the merged order is.
pub open spec fn origin(a: Seq<Seg>, b: Seq<Seg>, p: int) -> int
    decreases a.len() + b.len(),
{
    if a.len() == 0 && b.len() == 0 {
        0
    } else if b.len() == 0 || (a.len() > 0 && a[0].base_start <= b[0].base_start) {
        if p == 0 {
            0
        } else {
            let r = merge_segs(a.drop_first(), b);
            let o = origin(a.drop_first(), b, p - 1);
            if r[p - 1].1 {
                o + 1
            } else {
                o
            }
        }
    } else {
        if p == 0 {
            0
        } else {
            let r = merge_segs(a, b.drop_first());
            let o = origin(a, b.drop_first(), p - 1);
            if r[p - 1].1 {
                o
            } else {
                o + 1
            }
        }
    }
}

pub proof fn lemma_merge_len(a: Seq<Seg>, b: Seq<Seg>)
    ensures
        merge_segs(a, b).len() == a.len() + b.len(),
    decreases a.len() + b.len(),
{
    if a.len() == 0 && b.len() == 0 {
    } else if b.len() == 0 || (a.len() > 0 && a[0].base_start <= b[0].base_start) {
        lemma_merge_len(a.drop_first(), b);
    } else {
        lemma_merge_len(a, b.drop_first());
    }
}

/// Stretch `k` of side A sits, tagged as side A, at `pos_a(a, b, k)`.
pub proof fn lemma_pos_a(a: Seq<Seg>, b: Seq<Seg>, k: int)
    requires
        0 <= k < a.len(),
    ensures
        0 <= pos_a(a, b, k) < merge_segs(a, b).len(),
        merge_segs(a, b)[pos_a(a, b, k)] == (a[k], true),
    decreases a.len() + b.len(),
{
    lemma_merge_len(a, b);
    if b.len() == 0 || (a.len() > 0 && a[0].base_start <= b[0].base_start) {
        if k > 0 {
            lemma_pos_a(a.drop_first(), b, k - 1);
            lemma_merge_len(a.drop_first(), b);
        }
    } else {
        lemma_pos_a(a, b.drop_first(), k);
        lemma_merge_len(a, b.drop_first());
    }
}

/// Stretch `k` of side B sits, tagged as side B, at `pos_b(a, b, k)`.
pub proof fn lemma_pos_b(a: Seq<Seg>, b: Seq<Seg>, k: int)
    requires
        0 <= k < b.len(),
    ensures
        0 <= pos_b(a, b, k) < merge_segs(a, b).len(),
        merge_segs(a, b)[pos_b(a, b, k)] == (b[k], false),
    decreases a.len() + b.len(),
{
    lemma_merge_len(a, b);
    if b.len() == 0 || (a.len() > 0 && a[0].base_start <= b[0].base_start) {
        lemma_pos_b(a.drop_first(), b, k);
        lemma_merge_len(a.drop_first(), b);
    } else {
        if k > 0 {
            lemma_pos_b(a, b.drop_first(), k - 1);
            lemma_merge_len(a, b.drop_first());
        }
    }
}

/// Every entry of the merged order is a stretch of the side it is tagged with.
pub proof fn lemma_origin(a: Seq<Seg>, b: Seq<Seg>, p: int)
    requires
        0 <= p < merge_segs(a, b).len(),
    ensures
        merge_segs(a, b)[p].1 ==> 0 <= origin(a, b, p) < a.len() && merge_segs(a, b)[p].0 == a[origin(a, b, p)],
        !merge_segs(a, b)[p].1 ==> 0 <= origin(a, b, p) < b.len() && merge_segs(a, b)[p].0 == b[origin(a, b, p)],
    decreases a.len() + b.len(),
{
    lemma_merge_len(a, b);
    if b.len() == 0 || (a.len() > 0 && a[0].base_start <= b[0].base_start) {
        if p > 0 {
            lemma_merge_len(a.drop_first(), b);
            lemma_origin(a.drop_first(), b, p - 1);
        }
    } else {
        if p > 0 {
            lemma_merge_len(a, b.drop_first());
            lemma_origin(a, b.drop_first(), p - 1);
        }
    }
}

/// The side flag of a cluster: side A when `from_a`, else side B.
pub open spec fn flag_of(sp: Span, from_a: bool) -> bool {
    if from_a {
        sp.has_a
    } else {
        sp.has_b
    }
}

/// A stretch of this side that starts before a cluster ends before it.
#[verifier::opaque]
pub open spec fn side_before(segs: Seq<Seg>, spans: Seq<Span>) -> bool {
    forall|k: int, i: int|
        0 <= k < segs.len() && 0 <= i < spans.len() && (#[trigger] segs[k]).base_start < (
        #[trigger] spans[i]).start ==> segs[k].base_end < spans[i].start
}

/// A stretch of this side that starts within a cluster lies in it and marks
/// this side there.
#[verifier::opaque]
pub open spec fn side_within(segs: Seq<Seg>, spans: Seq<Span>, from_a: bool) -> bool {
    forall|k: int, i: int|
        0 <= k < segs.len() && 0 <= i < spans.len() && (#[trigger] spans[i]).start <= (
        #[trigger] segs[k]).base_start <= spans[i].end ==> segs[k].base_end <= spans[i].end
            && flag_of(spans[i], from_a)
}

/// Every stretch of this side lies in a cluster.
#[verifier::opaque]
pub open spec fn side_cover(segs: Seq<Seg>, spans: Seq<Span>) -> bool {
    forall|k: int|
        0 <= k < segs.len() ==> exists|i: int| 0 <= i < spans.len() && in_span(spans[i], #[trigger] segs[k])
}

/// This side is marked only in clusters where one of its stretches starts.
#[verifier::opaque]
pub open spec fn side_flag(segs: Seq<Seg>, spans: Seq<Span>, from_a: bool) -> bool {
    forall|i: int|
        0 <= i < spans.len() && flag_of(#[trigger] spans[i], from_a) ==> exists|k: int|
            0 <= k < segs.len() && spans[i].start <= (#[trigger] segs[k]).base_start <= spans[i].end
}

/// Clusters are well formed, end by `n`, and each marks some side.
#[verifier::opaque]
pub open spec fn spans_bounded(spans: Seq<Span>, n: int) -> bool {
    forall|i: int|
        0 <= i < spans.len() ==> (#[trigger] spans[i]).start <= spans[i].end <= n && (spans[i].has_a
            || spans[i].has_b)
}

/// Every stretch of `a` ends by `n`.
pub open spec fn segs_end_by(a: Seq<Seg>, n: int) -> bool {
    forall|k: int| 0 <= k < a.len() ==> (#[trigger] a[k]).base_end <= n
}

/// What the clusters of two sides' stretches are, seen from each side.
pub open spec fn spans_facts(a: Seq<Seg>, b: Seq<Seg>, spans: Seq<Span>, n: int) -> bool {
    &&& sp_sep(spans)
    &&& spans_bounded(spans, n)
    &&& side_before(a, spans)
    &&& side_before(b, spans)
    &&& side_within(a, spans, true)
    &&& side_within(b, spans, false)
    &&& side_cover(a, spans)
    &&& side_cover(b, spans)
    &&& side_flag(a, spans, true)
    &&& side_flag(b, spans, false)
    &&& sp_nohole(merge_segs(a, b), spans)
}

/// The collision clusters of two sides' sorted stretches behave.
pub proof fn lemma_spans(a: Seq<Seg>, b: Seq<Seg>, n: int)
    requires
        segs_sorted(a),
        segs_sorted(b),
        segs_end_by(a, n),
        segs_end_by(b, n),
    ensures
        spans_facts(a, b, spans_of(a, b), n),
{
    let m = merge_segs(a, b);
    let spans = spans_of(a, b);
    lemma_merge(a, b);
    lemma_sweep(m);
    lemma_side_facts(a, b, true);
    lemma_side_facts(a, b, false);
    reveal(spans_bounded);
    reveal(sp_end_wit);
    reveal(sp_start_wit);
    reveal(sp_within);
    reveal(sp_wf);
    assert forall|i: int| 0 <= i < spans.len() implies (#[trigger] spans[i]).start <= spans[i].end <= n
        && (spans[i].has_a || spans[i].has_b) by {
        let p = choose|p: int| 0 <= p < m.len() && spans[i].end == m[p].0.base_end;
        lemma_origin(a, b, p);
        let q = choose|q: int| 0 <= q < m.len() && spans[i].start == m[q].0.base_start;
        assert(spans[i].start <= m[q].0.base_start <= spans[i].end);
    }
}

proof fn lemma_side_facts(a: Seq<Seg>, b: Seq<Seg>, from_a: bool)
    requires
        starts_sorted(merge_segs(a, b)),
        sweep_props(merge_segs(a, b), spans_of(a, b)),
    ensures
        side_before(if from_a { a } else { b }, spans_of(a, b)),
        side_within(if from_a { a } else { b }, spans_of(a, b), from_a),
        side_cover(if from_a { a } else { b }, spans_of(a, b)),
        side_flag(if from_a { a } else { b }, spans_of(a, b), from_a),
{
    let m = merge_segs(a, b);
    let spans = spans_of(a, b);
    let segs = if from_a { a } else { b };
    reveal(side_before);
    reveal(side_within);
    reveal(side_cover);
    reveal(side_flag);
    reveal(sp_before);
    reveal(sp_within);
    reveal(sp_cover);
    reveal(sp_flag_wit);
    assert forall|k: int, i: int|
        0 <= k < segs.len() && 0 <= i < spans.len() && (#[trigger] segs[k]).base_start < (
        #[trigger] spans[i]).start implies segs[k].base_end < spans[i].start by {
        let p = if from_a { pos_a(a, b, k) } else { pos_b(a, b, k) };
        if from_a { lemma_pos_a(a, b, k) } else { lemma_pos_b(a, b, k) }
        assert(m[p].0 == segs[k]);
    }
    assert forall|k: int, i: int|
        0 <= k < segs.len() && 0 <= i < spans.len() && (#[trigger] spans[i]).start <= (
        #[trigger] segs[k]).base_start <= spans[i].end implies segs[k].base_end <= spans[i].end
            && flag_of(spans[i], from_a) by {
        let p = if from_a { pos_a(a, b, k) } else { pos_b(a, b, k) };
        if from_a { lemma_pos_a(a, b, k) } else { lemma_pos_b(a, b, k) }
        assert(m[p] == (segs[k], from_a));
        assert(spans[i].start <= m[p].0.base_start <= spans[i].end);
    }
    assert forall|k: int|
        0 <= k < segs.len() implies exists|i: int| 0 <= i < spans.len() && in_span(spans[i], #[trigger] segs[k]) by {
        let p = if from_a { pos_a(a, b, k) } else { pos_b(a, b, k) };
        if from_a { lemma_pos_a(a, b, k) } else { lemma_pos_b(a, b, k) }
        assert(m[p].0 == segs[k]);
        let i = choose|i: int| 0 <= i < spans.len() && in_span(spans[i], (#[trigger] m[p]).0);
    }
    assert forall|i: int|
        0 <= i < spans.len() && flag_of(#[trigger] spans[i], from_a) implies exists|k: int|
            0 <= k < segs.len() && spans[i].start <= (#[trigger] segs[k]).base_start <= spans[i].end by {
        let p = choose|p: int| starts_in(m, p, spans[i], from_a);
        lemma_origin(a, b, p);
        let k = origin(a, b, p);
        assert(segs[k] == m[p].0);
    }
}

} // verus!
