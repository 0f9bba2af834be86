use git_pincer_desktop::diff::{DiffRange, DiffTag};
use git_pincer_desktop::emphasis::{diff_ranges, line_emphasis};
use git_pincer_desktop::merge::{
    build_snapshot, snapshot_from_diffs, ChunkKind, ChunkVisual, MergeSnapshot, MAX_DIFF_BYTES,
    MAX_EMPHASIS_LINES, MAX_EMPHASIS_LINE_CHARS,
};

fn snap(base: &str, ours: &str, theirs: &str) -> MergeSnapshot {
    build_snapshot("t.txt", base, ours, theirs)
}

fn op(tag: DiffTag, o: (usize, usize), n: (usize, usize)) -> DiffRange {
    DiffRange { tag, old_start: o.0, old_end: o.1, new_start: n.0, new_end: n.1 }
}

fn lines(s: &str) -> Vec<&str> {
    s.split('\n').collect()
}

/// Replaces every chunk's base range with its lines on one pane.
fn apply_all(s: &MergeSnapshot, left: bool) -> String {
    let base = lines(&s.result);
    let side = if left { lines(&s.left) } else { lines(&s.right) };
    let mut out: Vec<&str> = Vec::new();
    let mut at = 0;
    for c in &s.chunks {
        out.extend_from_slice(&base[at..c.result_range[0]]);
        let r = if left { c.left_range } else { c.right_range };
        out.extend_from_slice(&side[r[0]..r[1]]);
        at = c.result_range[1];
    }
    out.extend_from_slice(&base[at..]);
    out.join("\n")
}

#[test]
fn ours_only_modification() {
    let s = snap("a\nb\nc\n", "a\nB\nc\n", "a\nb\nc\n");
    assert_eq!(s.chunks.len(), 1);
    let c = &s.chunks[0];
    assert_eq!(c.kind, ChunkKind::Ours);
    assert_eq!(c.visual, ChunkVisual::Modified);
    assert_eq!(c.left_range, [1, 2]);
    assert_eq!(c.result_range, [1, 2]);
    assert_eq!(c.right_range, [1, 2]);
    assert_eq!(s.conflicts, 0);
}

#[test]
fn non_overlapping_changes_stay_separate() {
    let s = snap("a\nb\nc\nd\ne\n", "A\nb\nc\nd\ne\n", "a\nb\nc\nd\nE\n");
    assert_eq!(s.chunks.len(), 2);
    assert_eq!(s.chunks[0].kind, ChunkKind::Ours);
    assert_eq!(s.chunks[1].kind, ChunkKind::Theirs);
    assert_eq!(s.chunks[1].left_range, [4, 5]);
    assert_eq!(s.conflicts, 0);
}

#[test]
fn colliding_changes_conflict() {
    let s = snap("a\nshared\nc\n", "a\nours\nc\n", "a\ntheirs\nc\n");
    assert_eq!(s.chunks.len(), 1);
    let c = &s.chunks[0];
    assert_eq!(c.kind, ChunkKind::Conflict);
    assert_eq!(s.conflicts, 1);
    assert!(!c.left_emphasis.is_empty());
    assert!(!c.right_emphasis.is_empty());
}

#[test]
fn identical_changes_agree() {
    let s = snap("a\nx\nc\n", "a\ny\nc\n", "a\ny\nc\n");
    assert_eq!(s.chunks.len(), 1);
    assert_eq!(s.chunks[0].kind, ChunkKind::Agree);
    assert_eq!(s.conflicts, 0);
}

#[test]
fn added_and_deleted_visuals() {
    // An inserted line on our side is an addition with an empty base range.
    let s = snap("a\nb\n", "a\nnew\nb\n", "a\nb\n");
    assert_eq!(s.chunks[0].visual, ChunkVisual::Added);
    assert_eq!(s.chunks[0].result_range[0], s.chunks[0].result_range[1]);

    // A line deleted on their side is a deletion with an empty range there.
    let s = snap("a\nb\nc\n", "a\nb\nc\n", "a\nc\n");
    assert_eq!(s.chunks[0].kind, ChunkKind::Theirs);
    assert_eq!(s.chunks[0].visual, ChunkVisual::Deleted);
    assert_eq!(s.chunks[0].right_range[0], s.chunks[0].right_range[1]);
}

#[test]
fn insertions_at_same_point_conflict() {
    let s = snap("a\nb\n", "a\nX\nb\n", "a\nY\nb\n");
    assert_eq!(s.chunks.len(), 1);
    assert_eq!(s.chunks[0].kind, ChunkKind::Conflict);
}

#[test]
fn oversized_input_degrades_to_single_conflict() {
    let big = "x\n".repeat(1_100_000); // > 2MB
    let s = snap(&big, "a\n", "b\n");
    assert_eq!(s.chunks.len(), 1);
    assert_eq!(s.chunks[0].kind, ChunkKind::Conflict);
}

#[test]
fn overlong_lines_skip_word_emphasis() {
    let base = format!("{}\n", "a".repeat(MAX_EMPHASIS_LINE_CHARS + 1));
    let ours = format!("{}\n", "b".repeat(MAX_EMPHASIS_LINE_CHARS + 1));
    let s = snap(&base, &ours, &base);
    assert_eq!(s.chunks.len(), 1);
    assert_eq!(s.chunks[0].kind, ChunkKind::Ours);
    assert!(s.chunks[0].left_emphasis.is_empty());
}

#[test]
fn utf16_emphasis_offsets_for_cjk() {
    let s = snap("你好世界\n", "你好中国\n", "你好世界\n");
    let c = &s.chunks[0];
    assert_eq!(c.kind, ChunkKind::Ours);
    assert_eq!(c.left_emphasis, vec![[0, 2, 4]]);
}

#[test]
fn oversized_snapshot_covers_every_line() {
    let big = "x\n".repeat(1_100_000);
    let s = snap(&big, "a\n", "b\nc\n");
    let c = &s.chunks[0];
    assert_eq!(c.id, 0);
    assert_eq!(c.visual, ChunkVisual::Conflict);
    assert_eq!(c.result_range, [0, 1_100_001]);
    assert_eq!(c.left_range, [0, 2]);
    assert_eq!(c.right_range, [0, 3]);
    assert!(c.left_emphasis.is_empty() && c.right_emphasis.is_empty());
    assert_eq!((s.changes, s.conflicts), (1, 1));
    assert_eq!(s.result.len(), 2_200_000);
}

#[test]
fn size_limit_is_exclusive() {
    // Exactly MAX_DIFF_BYTES bytes is still diffed.
    let exact = "x".repeat(MAX_DIFF_BYTES);
    let s = snap(&exact, &exact, &exact);
    assert!(s.chunks.is_empty());
    let over = "x".repeat(MAX_DIFF_BYTES + 1);
    let s = snap("a", &over, "a");
    assert_eq!(s.chunks.len(), 1);
    assert_eq!(s.chunks[0].kind, ChunkKind::Conflict);
}

#[test]
fn snapshot_keeps_the_texts_and_path() {
    let s = build_snapshot("dir/f.rs", "b\n", "o\n", "t\n");
    assert_eq!(s.path, "dir/f.rs");
    assert_eq!(s.result, "b\n");
    assert_eq!(s.left, "o\n");
    assert_eq!(s.right, "t\n");
}

#[test]
fn identical_texts_have_no_chunks() {
    let s = snap("a\nb\n", "a\nb\n", "a\nb\n");
    assert!(s.chunks.is_empty());
    assert_eq!((s.changes, s.conflicts), (0, 0));
}

#[test]
fn touching_changes_collide() {
    // Our change ends where theirs starts: the ranges touch, so they collide.
    let s = snap("a\nb\nc\nd\n", "A\nb\nc\nd\n", "a\nB\nc\nd\n");
    assert_eq!(s.chunks.len(), 1);
    assert_eq!(s.chunks[0].kind, ChunkKind::Conflict);
    assert_eq!(s.chunks[0].result_range, [0, 2]);
    assert_eq!(s.chunks[0].left_range, [0, 2]);
    assert_eq!(s.chunks[0].right_range, [0, 2]);
}

#[test]
fn agreeing_chunk_mirrors_emphasis() {
    let s = snap("a\nx\nc\n", "a\ny\nc\n", "a\ny\nc\n");
    let c = &s.chunks[0];
    assert_eq!(c.kind, ChunkKind::Agree);
    assert_eq!(c.left_emphasis, vec![[0, 0, 1]]);
    assert_eq!(c.right_emphasis, c.left_emphasis);
}

#[test]
fn one_sided_chunks_emphasise_their_pane_only() {
    let s = snap("a\nbase line\nc\n", "a\nbase line\nc\n", "a\nbase LINE\nc\n");
    let c = &s.chunks[0];
    assert_eq!(c.kind, ChunkKind::Theirs);
    assert!(c.left_emphasis.is_empty());
    assert_eq!(c.right_emphasis, vec![[0, 5, 9]]);
}

#[test]
fn conflict_emphasis_compares_ours_with_theirs() {
    let s = snap("k = 0\n", "k = 1\n", "k = 2\n");
    let c = &s.chunks[0];
    assert_eq!(c.kind, ChunkKind::Conflict);
    assert_eq!(c.left_emphasis, vec![[0, 4, 5]]);
    assert_eq!(c.right_emphasis, vec![[0, 4, 5]]);
}

#[test]
fn large_conflicts_skip_emphasis() {
    let base = "x\n".repeat(MAX_EMPHASIS_LINES + 1);
    let ours = "o\n".repeat(MAX_EMPHASIS_LINES + 1);
    let theirs = "t\n".repeat(MAX_EMPHASIS_LINES + 1);
    let s = snap(&base, &ours, &theirs);
    assert_eq!(s.chunks.len(), 1);
    assert_eq!(s.chunks[0].kind, ChunkKind::Conflict);
    assert!(s.chunks[0].left_emphasis.is_empty());
    assert!(s.chunks[0].right_emphasis.is_empty());
}

#[test]
fn chunks_are_ordered_and_apart() {
    let s = snap("1\n2\n3\n4\n5\n6\n7\n", "1\nX\n3\n4\n5\n6\n7\nY\n", "1\n2\n3\n4\nZ\n6\n");
    assert_eq!(s.chunks.len(), 3);
    for (i, c) in s.chunks.iter().enumerate() {
        assert_eq!(c.id, i);
    }
    for w in s.chunks.windows(2) {
        assert!(w[0].result_range[1] < w[1].result_range[0]);
        assert!(w[0].left_range[1] < w[1].left_range[0]);
        assert!(w[0].right_range[1] < w[1].right_range[0]);
    }
}

#[test]
fn applying_every_chunk_rebuilds_each_side() {
    let cases = [
        ("a\nb\nc\nd\ne\n", "A\nb\nc\nd\ne\nf\n", "a\nb\nC\nd\n"),
        ("x\ny\n", "", "x\nz\ny\n"),
        ("", "one\ntwo", "three"),
        ("p\nq\nr\ns\n", "p\nr\ns\n", "p\nq\nr\nS\nt\n"),
    ];
    for (b, o, t) in cases {
        let s = snap(b, o, t);
        assert_eq!(apply_all(&s, true), o);
        assert_eq!(apply_all(&s, false), t);
    }
}

#[test]
fn unchanged_lines_lie_outside_chunks() {
    let s = snap("1\n2\n3\n4\n5\n", "1\n2\nthree\n4\n5\n", "1\n2\n3\n4\nfive\n");
    let b = lines(&s.result);
    let o = lines(&s.left);
    // Between the two chunks the base line 4 is the same on our side.
    let (c0, c1) = (&s.chunks[0], &s.chunks[1]);
    assert_eq!(&b[c0.result_range[1]..c1.result_range[0]], &o[c0.left_range[1]..c1.left_range[0]]);
    assert_eq!(&b[c0.result_range[1]..c1.result_range[0]], &["4"]);
}

#[test]
fn explicit_scripts_give_exact_chunks() {
    // base: a b c (+ trailing empty line); ours replaces b; theirs appends d.
    let base = "a\nb\nc\n";
    let ours = "a\nB\nc\n";
    let theirs = "a\nb\nc\nd\n";
    let ours_ops = vec![
        op(DiffTag::Equal, (0, 1), (0, 1)),
        op(DiffTag::Replace, (1, 2), (1, 2)),
        op(DiffTag::Equal, (2, 4), (2, 4)),
    ];
    let theirs_ops = vec![
        op(DiffTag::Equal, (0, 3), (0, 3)),
        op(DiffTag::Insert, (3, 3), (3, 4)),
        op(DiffTag::Equal, (3, 4), (4, 5)),
    ];
    let s = snapshot_from_diffs("f", base, ours, theirs, &ours_ops, &theirs_ops);
    assert_eq!(s.chunks.len(), 2);
    assert_eq!(s.chunks[0].kind, ChunkKind::Ours);
    assert_eq!(s.chunks[0].left_range, [1, 2]);
    assert_eq!(s.chunks[1].kind, ChunkKind::Theirs);
    assert_eq!(s.chunks[1].visual, ChunkVisual::Added);
    assert_eq!(s.chunks[1].result_range, [3, 3]);
    assert_eq!(s.chunks[1].left_range, [3, 3]);
    assert_eq!(s.chunks[1].right_range, [3, 4]);
}

#[test]
fn line_emphasis_marks_changed_characters() {
    let a: Vec<char> = "hello world".chars().collect();
    let b: Vec<char> = "hello there".chars().collect();
    let (ea, eb) = line_emphasis(&a, &b);
    assert!(!ea.is_empty() && !eb.is_empty());
    assert!(ea.iter().all(|r| r.0 >= 6 && r.1 <= 11));
    assert!(eb.iter().all(|r| r.0 >= 6 && r.1 <= 11));
    let same: Vec<char> = "same".chars().collect();
    assert_eq!(line_emphasis(&same, &same), (vec![], vec![]));
}

#[test]
fn emphasis_counts_utf16_units_beyond_the_bmp() {
    // '😀' takes two UTF-16 units.
    let s = snap("😀a\n", "😀b\n", "😀a\n");
    assert_eq!(s.chunks[0].left_emphasis, vec![[0, 2, 3]]);
}

#[test]
fn diff_ranges_follow_the_script() {
    let a: Vec<char> = "abc".chars().collect();
    let b: Vec<char> = "aXYc".chars().collect();
    let ops = vec![
        op(DiffTag::Equal, (0, 1), (0, 1)),
        op(DiffTag::Replace, (1, 2), (1, 3)),
        op(DiffTag::Equal, (2, 3), (3, 4)),
    ];
    assert_eq!(diff_ranges(&ops, &a, &b), (vec![(1, 2)], vec![(1, 3)]));
    // Touching changed ranges merge; an empty side range adds nothing.
    let ops = vec![
        op(DiffTag::Delete, (0, 1), (0, 0)),
        op(DiffTag::Insert, (1, 1), (0, 2)),
        op(DiffTag::Replace, (1, 3), (2, 4)),
    ];
    assert_eq!(diff_ranges(&ops, &a, &b), (vec![(0, 3)], vec![(0, 4)]));
    // Characters beyond the BMP count two UTF-16 units.
    let c: Vec<char> = "😀x".chars().collect();
    let d: Vec<char> = "😀y".chars().collect();
    let ops = vec![op(DiffTag::Equal, (0, 1), (0, 1)), op(DiffTag::Replace, (1, 2), (1, 2))];
    assert_eq!(diff_ranges(&ops, &c, &d), (vec![(2, 3)], vec![(2, 3)]));
}

#[test]
fn line_emphasis_ranges_are_well_formed() {
    let cases = [("abc", "ab"), ("", "x"), ("same", "same"), ("你好世界", "你好"), ("a😀b", "a😀c"), ("xyz", "zyx")];
    for (a, b) in cases {
        let ac: Vec<char> = a.chars().collect();
        let bc: Vec<char> = b.chars().collect();
        let (ea, eb) = line_emphasis(&ac, &bc);
        for (rs, s) in [(&ea, a), (&eb, b)] {
            let len = s.encode_utf16().count() as u32;
            for w in rs.windows(2) {
                assert!(w[0].1 < w[1].0);
            }
            assert!(rs.iter().all(|r| r.0 < r.1 && r.1 <= len));
        }
        assert_eq!(ea.is_empty() && eb.is_empty(), a == b);
    }
    // Only deletions: the emphasis falls on the longer line alone.
    let ac: Vec<char> = "abc".chars().collect();
    let bc: Vec<char> = "ab".chars().collect();
    assert_eq!(line_emphasis(&ac, &bc), (vec![(2, 3)], vec![]));
}

#[test]
fn every_differing_conflict_line_is_emphasised() {
    let s = snap("a\nb\nc\n", "1\nsame\n2\n", "3\nsame\n4\n");
    let c = &s.chunks[0];
    assert_eq!(c.kind, ChunkKind::Conflict);
    let rows = |v: &Vec<[u32; 3]>| v.iter().map(|r| r[0]).collect::<Vec<u32>>();
    let mut lines: Vec<u32> = rows(&c.left_emphasis);
    lines.extend(rows(&c.right_emphasis));
    assert!(lines.contains(&0) && lines.contains(&2));
    assert!(!lines.contains(&1));
    // Rows come in line order, and those of one line in order and apart.
    for v in [&c.left_emphasis, &c.right_emphasis] {
        for w in v.windows(2) {
            assert!(w[0][0] < w[1][0] || (w[0][0] == w[1][0] && w[0][2] < w[1][1]));
        }
        assert!(v.iter().all(|r| r[1] < r[2]));
    }
}

#[test]
fn unchanged_side_leaves_only_the_other_sides_chunks() {
    let s = snap("a\nb\nc\nd\n", "a\nb\nc\nd\n", "a\nX\nc\nd\nE\n");
    assert!(!s.chunks.is_empty());
    assert!(s.chunks.iter().all(|c| c.kind == ChunkKind::Theirs));
    let s = snap("a\nb\nc\nd\n", "Y\nb\nc\n", "a\nb\nc\nd\n");
    assert!(!s.chunks.is_empty());
    assert!(s.chunks.iter().all(|c| c.kind == ChunkKind::Ours));
    assert_eq!(s.conflicts, 0);
}

#[test]
fn one_changed_line_gives_one_chunk_at_that_line() {
    let s = snap("a\nb\nc\nd\ne\n", "a\nb\nX\nd\ne\n", "a\nb\nc\nd\ne\n");
    assert_eq!(s.chunks.len(), 1);
    let c = &s.chunks[0];
    assert_eq!(c.kind, ChunkKind::Ours);
    assert_eq!(c.visual, ChunkVisual::Modified);
    assert_eq!((c.left_range, c.result_range, c.right_range), ([2, 3], [2, 3], [2, 3]));
}
