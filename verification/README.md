# git_pincer_desktop

The verified core of PINCER, a desktop tool that resolves Git conflicts in an
IDEA-style three-pane editor. The functions under `src/` are checked by
Verus against their `requires` / `ensures` contracts, except a few small
trusted wrappers (around `similar`'s diffs, the clock and `String::from_iter`)
whose contracts Verus takes on trust; `app/` is the Tauri shell that
runs git, reads and writes files and talks to the web front end.

Layout of `src/`:

- `text.rs` — character-level text model: line splitting (`str::split` and
  `str::lines`), trimming, prefix stripping, decimal numbers.
- `diff.rs` — edit scripts as `similar` computes them (the trusted calls), and
  the structure every valid script has.
- `cluster.rs` — grouping both sides' changed stretches into collision
  clusters by base range.
- `emphasis.rs` — word-level emphasis of changed lines, in UTF-16 offsets.
- `merge.rs` — the three-way chunking engine and the snapshot it builds.
- `laws.rs` — what every snapshot promises: chunks in order and apart,
  nothing changed outside them, truthful kinds and colours, colliding
  changes of both sides meet in one chunk, applying one side's chunks
  rebuilds that side, emphasis inside its chunk.
- `settings.rs` — user settings, their defaults and normalisation.
- `repo.rs` — which git commands the plumbing runs and what their output
  means.
- `shell.rs` — window forms, operation outcomes, the recent-repository list.
- `error.rs` — the error every command reports.
