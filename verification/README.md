# helix_lib

Pieces of a modal terminal text editor's view and terminal layers, written in Verus.
Every function in `src/` carries a contract. Verus proves all of them except four small
wrappers around outside calls (`Rect::new` of ratatui, `String::from_utf8_lossy`, the
display width of `unicode-width` and the grapheme clusters of `unicode-segmentation`),
whose contracts are trusted; each says in its doc comment what it claims of the call.

- `src/graphics.rs`: colors (with hex parsing), text modifiers, underline styles, styles
  and how they patch each other, rectangles and their clipping.
- `src/compositor.rs`: the stack of screen layers, their render caches, event bubbling and
  the cursor of the frontmost layer.
- `src/table.rs`: truncating table cells at their start.
- `src/log.rs`: the line-capped log store and the writer that cuts bytes into lines.
- `src/progress.rs`: progress reports of debug adapters.
- `src/profile.rs`: frame profiling scopes and percentile statistics.
- `src/picker.rs`: the picker's preview decisions, directory listings and debouncing.
- `src/multibuffer.rs`: the excerpt headers of multibuffers.
- `src/terminal.rs`: terminal configuration.

`app/` holds what the verifier does not see: file system access, the shared log hub with
its channel and clock, the profiler's switch and floating-point reports, conversions to
the terminal widgets, and the component traits. `tests/` runs the library on concrete
values.
