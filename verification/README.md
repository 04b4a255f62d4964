# aetherquill

Draw working spells on a reMarkable 2: a ring, a sigil inside it, close the
ring, and the tablet recognizes the glyph, compiles it into a spell and plays
an elemental activation effect on the e-ink page.

## Layout

- `src/` — the verified library (Verus). It holds the logic that can be
  stated and proved exactly:
  - `topological_flood_fill` — the ink raster, the exterior flood and the
    dry (enclosed) regions that decide whether a ring is sealed;
  - `ring_detector` — the largest gap among a ring's angle bins, and when a
    newly sealed ring activates the spell;
  - `template_matcher` — the ink masks, overlaps and region cells of template
    matching;
  - `coordinate_normalizer`, `stroke_grouper`, `symbol_recognizer`,
    `drawing_classifier`, `spell_builder` — the decisions of the recognizer
    and the spell compiler (stroke roles, symbol grouping, recognition
    verdicts, glyph warnings, spell verdicts), and the wire names of their
    labels;
  - `render`, `font`, `toolbar` — the 1-bit framebuffer, text, the tablet
    app's toolbar, eraser flyout and status strip, touch and pen dispatch,
    the stroke history (new strokes, undo / redo / clear), and when a spell
    activates or a completed ring is redrawn;
  - `eraser` — splitting a scrubbed stroke into its surviving runs, with the
    erased stroke kept for redo;
  - `client` — the touch handling of the oracle client.
- `tests/` — tests of the library on concrete values.
- `app/` — the code around the library: the floating-point measuring and
  scoring of the recognition pipeline, float-stepped drawing and the
  activation effects, shape snapping, the dictionary reader, the spell log,
  the oracle client program and the effect preview.

Each module of `app/` says in its header which verified functions it rests
on and why the rest of it stays outside the library.
