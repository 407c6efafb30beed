# pxl — semantic sprite comparison

Compares pixel-art sprites and reports what changed: dimensions, palette tokens
(added, removed, recolored), region geometry (added, removed, shifted as a unit,
reshaped) and sprites present in only one of two documents. Every function of the
library is verified with Verus against a contract stated over mathematical models.

Layout:

- `src/text.rs` — the order of strings, decimal notation, joining lines.
- `src/token_map.rs` — maps keyed by token names; the sorted names of two maps.
- `src/pixels.rs` — sets of canvas pixels; equality, translation (shift), symmetric difference.
- `src/raster.rs` — the order in which a sprite's regions are rasterized.
- `src/diff.rs` — sprite comparison and its summary.
- `src/report.rs` — the text report of a comparison.
- `src/documents.rs` — comparison of two parsed documents, sprite by sprite.
- `src/laws.rs` — properties of every comparison and report, proved.
- `app/` — reading files and converting rasterized regions into the library's types.
- `tests/` — tests on concrete values.
