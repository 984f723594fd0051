# pixelkit

A small toolkit for software-rendered desktop tools: a pixel buffer and
painter, a PNG writer and reader, OpenType text shaping, keyboard and mouse
input, and immediate-mode widgets. The library in `src/` is written in Verus:
each public function states what it does in `requires` and `ensures`, and
Verus proves the code meets it.

## Layout

- `src/raster` — the pixel buffer, colours and blending, the clipping
  painter and its shapes, the coverage bitmap, and PNG: CRC and Adler-32,
  the stored-block writer, DEFLATE inflation, scanline filters, Adam7, the
  decoder, and the proof that decoding what the writer wrote gives the image
  back (`png/roundtrip.rs`).
- `src/text` — the SFNT table directory, glyph outlines, GSUB and GPOS
  lookups, UTF-8, font runs, the glyph-cache budget and the line-break rule.
- `src/shell` — key and button translation, per-frame input with click
  claiming, frame pacing, the clipboard and the frame log's arithmetic.
- `src/ui` — focus, layout, tables and lists, text fields, dropdowns,
  tooltips, form controls and the palettes.
- `app/` — what Verus does not take: the window and event loop (winit), the
  presenter (softbuffer), floating-point rasterisation and text layout, and
  the drawing half of each widget. It calls the library for every decision.
- `tests/` — tests of the library on concrete values.
