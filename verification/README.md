# ocr_lib

Recognition of text in pictures by matching cut-out pixel regions against a library of
glyph bitmaps, with the library in `src/` specified and proved in Verus.

- `src/filter.rs`: single-channel images (`Tu8uc1`) and binarisation of blue-green-red pixels.
- `src/incise.rs`: cutting an image into regions, by connected white pixels
  (`incise_connected_area`, with `src/flood.rs` for the flood fill) or by free aisles around
  them (`incise_scope_aisle`, with the growth rule in `src/aisle.rs`), and merging close
  regions (`merge_incise_ranges`).
- `src/libs.rs`: reading a glyph library, one `text|cols,rows|bits` glyph per line.
- `src/ocr.rs`: matching regions against the glyphs.
- `src/image.rs`: the frame that a preview draws around a region.
- `app/`: reading pictures and library files and showing previews, with OpenCV.
