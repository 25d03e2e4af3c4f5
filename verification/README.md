# fakefont

Synthetic fonts for testing font tooling: a Latin font cut down to a chosen
coverage, other scripts merged in, axes added, and the corners of the
designspace filled out with masters.

The crate has two parts.

- `src/` is the verified library (Verus). It makes the decisions about the
  font's glyphs, masters, layers and axes that do not need floating point:
  - `coverage`: which Google Fonts glyph sets a Latin coverage level wants,
    and which glyphs of a font those codepoints keep;
  - `merge`: how the glyphs of another script's font are merged in without
    two glyphs sharing a name or a codepoint, and which feature prefixes come
    along;
  - `designspace`: the default location, the corner locations, which corners
    become new masters, and which coordinates count for metrics and kerning;
  - `layers`: which master each glyph layer belongs to when masters are
    added or another font's glyphs are merged in;
  - `axes`: axis tags, and the sorting and deduplication of axis maps;
  - `scripts`: the names the web page uses for coverages and scripts, and the
    checks an axis from the page must pass;
  - `stats`: the length of each table of a compiled font;
  - `coords`: how coordinates are carried (as order keys).
- `app/` holds the font itself (a babelfont `Font`), loads the source fonts,
  applies the library's decisions to it, computes the floating-point axis
  map values, moves outlines and kerning for new masters, names the new
  masters after their locations, and compiles.

The source fonts are read at run time from the directory named by
`FAKEFONT_RESOURCES` (default `resources`): `notosans.babelfont.gz`,
`notosansdevanagari.babelfont.gz`, `notonaskharabic.babelfont.gz`,
`notosansbengali.babelfont.gz`, `notosansthai.babelfont.gz`,
`CJK-8k.babelfont.gz`, `notosanskannada.babelfont.gz`,
`notosanstamil.babelfont.gz` and `notosanstelugu.babelfont.gz`.
