# ftf2ttf

Converts fonts whose outlines are kept in private `FTFH` and `FTFG` tables to standard TrueType
fonts. What the library does is stated in contracts and proved with Verus.

- `src/` is the library.
  - `sfnt` reads and writes the container: the directory of tables, checksums, the overall seal.
  - `outline` reads the private glyph data and expands components; `glyf` writes standard glyphs.
  - `cmap` rebuilds the character map and looks characters up.
  - `tables` rebuilds the small tables that have to agree with the glyphs.
  - `color` turns the private `brsh` and `cglf` tables into `COLR` and `CPAL`.
  - `assets` takes the PNG files out of an `eimg` table.
  - `convert` puts it all together.
  - `ots` and `text` read what the OpenType sanitizer says; `messages`, `numerals` and `names` say
    why a font is refused and name files.
  - `laws` states what holds across functions: that what is written is read back, that a converted
    font stays as it is, that components cannot refer to themselves, that colour changes no other
    table, that a rebuilt character map keeps its glyphs.
- `tests/` runs the library on concrete values.
- `app/` is the command line around it.

Arithmetic on coordinates and lengths wraps around at the width of its type, as the formulas in the
contracts say. Some fonts lack a field that the conversion reads; for those `try_convert` gives
`None`, and `convert_ftf` and `convert_ftf_with` are not to be called.
