# ttf-rasterizer

Terminal sprites out of TrueType fonts: a library whose functions state in contracts what
they return and are proved with Verus, and a command line tool around it.

- `src/` is the library.
  - `raster`: from glyph bitmaps to rows of characters; `profile`: the ramps of characters;
    `font_file`: whether the bytes of a font can be parsed.
  - `browser`, `search`, `frame`: the font browser, its search, and what their screens show.
  - `catalog`, `online`: finding and choosing fonts, and building the online catalog.
  - `shell`, `paths`, `api_key`: names, commands, clipboard sequences, file paths and the key
    of the online catalog.
  - `text`, `text_map`: strings as sequences of characters, and a map of strings.
- `tests/` runs the library on concrete values.
- `app/` is the tool: the command line, the terminal, files and the web. It calls the font
  rasterizer, whose sizes are floating-point numbers, and hands the library whole pixels.

Laws that relate several functions are the public proof functions whose names start with
`law_`. What is believed without proof about other crates stands in `raster`
(`font_from_bytes`), `shell` (`base64_encode`) and `text` (`String::push`).

The tool reads the fonts that it offers from `catalog/google_fonts.yaml` in the directory of
its sources.
