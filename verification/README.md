# figdriver

A FIGfont renderer: it draws text as large ASCII-art banners with FIGfont
(`.flf`) files, as a library and as a `figlet` command.

The library in `src/` is written in Verus; every function states its
behaviour in `requires`/`ensures` and is proved against it:

- `flf`: reading a font file into a `FIGfont`;
- `smusher`: placing FIGcharacters side by side (full width, kerning,
  smushing rules) and right to left;
- `wrapper`: word wrapping into lines of a given width, with alignment;
- `control`: character mapping pipelines and the input decoders (UTF-8,
  Latin-1, DBCS, Shift-JIS, HZ, ISO 2022);
- `cmdline`: the decisions of the command (font names, layout options,
  how input lines are cut into words and blanks).

Besides the contracts, `src/` proves laws of the library as a whole, for
instance that characters missing from a font leave no trace, that a refused
`push_str` leaves a wrapper as it was, that a wrap hands out the line once
and drops the whitespace at the wrap point, that wrapping keeps the output
equal to the rendering of the current line, and that UTF-8 decoding gives back the
characters that were encoded.

`app/` is the `figlet` command around the library: option scanning, files,
standard input and the terminal size. `tests/` holds the tests.
