# war_analyzer

Reads Victoria 2 savefiles and game folders for a war analysis front end.
The library in `src/` is written in Verus: every function carries a
contract, and the contracts are proved.

## Library (`src/`)

- `text` — Unicode whitespace, decimal digits, code-point order and the
  character-level helpers the other modules share.
- `encoding` — Windows-1252 bytes to text.
- `parser` — the savefile tokenizer and parser: `key = value` statements,
  blocks of statements or of values, identifiers, strings and numbers, with
  the line and column of every token and error.
- `war` — wars, their battles and history extracted from a parsed savefile;
  losses in thousandths, corrected for 32-bit wrap-around.
- `sort` — a stable sort by a strict weak order, and sums over rearranged
  sequences.
- `view` — the sorted views of wars, battles and unit breakdowns.
- `flag` — TGA flag decoding (uncompressed and run-length encoded, 24 and
  32 bits, any origin) and PNG data URLs.
- `country` — the country catalog: which folders to read, localisation
  lines, first-found names per folder, mod before base game, flags and the
  warnings collected on the way.
- `overlay` — where an icon badge goes for each anchor, and the badge's
  rendered pixels with red and blue exchanged.

PNG encoding (`png`) and base64 (`base64`) are called through two trusted
wrappers in `flag`; converting characters to a `String` goes through one in
`text`.

## Around it (`app/`)

The Tauri commands, file system access, the serialisable copies of the
views, and the icon overlay tool's image handling, none of which Verus
checks.

## Tests (`tests/`)

Plain Rust tests against the compiled library.
