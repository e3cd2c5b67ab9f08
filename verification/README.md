# glyf

Look up Unicode glyphs by name (fuzzy search) or codepoint, with filters by
block, general category, source and Nerd Fonts icon set, and pick counts
("frecency") that float frequently picked glyphs to the top.

The library in `src/` is written in Verus; every function carries a contract
that the verifier proves, except three trusted calls whose contracts are
taken as given: frizbee's fuzzy matcher (`search::match_list`),
`str::to_uppercase` for non-ASCII queries (`search::to_uppercase`) and
`std::str::from_utf8` (`corpus::utf8_str`).

- `corpus` — the entry tables (codepoints and string fields packed in byte
  tables), validated on construction; lookups by codepoint and by query
  string, source and icon set lists.
- `block` — the table of Unicode blocks: lookup by codepoint, by name, and
  the entries a block covers.
- `category` — general categories and patterns such as `L*`.
- `filter` — filters built from command-line or Lua options, the entries a
  filter selects, listings and filtered searches.
- `search` — fuzzy name search (through `frizbee`) and ranking of hits by
  picks, score, name or codepoint.
- `sort` — a stable merge sort of positions by byte-string keys.
- `table` — building the entry tables from the corpus text.
- `frecency` — pick counts and their on-disk record format.
- `output` — the plain, pretty and tab-separated renderings and the listing
  lines.
- `text` — string helpers: byte order, trimming, hex parsing, comma lists.

`app/` holds the `glyf` command (argument parsing with `clap`, reading the
tables and the pick file, printing) and the `glyf_core` Lua module (`mlua`).
The tables are read from `$GLYF_DATA_DIR` (or `data/` beside the executable):
`string_data.bin`, `codepoints.bin`, `field_offsets.bin`,
`field_lengths.bin`, `name_offsets.bin`, `name_lengths.bin` and
`blocks.tsv`. Where the `.bin` tables are missing they are built from
`corpus.tsv` (module `table`), leaving out the blocks named in
`expanded_blocks.txt` unless `$GLYF_CJK` is set.
