# pazifista

Tools for Black Desert Online game data: PAZ archives, PABR region maps
(`.rid` dictionaries with `.bkd` run-length scanlines), the region tables of
`gamecommondata`, and small rules of the fishing data import. The library is
written in Verus: its functions carry contracts that Verus proves, except
a few small wrappers around calls into std, `flate2`, `chrono` and `sha2`,
whose contracts are trusted and say, in their doc comments, what they
claim of the outside code.

Layout:

- `src/archive.rs`, `src/ice.rs`, `src/compression.rs`: PAZ/meta indexes,
  ICE decryption and payload decompression.
- `src/wildcard.rs`: the file masks used to pick archive entries, and the
  proof that the matcher's scan means what a mask says.
- `src/extract.rs`: the decisions of an extraction run (make a missing
  folder, overwrite or rename an existing file) as a step function.
- `src/pabr/`: RID and BKD parsing (`parse`), scanline rendering (`render`),
  runs, rectangles and GeoJSON geometry (`geojson`), intervals and region
  areas (`matching`), the other region layer of a match (`current_layer`)
  and the region match report (`region_match`).
- `src/gcdata.rs`, `src/stringtable.rs`, `src/array_waypoint.rs`,
  `src/waypoint_xml.rs`, `src/region_sources.rs`: the region, string and
  waypoint tables and the comparison of region sources.
- `src/ingest.rs`, `src/hotspots.rs`, `src/tiles.rs`, `src/trade_npcs.rs`,
  `src/ranking.rs`, `src/fishing_workbooks.rs`: rules of the data import:
  zone labels, loot conditions and branches, the primary fish of a hotspot,
  trade NPC candidates and destinations, ranking event ids, tile pyramids
  and workbook selection.
- `src/text.rs`: digits, trimming, the order of strings and the syntax of
  floating-point literals.
- `app/main.rs`: the `pazifista` command line: file and console I/O, JSON,
  the floating-point work (GeoJSON rasterisation, coverage ratios), and the
  level-0 step of a mask tile pyramid.
- `tests/`: tests of the library.
