# fus

A file utility toolkit: finding duplicate files (by content or by fuzzy
names) and giving files random number prefixes.

`src/` is the verified library, written in Verus:

- `text` — searching character sequences, `u32` parsing, `str`/`Vec<char>` conversions
- `copy_names` — recognising names of copies, originality scores, copy-marker removal
- `normalize` — normalised names for similarity comparison, extension keys
- `union_find` — disjoint sets with union by rank and path compression
- `grouping` — groups by equal labels, candidate pairs, groups of similar files
- `ordering` — stable ordering by score and name
- `content` — SHA-256 digests in hex, groups by size and by digest
- `report` — the unit in which a size is shown
- `renumber` — number prefixes: stripping, padding, planning the renames

`app/` is the command-line program around it (`fus dedup`, `fus rand`):
directory listing, file reading, renaming and deleting, floating-point
similarity scores and size formatting.
