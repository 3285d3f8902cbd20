# osu-difficulty-lab

A local research dataset of osu! beatmaps and an index of similar ones: packs are imported,
beatmaps are kept with five features of difficulty, the features are normalized and published
with statistics for each tenth of a star, and an index answers which beatmaps are close to a
given one. A second dataset does the same for osu!mania by key count and difficulty band.

Only osu!standard without mods is imported. Packs that are known to hold other modes alone are
excluded before any request.

## Layout

- `src/` is the library, verified with Verus: every public function there
  carries a contract.
  - `text`, `bytes`, `float_bits`, `sorting`, `ordered`, `paths`: texts, numbers in bytes, encoded
    values, stable sorting, ordered keys and paths.
  - `html`, `cookie`, `catalog`, `beatmap`, `archive`, `source`: what is read of pages, cookie
    files, catalogues, beatmaps, archives and mirrors.
  - `transfer`, `packs`, `imports`, `transaction`, `display`: downloads and imports, step by step;
    a pack is imported as a whole or not at all.
  - `types`, `records`, `store`, `publish`, `normalizer`, `index`: the osu!standard dataset.
  - `mania`, `mania_normalizer`, `mania_index`, `mania_file`: the osu!mania dataset.
  - `checksum`, `normalizer_file`, `export`: checksums of index files, files of normalizers, and
    exported tables.
- `app/` is the command line around it: the database, files, requests, the search graph and all
  floating-point arithmetic.
- `tests/` runs the library on concrete values.

The functions named `law_...` state what holds across operations, such as that published records
read back, that a complete pack stays complete, or that the nearest candidates are kept.

Values of features are held by the bits of their encoding. They are compared and ordered in the
library and computed with in `app/` only.
