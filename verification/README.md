# dup_finder

A duplicate and similar-file finder for local and network folders, with a
small image reader. The logic is a Verus-verified library; a thin server
around it does the file, process and network work.

## Layout

- `src/` — the verified library.
  - `paths`, `text`: path parts (file name, extension, archive members) and
    character helpers.
  - `collector`, `filter`: which files a scan ignores, their kinds, and the
    `file:` / `dir:` / `!no-ext` / glob exclusion rules (globs compiled and
    matched by `globset`).
  - `hash`, `dupes`, `grouping`: SHA-256 content hashes (`sha2`, `hex`), the
    size → head → tail → full-hash narrowing, hard-link groups.
  - `phash`, `similarity`, `vhash`: perceptual hashes (image thumbnails made
    by `image`), the BK-tree, Hamming distance as a metric, similar-image and
    similar-video groups.
  - `archive`: archive member fingerprints and overlapping archives.
  - `model`, `sort`: the result model, size texts, stable ordering by saving.
  - `scan`, `session`, `requests`, `byte_range`, `csv_tabs`: the scan run's
    decisions, the server's session state machine, request handling, HTTP
    byte ranges, and saved-session CSV tabs (written and read by `csv`).
  - `hash_cache`, `reader`, `scanner`: the hash cache, the reader's
    least-recently-used page cache and its folder listings.
- `tests/` — tests of the library on concrete values.
- `app/` — the HTTP server (axum), disk and archive reading, video decoding, ZIP reading and writing.
