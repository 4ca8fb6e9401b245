# Sonum

Sonum is a music server: it scans the music folders it is pointed at and serves what it finds over a
plain HTTP API. This crate holds its rules as a library verified with Verus; the server around it is
under `app/`.

- `src/` is the library. Every function states what it gives and changes, over plain sequences and
  numbers, and is proved against that. What holds of several functions together stands in public
  proof functions whose names begin with `law_`.
- `app/` is the server: sockets, files, tags, the SQLite file and the encoder process.
- `tests/` runs the library on concrete values.

| Module | What it is about |
|---|---|
| `config` | the configuration file |
| `library_db`, `fingerprint`, `clock` | the table of known files, which gives each its lasting id |
| `metadata`, `scan`, `scan_laws` | from files that were read to the index, and what scans keep |
| `state` | tracks and their index |
| `handlers`, `page`, `transcode` | listing and streaming tracks |
| `groups`, `duplicates`, `tree` | albums, artists, likely duplicates, folders |
| `lyrics`, `art`, `tags` | lyrics, album art, tag edits |
| `ratelimit`, `metrics` | request limits and metrics |
| `text`, `paths`, `lists`, `order`, `grouping`, `util` | the ground that these stand on |

A few functions of `std` and of other crates are taken on trust; each says so above its declaration.
