# cartobase

The verified core of a chunk-sync server: clients push explored chunk
coordinates and waypoints and pull everyone else's back by cursor.

- `src/` is the library, checked by Verus:
  - `chunkmap` — 32 × 32 chunk containers held as 128-byte bitmaps, with the
    laws that tie setting, counting and decoding together;
  - `sync` — grouping pushed chunks by container, merging them into stored
    bitmaps, and assembling pull pages and cursors;
  - `auth` — player slugs, bearer credentials, token generation and hashing;
  - `admin`, `config`, `models`, `error`, `text` — request checks, settings,
    message bodies and string helpers.
- `app/` is the HTTP server around it (axum, sqlx, PostgreSQL).
- `tests/` runs the library on concrete values.
