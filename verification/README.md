# sudoku_tracker

A progress tracker for the Sudoku Adventure puzzle list: it syncs the puzzle list from a
Google Sheet CSV export, keeps per-puzzle progress (solved, skipped, video use, time) in
SQLite, and answers a small JSON API for a static web page.

The crate is split in two:

- `src/` is the library, verified with Verus: reading the sheet CSV into puzzles, times
  (`4:50`, `1:09:05`) and their formatting, merging stored progress into the puzzle list,
  constraint filters, statistics, the distinct constraint list, progress updates, imports
  from a CSV link (address resolution, fallback addresses, rows to progress) and the
  progress export. Calls into `csv`, `url` and `str::to_lowercase`/`to_uppercase` stand
  behind small trusted wrappers whose contracts are documented where they are declared.
- `app/` is the server around it: Axum routes, SQLite through sqlx, HTTP downloads through
  reqwest, the sync timer, and the JSON shapes of the API.

Module guide for `src/`:

| Module | Contents |
|--------|----------|
| `text` | Character-level text operations (trim, split, search, case mapping) |
| `numbers` | Decimal reading and writing |
| `url_parts` | What the logic reads of a parsed URL, and URL rewrites |
| `models` | The data types: puzzles, progress, merged puzzles, request bodies |
| `csv_util` | CSV rows, puzzles from the sheet, the progress export |
| `logic` | Times, video labels, merging, filters, statistics, sheet addresses |
| `service` | Request decisions: progress updates, the state view, imports, downloads |
| `laws`, `progress_laws`, `roundtrip_laws` | Properties that span functions |

Environment variables of the server: `PORT` (3840), `DATA_DIR` (`./data`), `STATIC_DIR`
(`public`), `SHEET_ID`, `SHEET_GID` (`0`), `SHEET_SYNC_INTERVAL_MS` or `SYNC_INTERVAL_MS`
(24 h, at least 60 s).
