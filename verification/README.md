# Trip Viewer

The logic behind a viewer for dashcam archives: reading file names of several
camera makes, grouping clips into trips, keeping the tables of an archive,
importing memory cards, encoding timelapses with a speed that follows the trip,
joining and deleting trips.

- `src/` is the library. It touches neither disk, database nor processes: what
  was found there comes in as plain values, and what is to be done there goes
  out as plain values. It is verified with Verus; the contracts say what each
  function returns, and the public proof functions state what holds across
  functions. Nine calls into other crates and the standard library are taken on
  trust, and listed below.
- `tests/` runs the library on concrete values.
- `app/` is a command line around the library: files, SQLite, ffmpeg, JSON, and
  the floating point of positions.

Durations and places on a time line are whole milliseconds throughout the
library; identifiers are the 128 bits of a UUID, or its text in the tables. Paths
are text; an absolute one says by its start whether it is one of Windows.

What the proofs take on trust, each with its contract beside the call:

| Where | What is called |
| --- | --- |
| `ids::parse_uuid` | `uuid::Uuid::parse_str` |
| `ids::uuid_string` | the text of a `uuid::Uuid` |
| `ids::name_uuid` | `uuid::Uuid::new_v5` |
| `ids::debug_string` | `{:?}` of a `str` |
| `moment::parse_datetime` | `chrono::NaiveDateTime::parse_from_str` |
| `moment::date_number` | `chrono::NaiveDate::from_ymd_opt`, `num_days_from_ce` |
| `moment::moment_from_millis` | `chrono::DateTime::from_timestamp_millis` |
| `text::to_lowercase` | `str::to_lowercase` |
| `String::push` | the method of the standard library |

| Module | Subject |
| --- | --- |
| `scan` | file names, sibling channels, grouping into trips |
| `db` | the tables of an archive and their rules |
| `gps` | position logs beside the clips |
| `import` | cards, staging, distribution into the archive |
| `timelapse` | speed curves, ffmpeg arguments, the work list, tidying up |
| `trips` | deletion and joining |
| `scans` | how much of each trip the scans have covered |
| `startup`, `migration_v2`, `app_settings` | start of the program, settings |
| `paths`, `text`, `ids`, `moment`, `sort` | what the rest builds on |
