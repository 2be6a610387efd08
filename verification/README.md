# panel_sync

A command-line tool that keeps a local SQLite table of users in step with an X-UI style
panel, with its logic in a library verified by Verus.

- `src/` — the verified library:
  - `chars` — characters of strings, trimming and word splitting by Unicode white space;
  - `number` — decimal integers: reading (`parse_i64`, `parse_i32`, `parse_bool`) and writing;
  - `json` — the library's view of a parsed JSON document, and JSON string escaping;
  - `console` — coloured messages with `{}` placeholders, and the prompt's help;
  - `inbounds` — the configured inbounds and the storage order of a metric's inbounds;
  - `metric` — reading a per-inbound metric from stored text or an SQLite cell, and writing it
    back as JSON rows;
  - `names` — the `TrimNameSuffix` trait;
  - `command` — reading a command line of the prompt;
  - `panel` — the requests that add and update a client on the panel, and their outcome;
  - `sync` — gathering the panel's clients into users, and their schedule;
  - `outside` — the calls into `chrono` and `uuid`, with the contracts the library relies on.
- `app/` — the program: the prompt loop, SQLite, HTTP, JSON parsing with `serde_json`, and
  the traffic metrics that hold floating-point numbers.
- `tests/` — tests of the library, several against what `std` and `serde_json` produce.
