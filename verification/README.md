# entorhinal

The registry of projects and workspaces: which project a path belongs to, which
workspace a project is in, and the journal of every change to either.

- `src/` is the registry itself, verified with Verus. `model` says what the tables
  and the journal are; `effects`, `frame`, `register`, `mutations`, `seed` and
  `replay` say what each request does to them, and `entries` what the journal keeps
  of it; `queries`, `enumerate`, `audit` and `differences` say what is read from
  them; `cli`, `service`, `render`, `gauges`, `liveness` and `segments` say how the
  command line and the daemon are answered and where the log goes. The `laws*`
  modules state what holds across requests: answers are repeated under their key,
  the head of the journal moves by one or nothing changes, registered paths resolve,
  and a rebuild restores every row as it was.
- `tests/` runs the library on concrete values.
- `app/` is the program around the library: arguments, files, the SQLite database,
  the daemon's protocol and the log.

What is taken from other crates is declared where it is used: the digest of `ids`
(blake3), the JSON text of `json` (serde_json) and the store's path in `service`
(cortexkit-store-types).
