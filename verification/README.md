# KGDB

An append-only JSON document store, verified with Verus.

A database is a directory, a collection is a log with one JSON document per line, and a sidecar
beside it says which fields are indexed:

```
data/
  mydb/
    users.ndjson
    users.index.json
```

## Layout

- `src/` is the library, verified throughout. It reads and writes no files: it is given what
  files hold, and says what is to be read, written and removed.
  - `engine` keeps the state of the store and carries out inserts, reads, index management and
    removals. An insert is a small state machine (`insertion`) whose steps the caller performs.
  - `log`, `reading` and `writing` say what a log holds, what a read gives back, and what a write
    changes. `guarantees` and `persistence` state what holds across several calls and restarts.
  - `state` says what each operation makes of what the engine knows.
  - `document`, `ids`, `filter`, `offsets`, `sidecar`, `catalog`, `name`, `query`, `auth` and
    `error` hold the rules for each of these.
  - Outside code is called in `json` (`serde_json`), `index` (`dashmap`), `log` (`memchr`),
    `document` (`rand` and the clock), `text`, `name` and `error` (the standard library). What is
    believed of each call is written above it.
- `app/` is the server: files, HTTP and configuration.
- `tests/` runs the library.

## Configuration of the server

| Variable                   | Default     | Meaning |
|----------------------------|-------------|---------|
| `KGDB_DATA`                | `./data`    | data directory |
| `KGDB_PORT`                | `8000`      | port |
| `KGDB_BIND`                | `127.0.0.1` | address |
| `KGDB_AUTH_TOKEN`          | none        | token that every request needs, except `/health` |
| `KGDB_AUTH_TOKEN_<dbname>` | none        | token that requests for one database need |
| `KGDB_FSYNC`               | off         | `1` forces each write to the disk |
| `RUST_LOG`                 | `info`      | log filter |
