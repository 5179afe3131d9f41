# rudis

A small Redis-compatible server: the RESP protocol, an in-memory keyspace with strings,
lists and hashes, lazy key expiry, and about thirty commands. The library is written in
Verus and proved against its contracts; the program around it is ordinary Rust.

## Layout

- `src/` — the verified library.
  - `resp.rs`: replies, their wire bytes (`encode`) and reading a command off a buffer
    (`parse_command`).
  - `table.rs`: the byte-keyed table that holds the keyspace, modelled as a `Map`.
  - `store.rs`: the keyspace (`Store`), its model (`Keyspace`) and lazy expiry.
  - `semantics.rs`: what every command does, as spec functions over the model.
  - `commands.rs`: the commands themselves and `dispatch`, proved against `semantics.rs`.
  - `session.rs`: one step of a connection: read a command, run it, say what to send.
  - `render.rs`, `repl.rs`: showing a reply the way `redis-cli` does, running a typed line, and
    the keys of the interactive prompt.
  - `text.rs`, `clock.rs`: decimal text, case mapping, UTF-8 and the clock, through small
    trusted wrappers of the standard library.
  - `laws.rs`: properties that span commands (a read gives back a write, a pop undoes a push,
    deadlines only on live keys, every command counted once, encoded commands read back, a
    command decided by the bytes it uses, ...), proved; `session.rs` adds those of a
    connection taking whole frames one after another.
- `tests/` — tests of the library.
- `app/` — the program: `rudis` runs the REPL with a keyspace dashboard (crossterm and
  ratatui), `rudis serve [-p PORT]` the RESP server on 127.0.0.1 (port 6380 by default), and
  `web.rs` holds the `wasm_bindgen` type for the in-browser REPL.
