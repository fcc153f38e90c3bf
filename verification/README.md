# ws_session

Order books for a market-data session, as a verified library (`src/`) with the programs
around it (`app/`).

- `src/` keeps the books of the observed assets up to date with the messages of a feed,
  in three implementations of one trait: a sorted vector, a linked list and a skip list.
  It decides what a session does about each thing that happens to it, what is published
  of the books, what the dashboard answers, and how a captured feed is replayed. Every
  function has a contract that Verus proves; `laws.rs`, and the functions named `law_*`
  elsewhere, state what holds of the parts together.
- `app/` holds the programs `live`, `capture` and `replay`: the websocket, the HTTP
  socket, files, signals and the command line.
- `tests/` runs the library on concrete values.

Numbers are those of `rust_decimal`, JSON is read by `serde_json`. What is believed of
these crates and of the standard library stands in the contracts of the functions marked
`external_body`, each under a comment that names the outside function.
