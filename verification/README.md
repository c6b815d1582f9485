# redis_proto

A Redis-compatible key/value server. The library (`src/`) holds the
server's logic, each function with a contract proved by Verus; the program
(`app/`) is the TCP service, the dump file and the command line around it.

## Library

- `asyncresp` — the RESP wire format: `encode_value` writes a value,
  `decode` reads one back (or waits for more bytes, or refuses malformed
  input). `law_decode_encode` proves that reading what was written gives
  the value back.
- `ops` — reading a request (`translate`, `translate_array`,
  `translate_command`) into an operation or an error, the error messages,
  and `op_interact`, which dispatches an operation.
- `keys`, `sets`, `lists`, `hashes`, `sorted_sets`, `misc` — the operations
  on each kind of value, each specified over a mathematical model of a
  database (`types::StateView`).
- `server` — `process_command` serves one request against a database of
  the store and decides when the databases are due to be saved.
- `collections`, `data_structures` — the set, map and sorted set that hold
  values; the receipts of waiting clients.
- `keyspace`, `rvec`, `text` — the calls into `dashmap`, `smallvec` and the
  standard library, with the contracts the proofs rely on.
- `state` — how values and answers are written as text for the log.
- `laws` — properties of the operations taken together (what a read gives
  back of a write, what one operation undoes of another).

## Program

`app/main.rs` reads the configuration, loads the dump file, and serves
clients, saving the databases every `--ops-until-save` commands and once
a minute.
