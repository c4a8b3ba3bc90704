# rust_redis

A small Redis-compatible key/value server and client. The logic is a Verus
library in `src/`; the network, files and command line are ordinary Rust in
`app/`.

## Library (`src/`)

- `frame` — RESP frames: `Frame::parse` reads one frame from a byte buffer
  (`decode_at` states how), `Frame::encode` writes one (`encode`), and
  `law_frame_roundtrip` proves that an encoded frame reads back as itself.
- `parse` — reading the parts of a request array one at a time.
- `cmd` — the commands (`GET`, `SET`, `DEL`, `EXISTS`, `PING`, `TTL`,
  `EXPIRE`): reading them from frames (`parse_command_spec`), the frames a
  client sends (`command_frame_view`, `law_command_roundtrip`), and what they
  do to the store (`execute_spec`).
- `db` — the store: a map from keys to values with optional expiry times,
  counted in nanoseconds on the store's clock, whose readings never go
  back; laws on reads after writes,
  deletes and expiry.
- `server` — reading one request frame (the request, and whether it is
  logged) and serving it.
- `wal` — replaying the write-ahead log. `law_client_writes_replay` proves
  that a log of the frames a client sends for its `SET`s and `DEL`s (cut
  short or not at its end) replays as those requests applied in order;
  `law_log_restores_session` that replaying the encoded writes of a session
  gives back, at one time, what its reads see.
- `client` — what the client makes of each reply.
- `text`, `bytebuf`, `clock` — UTF-8, case mapping, decimal numerals, byte
  buffers and the clock, with the contracts of the outside functions used.

## Program (`app/`)

`rust-redis server` listens on `127.0.0.1:6379`, replays `data/redis.wal`,
then serves connections, appending each write request to the log before it
applies it. `rust-redis get|set|del|ping ...` sends one request.
