# redis_lite

A small Redis-style server whose protocol logic is verified with Verus.

- `src/value.rs`: RESP values, their abstract view, `to_command` and `encode`.
- `src/parse.rs`: decoding of frames from received bytes, specified by `decode`.
- `src/stream.rs`: frames read from a stream cut into pieces come out whole and in order.
- `src/store.rs`: the key-value store, with keys that expire.
- `src/server.rs`: the answer to one request, specified by `respond`.
- `src/text.rs`: decimal numbers, ASCII case and UTF-8, with the std calls they rest on.
- `src/laws.rs`: properties across operations (decoding what was encoded, reads after writes).
- `app/main.rs`: the TCP server (tokio): sockets, buffers and the connection loop.
