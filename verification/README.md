# chronos

The verified core of a play-money event exchange.

- `src/` — the library, verified with Verus:
  - `types`, `book_spec`, `orderbook`: orders, the mathematical model of a
    price–time priority book (self-trade prevention, GTC/IOC/FOK) and the
    executable book proved against it;
  - `engine`: the market registry and the write-ahead records whose replay
    rebuilds it; `wal`, `snapshot`, `hash`: the log framing, the snapshot
    file format and the state fingerprint;
  - `risk`, `ledger`: rate limits, idempotency keys, position caps, the
    position ledger and settlement;
  - `md`, `gateway`: the market-data ring and the gateway's decisions.
- `app/` — the service around it: HTTP/WebSocket gateway (axum), files,
  serialization (serde/bincode), Prometheus metrics and the command-line
  tools (`serve`, `loadgen`, `replay-seeder`, `state-hash`).
- `tests/` — tests of the library.
