# engine

Limit order books and a small trading engine, verified with Verus.

Prices and quantities are integers counted in millionths (`PRECISION`), so
matching, resting and mid prices are exact and their contracts are stated over
integers.

## Layout

- `src/` — the verified library.
  - `models.rs`: trading pairs, orders, order requests and how they are
    checked, mid prices.
  - `level.rs`, `side.rs`: price levels (a queue of orders each) and one side
    of a book (levels sorted by price), the walks that fill an incoming order
    against them, and the lemmas about quantities and counts they keep.
  - `orderbooks/`: the three books of the order server (simple, concurrent,
    lock-free), each with the state after an order stated as a spec function
    and the laws proved of it (quantity kept, order counts; the simple and
    concurrent books, which match alike, also stay uncrossed).
  - `queue.rs`: the declaration of `crossbeam_queue::SegQueue` used by the
    lock-free books.
  - `server.rs`: the order server's registry of books and the values its
    handlers answer with.
  - `engine/`: the engine's books (which match on request or as orders
    arrive), the engine state that steps on each message, and the values of
    its HTTP API.
- `tests/` — tests of the library.
- `app/` — the program around it: HTTP servers (axum), the engine's message
  loops (tokio channels), the command line (clap), metrics, JSON forms of the
  values, and the conversion between decimal wire amounts and integer units.

Book sides are `Vec`s of price levels kept sorted by price. A `BTreeMap` is
not used because matching needs the best level and changes it in place, and
vstd specifies neither the first/last-key look-ups nor `get_mut` on it; a
concurrent skip map is not used because it hands out its levels only behind
shared references. The concurrency of the books (their locks and atomics) is
left to `app/`, which puts each book behind a lock.
