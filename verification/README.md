# orderbook

A price-time priority limit order book with a terminal market screen, whose
matching logic is proved with Verus.

- `src/` is the verified library:
  - `order.rs`: orders, sides, events, and the trade-log line of an event
    (the UTC stamp comes from chrono).
  - `matching.rs`: the mathematical model of the book (ladders of price
    levels, best price first) and of submitting and cancelling.
  - `orderbook.rs`: the book itself, held in `BTreeMap`s of price levels and
    a `HashMap` index, proved against that model; `keys.rs` lists a price
    map's keys in priority order.
  - `laws.rs`: properties proved of every book: it is never crossed, no
    quantity is created or lost, no order trades through its limit, the id
    index never points at nothing (and, with distinct ids, records every
    resting order, so a cancel succeeds exactly for resting orders), and a
    cancel undoes an order that rested without trading.
  - `statistics.rs`, `user.rs`, `market.rs`, `feed.rs`, `text.rs`: trade
    totals, per-user order tracking, the screen's state, the simulated
    order kind, decimal numerals.
- `app/` is the terminal program: the order simulator (floating point and
  random draws), the event loop and the drawing.
- `tests/` runs the library on concrete books.
