# matching_engine

A spot exchange: a price-time priority matching engine with account balances, the
snapshot bookkeeping that follows its event stream, and the HTTP/websocket service around it.

`src/` is the verified library (Verus):

- `dec` — decimals as `mantissa * 10^-scale`, with the `rust_decimal` operations the
  engine uses behind specified wrappers.
- `enums`, `order`, `command`, `message` — orders, trades, commands and numbered events.
- `account_book`, `product_book`, `order_book`, `engine` — balances (deposit, hold,
  unhold, settlement), products, per-product books, and command execution. Every book
  stays uncrossed and keeps each resting order at its level's price and on its side;
  matching, placing and cancelling keep every resting order a live limit order (and a
  book of limit orders free of market orders); a placement trades only within the
  taker's limit, and its fills add up to what the taker lost in size. Events are numbered consecutively, and each
  command's events run without a gap from its start marker to its end marker. A
  settlement touches only the accounts it names, and where its sums are exact (different
  currencies; taker and maker different users, or the same) it conserves what the parties
  hold in each currency; covered holds make it succeed.
- `snapshot`, `keyed` — folding the event stream into snapshots to store.
- `session`, `feed` — websocket subscriptions and request handling.
- `controller`, `records`, `auth`, `config` — request parameters to commands, stored
  records, bearer tokens, settings.

`app/` is the service: Kafka, MongoDB, Redis and axum plumbing, and the serde forms of
the library's values. `tests/` exercises the library.
