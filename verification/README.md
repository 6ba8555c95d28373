# ternary_market

A market engine for balanced ternary {-1, 0, +1} signals, written in Verus:
order books with price-compatible matching, price discovery, market makers,
English/Dutch/Vickrey auctions, portfolios, and a market that ties them
together.

Each type has a mathematical view, and every public function states its
result over that view. Laws that span calls are proved as public proof
functions:

- `book_laws`: matching conserves quantity, orders leave a book only by
  trading, and every submission keeps a book well-formed (in particular no
  resting buy can trade with a resting sell).
- `auction`: the winner is unique and exists whenever a bid meets the
  reserve; the second price is unique and never above the winning bid.
- `portfolio`: allocation and deallocation act on one resource only, keep
  totals exact, and never let a holding go negative.
- `price_discovery`: the direction depends only on how many signals of each
  kind were pushed, not on their order.
- `market`: one well-formed book per resource, and trade counts that move
  only with the book that traded.

Tests live in `tests/`.
