# btc_kalshi

A trader on Kalshi's fifteen-minute Bitcoin markets. It reconstructs the index that the markets
resolve against from the trades of the exchanges behind it, looks for markets whose prices lag
behind, and bets on them within fixed limits of risk.

## Layout

- `src/` is the library, verified with Verus.
  - `numeric`: binary floating-point numbers on 64 bits, with rounded arithmetic and the reading
    of decimal texts, stated over whole numbers.
  - `json`, `text`, `ticker_map`, `clock`: documents, texts, tables by ticker, the time of day.
  - `ingest`: each exchange's messages as trades; the pauses between attempts to connect.
  - `reconstructor`: windows of trades, the volume-weighted median of each, and their mean.
  - `signal`: the momentum detectors, the probability model, the opportunities, the open markets
    and the comparison of the index with their prices.
  - `executor`: risk limits, sizes of bets, open positions and when to leave them, signed
    requests, the exchange's answers, and the order in which all of it happens.
  - `historian`: the records of the audit trail and the files that they go into.
- `app/` is the program: connections, files, tasks and printing.
- `tests/` runs the library on examples.

The exponential and the hyperbolic tangent are handed to the library as functions: what it states
of the model and of computed prices holds whatever they return. JSON, RFC 3339 times, RSA
signatures and base64 come from crates; what is believed of them stands beside each call.

## Laws

Besides the contracts of its functions the library proves what holds across them, in
`executor/laws.rs`, `signal/laws.rs`, `signal/price_laws.rs`, `reconstructor/laws.rs`,
`numeric/laws.rs` and `numeric/order.rs`, and at the end of the other modules: for example that a
ticker with an open position is not entered again, that two orders for one ticker are at least 30
seconds apart whatever happens, that at the market price an order never costs more than a position
may, that two opportunities on one ticker are at least 30 seconds apart over any row of estimates,
that the median price halves the volume, that the estimate is within half a cent and 12 units in the
last place of the mean, that the model's probability and the computed prices follow the index, and
that settling positions drops those and no others.
