# kucoin_arbitrage

A triangular-arbitrage bot for Binance and Kucoin, with its planning logic
verified by Verus.

- `src/` is the verified library:
  - `text`: substring search, splitting `BASE-QUOTE` symbols, and the order
    of strings;
  - `arbitrage`: the Kucoin catalog of triangles through the stable coin,
    the side of each leg, and the symbol and side of an order;
  - `func`: the same for Binance markets, and the list of markets and coins
    to trade;
  - `decimal`: exact decimals and the arithmetic of `rust_decimal` on them;
  - `filters`: the exchange's lot-size rules, fees and precisions;
  - `orderbook`: sorting books by price, accepting newer books, taking off
    traded levels;
  - `profit`: pricing a route through three books, and the orders that
    carry it out;
  - `search`: the decision, for one triangle, whether to trade;
  - `kucoin`: the text a request signs, its signature, its headers and the
    URLs of the service.
- `app/` is the program around it: configuration files, REST clients,
  websockets, tasks and channels, and the Kucoin price check, which works in
  floating point.
- `tests/` runs the library on concrete values.
