//! Triangular-arbitrage planning for crypto exchanges: building the catalog of
//! coin triangles, deciding the side of each leg, exchange filters and order
//! book bookkeeping, and the request signing of the exchange API.
pub mod text;
pub mod arbitrage;
pub mod func;
pub mod decimal;
pub mod filters;
pub mod orderbook;
pub mod profit;
pub mod search;
pub mod kucoin;
