//! A locally mirrored limit-order book: sorted bid/ask depth ladders,
//! incremental diff application with upstream sequence gating, and
//! volume-weighted execution-price queries over the depth.

pub mod decimal;
pub mod ladder;
pub mod orderbook;
pub mod prices;
