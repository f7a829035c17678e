//! A streaming arbitrage-detection engine.
//!
//! The engine ingests batches of currency-pair price ticks, maintains a live
//! exchange-rate graph, and detects conversion cycles whose compounded rate
//! exceeds one. Rates are held as exact positive rationals (numerator and
//! denominator), so the profitability of a reported cycle is an exact
//! statement about integer products, proved rather than approximated.

pub mod detect;
pub mod errors;
pub mod graph;
pub mod price;
pub mod process;
pub mod symbol;

pub use detect::ArbitrageCycle;
pub use detect::DetectionResult;
pub use errors::EngineError;
pub use graph::ConversionEdge;
pub use graph::RateGraph;
pub use price::Price;
pub use process::Tick;
pub use process::UpdateProcessor;
pub use price::parse_price;
pub use symbol::extract_currency_pair;
