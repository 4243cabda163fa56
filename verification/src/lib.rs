//! Order books for trading pairs: price levels kept in price order, orders
//! matched against the opposite side in price-time priority, and the small
//! request / response logic of the HTTP front ends that drive them.
//!
//! Prices and quantities are integers counted in millionths of a unit
//! (see [`models::PRECISION`]).

pub mod engine;
pub mod level;
pub mod models;
pub mod orderbooks;
pub mod queue;
pub mod server;
pub mod side;
