//! The engine: order books that collect orders and match them on request or
//! as they arrive, the step function of the engine's message loop, and the
//! values its HTTP front end builds.

pub mod api;
pub mod concurrent;
pub mod engine;
pub mod engine_core;
pub mod lockfree;
pub mod models;
pub mod order_book;
