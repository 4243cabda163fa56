//! Order books that match each incoming order as it arrives.

pub mod concurrent;
pub mod lockfree;
pub mod simple;
