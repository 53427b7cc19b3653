//! A set-associative cache simulator: replays a trace of memory addresses
//! against a cache of configurable geometry and eviction strategy, and
//! reports the full occupancy history of every cache line together with
//! hit, miss and eviction counts.
pub mod engine;
pub mod geometry;
pub mod laws;
pub mod render;
pub mod trace;

pub use engine::{simulate, CacheEntry, CacheStats};
pub use geometry::{CacheDesc, Strategy};
pub use render::format_line;
pub use trace::{read, InvalidArgumentsError, ParseStrategyError, ReadError};
