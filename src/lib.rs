//! A bounded time series of latency samples with a scrolling display
//! window, and the reader that pulls one latency out of a ping's output.
pub mod probe;
pub mod series;
