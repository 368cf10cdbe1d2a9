//! Statistics of a connection.
pub mod bandwidth;
pub mod inflight;
pub mod latency;
pub mod throughput;
