//! Metrics-aggregation core for a multi-worker reverse proxy.
//!
//! Each proxy worker reports a snapshot of its local metrics: process-wide
//! values, per-cluster values, and per-backend values. The collector stores
//! one snapshot per worker and then reduces them to a single consistent view:
//! gauges and counts are summed, histograms are combined bucket-wise on a
//! canonical power-of-two ladder, and the remaining metric kinds are excluded
//! from aggregation.

pub mod metrics;
pub mod order;
pub mod maps;
pub mod snapshots;
pub mod engine;
pub mod laws;
