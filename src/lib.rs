//! A harness for measuring the latency and throughput of streaming pipelines:
//! a deterministic schedule of logical send times, a flow-controlled source
//! driver, a collector that turns completions into latency samples, and a
//! timeline that buckets those samples over time.

pub mod input;
pub mod hist;
pub mod output;
pub mod timeline;
pub mod format;
pub mod flow_controlled;
pub mod util;
