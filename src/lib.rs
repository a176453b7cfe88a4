//! Size-bounded packing, aggregation and flush decisions for exporting
//! counters, gauges and histograms to the DataDog series API.

pub mod exporter;
pub mod metric;
pub mod packer;
pub mod scheduler;
