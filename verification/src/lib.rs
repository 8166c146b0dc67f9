//! dping: locate where packet loss and latency start on the path from this
//! machine to the internet.

pub mod text;
pub mod numeric;
pub mod stats;
pub mod analyzer;
pub mod scan;
pub mod ip;
pub mod platform;
pub mod target;
pub mod ui;
pub mod aggregator;

