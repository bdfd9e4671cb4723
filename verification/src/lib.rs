pub mod busfactor;
pub mod contributors;
pub mod filter;
pub mod glob;
pub mod history;
pub mod hottest;
pub mod lookup;
pub mod metrics;
pub mod ranking;
pub mod report;
pub mod shared_types;
