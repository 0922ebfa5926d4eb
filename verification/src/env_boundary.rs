//! The report model of the runtime-environment boundary audit: findings and
//! reports that carry structured details and metadata.

pub mod audit;
pub mod detail_map;
pub mod model;
