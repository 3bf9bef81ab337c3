//! Proportional freight-cost allocation over the deliveries of a shared load.
//!
//! Shipping documents give the per-delivery facts, dispatch e-mails give the
//! per-load commercial facts; the library joins both, apportions each load's
//! freight price over its deliveries by volume, merges repeated deliveries to
//! one client and orders the loads of each carrier by invoice number.
//!
//! Money is counted in whole cents and volume in whole litres, so that every
//! sum in the library is exact.

pub mod allocation;
pub mod consolidation;
pub mod constants;
pub mod data;
pub mod decimal;
pub mod files;
pub mod load;
pub mod math;
pub mod merge;
pub mod pattern;
pub mod sequence;
pub mod types;
