//! Bills and the part of each that is shared equally.

pub use crate::bill::{Bill, BillError, SharedBill};
pub use crate::shared_cost::{EstimationError, Occupancy, SharedCostEstimator};
