//! Dividing shared bills between roommates.

pub use crate::cost::CostSplit;
pub use crate::split::{Ratio, ResponsibilitySplit, SplitError};
