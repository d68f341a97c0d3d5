//! `roommates` splits shared household bills between roommates whose presence
//! in the house varies over time.
//!
//! Occupancy is counted in person-days over a billing window, turned into an
//! exact proportional split per roommate, and finally into money amounts that
//! add up to each bill's total to the last minor unit.

mod bill;
mod cost;
mod interval;
mod money;
mod roommate;
mod shared_cost;
pub mod sharing;
mod split;
pub mod splitting;

pub use bill::{part_error, Bill, BillError, BillView, SharedBill, SharedBillView};
pub use cost::{
    accumulated_for, amount_of, bill_amounts, bills_with_splits, cost_entry_views, cost_views,
    lemma_amount_of_absent, lemma_amount_of_entry, lemma_amounts_sum_to_bill,
    lemma_bill_amounts_names, lemma_prefix_weight_bounded, lemma_split_deterministic, money_entry_views, one_currency,
    pair_views, parts_amount_for, parts_one_currency, parts_total, person_amount, portion,
    prefix_weight, split_view_of, total_due, valid_cost, CostSplit, CostView,
};
pub use interval::{
    ce_day_of, interval_views, occupancy_of, overlap_days, parsed_ce_day, roommate_occupancy_of,
    weighted_days, Date, DateInterval, IntervalError, IntervalView, ResponsibilityInterval,
    ResponsibilityRecord, DATE_FORMAT,
};
pub use money::{pow10, Currency, Money};
pub use roommate::{distinct_names, first_seen, names_of, views_of, Roommate, RoommateGroup};
pub use shared_cost::{
    clamped_shared, fits_poorly, predicts_poorly, EstimationError, EstimatorView, Occupancy,
    SharedCostEstimator, MIN_RSQUARED_MILLIONTHS,
};
pub use split::{
    entry_names, lemma_disjoint_window_unoccupied, lemma_roommate_occupancy_non_negative,
    lemma_shares_sum_to_occupancy, owners_within, people_non_negative, responsibility_view, same_fraction, split_entry_views, sum_roommate_occupancy,
    valid_split, weight_sum, member_weights, within_group, Ratio, ResponsibilitySplit, SplitError, SplitView,
};
