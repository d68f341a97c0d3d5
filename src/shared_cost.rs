use vstd::prelude::*;

use crate::bill::{part_error, Bill, SharedBill};
use crate::money::Money;

verus! {

/// The least goodness of fit, R² in millionths, for which a model's estimate
/// is trusted.
pub const MIN_RSQUARED_MILLIONTHS: i64 = 700_000;

/// Why the shared part of a bill could not be estimated.
#[derive(Debug, Clone, PartialEq)]
pub enum EstimationError {
    /// The bill history cannot be fitted, for example because every bill
    /// has the same occupancy.
    InvalidModelData(String),
    /// The model explains too little of the bill history; holds R² in
    /// millionths.
    ModelFitsDataPoorly(i64),
    /// The model's prediction for the current bill is more than a fifth off
    /// its actual amount; holds both, in minor units.
    ModelPredictsPoorly { actual: i64, predicted: i64 },
}

/// Whether a model with goodness of fit `rsquared_millionths` fits too
/// poorly to be trusted.
pub open spec fn fits_poorly(rsquared_millionths: int) -> bool {
    rsquared_millionths < MIN_RSQUARED_MILLIONTHS
}

/// Whether `predicted` is too far from `actual`: its absolute percentage
/// error `|actual - predicted| / actual` exceeds one fifth. An actual amount
/// of zero is only met by a prediction of zero; a negative actual amount
/// gives a negative error, which never exceeds the bound.
pub open spec fn predicts_poorly(actual: int, predicted: int) -> bool {
    let diff = if actual >= predicted { actual - predicted } else { predicted - actual };
    if actual > 0 {
        5 * diff > actual
    } else {
        actual == 0 && predicted != 0
    }
}

/// The estimated shared amount: the cost of an empty house plus the known
/// fixed cost, held within `[0, amount_due]`.
pub open spec fn clamped_shared(empty_cost: int, fixed_cost: int, amount_due: int) -> int {
    let raw = empty_cost + fixed_cost;
    if raw > amount_due {
        amount_due
    } else if raw < 0 {
        0
    } else {
        raw
    }
}

/// Occupancy, in person-days, as the independent variable of a bill.
#[derive(Debug, Clone, Copy, PartialEq, Eq, Structural)]
pub struct Occupancy(pub u128);

impl Occupancy {
    /// The name of the variable in a regression formula.
    pub fn formula() -> (r: &'static str) {
        "Occupancy"
    }

    /// The same bill with nobody in the house.
    pub fn empty(&self) -> (r: Occupancy)
        ensures
            r.0 == 0,
    {
        Occupancy(0)
    }
}

/// What a regression model fitted on a bill history says about the current
/// bill: how well it fits the history, what it predicts for the bill, and
/// what it predicts for the same bill with nobody in the house.
#[derive(Debug, Clone, Copy)]
pub struct SharedCostEstimator {
    rsquared_millionths: i64,
    predicted: Money,
    predicted_empty: Money,
}

/// What a [`SharedCostEstimator`] holds: R² in millionths, and the two
/// predictions.
pub type EstimatorView = (int, Money, Money);

impl View for SharedCostEstimator {
    type V = EstimatorView;

    closed spec fn view(&self) -> EstimatorView {
        (self.rsquared_millionths as int, self.predicted, self.predicted_empty)
    }
}

impl SharedCostEstimator {
    /// Records a fitted model's R² (in millionths) and its two predictions.
    pub fn new(rsquared_millionths: i64, predicted: Money, predicted_empty: Money) -> (r: SharedCostEstimator)
        ensures
            r@ == (rsquared_millionths as int, predicted, predicted_empty),
    {
        SharedCostEstimator { rsquared_millionths, predicted, predicted_empty }
    }

    /// R² of the model, in millionths.
    pub fn rsquared(&self) -> (r: i64)
        ensures
            r == self@.0,
    {
        self.rsquared_millionths
    }

    /// The model's prediction for the current bill.
    pub fn predict(&self) -> (r: Money)
        ensures
            r == self@.1,
    {
        self.predicted
    }

    /// The model's prediction for the current bill with nobody in the house.
    pub fn predict_empty(&self) -> (r: Money)
        ensures
            r == self@.2,
    {
        self.predicted_empty
    }

    /// Whether the prediction for the current bill is more than a fifth off
    /// `actual`, its absolute percentage error.
    pub fn predicts_poorly(&self, actual: Money) -> (r: bool)
        ensures
            r == predicts_poorly(actual@, self@.1@),
    {
        let a = actual.minor_amount() as i128;
        let p = self.predicted.minor_amount() as i128;
        let diff: i128 = if a >= p { a - p } else { p - a };
        if a > 0 {
            5 * diff > a
        } else {
            a == 0 && p != 0
        }
    }
}

impl SharedBill {
    /// Estimates the shared part of `bill` from a model fitted on the bill
    /// history; `actual` is the current bill's own amount, as the model
    /// measures it.
    ///
    /// A model whose R² is below `MIN_RSQUARED_MILLIONTHS` gives
    /// `ModelFitsDataPoorly`; one whose prediction for the bill is more than
    /// a fifth off gives `ModelPredictsPoorly`. Otherwise the shared amount
    /// is the empty-house prediction plus the bill's fixed cost, held within
    /// `[0, amount_due]`.
    pub fn from_estimate(bill: Bill, actual: Money, model: &SharedCostEstimator) -> (r: Result<SharedBill, EstimationError>)
        ensures
            fits_poorly(model@.0) ==> r == Err::<SharedBill, EstimationError>(
                EstimationError::ModelFitsDataPoorly(model@.0 as i64),
            ),
            !fits_poorly(model@.0) && predicts_poorly(actual@, model@.1@) ==> r == Err::<SharedBill, EstimationError>(
                EstimationError::ModelPredictsPoorly { actual: actual@ as i64, predicted: model@.1@ as i64 },
            ),
            !fits_poorly(model@.0) && !predicts_poorly(actual@, model@.1@) ==> {
                &&& r is Ok
                &&& r.unwrap()@.0 == bill@
                &&& r.unwrap()@.1.currency == bill@.0.currency
                &&& r.unwrap()@.1@ == clamped_shared(model@.2@, bill@.1@, bill@.0@)
                &&& 0 <= r.unwrap()@.1@ <= bill@.0@
            },
    {
        if model.rsquared() < MIN_RSQUARED_MILLIONTHS {
            return Err(EstimationError::ModelFitsDataPoorly(model.rsquared()));
        }
        if model.predicts_poorly(actual) {
            return Err(
                EstimationError::ModelPredictsPoorly {
                    actual: actual.minor_amount(),
                    predicted: model.predict().minor_amount(),
                },
            );
        }
        bill.is_valid();
        let due = bill.amount_due();
        let raw: i128 = model.predict_empty().minor_amount() as i128 + bill.fixed_cost().minor_amount() as i128;
        let shared: i64 = if raw > due.minor_amount() as i128 {
            due.minor_amount()
        } else if raw < 0 {
            0
        } else {
            raw as i64
        };
        let amount = Money::of_minor(due.currency, shared);
        proof {
            assert(part_error(bill@.0, amount) is None);
        }
        Ok(SharedBill::from_valid_parts(bill, amount))
    }
}

} // verus!
