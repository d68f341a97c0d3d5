use roommates::{
    Bill, BillError, Currency, DateInterval, EstimationError, Money, Occupancy, RoommateGroup,
    Roommate, SharedBill, SharedCostEstimator,
};

fn usd() -> Currency {
    Currency::new(840, 2)
}

fn period() -> DateInterval {
    DateInterval::new((2020, 1, 2), (2020, 2, 2)).unwrap()
}

#[test]
fn shared_cost_more_than_bill() {
    let total = Money::of_major_minor(usd(), 30, 0);
    let shared = Money::of_major_minor(usd(), 35, 0);
    let bill = SharedBill::new(Bill::new(total, period()), shared);
    assert!(bill.is_err());
}

#[test]
fn shared_cost_less_than_zero() {
    let total = Money::of_major_minor(usd(), 30, 0);
    let shared = Money::of_major_minor(usd(), -1, 0);
    let bill = SharedBill::new(Bill::new(total, period()), shared);
    assert!(bill.is_err());
}

#[test]
fn fixed_cost_errors() {
    let due = Money::of_minor(usd(), 183_22);
    assert!(Bill::new_with_fixed_cost(due, period(), Money::of_minor(usd(), 100_00)).is_ok());
    assert_eq!(
        Bill::new_with_fixed_cost(due, period(), Money::of_minor(Currency::new(978, 2), 100_00)).err(),
        Some(BillError::MismatchedCurrencies)
    );
    assert_eq!(
        Bill::new_with_fixed_cost(due, period(), Money::of_minor(usd(), -100_00)).err(),
        Some(BillError::Negative)
    );
    assert_eq!(
        Bill::new_with_fixed_cost(due, period(), Money::of_minor(usd(), 200_00)).err(),
        Some(BillError::ExceedsAmountDue)
    );
    assert_eq!(
        SharedBill::new(Bill::new(due, period()), Money::of_minor(usd(), 200_00)).err(),
        Some(BillError::ExceedsAmountDue)
    );
}

#[test]
fn bill_parts() {
    let bill = Bill::new_with_fixed_cost(
        Money::of_minor(usd(), 183_22),
        period(),
        Money::of_minor(usd(), 100_00),
    )
    .unwrap();
    assert_eq!(bill.fixed_cost(), Money::of_minor(usd(), 100_00));
    assert_eq!(bill.variable_cost(), Money::of_minor(usd(), 83_22));
    assert_eq!(bill.amount_due(), Money::of_minor(usd(), 183_22));
    assert_eq!(bill.usage_period(), period());
    assert_eq!(Bill::new(Money::of_minor(usd(), 5), period()).fixed_cost(), Money::zero(usd()));
    assert_eq!(SharedBill::from_fixed(bill).shared_amount(), Money::of_minor(usd(), 100_00));
    assert_eq!(SharedBill::from_fully_fixed(bill).shared_amount(), Money::of_minor(usd(), 183_22));
    let shared = SharedBill::new(bill, Money::of_minor(usd(), 30_00)).unwrap();
    assert_eq!(shared.amount_due(), Money::of_minor(usd(), 183_22));
    assert_eq!(shared.usage_period(), period());
}

#[test]
fn money_of_major_and_minor_parts() {
    assert_eq!(Money::of_major_minor(usd(), 99, 99).minor_amount(), 99_99);
    assert_eq!(Money::of_major_minor(Currency::new(392, 0), 100, 0).minor_amount(), 100);
    assert_eq!(Money::of_major_minor(usd(), -1, 0).minor_amount(), -100);
}

fn estimate(due: i64, fixed: i64, actual: i64, rsq: i64, predicted: i64, empty: i64) -> Result<SharedBill, EstimationError> {
    let bill = Bill::new_with_fixed_cost(
        Money::of_minor(usd(), due),
        period(),
        Money::of_minor(usd(), fixed),
    )
    .unwrap();
    let model = SharedCostEstimator::new(
        rsq,
        Money::of_minor(usd(), predicted),
        Money::of_minor(usd(), empty),
    );
    SharedBill::from_estimate(bill, Money::of_minor(usd(), actual), &model)
}

#[test]
fn estimate_from_a_perfect_fit() {
    let shared = estimate(50_00, 0, 50_00, 1_000_000, 50_00, 10_00).unwrap();
    assert_eq!(shared.shared_amount(), Money::of_minor(usd(), 10_00));
}

#[test]
fn estimate_adds_back_the_fixed_cost() {
    let shared = estimate(50_00, 5_00, 45_00, 900_000, 44_00, 10_00).unwrap();
    assert_eq!(shared.shared_amount(), Money::of_minor(usd(), 15_00));
}

#[test]
fn estimate_is_clamped_to_the_bill() {
    let high = estimate(50_00, 0, 50_00, 900_000, 50_00, 70_00).unwrap();
    assert_eq!(high.shared_amount(), Money::of_minor(usd(), 50_00));
    let low = estimate(50_00, 0, 50_00, 900_000, 50_00, -20_00).unwrap();
    assert_eq!(low.shared_amount(), Money::zero(usd()));
}

#[test]
fn estimate_rejects_a_poor_fit() {
    assert_eq!(
        estimate(50_00, 0, 50_00, 699_999, 50_00, 10_00).err(),
        Some(EstimationError::ModelFitsDataPoorly(699_999))
    );
    assert!(estimate(50_00, 0, 50_00, 700_000, 50_00, 10_00).is_ok());
}

#[test]
fn estimate_rejects_a_poor_prediction() {
    assert_eq!(
        estimate(20_00, 0, 20_00, 1_000_000, 50_00, 10_00).err(),
        Some(EstimationError::ModelPredictsPoorly { actual: 20_00, predicted: 50_00 })
    );
    assert!(estimate(20_00, 0, 20_00, 1_000_000, 24_00, 10_00).is_ok());
    assert!(estimate(20_00, 0, 20_00, 1_000_000, 24_01, 10_00).is_err());
    assert!(estimate(0, 0, 0, 1_000_000, 1, 0).is_err());
    assert!(estimate(0, 0, 0, 1_000_000, 0, 0).is_ok());
}

#[test]
fn estimator_reports_its_model() {
    let model = SharedCostEstimator::new(800_000, Money::of_minor(usd(), 40_00), Money::of_minor(usd(), 10_00));
    assert_eq!(model.rsquared(), 800_000);
    assert_eq!(model.predict(), Money::of_minor(usd(), 40_00));
    assert_eq!(model.predict_empty(), Money::of_minor(usd(), 10_00));
    assert!(!model.predicts_poorly(Money::of_minor(usd(), 45_00)));
    assert!(model.predicts_poorly(Money::of_minor(usd(), 60_00)));
    assert_eq!(Occupancy(30).empty(), Occupancy(0));
    assert_eq!(Occupancy::formula(), "Occupancy");
}

#[test]
fn roommate_group_basics() {
    let group = RoommateGroup::new(vec!["Bob", "Joe", "Bob"]);
    assert_eq!(group.count(), 2);
    assert_eq!(group.borrow_by_name("Bob"), Some(&Roommate::new("Bob")));
    assert_eq!(group.borrow_by_name("Steve"), None);
    let names: Vec<&str> = group.iter().iter().map(|r| r.name()).collect();
    assert_eq!(names, vec!["Bob", "Joe"]);
    assert_eq!(Roommate::new("Bob").to_string(), "Bob");
}
