use roommates::{
    Bill, BillError, CostSplit, Currency, DateInterval, Money, Ratio, ResponsibilityInterval,
    ResponsibilityRecord, ResponsibilitySplit, Roommate, RoommateGroup, SharedBill, SplitError,
};
use steel_cent::currency::USD;

fn usd() -> Currency {
    Currency::new(840, 2)
}

fn minor(m: steel_cent::Money) -> i64 {
    m.minor_amount()
}

fn new_bill(total: i64, shared: i64) -> SharedBill {
    SharedBill::new(
        Bill::new(
            Money::of_minor(usd(), total),
            DateInterval::new((2020, 1, 2), (2020, 2, 2)).unwrap(),
        ),
        Money::of_minor(usd(), shared),
    )
    .expect("bad shared amount")
}

fn weights(roomies: &RoommateGroup, pairs: Vec<(&str, u64)>) -> Vec<(Roommate, u64)> {
    pairs
        .into_iter()
        .map(|(name, w)| (roomies.borrow_by_name(name).unwrap().copy(), w))
        .collect()
}

fn quarter_split(roomies: &RoommateGroup) -> ResponsibilitySplit {
    let names: Vec<&str> = roomies.iter().iter().map(|r| r.name()).collect();
    roomies.build_split(weights(roomies, vec![(names[0], 1), (names[1], 3)]), 4).unwrap()
}

fn ratio_sum(split: &ResponsibilitySplit) -> num::rational::Ratio<u64> {
    split
        .iter()
        .into_iter()
        .map(|(_, r)| num::rational::Ratio::new(r.numer(), r.denom()))
        .sum()
}

#[test]
fn split_partial_interval_with_weights_responsibilities() {
    let start = (2020, 1, 10);
    let end = (2020, 1, 20);
    let group = RoommateGroup::new(vec!["me", "someone"]);
    let record = ResponsibilityRecord::new(vec![
        ResponsibilityInterval::new(
            group.borrow_by_name("me").unwrap(),
            DateInterval::new((2020, 1, 18), end).unwrap(),
            1,
        ),
        ResponsibilityInterval::new(
            group.borrow_by_name("someone").unwrap(),
            DateInterval::new(start, (2020, 1, 13)).unwrap(),
            3,
        ),
    ]);
    let split = group.individual_responsibilities(&record, DateInterval::new(start, end).unwrap());
    assert_eq!(
        split.get(group.borrow_by_name("me").unwrap()).unwrap(),
        Ratio::new(2 * 3, 4 * 4 + 2 * 3),
    );
    assert_eq!(ratio_sum(&split), num::rational::Ratio::from_integer(1));
}

#[test]
fn split_no_overlap_between_billing_period_and_intervals() {
    let group = RoommateGroup::new(vec!["me", "someone"]);
    let record = ResponsibilityRecord::new(vec![ResponsibilityInterval::new(
        group.borrow_by_name("me").unwrap(),
        DateInterval::new((2019, 1, 2), (2019, 2, 2)).unwrap(),
        0,
    )]);
    let billing_period = DateInterval::new((2020, 1, 2), (2020, 2, 2)).unwrap();
    assert_eq!(record.occupancy_over(billing_period), 0);
    assert_eq!(
        group
            .individual_responsibilities(&record, billing_period)
            .get(group.borrow_by_name("me").unwrap())
            .unwrap(),
        Ratio::new(1, 2)
    );
}

#[test]
fn mod_partial_interval_with_weights_responsibilities() {
    let group = RoommateGroup::new(vec!["me", "someone"]);
    let record = ResponsibilityRecord::new(vec![
        ResponsibilityInterval::new(
            group.borrow_by_name("me").unwrap(),
            DateInterval::new((2020, 1, 18), (2020, 1, 20)).unwrap(),
            1,
        ),
        ResponsibilityInterval::new(
            group.borrow_by_name("someone").unwrap(),
            DateInterval::new((2020, 1, 10), (2020, 1, 13)).unwrap(),
            3,
        ),
    ]);
    let split = group
        .individual_responsibilities(&record, DateInterval::new((2020, 1, 10), (2020, 1, 20)).unwrap());
    assert_eq!(
        split.get(group.borrow_by_name("me").unwrap()).unwrap(),
        Ratio::new(2 * 3, 4 * 4 + 2 * 3),
    );
    assert_eq!(ratio_sum(&split), num::rational::Ratio::from_integer(1));
}

#[test]
fn mod_no_overlap_between_billing_period_and_intervals() {
    let group = RoommateGroup::new(vec!["me", "someone"]);
    let record = ResponsibilityRecord::new(vec![ResponsibilityInterval::new(
        group.borrow_by_name("me").unwrap(),
        DateInterval::new((2019, 1, 2), (2019, 2, 2)).unwrap(),
        0,
    )]);
    let billing_period = DateInterval::new((2020, 1, 2), (2020, 2, 2)).unwrap();
    assert_eq!(billing_period.occupancy(&record), 0);
    assert_eq!(
        group
            .individual_responsibilities(&record, billing_period)
            .get(group.borrow_by_name("me").unwrap())
            .unwrap(),
        Ratio::new(1, 2)
    );
}

#[test]
fn weighted_occupancy_example_split() {
    let group = RoommateGroup::new(vec!["me", "someone"]);
    let me = group.borrow_by_name("me").unwrap();
    let someone = group.borrow_by_name("someone").unwrap();
    let record = ResponsibilityRecord::new(vec![
        ResponsibilityInterval::new(me, DateInterval::from_strs("01/18/2020", "01/20/2020").unwrap(), 2),
        ResponsibilityInterval::new(someone, DateInterval::from_strs("01/10/2020", "01/13/2020").unwrap(), 4),
    ]);
    let window = DateInterval::from_strs("01/10/2020", "01/20/2020").unwrap();
    assert_eq!(record.roommate_occupancy(me, window), 9);
    assert_eq!(record.roommate_occupancy(someone, window), 20);
    let split = group.individual_responsibilities(&record, window);
    assert_eq!(split.get(me).unwrap(), Ratio::new(9, 29));
    assert_eq!(split.get(someone).unwrap(), Ratio::new(20, 29));
    assert_eq!(split.denominator(), 29);
}

#[test]
fn sum_over_one() {
    let rg = RoommateGroup::new(vec!["a", "b", "c"]);
    let map = weights(&rg, vec![("a", 2), ("b", 1), ("c", 1)]);
    assert_eq!(rg.build_split(map, 3).err(), Some(SplitError::InvalidSplit));
}

#[test]
fn split_empty_list() {
    let rg = RoommateGroup::new(vec![]);
    let rs = rg.build_split(vec![], 1).unwrap();
    assert!(rs.iter().is_empty());

    let rg = RoommateGroup::new(vec!["a", "b", "c"]);
    let rs = rg.build_split(vec![], 1).unwrap();
    let entries = rs.iter();
    assert_eq!(entries.len(), 3);
    for ((roommate, ratio), name) in entries.iter().zip(["a", "b", "c"]) {
        assert_eq!(roommate.name(), name);
        assert_eq!(*ratio, Ratio::new(1, 3));
    }
}

#[test]
fn build_split_rejects_malformed_input() {
    let rg = RoommateGroup::new(vec!["a", "b"]);
    let stranger = vec![(Roommate::new("z"), 1)];
    assert_eq!(rg.build_split(stranger, 1).err(), Some(SplitError::InvalidSplit));
    assert_eq!(rg.build_split(weights(&rg, vec![("a", 1), ("b", 1)]), 0).err(), Some(SplitError::InvalidSplit));
    assert_eq!(rg.build_split(weights(&rg, vec![("a", 1), ("b", 1)]), 3).err(), Some(SplitError::InvalidSplit));
    let ok = rg.build_split(weights(&rg, vec![("b", 2), ("a", 1)]), 3).unwrap();
    assert_eq!(ok.get(rg.borrow_by_name("b").unwrap()).unwrap(), Ratio::new(2, 3));
    assert_eq!(ok.get(rg.borrow_by_name("a").unwrap()).unwrap(), Ratio::new(1, 3));
    let partial = rg.build_split(weights(&rg, vec![("b", 1), ("b", 2)]), 3).unwrap();
    assert_eq!(partial.get(rg.borrow_by_name("a").unwrap()).unwrap(), Ratio::new(0, 1));
    assert_eq!(partial.get(rg.borrow_by_name("b").unwrap()).unwrap(), Ratio::new(1, 1));
}

#[test]
fn split_regular_bill() {
    let roomies = RoommateGroup::new(vec!["bob", "joe"]);
    let split = quarter_split(&roomies);
    let total = steel_cent::Money::of_major_minor(USD, 99, 99);
    let shared_cost = steel_cent::Money::of_major_minor(USD, 35, 46);
    let bill = new_bill(minor(total), minor(shared_cost));
    let share = CostSplit::split(&bill, &split);
    let bob_share = share.get(roomies.borrow_by_name("bob").unwrap()).unwrap();
    assert_eq!(bob_share.minor_amount(), minor(shared_cost / 2 + (total - shared_cost) * 0.25));
}

#[test]
fn share_regular_bill() {
    let roomies = RoommateGroup::new(vec!["bob", "joe"]);
    let split = quarter_split(&roomies);
    let total = steel_cent::Money::of_major_minor(USD, 99, 99);
    let shared_cost = steel_cent::Money::of_major_minor(USD, 35, 46);
    let bill = new_bill(minor(total), minor(shared_cost));
    let share = CostSplit::split(&bill, &split);
    let bob_share = share.get(roomies.borrow_by_name("bob").unwrap()).unwrap();
    assert_eq!(bob_share.minor_amount(), minor(shared_cost / 2 + (total - shared_cost) * 0.25));
}

#[test]
fn split_list_of_bills() {
    let roomies = RoommateGroup::new(vec!["bob", "joe"]);
    let split = quarter_split(&roomies);
    let total = steel_cent::Money::of_major_minor(USD, 99, 99);
    let shared_cost = steel_cent::Money::of_major_minor(USD, 35, 46);
    let bills = vec![
        new_bill(minor(total), minor(shared_cost)),
        new_bill(minor(total * 2), minor(shared_cost * 2)),
    ];
    let share = CostSplit::split_bill_list(bills.iter().map(|bill| (bill, &split)).collect()).unwrap();
    let bob_share = share.get(roomies.borrow_by_name("bob").unwrap()).unwrap();
    let expected = shared_cost.checked_mul_f(1.5).unwrap()
        + (total - shared_cost).checked_mul_f(0.25).unwrap() * 3;
    assert_eq!(bob_share.minor_amount(), minor(expected));
    assert_eq!(bills[0].amount_due(), bills[0].amount_due(), "bills shouldn't be consumed");
}

#[test]
fn share_list_of_bills() {
    let roomies = RoommateGroup::new(vec!["bob", "joe"]);
    let split = quarter_split(&roomies);
    let total = steel_cent::Money::of_major_minor(USD, 99, 99);
    let shared_cost = steel_cent::Money::of_major_minor(USD, 35, 46);
    let bills = vec![
        new_bill(minor(total), minor(shared_cost)),
        new_bill(minor(total * 2), minor(shared_cost * 2)),
    ];
    let share = CostSplit::split_bill_list(bills.iter().map(|bill| (bill, &split)).collect()).unwrap();
    let bob_share = share.get(roomies.borrow_by_name("bob").unwrap()).unwrap();
    let expected = shared_cost.checked_mul_f(1.5).unwrap()
        + (total - shared_cost).checked_mul_f(0.25).unwrap() * 3;
    assert_eq!(bob_share.minor_amount(), minor(expected));
}

#[test]
fn list_of_zero_valued_bills() {
    let roomies = RoommateGroup::new(vec!["bob", "joe"]);
    let split = quarter_split(&roomies);
    let bills = vec![new_bill(0, 0), new_bill(0, 0)];
    let bill_list: Vec<_> = bills.iter().map(|bill| (bill, &split)).collect();
    let share = CostSplit::split_bill_list(bill_list).unwrap();
    let bob_share = share.get(roomies.borrow_by_name("bob").unwrap()).unwrap();
    assert_eq!(bob_share, Money::zero(usd()));
    assert_eq!(bills[0].amount_due(), bills[0].amount_due(), "bills shouldn't be consumed");
}

#[test]
fn no_reponsibilities() {
    let roomies = RoommateGroup::new(vec!["bob", "joe"]);
    let split = roomies.build_split(weights(&roomies, vec![("bob", 0), ("joe", 0)]), 1).unwrap();
    let bills = vec![new_bill(30_00, 25_00)];
    let bill_list: Vec<_> = bills.iter().map(|bill| (bill, &split)).collect();
    let share = CostSplit::split_bill_list(bill_list).unwrap();
    let bob_share = share.get(roomies.borrow_by_name("bob").unwrap()).unwrap();
    let joe_share = share.get(roomies.borrow_by_name("joe").unwrap()).unwrap();
    assert_eq!(bob_share, joe_share);
    assert_eq!(bob_share.minor_amount() + joe_share.minor_amount(), 30_00);
}

#[test]
fn rounding_issue_everyone_pays_the_same() {
    let roomies = RoommateGroup::new(vec!["a", "b", "c"]);
    let split = roomies.build_split(weights(&roomies, vec![("a", 0), ("b", 0), ("c", 0)]), 1).unwrap();
    let bills = vec![new_bill(20_00, 10_00)];
    let bill_list: Vec<_> = bills.iter().map(|bill| (bill, &split)).collect();
    let share = CostSplit::split_bill_list(bill_list).unwrap();
    let actual_total: i64 = share.iter().iter().map(|(_, v)| v.minor_amount()).sum();
    assert_eq!(actual_total, 20_00);
}

#[test]
fn quarter_split_bill_example() {
    let roomies = RoommateGroup::new(vec!["a", "b"]);
    let split = quarter_split(&roomies);
    let share = CostSplit::split(&new_bill(99_99, 35_46), &split);
    let a = share.get(roomies.borrow_by_name("a").unwrap()).unwrap();
    let b = share.get(roomies.borrow_by_name("b").unwrap()).unwrap();
    assert_eq!(a.minor_amount(), 33_86);
    assert_eq!(b.minor_amount(), 66_13);
    assert_eq!(a.minor_amount() + b.minor_amount(), 99_99);
    assert_eq!(share.total(), Money::of_minor(usd(), 99_99));
}

#[test]
fn cumulative_rounding_assigns_leftover_units_in_order() {
    let roomies = RoommateGroup::new(vec!["a", "b", "c"]);
    let split = roomies.build_split(weights(&roomies, vec![("a", 1), ("b", 1), ("c", 1)]), 3).unwrap();
    let share = CostSplit::split(&new_bill(100, 0), &split);
    let amounts: Vec<i64> = share.iter().iter().map(|(_, m)| m.minor_amount()).collect();
    assert_eq!(amounts, vec![33, 33, 34]);
    let share = CostSplit::split(&new_bill(200, 200), &split);
    let amounts: Vec<i64> = share.iter().iter().map(|(_, m)| m.minor_amount()).collect();
    assert_eq!(amounts, vec![66, 67, 67]);
}

#[test]
fn accumulation_keeps_roommates_of_every_bill() {
    let first = RoommateGroup::new(vec!["a", "b"]);
    let second = RoommateGroup::new(vec!["b", "c"]);
    let split_one = first.build_split(weights(&first, vec![("a", 1)]), 1).unwrap();
    let split_two = second.build_split(weights(&second, vec![("c", 1)]), 1).unwrap();
    let bill_one = new_bill(10_00, 0);
    let bill_two = new_bill(20_00, 4_00);
    let share = CostSplit::split_bill_list(vec![(&bill_one, &split_one), (&bill_two, &split_two)]).unwrap();
    let get = |n: &str| share.get(&Roommate::new(n)).map(|m| m.minor_amount());
    assert_eq!(get("a"), Some(10_00));
    assert_eq!(get("b"), Some(2_00));
    assert_eq!(get("c"), Some(18_00));
    assert_eq!(get("d"), None);
    assert_eq!(share.total().minor_amount(), 30_00);
}

#[test]
fn mixed_currencies_are_refused() {
    let roomies = RoommateGroup::new(vec!["bob", "joe"]);
    let split = quarter_split(&roomies);
    let eur_bill = SharedBill::from_fixed(Bill::new(
        Money::of_minor(Currency::new(978, 2), 10_00),
        DateInterval::new((2020, 1, 2), (2020, 2, 2)).unwrap(),
    ));
    let usd_bill = new_bill(10_00, 0);
    let result = CostSplit::split_bill_list(vec![(&usd_bill, &split), (&eur_bill, &split)]);
    assert_eq!(result.err(), Some(BillError::MismatchedCurrencies));
}

#[test]
fn ratios_are_reduced_and_compared_by_value() {
    let r = Ratio::new(6, 22);
    assert_eq!(r.numer(), 3);
    assert_eq!(r.denom(), 11);
    assert_eq!(Ratio::new(0, 5).denom(), 1);
    assert_eq!(Ratio::new(2, 4), Ratio::new(1, 2));
    assert_ne!(Ratio::new(1, 3), Ratio::new(1, 2));
    assert_eq!(Ratio::from_integer(1), Ratio::new(7, 7));
}

#[test]
fn cost_split_new_checks_its_amounts() {
    let bob = Roommate::new("bob");
    let joe = Roommate::new("joe");
    let entries = |a: i64, b: i64| vec![(bob.copy(), Money::of_minor(usd(), a)), (joe.copy(), Money::of_minor(usd(), b))];
    let split = CostSplit::new(entries(3_00, 7_00), Money::of_minor(usd(), 10_00)).unwrap();
    assert_eq!(split.get(&bob), Some(Money::of_minor(usd(), 3_00)));
    assert_eq!(split.total(), Money::of_minor(usd(), 10_00));
    assert!(CostSplit::new(entries(3_00, 6_00), Money::of_minor(usd(), 10_00)).is_none());
    assert!(CostSplit::new(entries(-1_00, 11_00), Money::of_minor(usd(), 10_00)).is_none());
    let mixed = vec![(bob.copy(), Money::of_minor(Currency::new(978, 2), 10_00))];
    assert!(CostSplit::new(mixed, Money::of_minor(usd(), 10_00)).is_none());
}

#[test]
fn accumulate_adds_up_cost_splits() {
    let roomies = RoommateGroup::new(vec!["bob", "joe"]);
    let split = quarter_split(&roomies);
    let parts = vec![
        CostSplit::split(&new_bill(99_99, 35_46), &split),
        CostSplit::split(&new_bill(199_98, 70_92), &split),
    ];
    let total = CostSplit::accumulate(&parts).unwrap();
    assert_eq!(total.get(roomies.borrow_by_name("bob").unwrap()).unwrap().minor_amount(), 101_58);
    assert_eq!(total.get(roomies.borrow_by_name("joe").unwrap()).unwrap().minor_amount(), 198_39);
    assert_eq!(total.total().minor_amount(), 299_97);
    let eur = SharedBill::from_fully_fixed(Bill::new(
        Money::of_minor(Currency::new(978, 2), 1_00),
        DateInterval::new((2020, 1, 2), (2020, 2, 2)).unwrap(),
    ));
    let mixed = vec![CostSplit::split(&new_bill(1_00, 0), &split), CostSplit::split(&eur, &split)];
    assert_eq!(CostSplit::accumulate(&mixed).err(), Some(BillError::MismatchedCurrencies));
}

#[test]
fn cost_split_new_refuses_a_repeated_roommate() {
    let bob = Roommate::new("bob");
    let twice = vec![(bob.copy(), Money::of_minor(usd(), 5)), (bob.copy(), Money::of_minor(usd(), 5))];
    assert!(CostSplit::new(twice, Money::of_minor(usd(), 10)).is_none());
}

#[test]
fn water_bill_split_between_two() {
    let house = RoommateGroup::new(vec!["Bob", "Joe"]);
    let water = SharedBill::from_fixed(
        Bill::new_with_fixed_cost(
            Money::of_minor(usd(), 100_00),
            DateInterval::from_strs("01/01/2020", "01/31/2020").unwrap(),
            Money::of_minor(usd(), 20_00),
        )
        .unwrap(),
    );
    let record = ResponsibilityRecord::new(vec![
        ResponsibilityInterval::new(
            house.borrow_by_name("Bob").unwrap(),
            DateInterval::from_strs("01/10/2020", "01/19/2020").unwrap(),
            0,
        ),
        ResponsibilityInterval::new(
            house.borrow_by_name("Joe").unwrap(),
            DateInterval::from_strs("01/10/2020", "01/14/2020").unwrap(),
            0,
        ),
    ]);
    let split = house.individual_responsibilities(&record, water.usage_period());
    let money = CostSplit::split_bill_list(vec![(&water, &split)]).unwrap();
    let bob = money.get(house.borrow_by_name("Bob").unwrap()).unwrap().minor_amount();
    let joe = money.get(house.borrow_by_name("Joe").unwrap()).unwrap().minor_amount();
    assert_eq!(bob, 63_33);
    assert_eq!(joe, 36_67);
    assert_eq!(bob + joe, 100_00);

    let (splits, total) = house.split_bills(&vec![water, water], &record).unwrap();
    assert_eq!(splits.len(), 2);
    assert_eq!(splits[0].get(house.borrow_by_name("Bob").unwrap()).unwrap(), Ratio::new(2, 3));
    assert_eq!(total.get(house.borrow_by_name("Bob").unwrap()).unwrap().minor_amount(), 2 * 63_33);
    assert_eq!(total.total().minor_amount(), 200_00);
    assert_eq!(total.get(&Roommate::new("Ann")), None);
    assert_eq!(total.iter().len(), 2);
}
