use roommates::{
    Date, DateInterval, IntervalError, ResponsibilityInterval, ResponsibilityRecord, Roommate,
};

fn interval(start: (i32, u32, u32), end: (i32, u32, u32)) -> DateInterval {
    DateInterval::new(start, end).unwrap()
}

#[test]
fn interval_whole_interval() {
    let start = (2020, 1, 2);
    let end = (2020, 2, 2);
    let me = Roommate::new("me");
    let intervals = ResponsibilityRecord::new(vec![ResponsibilityInterval::new(
        &me,
        DateInterval::new(start, end).unwrap(),
        0,
    )]);
    assert_eq!(intervals.occupancy_over(DateInterval::new(start, end).unwrap()), 32);
}

#[test]
fn interval_partial_interval_with_weights() {
    let start = (2020, 1, 10);
    let end = (2020, 1, 20);
    let me = Roommate::new("me");
    let someone = Roommate::new("someone");
    let intervals = ResponsibilityRecord::new(vec![
        ResponsibilityInterval::new(&me, interval((2020, 1, 18), end), 1),
        ResponsibilityInterval::new(&someone, interval(start, (2020, 1, 13)), 3),
    ]);
    assert_eq!(intervals.occupancy_over(interval(start, end)), 4 * 4 + 2 * 3);
}

#[test]
fn interval_capping_intervals() {
    let start = (2020, 1, 10);
    let end = (2020, 1, 20);
    let me = Roommate::new("me");
    let someone = Roommate::new("someone");
    let intervals = ResponsibilityRecord::new(vec![
        ResponsibilityInterval::new(&me, interval((2020, 1, 18), (2021, 1, 21)), 1),
        ResponsibilityInterval::new(&someone, interval((2019, 1, 10), (2020, 1, 13)), 3),
    ]);
    assert_eq!(intervals.occupancy_over(interval(start, end)), 4 * 4 + 2 * 3);
}

#[test]
fn intervals_bounding() {
    let april = interval((2020, 4, 1), (2020, 4, 30));
    let spring = interval((2020, 3, 20), (2020, 6, 19));
    assert_eq!(april.num_days_bounded_by(spring), 30);
    assert_eq!(spring.num_days_bounded_by(april), 30);
}

// Days are counted inclusively at both ends.
#[test]
fn mod_whole_interval() {
    let me = Roommate::new("me");
    let intervals = ResponsibilityRecord::new(vec![ResponsibilityInterval::new(
        &me,
        interval((2020, 1, 2), (2020, 2, 2)),
        0,
    )]);
    assert_eq!(interval((2020, 1, 2), (2020, 2, 2)).occupancy(&intervals), 32);
}

#[test]
fn mod_partial_interval_with_weights() {
    let me = Roommate::new("me");
    let someone = Roommate::new("someone");
    let intervals = ResponsibilityRecord::new(vec![
        ResponsibilityInterval::new(&me, interval((2020, 1, 18), (2020, 1, 20)), 1),
        ResponsibilityInterval::new(&someone, interval((2020, 1, 10), (2020, 1, 13)), 3),
    ]);
    assert_eq!(
        interval((2020, 1, 10), (2020, 1, 20)).occupancy(&intervals),
        4 * 4 + 2 * 3,
    );
}

#[test]
fn mod_capping_intervals() {
    let me = Roommate::new("me");
    let someone = Roommate::new("someone");
    let intervals = ResponsibilityRecord::new(vec![
        ResponsibilityInterval::new(&me, interval((2020, 1, 18), (2021, 1, 20)), 1),
        ResponsibilityInterval::new(&someone, interval((2019, 1, 10), (2020, 1, 13)), 3),
    ]);
    assert_eq!(
        interval((2020, 1, 10), (2020, 1, 20)).occupancy(&intervals),
        4 * 4 + 2 * 3,
    );
}

#[test]
fn single_day_window_counts_one_day() {
    let day = interval((2020, 1, 12), (2020, 1, 12));
    assert_eq!(day.num_days_bounded_by(day), 1);
    let before = interval((2020, 1, 1), (2020, 1, 11));
    assert_eq!(before.num_days_bounded_by(day), 0);
}

#[test]
fn record_occupancy_examples() {
    let bob = Roommate::new("Bob");
    let joe = Roommate::new("Joe");
    let records = ResponsibilityRecord::new(vec![
        ResponsibilityInterval::new(&bob, DateInterval::from_strs("01/10/2020", "01/19/2020").unwrap(), 0),
        ResponsibilityInterval::new(&joe, DateInterval::from_strs("01/10/2020", "01/14/2020").unwrap(), 0),
    ]);
    let window = |a: &str, b: &str| DateInterval::from_strs(a, b).unwrap();
    assert_eq!(records.occupancy_over(window("01/10/2020", "01/16/2020")), 12);
    assert_eq!(records.occupancy_over(window("01/12/2020", "01/12/2020")), 2);
    assert_eq!(records.occupancy_over(window("01/01/2020", "01/01/2021")), 15);
    assert_eq!(records.occupancy_over(window("05/10/2020", "05/16/2020")), 0);
    assert_eq!(records.roommate_occupancy(&bob, window("01/10/2020", "01/16/2020")), 7);
    assert_eq!(records.roommate_occupancy(&joe, window("01/10/2020", "01/16/2020")), 5);
}

#[test]
fn date_interval_errors() {
    assert!(DateInterval::new((2020, 1, 1), (2020, 3, 1)).is_ok());
    assert_eq!(
        DateInterval::new((2020, 3, 1), (2020, 1, 1)).unwrap_err(),
        IntervalError::NegativeLengthInterval
    );
    assert_eq!(
        DateInterval::new((2020, 1, 32), (2020, 3, 1)).unwrap_err(),
        IntervalError::InvalidDate
    );
    assert!(DateInterval::from_strs("01/01/2020", "12/01/2020").is_ok());
    assert_eq!(
        DateInterval::from_strs("12/01/2020", "01/01/2020").unwrap_err(),
        IntervalError::NegativeLengthInterval
    );
    assert_eq!(
        DateInterval::from_strs("01/01/2020", "13/01/2020").unwrap_err(),
        IntervalError::InvalidDate
    );
    assert_eq!(
        DateInterval::from_strs("01-01-2020", "12-01-2020").unwrap_err(),
        IntervalError::InvalidDate
    );
}

#[test]
fn dates_count_days_from_the_common_era() {
    assert_eq!(Date::from_ymd(1, 1, 1).unwrap().day_number(), 1);
    assert_eq!(Date::from_ymd(2020, 2, 30), None);
    let leap = Date::from_ymd(2020, 3, 1).unwrap().day_number() - Date::from_ymd(2020, 2, 28).unwrap().day_number();
    assert_eq!(leap, 2);
    assert_eq!(Date::parse_mdy("02/29/2020"), Date::from_ymd(2020, 2, 29));
    assert_eq!(Date::parse_mdy("2020-02-29"), None);
    let january = DateInterval::new((2020, 1, 1), (2020, 1, 31)).unwrap();
    assert_eq!(january.start(), Date::from_ymd(2020, 1, 1).unwrap());
    assert_eq!(january.end(), Date::from_ymd(2020, 1, 31).unwrap());
}

#[test]
fn interval_people_and_owner() {
    let joe = Roommate::new("Joe");
    let visit = ResponsibilityInterval::new(
        &joe,
        DateInterval::from_strs("01/15/2020", "01/22/2020").unwrap(),
        1,
    );
    assert_eq!(visit.num_people(), 2);
    assert_eq!(visit.responsible_for_count(), 2);
    assert_eq!(visit.roommate(), &joe);
    let full = ResponsibilityInterval::new(&joe, DateInterval::new((2020, 1, 1), (2020, 1, 1)).unwrap(), u32::MAX);
    assert_eq!(full.num_people(), 1 + u32::MAX as u64);
}
