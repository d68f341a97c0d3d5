use vstd::prelude::*;

use crate::interval::{
    occupancy_of, roommate_occupancy_of, weighted_days, DateInterval, IntervalView,
    ResponsibilityRecord,
};
use crate::cost::amount_of;
use crate::roommate::{distinct_names, names_of, Roommate, RoommateGroup};

verus! {

/// Relies on num-integer's `gcd` for unsigned integers: with a zero
/// argument it returns the other one, and for two positive numbers a
/// positive common divisor of both.
#[verifier::external_body]
fn gcd_u64(a: u64, b: u64) -> (r: u64)
    ensures
        a == 0 ==> r == b,
        b == 0 ==> r == a,
        a > 0 && b > 0 ==> r > 0 && a % r == 0 && b % r == 0,
{
    num::integer::gcd(a, b)
}

proof fn lemma_product_fits(a: u64, b: u64)
    ensures
        a * b <= u128::MAX,
{
    assert(a * b <= u64::MAX * u64::MAX) by (nonlinear_arith)
        requires
            a <= u64::MAX,
            b <= u64::MAX,
    ;
}

/// An exact non-negative fraction.
#[derive(Debug, Clone, Copy)]
pub struct Ratio {
    numer: u64,
    denom: u64,
}

impl View for Ratio {
    type V = (int, int);

    closed spec fn view(&self) -> (int, int) {
        (self.numer as int, self.denom as int)
    }
}

/// Whether the fractions `a.0 / a.1` and `b.0 / b.1` are equal.
pub open spec fn same_fraction(a: (int, int), b: (int, int)) -> bool {
    a.0 * b.1 == b.0 * a.1
}

impl PartialEq for Ratio {
    fn eq(&self, other: &Ratio) -> (r: bool) {
        proof {
            lemma_product_fits(self.numer, other.denom);
            lemma_product_fits(other.numer, self.denom);
        }
        self.numer as u128 * other.denom as u128 == other.numer as u128 * self.denom as u128
    }
}

impl vstd::std_specs::cmp::PartialEqSpecImpl for Ratio {
    open spec fn obeys_eq_spec() -> bool {
        true
    }

    open spec fn eq_spec(&self, other: &Ratio) -> bool {
        same_fraction(self@, other@)
    }
}

impl Ratio {
    #[verifier::type_invariant]
    spec fn inv(&self) -> bool {
        self.denom > 0
    }

    /// A fraction equal to `numer / denom`, with a common factor of the two,
    /// found by num-integer's `gcd`, divided out.
    pub fn new(numer: u64, denom: u64) -> (r: Ratio)
        requires
            denom > 0,
        ensures
            same_fraction(r@, (numer as int, denom as int)),
            r@.1 > 0,
    {
        let g = gcd_u64(numer, denom);
        if numer == 0 {
            return Ratio { numer: 0, denom: 1 };
        }
        let n = numer / g;
        let d = denom / g;
        proof {
            vstd::arithmetic::div_mod::lemma_fundamental_div_mod(numer as int, g as int);
            vstd::arithmetic::div_mod::lemma_fundamental_div_mod(denom as int, g as int);
            assert(numer == g * n);
            assert(denom == g * d);
            assert(n * denom == numer * d) by (nonlinear_arith)
                requires
                    numer == g * n,
                    denom == g * d,
            ;
            assert(d > 0) by (nonlinear_arith)
                requires
                    denom == g * d,
                    denom > 0,
                    g > 0,
                    d >= 0,
            ;
        }
        Ratio { numer: n, denom: d }
    }

    /// The whole number `n`.
    pub fn from_integer(n: u64) -> (r: Ratio)
        ensures
            r@ == (n as int, 1int),
    {
        Ratio { numer: n, denom: 1 }
    }

    /// The numerator.
    pub fn numer(&self) -> (r: u64)
        ensures
            r == self@.0,
    {
        self.numer
    }

    /// The denominator, which is positive.
    pub fn denom(&self) -> (r: u64)
        ensures
            r == self@.1,
            r > 0,
    {
        proof {
            use_type_invariant(self);
        }
        self.denom
    }
}

/// The sum of the numbers of a list of named numbers: the weights of a
/// split, or the amounts of a cost split.
pub open spec fn weight_sum(entries: Seq<(Seq<char>, int)>) -> int
    decreases entries.len(),
{
    if entries.len() == 0 {
        0
    } else {
        weight_sum(entries.drop_last()) + entries.last().1
    }
}

/// The names of a split's entries.
pub open spec fn entry_names<T>(entries: Seq<(Seq<char>, T)>) -> Seq<Seq<char>> {
    entries.map_values(|e: (Seq<char>, T)| e.0)
}

/// Why a split could not be built.
#[derive(Debug, Clone, Copy, PartialEq, Eq, Structural)]
pub enum SplitError {
    /// The ratios do not sum to one or to zero, or do not match the group.
    InvalidSplit,
}

/// The fraction of a bill's variable part that each roommate answers for.
///
/// Entry `i` holds a roommate and a weight; its ratio is the weight over the
/// common denominator. The weights sum to the denominator, so the ratios sum
/// to exactly one.
pub struct ResponsibilitySplit {
    entries: Vec<(Roommate, u64)>,
    denom: u64,
}

/// What a [`ResponsibilitySplit`] holds: each roommate's name and weight, and
/// the common denominator.
pub type SplitView = (Seq<(Seq<char>, int)>, int);

/// The views of a split's entries.
pub open spec fn split_entry_views(s: Seq<(Roommate, u64)>) -> Seq<(Seq<char>, int)> {
    s.map_values(|e: (Roommate, u64)| (e.0@, e.1 as int))
}

impl View for ResponsibilitySplit {
    type V = SplitView;

    closed spec fn view(&self) -> SplitView {
        (split_entry_views(self.entries@), self.denom as int)
    }
}

/// Whether `v` is a well-formed split: distinct names, a positive
/// denominator, non-negative weights that sum to it unless there are no
/// entries.
pub open spec fn valid_split(v: SplitView) -> bool {
    &&& v.1 > 0
    &&& v.0.len() <= u32::MAX
    &&& distinct_names(entry_names(v.0))
    &&& forall|i: int| 0 <= i < v.0.len() ==> #[trigger] v.0[i].1 >= 0
    &&& (v.0.len() == 0 || weight_sum(v.0) == v.1)
}

/// Each roommate's person-days over `window`, in the order of `names`.
pub open spec fn sum_roommate_occupancy(
    names: Seq<Seq<char>>,
    intervals: Seq<IntervalView>,
    window: (int, int),
) -> int
    decreases names.len(),
{
    if names.len() == 0 {
        0
    } else {
        sum_roommate_occupancy(names.drop_last(), intervals, window) + roommate_occupancy_of(
            intervals,
            window,
            names.last(),
        )
    }
}

/// The split of a bill over `window` between `names`: each roommate's
/// person-days over everyone's, or equal shares where nobody stayed.
pub open spec fn responsibility_view(
    names: Seq<Seq<char>>,
    intervals: Seq<IntervalView>,
    window: (int, int),
) -> SplitView {
    let total = occupancy_of(intervals, window);
    if total == 0 {
        (
            Seq::new(names.len(), |i: int| (names[i], 1int)),
            if names.len() == 0 { 1 } else { names.len() as int },
        )
    } else {
        (
            Seq::new(names.len(), |i: int| (names[i], roommate_occupancy_of(intervals, window, names[i]))),
            total,
        )
    }
}

/// Whether every interval belongs to one of `names`.
pub open spec fn owners_within(intervals: Seq<IntervalView>, names: Seq<Seq<char>>) -> bool {
    forall|i: int| 0 <= i < intervals.len() ==> names.contains(#[trigger] intervals[i].0)
}

/// Whether every interval stands for a non-negative number of people.
pub open spec fn people_non_negative(intervals: Seq<IntervalView>) -> bool {
    forall|i: int| 0 <= i < intervals.len() ==> #[trigger] intervals[i].2 >= 0
}

proof fn lemma_weighted_days_non_negative(x: IntervalView, window: (int, int))
    requires
        x.2 >= 0,
    ensures
        weighted_days(x, window) >= 0,
{
    let d = crate::interval::overlap_days(x.1, window);
    assert(d >= 0);
    assert(x.2 * d >= 0) by (nonlinear_arith)
        requires
            x.2 >= 0,
            d >= 0,
    ;
}

/// A roommate's occupancy is never negative.
pub proof fn lemma_roommate_occupancy_non_negative(
    intervals: Seq<IntervalView>,
    window: (int, int),
    who: Seq<char>,
)
    requires
        people_non_negative(intervals),
    ensures
        roommate_occupancy_of(intervals, window, who) >= 0,
    decreases intervals.len(),
{
    if intervals.len() > 0 {
        let rest = intervals.drop_last();
        assert forall|i: int| 0 <= i < rest.len() implies #[trigger] rest[i].2 >= 0 by {
            assert(rest[i] == intervals[i]);
        }
        lemma_roommate_occupancy_non_negative(rest, window, who);
        lemma_weighted_days_non_negative(intervals.last(), window);
    }
}

proof fn lemma_sum_with_interval(
    names: Seq<Seq<char>>,
    intervals: Seq<IntervalView>,
    x: IntervalView,
    window: (int, int),
)
    requires
        distinct_names(names),
    ensures
        sum_roommate_occupancy(names, intervals.push(x), window) == sum_roommate_occupancy(
            names,
            intervals,
            window,
        ) + if names.contains(x.0) {
            weighted_days(x, window)
        } else {
            0
        },
    decreases names.len(),
{
    if names.len() > 0 {
        let rest = names.drop_last();
        assert(distinct_names(rest)) by {
            assert forall|i: int, j: int| 0 <= i < j < rest.len() implies rest[i] != rest[j] by {
                assert(rest[i] == names[i] && rest[j] == names[j]);
            }
        }
        lemma_sum_with_interval(rest, intervals, x, window);
        let pushed = intervals.push(x);
        assert(pushed.drop_last() =~= intervals);
        if names.contains(x.0) {
            let k = choose|k: int| 0 <= k < names.len() && names[k] == x.0;
            if k == names.len() - 1 {
                assert(!rest.contains(x.0)) by {
                    if rest.contains(x.0) {
                        let j = choose|j: int| 0 <= j < rest.len() && rest[j] == x.0;
                        assert(names[j] == names[k]);
                    }
                }
            } else {
                assert(rest[k] == x.0);
                assert(names.last() != x.0);
            }
        } else {
            assert(!rest.contains(x.0)) by {
                if rest.contains(x.0) {
                    let j = choose|j: int| 0 <= j < rest.len() && rest[j] == x.0;
                    assert(names[j] == x.0);
                }
            }
            assert(names.last() != x.0) by {
                assert(names[names.len() - 1] == names.last());
            }
        }
    }
}

/// When every interval belongs to one of a group's roommates, the
/// roommates' occupancies add up to the whole occupancy: the ratios of a
/// split over the full group sum to exactly one.
pub proof fn lemma_shares_sum_to_occupancy(
    names: Seq<Seq<char>>,
    intervals: Seq<IntervalView>,
    window: (int, int),
)
    requires
        distinct_names(names),
        owners_within(intervals, names),
    ensures
        sum_roommate_occupancy(names, intervals, window) == occupancy_of(intervals, window),
    decreases intervals.len(),
{
    if intervals.len() == 0 {
        lemma_sum_empty_record(names, intervals, window);
    } else {
        let rest = intervals.drop_last();
        assert forall|i: int| 0 <= i < rest.len() implies names.contains(#[trigger] rest[i].0) by {
            assert(rest[i] == intervals[i]);
        }
        lemma_shares_sum_to_occupancy(names, rest, window);
        lemma_sum_with_interval(names, rest, intervals.last(), window);
        assert(rest.push(intervals.last()) =~= intervals);
        assert(names.contains(intervals[intervals.len() - 1].0));
    }
}

/// A window that shares no day with any interval has no occupancy, in
/// total or for any roommate; the split over it is then the equal one that
/// `individual_responsibilities` gives when the occupancy is zero.
pub proof fn lemma_disjoint_window_unoccupied(
    intervals: Seq<IntervalView>,
    window: (int, int),
    who: Seq<char>,
)
    requires
        forall|i: int| 0 <= i < intervals.len() ==> (#[trigger] intervals[i]).1.1 < window.0
            || window.1 < intervals[i].1.0,
    ensures
        occupancy_of(intervals, window) == 0,
        roommate_occupancy_of(intervals, window, who) == 0,
    decreases intervals.len(),
{
    if intervals.len() > 0 {
        let rest = intervals.drop_last();
        assert forall|i: int| 0 <= i < rest.len() implies (#[trigger] rest[i]).1.1 < window.0
            || window.1 < rest[i].1.0 by {
            assert(rest[i] == intervals[i]);
        }
        lemma_disjoint_window_unoccupied(rest, window, who);
        let last = intervals[intervals.len() - 1];
        assert(crate::interval::overlap_days(last.1, window) == 0);
        assert(weighted_days(last, window) == 0);
    }
}

proof fn lemma_sum_empty_record(names: Seq<Seq<char>>, intervals: Seq<IntervalView>, window: (int, int))
    requires
        intervals.len() == 0,
    ensures
        sum_roommate_occupancy(names, intervals, window) == 0,
    decreases names.len(),
{
    if names.len() > 0 {
        lemma_sum_empty_record(names.drop_last(), intervals, window);
    }
}

/// A prefix of the roommates never has more occupancy than all of them.
proof fn lemma_prefix_sum_bounded(
    names: Seq<Seq<char>>,
    intervals: Seq<IntervalView>,
    window: (int, int),
    k: int,
)
    requires
        0 <= k <= names.len(),
        people_non_negative(intervals),
    ensures
        0 <= sum_roommate_occupancy(names.take(k), intervals, window) <= sum_roommate_occupancy(
            names,
            intervals,
            window,
        ),
    decreases names.len(),
{
    if names.len() > 0 {
        let rest = names.drop_last();
        lemma_roommate_occupancy_non_negative(intervals, window, names.last());
        if k == names.len() {
            assert(names.take(k) =~= names);
            lemma_prefix_sum_bounded(rest, intervals, window, rest.len() as int);
            assert(rest.take(rest.len() as int) =~= rest);
        } else {
            assert(names.take(k) =~= rest.take(k));
            lemma_prefix_sum_bounded(rest, intervals, window, k);
        }
    } else {
        assert(names.take(k) =~= names);
    }
}

impl ResponsibilitySplit {
    #[verifier::type_invariant]
    spec fn inv(&self) -> bool {
        valid_split(self@)
    }

    /// The split is always well formed.
    pub fn is_valid(&self) -> (r: bool)
        ensures
            r,
            valid_split(self@),
    {
        proof {
            use_type_invariant(self);
        }
        true
    }

    /// The number of roommates in the split.
    pub fn len(&self) -> (r: usize)
        ensures
            r == self@.0.len(),
    {
        self.entries.len()
    }

    /// The common denominator of the ratios.
    pub fn denominator(&self) -> (r: u64)
        ensures
            r == self@.1,
    {
        self.denom
    }

    /// The weight of entry `i`, the numerator of its ratio.
    pub fn weight(&self, i: usize) -> (r: u64)
        requires
            i < self@.0.len(),
        ensures
            r == self@.0[i as int].1,
    {
        self.entries[i].1
    }

    /// The roommate of entry `i`.
    pub fn roommate(&self, i: usize) -> (r: &Roommate)
        requires
            i < self@.0.len(),
        ensures
            r@ == self@.0[i as int].0,
    {
        &self.entries[i].0
    }

    /// Each roommate with the ratio it answers for, in order.
    pub fn iter(&self) -> (r: Vec<(Roommate, Ratio)>)
        ensures
            r.len() == self@.0.len(),
            forall|i: int| 0 <= i < r.len() ==> {
                &&& (#[trigger] r[i]).0@ == self@.0[i].0
                &&& same_fraction(r[i].1@, (self@.0[i].1, self@.1))
            },
    {
        proof {
            use_type_invariant(self);
        }
        let mut out: Vec<(Roommate, Ratio)> = Vec::new();
        let mut i: usize = 0;
        while i < self.entries.len()
            invariant
                i <= self.entries.len(),
                out.len() == i,
                self.denom > 0,
                forall|k: int| 0 <= k < i ==> {
                    &&& (#[trigger] out[k]).0@ == self@.0[k].0
                    &&& same_fraction(out[k].1@, (self@.0[k].1, self@.1))
                },
            decreases self.entries.len() - i,
        {
            let who = self.entries[i].0.copy();
            let ratio = Ratio::new(self.entries[i].1, self.denom);
            out.push((who, ratio));
            i += 1;
        }
        out
    }

    /// The ratio that `roommate` answers for, if it is in the split.
    pub fn get(&self, roommate: &Roommate) -> (r: Option<Ratio>)
        ensures
            r is Some <==> entry_names(self@.0).contains(roommate@),
            forall|i: int|
                0 <= i < self@.0.len() && self@.0[i].0 == roommate@ ==> r is Some
                    && same_fraction(r.unwrap()@, (self@.0[i].1, self@.1)),
    {
        proof {
            use_type_invariant(self);
        }
        let mut i: usize = 0;
        while i < self.entries.len()
            invariant
                i <= self.entries.len(),
                valid_split(self@),
                forall|k: int| 0 <= k < i ==> self@.0[k].0 != roommate@,
            decreases self.entries.len() - i,
        {
            if self.entries[i].0 == *roommate {
                proof {
                    let names = entry_names(self@.0);
                    assert(names[i as int] == roommate@);
                    assert forall|j: int|
                        0 <= j < self@.0.len() && self@.0[j].0 == roommate@ implies j == i by {
                        assert(names[j] == self@.0[j].0);
                        if j < i {
                            assert(names[j] != names[i as int]);
                        } else if j > i {
                            assert(names[i as int] != names[j]);
                        }
                    }
                }
                return Some(Ratio::new(self.entries[i].1, self.denom));
            }
            i += 1;
        }
        proof {
            if entry_names(self@.0).contains(roommate@) {
                let k = choose|k: int| 0 <= k < entry_names(self@.0).len() && entry_names(self@.0)[k] == roommate@;
                assert(self@.0[k].0 == roommate@);
            }
        }
        None
    }
}

impl RoommateGroup {
    /// The split in which each of the group's roommates answers for an equal
    /// share.
    fn equal_split(&self) -> (r: ResponsibilitySplit)
        ensures
            entry_names(r@.0) == self@,
            r@.1 == if self@.len() == 0 { 1 } else { self@.len() },
            forall|i: int| 0 <= i < r@.0.len() ==> #[trigger] r@.0[i].1 == 1,
    {
        let members = self.iter();
        let mut entries: Vec<(Roommate, u64)> = Vec::new();
        let mut i: usize = 0;
        while i < members.len()
            invariant
                i <= members.len(),
                names_of(members@) == self@,
                distinct_names(self@),
                self@.len() <= u32::MAX,
                entry_names(split_entry_views(entries@)) == self@.take(i as int),
                forall|k: int| 0 <= k < entries.len() ==> #[trigger] entries@[k].1 == 1,
                entries.len() == i,
            decreases members.len() - i,
        {
            entries.push((members[i].copy(), 1));
            proof {
                assert(entry_names(split_entry_views(entries@)) =~= self@.take(i as int + 1));
            }
            i += 1;
        }
        let denom: u64 = if members.len() == 0 { 1 } else { members.len() as u64 };
        proof {
            assert(self@.take(i as int) =~= self@);
            let v = split_entry_views(entries@);
            lemma_weight_sum_of_ones(v);
        }
        ResponsibilitySplit { entries, denom }
    }

    /// The fraction of the bill each roommate answers for over
    /// `billing_period`: its person-days over everyone's.
    ///
    /// Where nobody stayed during the period, each roommate answers for an
    /// equal share.
    pub fn individual_responsibilities(
        &self,
        responsibility_intervals: &ResponsibilityRecord,
        billing_period: DateInterval,
    ) -> (r: ResponsibilitySplit)
        requires
            owners_within(responsibility_intervals@, self@),
            occupancy_of(responsibility_intervals@, billing_period@) <= u64::MAX,
        ensures
            r@ == responsibility_view(self@, responsibility_intervals@, billing_period@),
            entry_names(r@.0) == self@,
            ({
                let total = occupancy_of(responsibility_intervals@, billing_period@);
                if total == 0 {
                    &&& r@.1 == if self@.len() == 0 { 1 } else { self@.len() }
                    &&& forall|i: int| 0 <= i < r@.0.len() ==> #[trigger] r@.0[i].1 == 1
                } else {
                    &&& r@.1 == total
                    &&& forall|i: int|
                        0 <= i < r@.0.len() ==> #[trigger] r@.0[i].1 == roommate_occupancy_of(
                            responsibility_intervals@,
                            billing_period@,
                            self@[i],
                        )
                }
            }),
    {
        let total = responsibility_intervals.occupancy_over(billing_period);
        if total == 0 {
            let r = self.equal_split();
            proof {
                let expected = responsibility_view(self@, responsibility_intervals@, billing_period@);
                assert(entry_names(r@.0).len() == r@.0.len());
                assert forall|i: int| 0 <= i < r@.0.len() implies r@.0[i] == expected.0[i] by {
                    assert(entry_names(r@.0)[i] == r@.0[i].0);
                }
                assert(r@.0 =~= expected.0);
            }
            return r;
        }
        let members = self.iter();
        let intervals = responsibility_intervals.iter();
        let ghost iv = responsibility_intervals@;
        let ghost window = billing_period@;
        proof {
            lemma_shares_sum_to_occupancy(self@, iv, window);
            assert(people_non_negative(iv)) by {
                assert forall|i: int| 0 <= i < iv.len() implies #[trigger] iv[i].2 >= 0 by {
                    responsibility_intervals.lemma_people_positive(i);
                }
            }
        }
        let mut entries: Vec<(Roommate, u64)> = Vec::new();
        let mut i: usize = 0;
        while i < members.len()
            invariant
                i <= members.len(),
                names_of(members@) == self@,
                distinct_names(self@),
                self@.len() <= u32::MAX,
                people_non_negative(iv),
                iv == responsibility_intervals@,
                window == billing_period@,
                total == occupancy_of(iv, window),
                sum_roommate_occupancy(self@, iv, window) == total,
                total <= u64::MAX,
                entry_names(split_entry_views(entries@)) == self@.take(i as int),
                weight_sum(split_entry_views(entries@)) == sum_roommate_occupancy(self@.take(i as int), iv, window),
                forall|k: int| 0 <= k < entries.len() ==> #[trigger] split_entry_views(entries@)[k].1 == roommate_occupancy_of(iv, window, self@[k]),
                entries.len() == i,
            decreases members.len() - i,
        {
            let share = responsibility_intervals.roommate_occupancy(&members[i], billing_period);
            proof {
                assert(self@[i as int] == members@[i as int]@);
                assert(self@.take(i as int + 1).drop_last() =~= self@.take(i as int));
                assert(self@.take(i as int + 1).last() == members@[i as int]@);
                lemma_prefix_sum_bounded(self@, iv, window, i as int + 1);
                lemma_prefix_sum_bounded(self@, iv, window, i as int);
                lemma_roommate_occupancy_non_negative(iv, window, members@[i as int]@);
                assert(sum_roommate_occupancy(self@.take(i as int + 1), iv, window)
                    == sum_roommate_occupancy(self@.take(i as int), iv, window) + share);
                assert(share <= total);
            }
            let ghost before = split_entry_views(entries@);
            entries.push((members[i].copy(), share as u64));
            proof {
                let after = split_entry_views(entries@);
                assert(after.drop_last() =~= before);
                assert(after.last().1 == share);
                assert(entry_names(after) =~= self@.take(i as int + 1));
                assert forall|k: int| 0 <= k < entries.len() implies #[trigger] after[k].1 == roommate_occupancy_of(iv, window, self@[k]) by {
                    if k < i {
                        assert(after[k] == before[k]);
                    }
                }
            }
            i += 1;
        }
        proof {
            assert(self@.take(i as int) =~= self@);
            let v = split_entry_views(entries@);
            assert forall|k: int| 0 <= k < v.len() implies #[trigger] v[k].1 >= 0 by {
                lemma_roommate_occupancy_non_negative(iv, window, self@[k]);
            }
            assert(entry_names(v) == self@);
        }
        let r = ResponsibilitySplit { entries, denom: total as u64 };
        proof {
            let expected = responsibility_view(self@, iv, window);
            let v = split_entry_views(entries@);
            assert(entry_names(v).len() == v.len());
            assert forall|i: int| 0 <= i < v.len() implies v[i] == expected.0[i] by {
                assert(entry_names(v)[i] == v[i].0);
            }
            assert(v =~= expected.0);
        }
        r
    }

    /// Builds a split from weights over the common denominator `denom`,
    /// keyed by roommate; a roommate's weight is the sum of its entries, and
    /// zero where it has none.
    ///
    /// Weights that sum to `denom` are kept; weights that sum to zero give
    /// every roommate an equal share. An entry for someone outside the group,
    /// a zero denominator, or any other sum is `InvalidSplit`.
    pub fn build_split(&self, map: Vec<(Roommate, u64)>, denom: u64) -> (r: Result<ResponsibilitySplit, SplitError>)
        ensures
            ({
                let named = member_weights(self@, split_entry_views(map@));
                if denom == 0 || !within_group(split_entry_views(map@), self@) {
                    r == Err::<ResponsibilitySplit, SplitError>(SplitError::InvalidSplit)
                } else if weight_sum(named) == denom {
                    r is Ok && r.unwrap()@ == (named, denom as int)
                } else if weight_sum(named) == 0 {
                    &&& r is Ok
                    &&& entry_names(r.unwrap()@.0) == self@
                    &&& r.unwrap()@.1 == if self@.len() == 0 { 1 } else { self@.len() }
                    &&& forall|i: int| 0 <= i < r.unwrap()@.0.len() ==> #[trigger] r.unwrap()@.0[i].1 == 1
                } else {
                    r == Err::<ResponsibilitySplit, SplitError>(SplitError::InvalidSplit)
                }
            }),
    {
        let ghost views = split_entry_views(map@);
        if denom == 0 {
            return Err(SplitError::InvalidSplit);
        }
        let mut j: usize = 0;
        while j < map.len()
            invariant
                j <= map.len(),
                views == split_entry_views(map@),
                forall|k: int| 0 <= k < j ==> self@.contains(#[trigger] views[k].0),
            decreases map.len() - j,
        {
            proof {
                assert(views[j as int].0 == map[j as int].0@);
            }
            if self.borrow_by_name(map[j].0.name()).is_none() {
                return Err(SplitError::InvalidSplit);
            }
            j += 1;
        }
        let members = self.iter();
        let ghost named = member_weights(self@, views);
        proof {
            assert forall|k: int| 0 <= k < named.len() implies #[trigger] named[k].1 >= 0 by {
                lemma_amount_of_non_negative(views, self@[k]);
            }
        }
        let mut entries: Vec<(Roommate, u64)> = Vec::new();
        let mut sum: u128 = 0;
        let mut i: usize = 0;
        while i < members.len()
            invariant
                i <= members.len(),
                names_of(members@) == self@,
                distinct_names(self@),
                self@.len() <= u32::MAX,
                views == split_entry_views(map@),
                named == member_weights(self@, views),
                forall|k: int| 0 <= k < named.len() ==> #[trigger] named[k].1 >= 0,
                within_group(views, self@),
                denom > 0,
                split_entry_views(entries@) == named.take(i as int),
                sum == weight_sum(named.take(i as int)),
                sum <= denom,
                entries.len() == i,
            decreases members.len() - i,
        {
            let w = weight_of(&map, &members[i]);
            proof {
                assert(self@[i as int] == members@[i as int]@);
                assert(named.take(i as int + 1).drop_last() =~= named.take(i as int));
                assert(named[i as int].1 == w);
            }
            if w > denom as u128 - sum {
                proof {
                    crate::cost::lemma_prefix_weight_bounded(named, i as int + 1);
                }
                return Err(SplitError::InvalidSplit);
            }
            entries.push((members[i].copy(), w as u64));
            proof {
                assert(split_entry_views(entries@) =~= named.take(i as int + 1));
            }
            sum = sum + w;
            i += 1;
        }
        proof {
            assert(named.take(i as int) =~= named);
            assert(entry_names(named) =~= self@);
        }
        if sum == denom as u128 {
            Ok(ResponsibilitySplit { entries, denom })
        } else if sum == 0 {
            Ok(self.equal_split())
        } else {
            Err(SplitError::InvalidSplit)
        }
    }
}

/// Each of `names` with the sum of its weights among `entries`.
pub open spec fn member_weights(names: Seq<Seq<char>>, entries: Seq<(Seq<char>, int)>) -> Seq<(Seq<char>, int)> {
    Seq::new(names.len(), |i: int| (names[i], amount_of(entries, names[i])))
}

/// Whether every entry names one of `names`.
pub open spec fn within_group(entries: Seq<(Seq<char>, int)>, names: Seq<Seq<char>>) -> bool {
    forall|k: int| 0 <= k < entries.len() ==> names.contains(#[trigger] entries[k].0)
}

/// A sum of non-negative weights is non-negative.
proof fn lemma_amount_of_non_negative(entries: Seq<(Seq<char>, int)>, who: Seq<char>)
    requires
        forall|k: int| 0 <= k < entries.len() ==> #[trigger] entries[k].1 >= 0,
    ensures
        amount_of(entries, who) >= 0,
    decreases entries.len(),
{
    if entries.len() > 0 {
        let rest = entries.drop_last();
        assert forall|k: int| 0 <= k < rest.len() implies #[trigger] rest[k].1 >= 0 by {
            assert(rest[k] == entries[k]);
        }
        lemma_amount_of_non_negative(rest, who);
        assert(entries[entries.len() - 1].1 >= 0);
    }
}

/// The sum of the weights that `map` gives `who`.
fn weight_of(map: &Vec<(Roommate, u64)>, who: &Roommate) -> (r: u128)
    ensures
        r == amount_of(split_entry_views(map@), who@),
{
    let ghost views = split_entry_views(map@);
    let mut acc: u128 = 0;
    let mut j: usize = 0;
    while j < map.len()
        invariant
            j <= map.len(),
            views == split_entry_views(map@),
            acc == amount_of(views.take(j as int), who@),
            acc <= j * 0x1_0000_0000_0000_0000,
        decreases map.len() - j,
    {
        proof {
            assert(views.take(j as int + 1).drop_last() =~= views.take(j as int));
            assert(views.take(j as int + 1).last() == views[j as int]);
            assert(views[j as int] == (map[j as int].0@, map[j as int].1 as int));
            crate::interval::lemma_next_multiple_fits(j as int);
        }
        if map[j].0 == *who {
            acc = acc + map[j].1 as u128;
        }
        j += 1;
    }
    proof {
        assert(views.take(j as int) =~= views);
    }
    acc
}

proof fn lemma_weight_sum_of_ones(v: Seq<(Seq<char>, int)>)
    requires
        forall|k: int| 0 <= k < v.len() ==> #[trigger] v[k].1 == 1,
    ensures
        weight_sum(v) == v.len(),
    decreases v.len(),
{
    if v.len() > 0 {
        let rest = v.drop_last();
        assert forall|k: int| 0 <= k < rest.len() implies #[trigger] rest[k].1 == 1 by {
            assert(rest[k] == v[k]);
        }
        lemma_weight_sum_of_ones(rest);
    }
}

} // verus!
