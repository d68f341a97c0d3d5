use vstd::prelude::*;

use crate::bill::{BillError, SharedBill, SharedBillView};
use crate::money::{Currency, Money};
use crate::interval::ResponsibilityRecord;
use crate::roommate::{distinct_names, Roommate, RoommateGroup};
use crate::split::{
    entry_names, owners_within, responsibility_view, valid_split, weight_sum, ResponsibilitySplit,
    SplitView,
};

verus! {

/// `part` times the fraction `num / den`, rounded down.
pub open spec fn portion(part: int, num: int, den: int) -> int {
    part * num / den
}

/// The sum of the first `k` weights of a split.
pub open spec fn prefix_weight(entries: Seq<(Seq<char>, int)>, k: int) -> int {
    weight_sum(entries.take(k))
}

/// What entry `i` of `split` pays of a bill whose `shared` part is divided
/// equally and whose `variable` part is divided by the split's ratios.
///
/// Each part is divided by cumulative rounding: entry `i` gets the rounded
/// down share of everyone up to and including it, less the rounded down
/// share of everyone before it. So the parts are divided exactly, and a
/// leftover minor unit goes to the roommate at which the running share
/// crosses a whole unit, in the split's order.
pub open spec fn person_amount(shared: int, variable: int, split: SplitView, i: int) -> int {
    let n = split.0.len() as int;
    (portion(shared, i + 1, n) - portion(shared, i, n)) + (portion(
        variable,
        prefix_weight(split.0, i + 1),
        split.1,
    ) - portion(variable, prefix_weight(split.0, i), split.1))
}

/// What each roommate of `split` pays of the shared bill `bill`.
pub open spec fn bill_amounts(bill: SharedBillView, split: SplitView) -> Seq<(Seq<char>, int)> {
    Seq::new(
        split.0.len(),
        |i: int| (split.0[i].0, person_amount(bill.1@, bill.0.0@ - bill.1@, split, i)),
    )
}

/// The sum of the amounts named `who`.
pub open spec fn amount_of(entries: Seq<(Seq<char>, int)>, who: Seq<char>) -> int
    decreases entries.len(),
{
    if entries.len() == 0 {
        0
    } else {
        amount_of(entries.drop_last(), who) + if entries.last().0 == who {
            entries.last().1
        } else {
            0
        }
    }
}

/// The money a bill asks for, per roommate, with a rounding-exact total.
pub struct CostSplit {
    entries: Vec<(Roommate, i64)>,
    currency: Currency,
    total: i64,
}

/// What a [`CostSplit`] holds: each roommate's name and amount in minor
/// units, the currency, and the total.
pub type CostView = (Seq<(Seq<char>, int)>, Currency, int);

/// The views of a cost split's entries.
pub open spec fn cost_entry_views(s: Seq<(Roommate, i64)>) -> Seq<(Seq<char>, int)> {
    s.map_values(|e: (Roommate, i64)| (e.0@, e.1 as int))
}

/// The names and minor amounts of a list of roommates with money.
pub open spec fn money_entry_views(s: Seq<(Roommate, Money)>) -> Seq<(Seq<char>, int)> {
    s.map_values(|e: (Roommate, Money)| (e.0@, e.1@))
}

/// Whether every roommate occurs once, every amount is non-negative and the
/// amounts add up to `total`.
pub open spec fn valid_cost(entries: Seq<(Seq<char>, int)>, total: int) -> bool {
    &&& distinct_names(entry_names(entries))
    &&& forall|i: int| 0 <= i < entries.len() ==> #[trigger] entries[i].1 >= 0
    &&& weight_sum(entries) == total
}

/// One more entry under a new name keeps the names distinct.
proof fn lemma_distinct_after_push(s: Seq<(Seq<char>, int)>, x: (Seq<char>, int))
    requires
        distinct_names(entry_names(s)),
        !entry_names(s).contains(x.0),
    ensures
        distinct_names(entry_names(s.push(x))),
{
    let before = entry_names(s);
    let after = entry_names(s.push(x));
    assert(after =~= before.push(x.0));
    assert forall|i: int, j: int| 0 <= i < j < after.len() implies after[i] != after[j] by {
        if j == before.len() {
            assert(after[i] == before[i]);
        } else {
            assert(after[i] == before[i] && after[j] == before[j]);
        }
    }
}

/// With distinct names, what a roommate pays is the amount of its entry.
pub proof fn lemma_amount_of_entry(entries: Seq<(Seq<char>, int)>, i: int)
    requires
        0 <= i < entries.len(),
        distinct_names(entry_names(entries)),
    ensures
        amount_of(entries, entries[i].0) == entries[i].1,
    decreases entries.len(),
{
    let rest = entries.drop_last();
    let names = entry_names(entries);
    assert(entry_names(rest) =~= names.drop_last());
    assert forall|a: int, b: int| 0 <= a < b < rest.len() implies entry_names(rest)[a] != entry_names(rest)[b] by {
        assert(names[a] != names[b]);
    }
    if i == entries.len() - 1 {
        assert forall|k: int| 0 <= k < rest.len() implies #[trigger] rest[k].0 != entries[i].0 by {
            assert(names[k] != names[i]);
        }
        lemma_amount_of_absent(rest, entries[i].0);
    } else {
        lemma_amount_of_entry(rest, i);
        assert(names[i] != names[entries.len() - 1]);
    }
}

/// A roommate that no entry names pays nothing.
pub proof fn lemma_amount_of_absent(entries: Seq<(Seq<char>, int)>, who: Seq<char>)
    requires
        forall|k: int| 0 <= k < entries.len() ==> #[trigger] entries[k].0 != who,
    ensures
        amount_of(entries, who) == 0,
    decreases entries.len(),
{
    if entries.len() > 0 {
        let rest = entries.drop_last();
        assert forall|k: int| 0 <= k < rest.len() implies #[trigger] rest[k].0 != who by {
            assert(rest[k] == entries[k]);
        }
        lemma_amount_of_absent(rest, who);
        assert(entries[entries.len() - 1].0 != who);
    }
}

impl View for CostSplit {
    type V = CostView;

    closed spec fn view(&self) -> CostView {
        (cost_entry_views(self.entries@), self.currency, self.total as int)
    }
}

/// The amounts of the first `k` roommates add up to the rounded down share
/// of both parts of everyone up to them.
proof fn lemma_amounts_telescope(bill: SharedBillView, split: SplitView, k: int)
    requires
        0 <= k <= split.0.len(),
        split.0.len() > 0,
        split.1 > 0,
    ensures
        weight_sum(bill_amounts(bill, split).take(k)) == portion(bill.1@, k, split.0.len() as int)
            + portion(bill.0.0@ - bill.1@, prefix_weight(split.0, k), split.1),
    decreases k,
{
    let n = split.0.len() as int;
    let amounts = bill_amounts(bill, split);
    if k == 0 {
        assert(amounts.take(0) =~= Seq::<(Seq<char>, int)>::empty());
        assert(split.0.take(0) =~= Seq::<(Seq<char>, int)>::empty());
        assert(bill.1@ * 0 == 0);
        assert((bill.0.0@ - bill.1@) * 0 == 0);
        assert(0int / n == 0);
        assert(0int / split.1 == 0);
        assert(weight_sum(amounts.take(0)) == 0);
        assert(prefix_weight(split.0, 0) == 0);
    } else {
        lemma_amounts_telescope(bill, split, k - 1);
        assert(amounts.take(k).drop_last() =~= amounts.take(k - 1));
        assert(amounts.take(k).last() == amounts[k - 1]);
        assert(amounts[k - 1].1 == person_amount(bill.1@, bill.0.0@ - bill.1@, split, k - 1));
        assert(weight_sum(amounts.take(k)) == weight_sum(amounts.take(k - 1)) + amounts[k - 1].1);
    }
}

/// For every bill whose shared amount lies between zero and the amount
/// due, and every well-formed split with at least one roommate, what the
/// roommates pay adds up to exactly the amount due.
pub proof fn lemma_amounts_sum_to_bill(bill: SharedBillView, split: SplitView)
    requires
        0 <= bill.1@ <= bill.0.0@,
        valid_split(split),
        split.0.len() > 0,
    ensures
        weight_sum(bill_amounts(bill, split)) == bill.0.0@,
{
    let n = split.0.len() as int;
    let amounts = bill_amounts(bill, split);
    lemma_amounts_telescope(bill, split, n);
    assert(amounts.take(n) =~= amounts);
    assert(split.0.take(n) =~= split.0);
    lemma_portion_whole(bill.1@, n);
    lemma_portion_whole(bill.0.0@ - bill.1@, split.1);
}

/// What a bill asks of each roommate is listed under the split's names, in
/// the split's order.
pub proof fn lemma_bill_amounts_names(bill: SharedBillView, split: SplitView)
    ensures
        entry_names(bill_amounts(bill, split)) == entry_names(split.0),
{
    assert(entry_names(bill_amounts(bill, split)) =~= entry_names(split.0));
}

/// Dividing the same bill by the same split twice gives the same amounts:
/// what `CostSplit::split` returns is fixed by its two arguments.
pub proof fn lemma_split_deterministic(
    first: CostView,
    second: CostView,
    bill: SharedBillView,
    split: SplitView,
)
    requires
        first.0 == bill_amounts(bill, split),
        second.0 == bill_amounts(bill, split),
        first.1 == bill.0.0.currency && second.1 == bill.0.0.currency,
        first.2 == bill.0.0@ && second.2 == bill.0.0@,
    ensures
        first == second,
{
}

/// `part * a / den` grows with `a`.
proof fn lemma_portion_monotone(part: int, a: int, b: int, den: int)
    requires
        part >= 0,
        a <= b,
        den > 0,
    ensures
        portion(part, a, den) <= portion(part, b, den),
{
    assert(part * a <= part * b) by (nonlinear_arith)
        requires
            part >= 0,
            a <= b,
    ;
    vstd::arithmetic::div_mod::lemma_div_is_ordered(part * a, part * b, den);
}

/// `part * den / den` is `part`.
proof fn lemma_portion_whole(part: int, den: int)
    requires
        part >= 0,
        den > 0,
    ensures
        portion(part, den, den) == part,
{
    vstd::arithmetic::div_mod::lemma_div_by_multiple(part, den);
}

/// Prefix sums of non-negative values lie between zero and the whole sum.
pub proof fn lemma_prefix_weight_bounded(entries: Seq<(Seq<char>, int)>, k: int)
    requires
        0 <= k <= entries.len(),
        forall|i: int| 0 <= i < entries.len() ==> #[trigger] entries[i].1 >= 0,
    ensures
        0 <= prefix_weight(entries, k) <= weight_sum(entries),
    decreases entries.len(),
{
    if entries.len() > 0 {
        let rest = entries.drop_last();
        assert forall|i: int| 0 <= i < rest.len() implies #[trigger] rest[i].1 >= 0 by {
            assert(rest[i] == entries[i]);
        }
        if k == entries.len() {
            assert(entries.take(k) =~= entries);
            lemma_prefix_weight_bounded(rest, rest.len() as int);
            assert(rest.take(rest.len() as int) =~= rest);
            assert(entries[entries.len() - 1].1 >= 0);
        } else {
            assert(entries.take(k) =~= rest.take(k));
            lemma_prefix_weight_bounded(rest, k);
            assert(entries[entries.len() - 1].1 >= 0);
        }
    } else {
        assert(entries.take(k) =~= entries);
    }
}

/// Adding `a` to one amount adds `a` to the sum.
proof fn lemma_sum_after_add(entries: Seq<(Seq<char>, int)>, p: int, a: int)
    requires
        0 <= p < entries.len(),
    ensures
        weight_sum(entries.update(p, (entries[p].0, entries[p].1 + a))) == weight_sum(entries) + a,
    decreases entries.len(),
{
    let updated = entries.update(p, (entries[p].0, entries[p].1 + a));
    if p == entries.len() - 1 {
        assert(updated.drop_last() =~= entries.drop_last());
    } else {
        lemma_sum_after_add(entries.drop_last(), p, a);
        assert(updated.drop_last() =~= entries.drop_last().update(
            p,
            (entries[p].0, entries[p].1 + a),
        ));
    }
}

/// Adding `a` to one amount adds `a` to what its roommate pays.
proof fn lemma_amount_after_add(entries: Seq<(Seq<char>, int)>, p: int, a: int, who: Seq<char>)
    requires
        0 <= p < entries.len(),
    ensures
        amount_of(entries.update(p, (entries[p].0, entries[p].1 + a)), who) == amount_of(
            entries,
            who,
        ) + if entries[p].0 == who {
            a
        } else {
            0
        },
    decreases entries.len(),
{
    let updated = entries.update(p, (entries[p].0, entries[p].1 + a));
    if p == entries.len() - 1 {
        assert(updated.drop_last() =~= entries.drop_last());
    } else {
        lemma_amount_after_add(entries.drop_last(), p, a, who);
        assert(updated.drop_last() =~= entries.drop_last().update(
            p,
            (entries[p].0, entries[p].1 + a),
        ));
    }
}

/// A non-negative amount is at most the sum of all of them.
proof fn lemma_amount_within_sum(entries: Seq<(Seq<char>, int)>, p: int)
    requires
        0 <= p < entries.len(),
        forall|i: int| 0 <= i < entries.len() ==> #[trigger] entries[i].1 >= 0,
    ensures
        entries[p].1 <= weight_sum(entries),
{
    lemma_prefix_weight_bounded(entries, p);
    lemma_prefix_weight_bounded(entries, p + 1);
    lemma_prefix_weight_bounded(entries, entries.len() as int);
    assert(entries.take(p + 1).drop_last() =~= entries.take(p));
    assert(entries.take(entries.len() as int) =~= entries);
}

impl CostSplit {
    #[verifier::type_invariant]
    spec fn inv(&self) -> bool {
        valid_cost(cost_entry_views(self.entries@), self.total as int)
    }

    /// The amounts are never negative and add up to the total.
    pub fn is_valid(&self) -> (r: bool)
        ensures
            r,
            valid_cost(self@.0, self@.2),
    {
        proof {
            use_type_invariant(self);
        }
        true
    }

    /// Divides `bill` between the roommates of `usage_proportion`: the shared
    /// amount equally, the rest by each roommate's ratio.
    pub fn split(bill: &SharedBill, usage_proportion: &ResponsibilitySplit) -> (r: CostSplit)
        requires
            usage_proportion@.0.len() > 0,
        ensures
            r@.0 == bill_amounts(bill@, usage_proportion@),
            r@.1 == bill@.0.0.currency,
            r@.2 == bill@.0.0@,
            weight_sum(r@.0) == bill@.0.0@,
    {
        bill.is_valid();
        usage_proportion.is_valid();
        let due = bill.amount_due();
        let shared = bill.shared_amount().minor_amount();
        let variable = due.minor_amount() - shared;
        let n = usage_proportion.len();
        let d = usage_proportion.denominator();
        let ghost sv = usage_proportion@;
        let ghost s = shared as int;
        let ghost v = variable as int;
        let mut entries: Vec<(Roommate, i64)> = Vec::new();
        let mut prefix: u128 = 0;
        let mut shared_before: u128 = 0;
        let mut variable_before: u128 = 0;
        let mut paid: i128 = 0;
        let mut i: usize = 0;
        while i < n
            invariant
                i <= n,
                n == sv.0.len(),
                d == sv.1,
                sv == usage_proportion@,
                valid_split(sv),
                n > 0,
                0 <= s,
                0 <= v,
                s + v == due@,
                due@ <= i64::MAX,
                s == shared,
                v == variable,
                s == bill@.1@,
                v == bill@.0.0@ - bill@.1@,
                prefix == prefix_weight(sv.0, i as int),
                prefix <= d,
                shared_before == portion(s, i as int, n as int),
                variable_before == portion(v, prefix as int, d as int),
                shared_before <= s,
                variable_before <= v,
                paid == shared_before + variable_before,
                entries.len() == i,
                cost_entry_views(entries@) == bill_amounts(bill@, sv).take(i as int),
                forall|k: int| 0 <= k < i ==> #[trigger] cost_entry_views(entries@)[k].1 >= 0,
                weight_sum(cost_entry_views(entries@)) == paid,
            decreases n - i,
        {
            let w = usage_proportion.weight(i);
            proof {
                lemma_prefix_weight_bounded(sv.0, i as int + 1);
                assert(sv.0.take(i as int + 1).drop_last() =~= sv.0.take(i as int));
                assert(sv.0.take(i as int + 1).last() == sv.0[i as int]);
                assert(n * 1 <= 0x1_0000_0000);
                assert(s * (i + 1) <= 0x8000_0000_0000_0000 * 0x1_0000_0000) by (nonlinear_arith)
                    requires
                        0 <= s < 0x8000_0000_0000_0000,
                        i + 1 <= 0x1_0000_0000,
                ;
                assert(v * (prefix + w) <= 0x8000_0000_0000_0000 * 0x1_0000_0000_0000_0000) by (nonlinear_arith)
                    requires
                        0 <= v < 0x8000_0000_0000_0000,
                        prefix + w <= 0x1_0000_0000_0000_0000,
                ;
                lemma_portion_monotone(s, i as int, i as int + 1, n as int);
                lemma_portion_monotone(s, i as int + 1, n as int, n as int);
                lemma_portion_whole(s, n as int);
                lemma_portion_monotone(v, prefix as int, prefix + w, d as int);
                lemma_portion_monotone(v, prefix + w, d as int, d as int);
                lemma_portion_whole(v, d as int);
            }
            let next_prefix: u128 = prefix + w as u128;
            let shared_after: u128 = (shared as u128) * ((i + 1) as u128) / (n as u128);
            let variable_after: u128 = (variable as u128) * next_prefix / (d as u128);
            let amount: u128 = (shared_after - shared_before) + (variable_after - variable_before);
            let ghost before = cost_entry_views(entries@);
            entries.push((usage_proportion.roommate(i).copy(), amount as i64));
            proof {
                let after = cost_entry_views(entries@);
                assert(after.drop_last() =~= before);
                assert(after.last().1 == amount);
                assert(amount == person_amount(s, v, sv, i as int));
                assert(s == bill@.1@ && v == bill@.0.0@ - bill@.1@);
                let expected = bill_amounts(bill@, sv).take(i as int + 1);
                assert(after.len() == expected.len());
                assert forall|k: int| 0 <= k < after.len() implies after[k] == expected[k] by {
                    if k < i {
                        assert(after[k] == before[k]);
                    } else {
                        assert(after[k] == (sv.0[i as int].0, amount as int));
                    }
                }
                assert(after =~= expected);
            }
            prefix = next_prefix;
            shared_before = shared_after;
            variable_before = variable_after;
            paid = paid + amount as i128;
            i += 1;
        }
        proof {
            lemma_portion_whole(s, n as int);
            assert(sv.0.take(n as int) =~= sv.0);
            lemma_portion_whole(v, d as int);
            assert(bill_amounts(bill@, sv).take(n as int) =~= bill_amounts(bill@, sv));
            assert(entry_names(bill_amounts(bill@, sv)) =~= entry_names(sv.0));
        }
        CostSplit { entries, currency: due.currency, total: due.minor_amount() }
    }

    /// A split with the given amounts, if no roommate occurs twice, they are
    /// all in the currency of `total`, none is negative, and they add up to
    /// `total`.
    pub fn new(split: Vec<(Roommate, Money)>, total: Money) -> (r: Option<CostSplit>)
        ensures
            r is Some <==> (forall|i: int| 0 <= i < split.len() ==> (#[trigger] split[i]).1.currency
                == total.currency) && valid_cost(money_entry_views(split@), total@),
            r is Some ==> r.unwrap()@ == (money_entry_views(split@), total.currency, total@),
    {
        let ghost views = money_entry_views(split@);
        if total.minor < 0 {
            proof {
                if valid_cost(views, total@) {
                    lemma_prefix_weight_bounded(views, 0);
                }
            }
            return None;
        }
        let mut entries: Vec<(Roommate, i64)> = Vec::new();
        let mut sum: i128 = 0;
        let mut i: usize = 0;
        while i < split.len()
            invariant
                i <= split.len(),
                views == money_entry_views(split@),
                forall|k: int| 0 <= k < i ==> (#[trigger] split[k]).1.currency == total.currency,
                forall|k: int| 0 <= k < i ==> #[trigger] views[k].1 >= 0,
                sum == prefix_weight(views, i as int),
                sum <= total@,
                cost_entry_views(entries@) == views.take(i as int),
                distinct_names(entry_names(views.take(i as int))),
            decreases split.len() - i,
        {
            let amount = split[i].1;
            proof {
                assert(views[i as int] == (split[i as int].0@, amount@));
                assert(views.take(i as int + 1).drop_last() =~= views.take(i as int));
            }
            if amount.currency != total.currency {
                return None;
            }
            if amount.minor < 0 {
                proof {
                    assert(views[i as int].1 < 0);
                }
                return None;
            }
            match find_entry(&entries, &split[i].0) {
                Some(p) => {
                    proof {
                        assert(views[p as int].0 == views.take(i as int)[p as int].0);
                        assert(entry_names(views)[p as int] == entry_names(views)[i as int]);
                    }
                    return None;
                },
                None => {},
            }
            let next: i128 = sum + amount.minor as i128;
            if next > total.minor as i128 {
                proof {
                    if valid_cost(views, total@) {
                        lemma_prefix_weight_bounded(views, i as int + 1);
                    }
                }
                return None;
            }
            let ghost before = cost_entry_views(entries@);
            entries.push((split[i].0.copy(), amount.minor));
            proof {
                assert(cost_entry_views(entries@) =~= views.take(i as int + 1));
                lemma_distinct_after_push(views.take(i as int), views[i as int]);
                assert(views.take(i as int).push(views[i as int]) =~= views.take(i as int + 1));
            }
            sum = next;
            i += 1;
        }
        proof {
            assert(views.take(i as int) =~= views);
        }
        if sum != total.minor as i128 {
            return None;
        }
        Some(CostSplit { entries, currency: total.currency, total: total.minor })
    }

    /// The currency of the amounts.
    pub fn currency(&self) -> (r: Currency)
        ensures
            r == self@.1,
    {
        self.currency
    }

    /// The total of the bills that were divided.
    pub fn total(&self) -> (r: Money)
        ensures
            r.currency == self@.1,
            r@ == self@.2,
    {
        Money::of_minor(self.currency, self.total)
    }

    /// Each roommate with the amount it pays, in order.
    pub fn iter(&self) -> (r: Vec<(Roommate, Money)>)
        ensures
            r.len() == self@.0.len(),
            forall|i: int| 0 <= i < r.len() ==> {
                &&& (#[trigger] r[i]).0@ == self@.0[i].0
                &&& r[i].1.currency == self@.1
                &&& r[i].1@ == self@.0[i].1
            },
    {
        let mut out: Vec<(Roommate, Money)> = Vec::new();
        let mut i: usize = 0;
        while i < self.entries.len()
            invariant
                i <= self.entries.len(),
                out.len() == i,
                forall|k: int| 0 <= k < i ==> {
                    &&& (#[trigger] out[k]).0@ == self@.0[k].0
                    &&& out[k].1.currency == self@.1
                    &&& out[k].1@ == self@.0[k].1
                },
            decreases self.entries.len() - i,
        {
            out.push((self.entries[i].0.copy(), Money::of_minor(self.currency, self.entries[i].1)));
            i += 1;
        }
        out
    }

    /// What `roommate` pays, if it is in the split.
    pub fn get(&self, roommate: &Roommate) -> (r: Option<Money>)
        ensures
            r is Some <==> entry_names(self@.0).contains(roommate@),
            r is Some ==> r.unwrap().currency == self@.1 && r.unwrap()@ == amount_of(self@.0, roommate@),
            forall|i: int| 0 <= i < self@.0.len() && self@.0[i].0 == roommate@ ==> r is Some
                && r.unwrap()@ == self@.0[i].1,
    {
        proof {
            use_type_invariant(self);
            assert forall|i: int| 0 <= i < self@.0.len() && self@.0[i].0 == roommate@ implies amount_of(self@.0, roommate@) == self@.0[i].1
                && entry_names(self@.0).contains(roommate@) by {
                lemma_amount_of_entry(self@.0, i);
                assert(entry_names(self@.0)[i] == roommate@);
            }
        }
        let ghost es = self@.0;
        let mut sum: i64 = 0;
        let mut found = false;
        let mut i: usize = 0;
        while i < self.entries.len()
            invariant
                i <= self.entries.len(),
                es == self@.0,
                valid_cost(es, self.total as int),
                sum == amount_of(es.take(i as int), roommate@),
                0 <= sum <= prefix_weight(es, i as int),
                found <==> entry_names(es.take(i as int)).contains(roommate@),
            decreases self.entries.len() - i,
        {
            proof {
                assert(es.take(i as int + 1).drop_last() =~= es.take(i as int));
                lemma_prefix_weight_bounded(es, i as int + 1);
            }
            if self.entries[i].0 == *roommate {
                sum = sum + self.entries[i].1;
                found = true;
            }
            proof {
                let names_now = entry_names(es.take(i as int + 1));
                let names_before = entry_names(es.take(i as int));
                assert(names_now =~= names_before.push(es[i as int].0));
                if names_before.contains(roommate@) {
                    let k = choose|k: int| 0 <= k < names_before.len() && names_before[k] == roommate@;
                    assert(names_now[k] == roommate@);
                }
                if names_now.contains(roommate@) && es[i as int].0 != roommate@ {
                    let k = choose|k: int| 0 <= k < names_now.len() && names_now[k] == roommate@;
                    assert(names_before[k] == roommate@);
                }
                assert(es[i as int].0 == roommate@ ==> names_now[i as int] == roommate@);
            }
            i += 1;
        }
        proof {
            assert(es.take(i as int) =~= es);
        }
        if found {
            Some(Money::of_minor(self.currency, sum))
        } else {
            None
        }
    }

    /// Adds up what each roommate pays over several cost splits, and their
    /// totals.
    ///
    /// All splits must be in one currency: otherwise `MismatchedCurrencies`.
    pub fn accumulate(parts: &Vec<CostSplit>) -> (r: Result<CostSplit, BillError>)
        requires
            parts.len() > 0,
            parts_total(cost_views(parts@)) <= i64::MAX,
        ensures
            ({
                let ps = cost_views(parts@);
                match r {
                    Err(e) => e == BillError::MismatchedCurrencies && !parts_one_currency(ps),
                    Ok(c) => {
                        &&& parts_one_currency(ps)
                        &&& c@.1 == ps[0].1
                        &&& c@.2 == parts_total(ps)
                        &&& forall|who: Seq<char>| #[trigger] amount_of(c@.0, who) == parts_amount_for(ps, who)
                        &&& forall|k: int, who: Seq<char>| 0 <= k < ps.len() && #[trigger] entry_names(ps[k].0).contains(who)
                            ==> entry_names(c@.0).contains(who)
                        &&& forall|who: Seq<char>| #[trigger] entry_names(c@.0).contains(who)
                            ==> exists|k: int| 0 <= k < ps.len() && entry_names(ps[k].0).contains(who)
                        &&& valid_cost(c@.0, c@.2)
                    },
                }
            }),
    {
        let ghost ps = cost_views(parts@);
        let currency = parts[0].currency;
        let mut c: usize = 0;
        while c < parts.len()
            invariant
                c <= parts.len(),
                ps == cost_views(parts@),
                forall|i: int| 0 <= i < c ==> (#[trigger] ps[i]).2 >= 0,
            decreases parts.len() - c,
        {
            parts[c].is_valid();
            proof {
                assert(ps[c as int] == parts[c as int]@);
                lemma_prefix_weight_bounded(ps[c as int].0, 0);
            }
            c += 1;
        }
        let mut acc: Vec<(Roommate, i64)> = Vec::new();
        let mut total: i64 = 0;
        let mut b: usize = 0;
        while b < parts.len()
            invariant
                b <= parts.len(),
                ps == cost_views(parts@),
                parts.len() > 0,
                currency == ps[0].1,
                parts_total(ps) <= i64::MAX,
                forall|i: int| 0 <= i < ps.len() ==> (#[trigger] ps[i]).2 >= 0,
                forall|i: int| 0 <= i < b ==> (#[trigger] ps[i]).1 == currency,
                total == parts_total(ps.take(b as int)),
                valid_cost(cost_entry_views(acc@), total as int),
                forall|who: Seq<char>| #[trigger] amount_of(cost_entry_views(acc@), who) == parts_amount_for(ps.take(b as int), who),
                forall|k: int, who: Seq<char>| 0 <= k < b && #[trigger] entry_names(ps[k].0).contains(who)
                    ==> entry_names(cost_entry_views(acc@)).contains(who),
                forall|who: Seq<char>| #[trigger] entry_names(cost_entry_views(acc@)).contains(who)
                    ==> exists|k: int| 0 <= k < b && entry_names(ps[k].0).contains(who),
            decreases parts.len() - b,
        {
            let part = &parts[b];
            proof {
                assert(ps[b as int] == part@);
            }
            if part.currency != currency {
                proof {
                    assert(ps[b as int].1 != ps[0].1);
                }
                return Err(BillError::MismatchedCurrencies);
            }
            part.is_valid();
            proof {
                lemma_parts_total_prefix(ps, b as int);
                lemma_parts_total_prefix(ps, b as int + 1);
                assert(ps.take(b as int + 1).drop_last() =~= ps.take(b as int));
                assert(ps.take(b as int + 1).last() == ps[b as int]);
            }
            let ghost old_acc = cost_entry_views(acc@);
            absorb(&mut acc, part, Ghost(total as int));
            proof {
                assert forall|who: Seq<char>| #[trigger] amount_of(cost_entry_views(acc@), who) == parts_amount_for(ps.take(b as int + 1), who) by {
                    assert(amount_of(cost_entry_views(acc@), who) == amount_of(old_acc, who) + amount_of(part@.0, who));
                }
                assert forall|k: int, who: Seq<char>| 0 <= k < b + 1 && #[trigger] entry_names(ps[k].0).contains(who)
                    implies entry_names(cost_entry_views(acc@)).contains(who) by {
                    if k < b {
                        assert(entry_names(old_acc).contains(who));
                    } else {
                        assert(entry_names(part@.0).contains(who));
                    }
                }
                assert forall|who: Seq<char>| #[trigger] entry_names(cost_entry_views(acc@)).contains(who)
                    implies exists|k: int| 0 <= k < b + 1 && entry_names(ps[k].0).contains(who) by {
                    if !entry_names(old_acc).contains(who) {
                        assert(entry_names(ps[b as int].0).contains(who));
                    }
                }
            }
            total = total + part.total;
            b += 1;
        }
        proof {
            assert(ps.take(b as int) =~= ps);
        }
        Ok(CostSplit { entries: acc, currency, total })
    }

    /// Divides each bill by its split and adds up what each roommate pays.
    ///
    /// All bills must be in one currency: otherwise `MismatchedCurrencies`.
    pub fn split_bill_list(bills_with_usage_proportions: Vec<(&SharedBill, &ResponsibilitySplit)>) -> (r: Result<CostSplit, BillError>)
        requires
            bills_with_usage_proportions.len() > 0,
            forall|i: int| 0 <= i < bills_with_usage_proportions.len()
                ==> (#[trigger] bills_with_usage_proportions[i]).1@.0.len() > 0,
            total_due(pair_views(bills_with_usage_proportions@)) <= i64::MAX,
        ensures
            ({
                let bills = pair_views(bills_with_usage_proportions@);
                match r {
                    Err(e) => e == BillError::MismatchedCurrencies && !one_currency(bills),
                    Ok(c) => {
                        &&& one_currency(bills)
                        &&& c@.1 == bills[0].0.0.0.currency
                        &&& c@.2 == total_due(bills)
                        &&& forall|who: Seq<char>| #[trigger] amount_of(c@.0, who) == accumulated_for(bills, who)
                        &&& forall|b: int, who: Seq<char>| 0 <= b < bills.len() && #[trigger] entry_names(
                            bill_amounts(bills[b].0, bills[b].1),
                        ).contains(who) ==> entry_names(c@.0).contains(who)
                        &&& forall|who: Seq<char>| #[trigger] entry_names(c@.0).contains(who)
                            ==> exists|b: int| 0 <= b < bills.len() && entry_names(bills[b].1.0).contains(who)
                        &&& valid_cost(c@.0, c@.2)
                    },
                }
            }),
    {
        let list = &bills_with_usage_proportions;
        let ghost bills = pair_views(bills_with_usage_proportions@);
        let mut parts: Vec<CostSplit> = Vec::new();
        let mut b: usize = 0;
        while b < list.len()
            invariant
                b <= list.len(),
                bills == pair_views(list@),
                forall|i: int| 0 <= i < list.len() ==> (#[trigger] list[i]).1@.0.len() > 0,
                parts.len() == b,
                forall|i: int| 0 <= i < b ==> #[trigger] cost_views(parts@)[i] == split_view_of(bills[i]),
            decreases list.len() - b,
        {
            let (bill, usage) = list[b];
            proof {
                assert(bills[b as int] == (bill@, usage@));
            }
            let part = CostSplit::split(bill, usage);
            proof {
                assert(part@ == split_view_of(bills[b as int]));
            }
            let ghost before = parts@;
            parts.push(part);
            proof {
                assert forall|i: int| 0 <= i < b + 1 implies #[trigger] cost_views(parts@)[i] == split_view_of(bills[i]) by {
                    assert(cost_views(parts@)[i] == parts@[i]@);
                    if i < b {
                        assert(parts@[i] == before[i]);
                        assert(cost_views(before)[i] == before[i]@);
                    }
                }
            }
            b += 1;
        }
        let ghost ps = cost_views(parts@);
        proof {
            lemma_parts_match_bills(ps, bills);
        }
        let r = CostSplit::accumulate(&parts);
        proof {
            if r is Ok {
                assert forall|k: int, who: Seq<char>| 0 <= k < bills.len() && #[trigger] entry_names(
                    bill_amounts(bills[k].0, bills[k].1),
                ).contains(who) implies entry_names(r.unwrap()@.0).contains(who) by {
                    assert(ps[k].0 == bill_amounts(bills[k].0, bills[k].1));
                }
                assert forall|who: Seq<char>| #[trigger] entry_names(r.unwrap()@.0).contains(who)
                    implies exists|b: int| 0 <= b < bills.len() && entry_names(bills[b].1.0).contains(who) by {
                    let k = choose|k: int| 0 <= k < ps.len() && entry_names(ps[k].0).contains(who);
                    lemma_bill_amounts_names(bills[k].0, bills[k].1);
                    assert(ps[k].0 == bill_amounts(bills[k].0, bills[k].1));
                }
            }
            if r is Err {
                assert(!one_currency(bills)) by {
                    let i = choose|i: int| 0 <= i < ps.len() && #[trigger] ps[i].1 != ps[0].1;
                    assert(bills[i].0.0.0.currency != bills[0].0.0.0.currency);
                }
            } else {
                assert(one_currency(bills)) by {
                    assert forall|i: int| 0 <= i < bills.len() implies (#[trigger] bills[i]).0.0.0.currency == bills[0].0.0.0.currency by {
                        assert(ps[i].1 == ps[0].1);
                    }
                }
            }
        }
        r
    }
}

/// Each bill with the split of its usage period between `names`.
pub open spec fn bills_with_splits(
    names: Seq<Seq<char>>,
    record: Seq<crate::interval::IntervalView>,
    bills: Seq<SharedBill>,
) -> Seq<(SharedBillView, SplitView)> {
    Seq::new(bills.len(), |i: int| (bills[i]@, responsibility_view(names, record, bills[i]@.0.2)))
}

impl RoommateGroup {
    /// Splits each bill over its own usage period between the group's
    /// roommates, and adds up what each pays; returns the splits too.
    ///
    /// All bills must be in one currency: otherwise `MismatchedCurrencies`.
    pub fn split_bills(&self, bills: &Vec<SharedBill>, record: &ResponsibilityRecord) -> (r: Result<(Vec<ResponsibilitySplit>, CostSplit), BillError>)
        requires
            bills.len() > 0,
            self@.len() > 0,
            owners_within(record@, self@),
            forall|i: int| 0 <= i < bills.len() ==> crate::interval::occupancy_of(record@, (#[trigger] bills[i])@.0.2) <= u64::MAX,
            total_due(bills_with_splits(self@, record@, bills@)) <= i64::MAX,
        ensures
            ({
                let pairs = bills_with_splits(self@, record@, bills@);
                match r {
                    Err(e) => e == BillError::MismatchedCurrencies && !one_currency(pairs),
                    Ok((splits, c)) => {
                        &&& splits.len() == bills.len()
                        &&& forall|i: int| 0 <= i < splits.len() ==> (#[trigger] splits[i])@ == pairs[i].1
                        &&& one_currency(pairs)
                        &&& c@.1 == bills[0]@.0.0.currency
                        &&& c@.2 == total_due(pairs)
                        &&& forall|who: Seq<char>| #[trigger] amount_of(c@.0, who) == accumulated_for(pairs, who)
                        &&& forall|who: Seq<char>| #[trigger] entry_names(c@.0).contains(who) <==> self@.contains(who)
                        &&& valid_cost(c@.0, c@.2)
                    },
                }
            }),
    {
        let ghost pairs = bills_with_splits(self@, record@, bills@);
        let mut splits: Vec<ResponsibilitySplit> = Vec::new();
        let mut i: usize = 0;
        while i < bills.len()
            invariant
                i <= bills.len(),
                pairs == bills_with_splits(self@, record@, bills@),
                owners_within(record@, self@),
                forall|k: int| 0 <= k < bills.len() ==> crate::interval::occupancy_of(record@, (#[trigger] bills[k])@.0.2) <= u64::MAX,
                splits.len() == i,
                forall|k: int| 0 <= k < i ==> (#[trigger] splits[k])@ == pairs[k].1,
            decreases bills.len() - i,
        {
            let split = self.individual_responsibilities(record, bills[i].usage_period());
            splits.push(split);
            i += 1;
        }
        let mut list: Vec<(&SharedBill, &ResponsibilitySplit)> = Vec::new();
        let mut j: usize = 0;
        while j < bills.len()
            invariant
                j <= bills.len(),
                splits.len() == bills.len(),
                self@.len() > 0,
                pairs == bills_with_splits(self@, record@, bills@),
                forall|k: int| 0 <= k < bills.len() ==> (#[trigger] splits[k])@ == pairs[k].1,
                list.len() == j,
                forall|k: int| 0 <= k < j ==> #[trigger] pair_views(list@)[k] == pairs[k],
            decreases bills.len() - j,
        {
            let ghost before = list@;
            list.push((&bills[j], &splits[j]));
            proof {
                assert forall|k: int| 0 <= k < j + 1 implies #[trigger] pair_views(list@)[k] == pairs[k] by {
                    assert(pair_views(list@)[k] == (list@[k].0@, list@[k].1@));
                    if k < j {
                        assert(list@[k] == before[k]);
                        assert(pair_views(before)[k] == (before[k].0@, before[k].1@));
                    } else {
                        assert(pairs[k].0 == bills[k]@);
                    }
                }
            }
            j += 1;
        }
        proof {
            assert(pair_views(list@) =~= pairs);
            assert forall|k: int| 0 <= k < list.len() implies (#[trigger] list[k]).1@.0.len() > 0 by {
                assert(pair_views(list@)[k] == (list@[k].0@, list@[k].1@));
                assert(entry_names(pairs[k].1.0).len() == pairs[k].1.0.len());
            }
        }
        let result = CostSplit::split_bill_list(list);
        match result {
            Ok(c) => {
                proof {
                    assert forall|who: Seq<char>| #[trigger] entry_names(c@.0).contains(who) <==> self@.contains(who) by {
                        if self@.contains(who) {
                            lemma_bill_amounts_names(pairs[0].0, pairs[0].1);
                            assert(entry_names(pairs[0].1.0) =~= self@);
                            assert(entry_names(bill_amounts(pairs[0].0, pairs[0].1)).contains(who));
                        }
                        if entry_names(c@.0).contains(who) {
                            let b = choose|b: int| 0 <= b < pairs.len() && entry_names(pairs[b].1.0).contains(who);
                            assert(entry_names(pairs[b].1.0) =~= self@);
                        }
                    }
                }
                Ok((splits, c))
            },
            Err(e) => Err(e),
        }
    }
}

/// What `CostSplit::split` gives for a bill with its split.
pub open spec fn split_view_of(pair: (SharedBillView, SplitView)) -> CostView {
    (bill_amounts(pair.0, pair.1), pair.0.0.0.currency, pair.0.0.0@)
}

/// The views of a list of cost splits.
pub open spec fn cost_views(s: Seq<CostSplit>) -> Seq<CostView> {
    s.map_values(|c: CostSplit| c@)
}

/// The sum of the totals of a list of cost splits.
pub open spec fn parts_total(parts: Seq<CostView>) -> int
    decreases parts.len(),
{
    if parts.len() == 0 {
        0
    } else {
        parts_total(parts.drop_last()) + parts.last().2
    }
}

/// What `who` pays over a list of cost splits.
pub open spec fn parts_amount_for(parts: Seq<CostView>, who: Seq<char>) -> int
    decreases parts.len(),
{
    if parts.len() == 0 {
        0
    } else {
        parts_amount_for(parts.drop_last(), who) + amount_of(parts.last().0, who)
    }
}

/// Whether all cost splits of the list are in the currency of the first.
pub open spec fn parts_one_currency(parts: Seq<CostView>) -> bool {
    forall|i: int| 0 <= i < parts.len() ==> (#[trigger] parts[i]).1 == parts[0].1
}

/// Totals of cost splits are never negative, so a prefix of the list
/// totals no more than the whole list.
proof fn lemma_parts_total_prefix(parts: Seq<CostView>, k: int)
    requires
        0 <= k <= parts.len(),
        forall|i: int| 0 <= i < parts.len() ==> (#[trigger] parts[i]).2 >= 0,
    ensures
        0 <= parts_total(parts.take(k)) <= parts_total(parts),
    decreases parts.len(),
{
    if parts.len() > 0 {
        let rest = parts.drop_last();
        assert forall|i: int| 0 <= i < rest.len() implies (#[trigger] rest[i]).2 >= 0 by {
            assert(rest[i] == parts[i]);
        }
        assert(parts[parts.len() - 1].2 >= 0);
        if k == parts.len() {
            assert(parts.take(k) =~= parts);
            lemma_parts_total_prefix(rest, rest.len() as int);
            assert(rest.take(rest.len() as int) =~= rest);
        } else {
            assert(parts.take(k) =~= rest.take(k));
            lemma_parts_total_prefix(rest, k);
        }
    } else {
        assert(parts.take(k) =~= parts);
    }
}

/// Splitting each bill and adding up the splits totals the bills and
/// charges each roommate what the bills charge it.
proof fn lemma_parts_match_bills(parts: Seq<CostView>, bills: Seq<(SharedBillView, SplitView)>)
    requires
        parts.len() == bills.len(),
        forall|i: int| 0 <= i < parts.len() ==> #[trigger] parts[i] == split_view_of(bills[i]),
    ensures
        parts_total(parts) == total_due(bills),
        forall|who: Seq<char>| #[trigger] parts_amount_for(parts, who) == accumulated_for(bills, who),
    decreases parts.len(),
{
    if parts.len() > 0 {
        let pr = parts.drop_last();
        let br = bills.drop_last();
        assert forall|i: int| 0 <= i < pr.len() implies #[trigger] pr[i] == split_view_of(br[i]) by {
            assert(pr[i] == parts[i] && br[i] == bills[i]);
        }
        lemma_parts_match_bills(pr, br);
        assert(parts[parts.len() - 1] == split_view_of(bills[bills.len() - 1]));
        assert forall|who: Seq<char>| #[trigger] parts_amount_for(parts, who) == accumulated_for(bills, who) by {
            assert(parts_amount_for(pr, who) == accumulated_for(br, who));
        }
    }
}

/// The views of a list of bills, each with its split.
pub open spec fn pair_views(s: Seq<(&SharedBill, &ResponsibilitySplit)>) -> Seq<(SharedBillView, SplitView)> {
    s.map_values(|p: (&SharedBill, &ResponsibilitySplit)| (p.0@, p.1@))
}

/// The sum of the amounts due of a list of bills.
pub open spec fn total_due(bills: Seq<(SharedBillView, SplitView)>) -> int
    decreases bills.len(),
{
    if bills.len() == 0 {
        0
    } else {
        total_due(bills.drop_last()) + bills.last().0.0.0@
    }
}

/// What `who` pays over a list of bills, each divided by its split.
pub open spec fn accumulated_for(bills: Seq<(SharedBillView, SplitView)>, who: Seq<char>) -> int
    decreases bills.len(),
{
    if bills.len() == 0 {
        0
    } else {
        accumulated_for(bills.drop_last(), who) + amount_of(
            bill_amounts(bills.last().0, bills.last().1),
            who,
        )
    }
}

/// Whether all bills of the list are in the currency of the first.
pub open spec fn one_currency(bills: Seq<(SharedBillView, SplitView)>) -> bool {
    forall|i: int| 0 <= i < bills.len() ==> (#[trigger] bills[i]).0.0.0.currency == bills[0].0.0.0.currency
}

/// Amounts due of shared bills are never negative, so a prefix of the list
/// is due no more than the whole list.
proof fn lemma_total_due_prefix(bills: Seq<(SharedBillView, SplitView)>, k: int)
    requires
        0 <= k <= bills.len(),
        forall|i: int| 0 <= i < bills.len() ==> (#[trigger] bills[i]).0.0.0@ >= 0,
    ensures
        0 <= total_due(bills.take(k)) <= total_due(bills),
    decreases bills.len(),
{
    if bills.len() > 0 {
        let rest = bills.drop_last();
        assert forall|i: int| 0 <= i < rest.len() implies (#[trigger] rest[i]).0.0.0@ >= 0 by {
            assert(rest[i] == bills[i]);
        }
        assert(bills[bills.len() - 1].0.0.0@ >= 0);
        if k == bills.len() {
            assert(bills.take(k) =~= bills);
            lemma_total_due_prefix(rest, rest.len() as int);
            assert(rest.take(rest.len() as int) =~= rest);
        } else {
            assert(bills.take(k) =~= rest.take(k));
            lemma_total_due_prefix(rest, k);
        }
    } else {
        assert(bills.take(k) =~= bills);
    }
}

/// Returns the index of the first entry named like `who`, if there is one.
fn find_entry(entries: &Vec<(Roommate, i64)>, who: &Roommate) -> (r: Option<usize>)
    ensures
        r is Some ==> r.unwrap() < entries.len() && entries[r.unwrap() as int].0@ == who@,
        r is None ==> !entry_names(cost_entry_views(entries@)).contains(who@),
{
    let mut i: usize = 0;
    while i < entries.len()
        invariant
            i <= entries.len(),
            forall|k: int| 0 <= k < i ==> entries[k].0@ != who@,
        decreases entries.len() - i,
    {
        if entries[i].0 == *who {
            return Some(i);
        }
        i += 1;
    }
    proof {
        let names = entry_names(cost_entry_views(entries@));
        if names.contains(who@) {
            let k = choose|k: int| 0 <= k < names.len() && names[k] == who@;
            assert(entries[k].0@ == who@);
        }
    }
    None
}

/// Adds what each roommate pays in `part` to the running amounts in `acc`,
/// whose sum is `total`.
fn absorb(acc: &mut Vec<(Roommate, i64)>, part: &CostSplit, total: Ghost<int>)
    requires
        valid_cost(cost_entry_views(old(acc)@), total@),
        valid_cost(part@.0, part@.2),
        total@ + part@.2 <= i64::MAX,
    ensures
        valid_cost(cost_entry_views(final(acc)@), total@ + part@.2),
        forall|who: Seq<char>| #[trigger] amount_of(cost_entry_views(final(acc)@), who) == amount_of(
            cost_entry_views(old(acc)@),
            who,
        ) + amount_of(part@.0, who),
        forall|who: Seq<char>|
            #[trigger] entry_names(cost_entry_views(final(acc)@)).contains(who) <==> entry_names(
                cost_entry_views(old(acc)@),
            ).contains(who) || entry_names(part@.0).contains(who),
{
    let ghost start = cost_entry_views(acc@);
    let ghost ps = part@.0;
    let mut j: usize = 0;
    while j < part.entries.len()
        invariant
            j <= part.entries.len(),
            ps == part@.0,
            ps.len() == part.entries.len(),
            valid_cost(ps, part@.2),
            total@ + part@.2 <= i64::MAX,
            valid_cost(cost_entry_views(acc@), total@ + prefix_weight(ps, j as int)),
            forall|who: Seq<char>| #[trigger] amount_of(cost_entry_views(acc@), who) == amount_of(start, who) + amount_of(ps.take(j as int), who),
            forall|who: Seq<char>|
                #[trigger] entry_names(cost_entry_views(acc@)).contains(who) <==> entry_names(start).contains(who)
                    || entry_names(ps.take(j as int)).contains(who),
        decreases part.entries.len() - j,
    {
        let who = part.entries[j].0.copy();
        let amount = part.entries[j].1;
        let ghost before = cost_entry_views(acc@);
        proof {
            assert(ps[j as int] == (who@, amount as int));
            assert(ps.take(j as int + 1).drop_last() =~= ps.take(j as int));
            assert(ps.take(j as int + 1).last() == ps[j as int]);
            lemma_prefix_weight_bounded(ps, j as int + 1);
            assert(ps.take(ps.len() as int) =~= ps);
        }
        match find_entry(acc, &who) {
            Some(p) => {
                proof {
                    lemma_amount_within_sum(before, p as int);
                    lemma_sum_after_add(before, p as int, amount as int);
                }
                let name = acc[p].0.copy();
                let sum = acc[p].1 + amount;
                acc.set(p, (name, sum));
                proof {
                    let after = cost_entry_views(acc@);
                    assert(after =~= before.update(p as int, (before[p as int].0, before[p as int].1 + amount)));
                    assert forall|who2: Seq<char>| #[trigger] amount_of(after, who2) == amount_of(start, who2) + amount_of(ps.take(j as int + 1), who2) by {
                        lemma_amount_after_add(before, p as int, amount as int, who2);
                    }
                    assert(entry_names(after) =~= entry_names(before));
                    assert forall|who2: Seq<char>|
                        #[trigger] entry_names(after).contains(who2) <==> entry_names(start).contains(who2)
                            || entry_names(ps.take(j as int + 1)).contains(who2) by {
                        lemma_names_after_push(ps.take(j as int), ps[j as int], who2);
                        assert(ps.take(j as int).push(ps[j as int]) =~= ps.take(j as int + 1));
                        if who2 == who@ {
                            assert(entry_names(after)[p as int] == who2);
                        }
                    }
                    assert forall|i: int| 0 <= i < after.len() implies #[trigger] after[i].1 >= 0 by {
                        assert(before[i].1 >= 0);
                    }
                }
            },
            None => {
                acc.push((who, amount));
                proof {
                    let after = cost_entry_views(acc@);
                    assert(after.drop_last() =~= before);
                    assert(after.last() == (who@, amount as int));
                    assert forall|who2: Seq<char>| #[trigger] amount_of(after, who2) == amount_of(start, who2) + amount_of(ps.take(j as int + 1), who2) by {
                        assert(amount_of(after, who2) == amount_of(before, who2) + if who@ == who2 { amount as int } else { 0 });
                        assert(amount_of(ps.take(j as int + 1), who2) == amount_of(ps.take(j as int), who2) + if who@ == who2 { amount as int } else { 0 });
                    }
                    assert(entry_names(after) =~= entry_names(before).push(who@));
                    assert forall|who2: Seq<char>|
                        #[trigger] entry_names(after).contains(who2) <==> entry_names(start).contains(who2)
                            || entry_names(ps.take(j as int + 1)).contains(who2) by {
                        lemma_names_after_push(ps.take(j as int), ps[j as int], who2);
                        assert(ps.take(j as int).push(ps[j as int]) =~= ps.take(j as int + 1));
                        lemma_names_after_push(before, (who@, amount as int), who2);
                        assert(before.push((who@, amount as int)) =~= after);
                    }
                    assert forall|i: int| 0 <= i < after.len() implies #[trigger] after[i].1 >= 0 by {
                        if i < before.len() {
                            assert(after[i] == before[i]);
                        }
                    }
                }
            },
        }
        j += 1;
    }
    proof {
        assert(ps.take(j as int) =~= ps);
    }
}

/// A name is among a list with one more entry iff it was among the list or
/// is the new entry's.
proof fn lemma_names_after_push(s: Seq<(Seq<char>, int)>, x: (Seq<char>, int), who: Seq<char>)
    ensures
        entry_names(s.push(x)).contains(who) <==> entry_names(s).contains(who) || x.0 == who,
{
    let before = entry_names(s);
    let after = entry_names(s.push(x));
    assert(after =~= before.push(x.0));
    if before.contains(who) {
        let k = choose|k: int| 0 <= k < before.len() && before[k] == who;
        assert(after[k] == who);
    }
    if after.contains(who) && x.0 != who {
        let k = choose|k: int| 0 <= k < after.len() && after[k] == who;
        assert(before[k] == who);
    }
    if x.0 == who {
        assert(after[before.len() as int] == who);
    }
}

} // verus!
