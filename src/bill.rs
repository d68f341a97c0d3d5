use vstd::prelude::*;

use crate::interval::DateInterval;
use crate::money::{Currency, Money};

verus! {

/// Why a fixed or shared amount does not fit a bill.
#[derive(Debug, Clone, Copy, PartialEq, Eq, Structural)]
pub enum BillError {
    /// The amount is in another currency than the amount due.
    MismatchedCurrencies,
    /// The amount is more than the amount due.
    ExceedsAmountDue,
    /// The amount is below zero.
    Negative,
}

impl BillError {
    /// A sentence that describes the error.
    pub fn message(&self) -> (r: &'static str) {
        match self {
            BillError::MismatchedCurrencies => "Fixed cost must be in the same currency as the amount due",
            BillError::ExceedsAmountDue => "Fixed cost cannot be more than the amount due",
            BillError::Negative => "Fixed cost cannot be negative",
        }
    }
}

/// What is wrong with `part` as a part of `amount_due`, if anything; the
/// currency is checked first, then the upper bound, then the lower.
pub open spec fn part_error(amount_due: Money, part: Money) -> Option<BillError> {
    if amount_due.currency != part.currency {
        Some(BillError::MismatchedCurrencies)
    } else if part@ > amount_due@ {
        Some(BillError::ExceedsAmountDue)
    } else if part@ < 0 {
        Some(BillError::Negative)
    } else {
        None
    }
}

/// Checks that `part` is between zero and `amount_due`, in the same currency.
fn check_part(amount_due: Money, part: Money) -> (r: Result<(), BillError>)
    ensures
        match part_error(amount_due, part) {
            None => r is Ok,
            Some(e) => r == Err::<(), BillError>(e),
        },
{
    if amount_due.currency != part.currency {
        Err(BillError::MismatchedCurrencies)
    } else if part.minor > amount_due.minor {
        Err(BillError::ExceedsAmountDue)
    } else if part.minor < 0 {
        Err(BillError::Negative)
    } else {
        Ok(())
    }
}

/// A bill: the amount due, the period it charges for, and the part of it
/// that is a known fixed cost.
#[derive(Debug, Clone, Copy)]
pub struct Bill {
    amount_due: Money,
    fixed_cost: Money,
    usage_period: DateInterval,
}

/// What a [`Bill`] holds: the amount due, the fixed cost and the usage period.
pub type BillView = (Money, Money, (int, int));

impl View for Bill {
    type V = BillView;

    closed spec fn view(&self) -> BillView {
        (self.amount_due, self.fixed_cost, self.usage_period@)
    }
}

impl Bill {
    #[verifier::type_invariant]
    spec fn inv(&self) -> bool {
        part_error(self.amount_due, self.fixed_cost) is None
    }

    /// A bill with no fixed cost; the amount due must not be negative.
    pub fn new(amount_due: Money, usage_period: DateInterval) -> (r: Bill)
        requires
            amount_due@ >= 0,
        ensures
            r@ == (amount_due, Money::zero_spec(amount_due.currency), usage_period@),
    {
        Bill { amount_due, fixed_cost: Money::zero(amount_due.currency), usage_period }
    }

    /// A bill with a fixed cost, which must be in the currency of the amount
    /// due and lie between zero and the amount due.
    pub fn new_with_fixed_cost(amount_due: Money, usage_period: DateInterval, fixed_cost: Money) -> (r: Result<Bill, BillError>)
        ensures
            match part_error(amount_due, fixed_cost) {
                None => r is Ok && r.unwrap()@ == (amount_due, fixed_cost, usage_period@),
                Some(e) => r == Err::<Bill, BillError>(e),
            },
    {
        match check_part(amount_due, fixed_cost) {
            Ok(()) => Ok(Bill { amount_due, fixed_cost, usage_period }),
            Err(e) => Err(e),
        }
    }

    /// The fixed cost always fits the amount due.
    pub fn is_valid(&self) -> (r: bool)
        ensures
            r,
            part_error(self@.0, self@.1) is None,
    {
        proof {
            use_type_invariant(self);
        }
        true
    }

    /// The explicitly usage-independent part of the bill, such as a deposit.
    pub fn fixed_cost(&self) -> (r: Money)
        ensures
            r == self@.1,
    {
        self.fixed_cost
    }

    /// The part of the bill that is not fixed.
    pub fn variable_cost(&self) -> (r: Money)
        ensures
            r.currency == self@.0.currency,
            r@ == self@.0@ - self@.1@,
            0 <= r@ <= self@.0@,
    {
        proof {
            use_type_invariant(self);
        }
        Money::of_minor(self.amount_due.currency, self.amount_due.minor - self.fixed_cost.minor)
    }

    /// The total of the bill.
    pub fn amount_due(&self) -> (r: Money)
        ensures
            r == self@.0,
    {
        self.amount_due
    }

    /// The period the bill charges for.
    pub fn usage_period(&self) -> (r: DateInterval)
        ensures
            r@ == self@.2,
    {
        self.usage_period
    }
}

impl Money {
    /// No money of `currency`.
    pub open spec fn zero_spec(currency: Currency) -> Money {
        Money { currency, minor: 0 }
    }
}

/// A bill together with the part of it that is divided equally.
#[derive(Debug, Clone, Copy)]
pub struct SharedBill {
    bill: Bill,
    shared_amount: Money,
}

/// What a [`SharedBill`] holds: the bill and its shared amount.
pub type SharedBillView = (BillView, Money);

impl View for SharedBill {
    type V = SharedBillView;

    closed spec fn view(&self) -> SharedBillView {
        (self.bill@, self.shared_amount)
    }
}

impl SharedBill {
    #[verifier::type_invariant]
    spec fn inv(&self) -> bool {
        &&& part_error(self.bill@.0, self.shared_amount) is None
        &&& part_error(self.bill@.0, self.bill@.1) is None
    }

    /// Couples `bill` with the amount to divide equally, which must be in the
    /// bill's currency and lie between zero and the amount due.
    pub fn new(bill: Bill, shared_amount: Money) -> (r: Result<SharedBill, BillError>)
        ensures
            match part_error(bill@.0, shared_amount) {
                None => r is Ok && r.unwrap()@ == (bill@, shared_amount),
                Some(e) => r == Err::<SharedBill, BillError>(e),
            },
    {
        proof {
            use_type_invariant(&bill);
        }
        match check_part(bill.amount_due(), shared_amount) {
            Ok(()) => Ok(SharedBill { bill, shared_amount }),
            Err(e) => Err(e),
        }
    }

    /// Builds a shared bill whose shared amount is known to fit the bill.
    pub(crate) fn from_valid_parts(bill: Bill, shared_amount: Money) -> (r: SharedBill)
        requires
            part_error(bill@.0, shared_amount) is None,
        ensures
            r@ == (bill@, shared_amount),
    {
        proof {
            use_type_invariant(&bill);
        }
        SharedBill { bill, shared_amount }
    }

    /// The shared amount of a shared bill always fits its amount due.
    pub fn is_valid(&self) -> (r: bool)
        ensures
            r,
            part_error(self@.0.0, self@.1) is None,
            part_error(self@.0.0, self@.0.1) is None,
    {
        proof {
            use_type_invariant(self);
        }
        true
    }

    /// Shares the bill's fixed cost equally and the rest by responsibility.
    pub fn from_fixed(bill: Bill) -> (r: SharedBill)
        ensures
            r@ == (bill@, bill@.1),
    {
        proof {
            use_type_invariant(&bill);
        }
        let shared_amount = bill.fixed_cost();
        SharedBill { bill, shared_amount }
    }

    /// Shares the whole bill equally.
    pub fn from_fully_fixed(bill: Bill) -> (r: SharedBill)
        ensures
            r@ == (bill@, bill@.0),
    {
        proof {
            use_type_invariant(&bill);
        }
        let shared_amount = bill.amount_due();
        SharedBill { bill, shared_amount }
    }

    /// The bill that is shared.
    pub fn bill(&self) -> (r: Bill)
        ensures
            r@ == self@.0,
    {
        self.bill
    }

    /// The amount divided equally among the roommates.
    pub fn shared_amount(&self) -> (r: Money)
        ensures
            r == self@.1,
    {
        self.shared_amount
    }

    /// The total of the bill.
    pub fn amount_due(&self) -> (r: Money)
        ensures
            r == self@.0.0,
    {
        self.bill.amount_due()
    }

    /// The period the bill charges for.
    pub fn usage_period(&self) -> (r: DateInterval)
        ensures
            r@ == self@.0.2,
    {
        self.bill.usage_period()
    }
}

} // verus!
