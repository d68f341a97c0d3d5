use vstd::prelude::*;

verus! {

/// A currency: its ISO 4217 numeric code and the number of decimal places of
/// its minor unit.
#[derive(Debug, Clone, Copy, PartialEq, Eq, Structural, Hash)]
pub struct Currency {
    numeric_code: u16,
    decimal_places: u8,
}

/// Ten to the power `n`.
pub open spec fn pow10(n: nat) -> int
    decreases n,
{
    if n == 0 {
        1
    } else {
        10 * pow10((n - 1) as nat)
    }
}

impl Currency {
    /// A currency with a numeric code below 1000 and fewer than 9 decimal
    /// places.
    pub fn new(numeric_code: u16, decimal_places: u8) -> (r: Currency)
        requires
            numeric_code < 1000,
            decimal_places < 9,
        ensures
            r.spec_numeric_code() == numeric_code,
            r.spec_decimal_places() == decimal_places,
    {
        Currency { numeric_code, decimal_places }
    }

    /// The numeric code of the currency.
    pub closed spec fn spec_numeric_code(self) -> u16 {
        self.numeric_code
    }

    /// The decimal places of the currency.
    pub closed spec fn spec_decimal_places(self) -> u8 {
        self.decimal_places
    }

    /// The numeric code of the currency.
    pub fn numeric_code(self) -> (r: u16)
        ensures
            r == self.spec_numeric_code(),
    {
        self.numeric_code
    }

    /// The number of decimal places of the currency's minor unit.
    pub fn decimal_places(self) -> (r: u8)
        ensures
            r == self.spec_decimal_places(),
    {
        self.decimal_places
    }
}

/// An amount of money: a currency and a whole number of its minor units.
#[derive(Debug, Clone, Copy, PartialEq, Eq, Structural)]
pub struct Money {
    pub currency: Currency,
    pub minor: i64,
}

impl View for Money {
    type V = int;

    /// The amount in minor units.
    open spec fn view(&self) -> int {
        self.minor as int
    }
}

impl Money {
    /// The amount of `amount_minor` minor units of `currency`.
    pub fn of_minor(currency: Currency, amount_minor: i64) -> (r: Money)
        ensures
            r.currency == currency,
            r@ == amount_minor,
    {
        Money { currency, minor: amount_minor }
    }

    /// The amount `amount_major` major units and `amount_minor` minor units.
    pub fn of_major_minor(currency: Currency, amount_major: i64, amount_minor: i64) -> (r: Money)
        requires
            currency.spec_decimal_places() < 9,
            i64::MIN <= amount_major * pow10(currency.spec_decimal_places() as nat) + amount_minor
                <= i64::MAX,
        ensures
            r.currency == currency,
            r@ == amount_major * pow10(currency.spec_decimal_places() as nat) + amount_minor,
    {
        let multiplier = minor_per_major(currency.decimal_places());
        let total: i128 = amount_major as i128 * multiplier as i128 + amount_minor as i128;
        Money { currency, minor: total as i64 }
    }

    /// No money of `currency`.
    pub fn zero(currency: Currency) -> (r: Money)
        ensures
            r.currency == currency,
            r@ == 0,
    {
        Money { currency, minor: 0 }
    }

    /// The amount in minor units.
    pub fn minor_amount(&self) -> (r: i64)
        ensures
            r == self@,
    {
        self.minor
    }
}

/// The number of minor units in a major unit, for `places` decimal places.
fn minor_per_major(places: u8) -> (r: i64)
    requires
        places < 9,
    ensures
        r == pow10(places as nat),
        1 <= r <= 100_000_000,
{
    proof {
        reveal_with_fuel(pow10, 9);
    }
    match places {
        0 => 1,
        1 => 10,
        2 => 100,
        3 => 1_000,
        4 => 10_000,
        5 => 100_000,
        6 => 1_000_000,
        7 => 10_000_000,
        _ => 100_000_000,
    }
}

} // verus!
