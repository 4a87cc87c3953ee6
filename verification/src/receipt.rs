//! The parsed receipt: purchased line items with their prices, the total
//! and the purchase date.

use vstd::prelude::*;

use crate::textutil::{dec_int, fmt_i64};

verus! {

/// One purchased line item: its name and its price in minor units.
#[derive(Debug, Clone)]
pub struct Item {
    pub name: String,
    pub sum: i64,
}

impl View for Item {
    type V = (Seq<char>, int);

    open spec fn view(&self) -> (Seq<char>, int) {
        (self.name@, self.sum as int)
    }
}

impl DeepView for Item {
    type V = (Seq<char>, int);

    open spec fn deep_view(&self) -> (Seq<char>, int) {
        self.view()
    }
}

impl Item {
    /// The item rendered as `name:sum`.
    pub fn to_text(&self) -> (r: String)
        requires
            self.sum != i64::MIN,
        ensures
            r@ == self@.0 + seq![':'] + dec_int(self@.1),
    {
        let mut r = self.name.clone();
        r.append(":");
        proof {
            reveal_strlit(":");
        }
        let digits = fmt_i64(self.sum);
        r.append(digits.as_str());
        proof {
            assert(r@ =~= self@.0 + seq![':'] + dec_int(self@.1));
        }
        r
    }
}

/// A calendar date with a time of day, held as plain fields.
#[derive(Debug, Clone, Copy, PartialEq, Eq, Structural)]
pub struct PurchaseDate {
    pub year: i32,
    pub month: u8,
    pub day: u8,
    pub hour: u8,
    pub minute: u8,
    pub second: u8,
}

pub open spec fn leap_year(y: int) -> bool {
    (y % 4 == 0 && y % 100 != 0) || y % 400 == 0
}

pub open spec fn days_in_month(y: int, m: int) -> int {
    if m == 2 {
        if leap_year(y) {
            29
        } else {
            28
        }
    } else if m == 4 || m == 6 || m == 9 || m == 11 {
        30
    } else {
        31
    }
}

impl PurchaseDate {
    /// A real calendar date and time of day, in a range every date
    /// library accepts.
    pub open spec fn wf(self) -> bool {
        &&& 1 <= self.year <= 9999
        &&& 1 <= self.month <= 12
        &&& 1 <= self.day <= days_in_month(self.year as int, self.month as int)
        &&& self.hour < 24
        &&& self.minute < 60
        &&& self.second < 60
    }

    /// Check the calendar validity of the fields.
    pub fn valid(&self) -> (r: bool)
        ensures
            r == self.wf(),
    {
        let y = self.year;
        if !(1 <= y && y <= 9999) {
            return false;
        }
        if !(1 <= self.month && self.month <= 12) {
            return false;
        }
        let leap: bool = (y % 4 == 0 && y % 100 != 0) || y % 400 == 0;
        let dim: u8 = if self.month == 2 {
            if leap {
                29
            } else {
                28
            }
        } else if self.month == 4 || self.month == 6 || self.month == 9 || self.month == 11 {
            30
        } else {
            31
        };
        1 <= self.day && self.day <= dim && self.hour < 24 && self.minute < 60 && self.second < 60
    }
}

/// The total of the item prices.
pub open spec fn sum_item_prices(items: Seq<(Seq<char>, int)>) -> int
    decreases items.len(),
{
    if items.len() == 0 {
        0
    } else {
        sum_item_prices(items.drop_last()) + items.last().1
    }
}

/// A parsed receipt: the declared total, the purchase date, and the line
/// items in order.
#[derive(Debug, Clone)]
pub struct Purchase {
    pub sum: i64,
    pub date: PurchaseDate,
    pub items: Vec<Item>,
}

impl Purchase {
    /// Prices non-negative, every partial total representable, and a
    /// real date: what a valid parsed receipt guarantees.
    pub open spec fn wf(self) -> bool {
        &&& self.date.wf()
        &&& self.sum >= 0
        &&& forall|i: int|
            0 <= i < self.items.deep_view().len() ==> (#[trigger] self.items.deep_view()[i]).1 >= 0
        &&& sum_item_prices(self.items.deep_view()) <= i64::MAX
        &&& forall|i: int|
            0 <= i < self.items.deep_view().len() ==> (#[trigger] self.items.deep_view()[i]).0.len()
                > 0
    }

    pub open spec fn spec_sum(self) -> int {
        self.sum as int
    }

    pub open spec fn spec_date(self) -> PurchaseDate {
        self.date
    }

    /// Assemble a purchase from already-parsed values.
    pub fn new(sum: i64, date: PurchaseDate, items: Vec<Item>) -> (r: Purchase)
        ensures
            r.spec_sum() == sum as int,
            r.spec_date() == date,
            r.items == items,
    {
        Purchase { sum, date, items }
    }

    /// The declared total of the receipt.
    pub fn total_sum(&self) -> (r: i64)
        ensures
            r as int == self.spec_sum(),
    {
        self.sum
    }

    /// The purchase date.
    pub fn date(&self) -> (r: PurchaseDate)
        ensures
            r == self.spec_date(),
    {
        self.date
    }
}

} // verus!
