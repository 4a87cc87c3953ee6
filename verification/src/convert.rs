//! Conversion of a parsed receipt into a ledger transaction: one split
//! per line item, with the filtered item name as memo, the negated price
//! as amount and the chosen category, all summed and checked against the
//! receipt total.

use vstd::prelude::*;

use crate::filters::{apply_steps, LineFilter};
use crate::receipt::{sum_item_prices, Item, PurchaseDate};
use crate::textutil::{dec_int, fmt_i64};

use chrono::TimeZone;

verus! {

#[verifier::external_type_specification]
#[verifier::external_body]
pub struct ExSplit(qif_generator::split::Split);

#[verifier::external_type_specification]
#[verifier::external_body]
pub struct ExAccount(qif_generator::account::Account);

#[verifier::external_type_specification]
#[verifier::external_body]
pub struct ExTransaction<'a>(qif_generator::transaction::Transaction<'a>);

/// Carries a date value for the ledger through verified code.  The
/// declaration of chrono's `DateTime` needs a trait bound on its type
/// parameter that Verus refuses, so the value sits in a hidden field.
#[verifier::external_body]
pub struct LedgerDate {
    inner: chrono::DateTime<chrono::Utc>,
}

/// What a built split holds: its memo, its category and its amount.
pub uninterp spec fn split_model(s: qif_generator::split::Split) -> (Seq<char>, Seq<char>, int);

/// What a built transaction holds: its memo, its amount, the models of
/// its splits, and the calendar values of its date.
pub uninterp spec fn trans_model(t: qif_generator::transaction::Transaction<'_>) -> (
    Seq<char>,
    int,
    Seq<(Seq<char>, Seq<char>, int)>,
    (int, int, int, int, int, int),
);

/// What a date value holds: year, month, day, hour, minute and second.
pub uninterp spec fn date_model(d: LedgerDate) -> (int, int, int, int, int, int);

/// The calendar values of a plain date.
pub open spec fn date_parts(d: PurchaseDate) -> (int, int, int, int, int, int) {
    (
        d.year as int,
        d.month as int,
        d.day as int,
        d.hour as int,
        d.minute as int,
        d.second as int,
    )
}

/// The message reported when the splits do not add up to the expected
/// total.
pub open spec fn sum_error_message(expected: int, got: int) -> Seq<char> {
    "Total sum is wrong. Expected: "@ + dec_int(expected) + " Got: "@ + dec_int(got)
}

/// The models of a sequence of splits.
pub open spec fn split_models_of(s: Seq<qif_generator::split::Split>) -> Seq<
    (Seq<char>, Seq<char>, int),
> {
    Seq::new(s.len(), |i: int| split_model(s[i]))
}

/// The sum of the splits' amounts.
pub open spec fn sum_split_amounts(s: Seq<qif_generator::split::Split>) -> int
    decreases s.len(),
{
    if s.len() == 0 {
        0
    } else {
        sum_split_amounts(s.drop_last()) + split_model(s.last()).2
    }
}

/// Relies on qif_generator's Split builder (new, memo, amount, category,
/// build): the built split holds exactly the given fields.
#[verifier::external_body]
fn make_split(memo: &str, amount: i64, category: &str) -> (s: qif_generator::split::Split)
    ensures
        split_model(s) == (memo@, category@, amount as int),
{
    qif_generator::split::Split::new().memo(memo).amount(amount).category(category).build()
}

/// Relies on chrono's Utc::with_ymd_and_hms: a valid calendar date and
/// time maps to exactly one instant, so the call cannot fail.
#[verifier::external_body]
fn date_from_parts(d: &PurchaseDate) -> (r: LedgerDate)
    requires
        d.wf(),
    ensures
        date_model(r) == (
            d.year as int,
            d.month as int,
            d.day as int,
            d.hour as int,
            d.minute as int,
            d.second as int,
        ),
{
    LedgerDate {
        inner: chrono::Utc.with_ymd_and_hms(
            d.year,
            d.month as u32,
            d.day as u32,
            d.hour as u32,
            d.minute as u32,
            d.second as u32,
        ).unwrap(),
    }
}

/// Relies on qif_generator's Transaction builder (new, date, memo,
/// splits, build): `splits` sets the amount to the sum of the split
/// amounts, so `build`'s equality check passes and the built transaction
/// holds the given memo, that sum, copies of the splits, and the given
/// date.
#[verifier::external_body]
fn transaction_build<'a>(
    acc: &'a qif_generator::account::Account,
    date: LedgerDate,
    memo: &str,
    splits: &Vec<qif_generator::split::Split>,
) -> (r: Result<qif_generator::transaction::Transaction<'a>, String>)
    requires
        forall|k: int|
            0 <= k <= splits@.len() ==> i64::MIN <= #[trigger] sum_split_amounts(splits@.take(k))
                <= i64::MAX,
    ensures
        match r {
            Result::Ok(t) => trans_model(t) == (
                memo@,
                sum_split_amounts(splits@),
                split_models_of(splits@),
                date_model(date),
            ),
            Result::Err(_) => false,
        },
{
    qif_generator::transaction::Transaction::new(acc).date(date.inner).memo(memo).splits(
        splits.as_slice(),
    ).build()
}

/// Relies on qif_generator's Transaction::sum: it returns the
/// transaction's amount.
#[verifier::external_body]
fn trans_sum(t: &qif_generator::transaction::Transaction<'_>) -> (r: i64)
    ensures
        r as int == trans_model(*t).1,
{
    t.sum()
}

/// Generate one ledger split per purchased item: the filtered name as
/// memo, the negated price as amount, and the matching category.
pub fn gen_splits(items: &Vec<Item>, cats: &Vec<String>, filter: &LineFilter) -> (r: Vec<
    qif_generator::split::Split,
>)
    requires
        cats@.len() == items@.len(),
        forall|i: int|
            0 <= i < items.deep_view().len() ==> (#[trigger] items.deep_view()[i]).1 > i64::MIN,
    ensures
        r@.len() == items@.len(),
        forall|i: int|
            0 <= i < r@.len() ==> split_model(#[trigger] r@[i]) == (
                apply_steps(filter@, items.deep_view()[i].0),
                cats.deep_view()[i],
                -items.deep_view()[i].1,
            ),
{
    let n = items.len();
    let mut r: Vec<qif_generator::split::Split> = Vec::new();
    let mut i: usize = 0;
    while i < n
        invariant
            n == items@.len(),
            cats@.len() == n,
            i <= n,
            r@.len() == i,
            forall|j: int|
                0 <= j < items.deep_view().len() ==> (#[trigger] items.deep_view()[j]).1
                    > i64::MIN,
            forall|j: int|
                0 <= j < i ==> split_model(#[trigger] r@[j]) == (
                    apply_steps(filter@, items.deep_view()[j].0),
                    cats.deep_view()[j],
                    -items.deep_view()[j].1,
                ),
        decreases n - i,
    {
        let item = &items[i];
        proof {
            assert(items.deep_view()[i as int] == items@[i as int]@);
        }
        let memo = filter.apply(item.name.as_str());
        let amount: i64 = -item.sum;
        let s = make_split(memo, amount, cats[i].as_str());
        proof {
            assert(items.deep_view()[i as int] == items@[i as int]@);
            assert(cats.deep_view()[i as int] == cats@[i as int]@);
        }
        r.push(s);
        i += 1;
    }
    r
}

/// The generated splits sum to the negated total of the item prices,
/// prefix by prefix.
proof fn lemma_split_sum(items: Seq<(Seq<char>, int)>, s: Seq<qif_generator::split::Split>, k: int)
    requires
        s.len() == items.len(),
        0 <= k <= s.len(),
        forall|i: int| 0 <= i < s.len() ==> (#[trigger] split_model(s[i])).2 == -items[i].1,
    ensures
        sum_split_amounts(s.take(k)) == -sum_item_prices(items.take(k)),
    decreases k,
{
    if k == 0 {
        assert(s.take(0) =~= Seq::<qif_generator::split::Split>::empty());
        assert(items.take(0) =~= Seq::<(Seq<char>, int)>::empty());
    } else {
        lemma_split_sum(items, s, k - 1);
        assert(s.take(k).drop_last() =~= s.take(k - 1));
        assert(items.take(k).drop_last() =~= items.take(k - 1));
        assert(s.take(k).last() == s[k - 1]);
        assert(items.take(k).last() == items[k - 1]);
    }
}

/// Build the ledger transaction from already generated splits and check
/// it against the receipt total: the call succeeds exactly when the
/// split amounts sum to the negated total.
pub fn gen_trans<'a>(
    acc: &'a qif_generator::account::Account,
    date: PurchaseDate,
    sum: i64,
    memo: &str,
    splits: &Vec<qif_generator::split::Split>,
) -> (r: Result<qif_generator::transaction::Transaction<'a>, String>)
    requires
        date.wf(),
        sum > i64::MIN,
        forall|k: int|
            0 <= k <= splits@.len() ==> i64::MIN < #[trigger] sum_split_amounts(splits@.take(k))
                <= i64::MAX,
    ensures
        r is Ok <==> sum_split_amounts(splits@) == -(sum as int),
        match r {
            Result::Ok(t) => trans_model(t) == (
                memo@,
                -(sum as int),
                split_models_of(splits@),
                date_parts(date),
            ),
            Result::Err(m) => sum_split_amounts(splits@) != -(sum as int) && m@
                == sum_error_message(sum as int, sum_split_amounts(splits@)),
        },
{
    let d = date_from_parts(&date);
    let built = transaction_build(acc, d, memo, splits);
    proof {
        assert(splits@.take(splits@.len() as int) =~= splits@);
    }
    match built {
        Result::Ok(t) => {
            let ts = trans_sum(&t);
            let expected: i64 = -sum;
            if ts == expected {
                Result::Ok(t)
            } else {
                let mut message = String::from_str("Total sum is wrong. Expected: ");
                message.append(fmt_i64(sum).as_str());
                message.append(" Got: ");
                message.append(fmt_i64(ts).as_str());
                proof {
                    reveal_strlit("Total sum is wrong. Expected: ");
                    reveal_strlit(" Got: ");
                    assert(message@ =~= sum_error_message(sum as int, sum_split_amounts(splits@)));
                }
                Result::Err(message)
            }
        },
        Result::Err(e) => Result::Err(e),
    }
}

/// The split models the conversion is expected to produce.
pub open spec fn expected_split_models(
    items: Seq<(Seq<char>, int)>,
    cats: Seq<Seq<char>>,
    steps: Seq<crate::filters::FilterStep>,
) -> Seq<(Seq<char>, Seq<char>, int)> {
    Seq::new(items.len(), |i: int| (apply_steps(steps, items[i].0), cats[i], -items[i].1))
}

proof fn lemma_sum_prices_nonneg(items: Seq<(Seq<char>, int)>)
    requires
        forall|i: int| 0 <= i < items.len() ==> (#[trigger] items[i]).1 >= 0,
    ensures
        sum_item_prices(items) >= 0,
    decreases items.len(),
{
    if items.len() == 0 {
    } else {
        assert(forall|i: int|
            0 <= i < items.drop_last().len() ==> (#[trigger] items.drop_last()[i]).1 >= 0) by {
            assert(forall|i: int|
                0 <= i < items.drop_last().len() ==> items.drop_last()[i] == items[i]);
        }
        lemma_sum_prices_nonneg(items.drop_last());
    }
}

proof fn lemma_sum_prices_take(items: Seq<(Seq<char>, int)>, k: int)
    requires
        forall|i: int| 0 <= i < items.len() ==> (#[trigger] items[i]).1 >= 0,
        0 <= k <= items.len(),
    ensures
        0 <= sum_item_prices(items.take(k)) <= sum_item_prices(items),
    decreases items.len(),
{
    if k == items.len() {
        assert(items.take(k) =~= items);
        lemma_sum_prices_nonneg(items);
    } else {
        let front = items.drop_last();
        assert(forall|i: int| 0 <= i < front.len() ==> front[i] == items[i]);
        assert(items.take(k) =~= front.take(k));
        lemma_sum_prices_take(front, k);
        assert(items.last().1 >= 0);
    }
}

/// Convert a parsed purchase into a ledger transaction, one split per
/// item with its chosen category; the conversion succeeds exactly when
/// the item prices add up to the receipt's declared total.
pub fn convert<'a>(
    purchase: &crate::receipt::Purchase,
    memo: &str,
    acc: &'a qif_generator::account::Account,
    filter: &LineFilter,
    cats: &Vec<String>,
) -> (r: Result<qif_generator::transaction::Transaction<'a>, String>)
    requires
        purchase.wf(),
        cats@.len() == purchase.items@.len(),
    ensures
        r is Ok <==> sum_item_prices(purchase.items.deep_view()) == purchase.spec_sum(),
        match r {
            Result::Ok(t) => trans_model(t) == (
                memo@,
                -purchase.spec_sum(),
                expected_split_models(purchase.items.deep_view(), cats.deep_view(), filter@),
                date_parts(purchase.spec_date()),
            ),
            Result::Err(m) => sum_item_prices(purchase.items.deep_view()) != purchase.spec_sum()
                && m@ == sum_error_message(
                purchase.spec_sum(),
                -sum_item_prices(purchase.items.deep_view()),
            ),
        },
{
    let items = &purchase.items;
    let ghost iv = items.deep_view();
    let splits = gen_splits(items, cats, filter);
    proof {
        assert forall|k: int| 0 <= k <= splits@.len() implies i64::MIN < #[trigger] sum_split_amounts(
            splits@.take(k),
        ) <= i64::MAX by {
            lemma_split_sum(iv, splits@, k);
            lemma_sum_prices_take(iv, k);
        }
    }
    let r = gen_trans(acc, purchase.date(), purchase.total_sum(), memo, &splits);
    proof {
        lemma_split_sum(iv, splits@, splits@.len() as int);
        assert(splits@.take(splits@.len() as int) =~= splits@);
        assert(iv.take(iv.len() as int) =~= iv);
        if r is Ok {
            assert(split_models_of(splits@) =~= expected_split_models(iv, cats.deep_view(), filter@));
        }
    }
    r
}

} // verus!
