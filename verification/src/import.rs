//! Selection of expense accounts from an imported chart of accounts:
//! rows whose type column says `EXPENSE` contribute their name column.

use vstd::prelude::*;

use crate::textutil::str_eq;

verus! {

/// The names of the expense rows, in order: the second column of every
/// row whose first column is `EXPENSE`.
pub open spec fn expense_rows(rows: Seq<Seq<Seq<char>>>) -> Seq<Seq<char>>
    decreases rows.len(),
{
    if rows.len() == 0 {
        Seq::empty()
    } else {
        expense_rows(rows.drop_last()) + if rows.last()[0] == "EXPENSE"@ {
            seq![rows.last()[1]]
        } else {
            Seq::empty()
        }
    }
}

/// Keep the account names of the expense rows.  Each row holds at least
/// a type column and a name column.
pub fn select_expense_accounts(rows: &Vec<Vec<String>>) -> (r: Vec<String>)
    requires
        forall|i: int| 0 <= i < rows@.len() ==> (#[trigger] rows@[i])@.len() >= 2,
    ensures
        r.deep_view() == expense_rows(rows.deep_view()),
{
    let n = rows.len();
    let mut out: Vec<String> = Vec::new();
    let mut i: usize = 0;
    proof {
        assert(rows.deep_view().take(0) =~= Seq::<Seq<Seq<char>>>::empty());
        assert(out.deep_view() =~= expense_rows(rows.deep_view().take(0)));
    }
    while i < n
        invariant
            n == rows@.len(),
            i <= n,
            forall|j: int| 0 <= j < rows@.len() ==> (#[trigger] rows@[j])@.len() >= 2,
            out.deep_view() == expense_rows(rows.deep_view().take(i as int)),
        decreases n - i,
    {
        let ghost pre = out.deep_view();
        proof {
            assert(rows.deep_view().take(i + 1).drop_last() =~= rows.deep_view().take(i as int));
            assert(rows.deep_view().take(i + 1).last() == rows.deep_view()[i as int]);
            assert(rows.deep_view()[i as int] == rows@[i as int].deep_view());
            assert(rows@[i as int].deep_view()[0] == rows@[i as int]@[0]@);
            assert(rows@[i as int].deep_view()[1] == rows@[i as int]@[1]@);
        }
        let row = &rows[i];
        if str_eq(row[0].as_str(), "EXPENSE") {
            out.push(row[1].clone());
            proof {
                assert(out.deep_view() =~= pre + seq![rows.deep_view()[i as int][1]]);
            }
        } else {
            proof {
                assert(pre + Seq::<Seq<char>>::empty() =~= pre);
            }
        }
        i += 1;
    }
    proof {
        assert(rows.deep_view().take(n as int) =~= rows.deep_view());
    }
    out
}

} // verus!
