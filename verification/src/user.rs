//! Per-user state: the learned category statistics and the set of known
//! accounts.  Loading from and flushing to durable storage happens
//! outside; this module owns the in-memory record and its invariants.

use vstd::prelude::*;

use crate::categories::{cat_stats_clone, cat_stats_model, cat_stats_new, stats_wf, CatStats};
use crate::textutil::{
    contains_sub, sort_lex, sort_strings, str_contains, str_eq, str_starts_with, strip_prefix_str,
};

verus! {

/// An error from the durable storage behind a user record, carried as a
/// plain description.
#[derive(Debug, Clone)]
pub enum UserError {
    DbError(String),
}

/// The ghost shape of a user record.
pub ghost struct UserV {
    pub uid: int,
    pub catmap: Map<Seq<char>, Seq<(Seq<char>, int)>>,
    pub accounts: Seq<Seq<char>>,
}

/// Configuration and learned state for a single user.
#[derive(Debug)]
pub struct User {
    /// User id.
    pub uid: i64,
    /// Category statistics for the user.
    pub catmap: CatStats,
    /// Available accounts for the user, in insertion order, without
    /// duplicates while only this module's methods touch it.
    pub accounts: Vec<String>,
}

impl View for User {
    type V = UserV;

    open spec fn view(&self) -> UserV {
        UserV {
            uid: self.uid as int,
            catmap: cat_stats_model(self.catmap),
            accounts: self.spec_accounts(),
        }
    }
}

/// Accounts pairwise distinct.
pub open spec fn accounts_distinct(accs: Seq<Seq<char>>) -> bool {
    forall|i: int, j: int| 0 <= i < j < accs.len() ==> accs[i] != accs[j]
}

/// `accs` with every element already seen earlier dropped, keeping the
/// first occurrence and the order.
pub open spec fn dedup_first(accs: Seq<Seq<char>>) -> Seq<Seq<char>>
    decreases accs.len(),
{
    if accs.len() == 0 {
        Seq::empty()
    } else {
        let front = dedup_first(accs.drop_last());
        if front.contains(accs.last()) {
            front
        } else {
            front.push(accs.last())
        }
    }
}

pub proof fn lemma_dedup_first_distinct(accs: Seq<Seq<char>>)
    ensures
        accounts_distinct(dedup_first(accs)),
        forall|x: Seq<char>| #[trigger] dedup_first(accs).contains(x) == accs.contains(x),
    decreases accs.len(),
{
    if accs.len() == 0 {
        assert forall|x: Seq<char>| #[trigger]
            dedup_first(accs).contains(x) == accs.contains(x) by {
            if accs.contains(x) {
                let i = choose|i: int| 0 <= i < accs.len() && accs[i] == x;
            }
        }
    } else {
        lemma_dedup_first_distinct(accs.drop_last());
        let front = dedup_first(accs.drop_last());
        let d = dedup_first(accs);
        assert forall|x: Seq<char>| #[trigger] d.contains(x) == accs.contains(x) by {
            if d.contains(x) {
                let i = choose|i: int| 0 <= i < d.len() && d[i] == x;
                if front.contains(x) || (i < front.len()) {
                    assert(front.contains(x) || d[i] == front[i]);
                    if !front.contains(x) {
                        assert(front[i] == x);
                    }
                    assert(accs.drop_last().contains(x));
                    let j = choose|j: int|
                        0 <= j < accs.drop_last().len() && accs.drop_last()[j] == x;
                    assert(accs[j] == x);
                } else {
                    assert(d[i] == accs.last());
                    assert(accs[accs.len() - 1] == x);
                }
            }
            if accs.contains(x) {
                let i = choose|i: int| 0 <= i < accs.len() && accs[i] == x;
                if i < accs.len() - 1 {
                    assert(accs.drop_last()[i] == x);
                    assert(accs.drop_last().contains(x));
                    assert(front.contains(x));
                    let j = choose|j: int| 0 <= j < front.len() && front[j] == x;
                    if !front.contains(accs.last()) {
                        assert(d[j] == x);
                    } else {
                        assert(d == front);
                    }
                } else {
                    if front.contains(accs.last()) {
                        let j = choose|j: int| 0 <= j < front.len() && front[j] == x;
                        assert(d[j] == x);
                    } else {
                        assert(d[d.len() - 1] == x);
                    }
                }
            }
        }
        if !front.contains(accs.last()) {
            assert forall|i: int, j: int| 0 <= i < j < d.len() implies d[i] != d[j] by {
                if j < d.len() - 1 {
                    assert(d[i] == front[i] && d[j] == front[j]);
                } else {
                    assert(d[i] == front[i]);
                    assert(d[j] == accs.last());
                    assert(front.contains(front[i]));
                }
            }
        }
    }
}

/// The accounts whose names contain the pattern.
pub open spec fn containing_of(accs: Seq<Seq<char>>, pat: Seq<char>) -> Seq<Seq<char>>
    decreases accs.len(),
{
    if accs.len() == 0 {
        Seq::empty()
    } else {
        containing_of(accs.drop_last(), pat) + if contains_sub(accs.last(), pat) {
            seq![accs.last()]
        } else {
            Seq::empty()
        }
    }
}

/// The accounts with the given prefix, that prefix removed, in order.
pub open spec fn stripped_with_prefix(accs: Seq<Seq<char>>, p: Seq<char>) -> Seq<Seq<char>>
    decreases accs.len(),
{
    if accs.len() == 0 {
        Seq::empty()
    } else {
        stripped_with_prefix(accs.drop_last(), p) + if p.is_prefix_of(accs.last()) {
            seq![accs.last().skip(p.len() as int)]
        } else {
            Seq::empty()
        }
    }
}

impl User {
    pub open spec fn spec_accounts(&self) -> Seq<Seq<char>> {
        self.accounts.deep_view()
    }

    /// A valid record: well-formed statistics and no duplicate account.
    pub open spec fn wf(&self) -> bool {
        &&& stats_wf(self@.catmap)
        &&& accounts_distinct(self@.accounts)
    }

    /// A fresh record for `uid` with no statistics and no accounts.
    pub fn new(uid: i64) -> (r: User)
        ensures
            r@.uid == uid as int,
            r@.catmap =~= Map::empty(),
            r@.accounts =~= Seq::<Seq<char>>::empty(),
            r.wf(),
    {
        let r = User { uid, catmap: cat_stats_new(), accounts: Vec::new() };
        proof {
            assert(r.spec_accounts() =~= Seq::<Seq<char>>::empty());
        }
        r
    }

    /// An equal copy of the record.
    pub fn duplicate(&self) -> (r: User)
        ensures
            r@ == self@,
            self.wf() ==> r.wf(),
    {
        let r = User {
            uid: self.uid,
            catmap: cat_stats_clone(&self.catmap),
            accounts: self.accounts.clone(),
        };
        proof {
            assert(r.spec_accounts() =~= self.spec_accounts());
        }
        r
    }

    /// Whether `acc` is among the user's accounts.
    pub fn has_account(&self, acc: &str) -> (r: bool)
        ensures
            r == self@.accounts.contains(acc@),
    {
        let n = self.accounts.len();
        let mut i: usize = 0;
        while i < n
            invariant
                n == self.accounts@.len(),
                i <= n,
                forall|j: int| 0 <= j < i ==> self.spec_accounts()[j] != acc@,
            decreases n - i,
        {
            if str_eq(self.accounts[i].as_str(), acc) {
                proof {
                    assert(self.spec_accounts()[i as int] == acc@);
                }
                return true;
            }
            i += 1;
        }
        proof {
            if self.spec_accounts().contains(acc@) {
                let j = choose|j: int|
                    0 <= j < self.spec_accounts().len() && self.spec_accounts()[j] == acc@;
            }
        }
        false
    }

    /// Replace the account set with `acc`, keeping the first occurrence
    /// of each name.
    pub fn accounts(&mut self, acc: Vec<String>)
        ensures
            final(self)@.uid == old(self)@.uid,
            final(self)@.catmap == old(self)@.catmap,
            final(self)@.accounts == dedup_first(acc.deep_view()),
            old(self).wf() ==> final(self).wf(),
    {
        let n = acc.len();
        let mut fresh: Vec<String> = Vec::new();
        self.accounts = fresh;
        proof {
            assert(self.spec_accounts() =~= dedup_first(acc.deep_view().take(0)));
            assert(acc.deep_view().take(0) =~= Seq::<Seq<char>>::empty());
        }
        let mut i: usize = 0;
        while i < n
            invariant
                n == acc@.len(),
                i <= n,
                self.spec_accounts() == dedup_first(acc.deep_view().take(i as int)),
                self.uid == old(self).uid,
                cat_stats_model(self.catmap) == cat_stats_model(old(self).catmap),
            decreases n - i,
        {
            let ghost pre = self.spec_accounts();
            let present = self.has_account(acc[i].as_str());
            proof {
                assert(acc.deep_view()[i as int] == acc@[i as int]@);
                assert(acc.deep_view().take(i + 1).drop_last() =~= acc.deep_view().take(i as int));
                assert(acc.deep_view().take(i + 1).last() == acc.deep_view()[i as int]);
            }
            if !present {
                let a = acc[i].clone();
                self.accounts.push(a);
                proof {
                    assert(self.spec_accounts() =~= pre.push(acc.deep_view()[i as int]));
                }
            }
            i += 1;
        }
        proof {
            assert(acc.deep_view().take(n as int) =~= acc.deep_view());
            lemma_dedup_first_distinct(acc.deep_view());
        }
    }

    /// Add one account, if it is not already known.
    pub fn new_account(&mut self, acc: String)
        ensures
            final(self)@.uid == old(self)@.uid,
            final(self)@.catmap == old(self)@.catmap,
            final(self)@.accounts == if old(self)@.accounts.contains(acc@) {
                old(self)@.accounts
            } else {
                old(self)@.accounts.push(acc@)
            },
            old(self).wf() ==> final(self).wf(),
    {
        let ghost pre = self.spec_accounts();
        let present = self.has_account(acc.as_str());
        if !present {
            self.accounts.push(acc);
            proof {
                assert(self.spec_accounts() =~= pre.push(acc@));
                if accounts_distinct(pre) {
                    let t = self.spec_accounts();
                    assert forall|i: int, j: int| 0 <= i < j < t.len() implies t[i] != t[j] by {
                        if j == t.len() - 1 {
                            assert(t[i] == pre[i]);
                            assert(pre.contains(pre[i]));
                        }
                    }
                }
            }
        }
    }

    /// The account names, in insertion order.
    pub fn accounts_list(&self) -> (r: &Vec<String>)
        ensures
            r.deep_view() == self@.accounts,
    {
        &self.accounts
    }

    /// The accounts whose names contain `pat`, in order.
    pub fn accounts_containing(&self, pat: &str) -> (r: Vec<String>)
        ensures
            r.deep_view() == containing_of(self@.accounts, pat@),
    {
        let n = self.accounts.len();
        let mut out: Vec<String> = Vec::new();
        let mut i: usize = 0;
        proof {
            assert(self.spec_accounts().take(0) =~= Seq::<Seq<char>>::empty());
            assert(out.deep_view() =~= containing_of(self.spec_accounts().take(0), pat@));
        }
        while i < n
            invariant
                n == self.accounts@.len(),
                i <= n,
                out.deep_view() == containing_of(self.spec_accounts().take(i as int), pat@),
            decreases n - i,
        {
            let ghost pre = out.deep_view();
            proof {
                assert(self.spec_accounts().take(i + 1).drop_last() =~= self.spec_accounts().take(
                    i as int,
                ));
                assert(self.spec_accounts().take(i + 1).last() == self.spec_accounts()[i as int]);
            }
            if str_contains(self.accounts[i].as_str(), pat) {
                out.push(self.accounts[i].clone());
                proof {
                    assert(out.deep_view() =~= pre + seq![self.spec_accounts()[i as int]]);
                }
            } else {
                proof {
                    assert(pre + Seq::<Seq<char>>::empty() =~= pre);
                }
            }
            i += 1;
        }
        proof {
            assert(self.spec_accounts().take(n as int) =~= self.spec_accounts());
        }
        out
    }

    /// The expense accounts, their shared prefix removed, sorted: what
    /// the account listing shows.
    pub fn expense_account_names(&self) -> (r: Vec<String>)
        ensures
            r.deep_view() == sort_lex(stripped_with_prefix(self@.accounts, "Expenses:"@)),
    {
        let n = self.accounts.len();
        let mut out: Vec<String> = Vec::new();
        let mut i: usize = 0;
        proof {
            assert(self.spec_accounts().take(0) =~= Seq::<Seq<char>>::empty());
            assert(out.deep_view() =~= stripped_with_prefix(
                self.spec_accounts().take(0),
                "Expenses:"@,
            ));
        }
        while i < n
            invariant
                n == self.accounts@.len(),
                i <= n,
                out.deep_view() == stripped_with_prefix(
                    self.spec_accounts().take(i as int),
                    "Expenses:"@,
                ),
            decreases n - i,
        {
            let ghost pre = out.deep_view();
            proof {
                assert(self.spec_accounts().take(i + 1).drop_last() =~= self.spec_accounts().take(
                    i as int,
                ));
                assert(self.spec_accounts().take(i + 1).last() == self.spec_accounts()[i as int]);
            }
            if str_starts_with(self.accounts[i].as_str(), "Expenses:") {
                let stripped = strip_prefix_str(self.accounts[i].as_str(), "Expenses:");
                out.push(stripped.to_owned());
                proof {
                    assert(out.deep_view() =~= pre + seq![
                        self.spec_accounts()[i as int].skip("Expenses:"@.len() as int),
                    ]);
                }
            } else {
                proof {
                    assert(pre + Seq::<Seq<char>>::empty() =~= pre);
                }
            }
            i += 1;
        }
        proof {
            assert(self.spec_accounts().take(n as int) =~= self.spec_accounts());
        }
        sort_strings(&mut out);
        out
    }
}

} // verus!
