//! Completion support for interactive category entry: offer every known
//! category containing what was typed so far.

use vstd::prelude::*;

use crate::textutil::str_contains;
use crate::user::containing_of;

verus! {

/// A completer over a fixed list of category names.
#[derive(Debug, Clone)]
pub struct CatCompleter {
    completions: Vec<String>,
}

impl View for CatCompleter {
    type V = Seq<Seq<char>>;

    closed spec fn view(&self) -> Seq<Seq<char>> {
        self.completions.deep_view()
    }
}

impl CatCompleter {
    /// A completer offering these category names.
    pub fn new(completions: Vec<String>) -> (r: CatCompleter)
        ensures
            r@ == completions.deep_view(),
    {
        CatCompleter { completions }
    }

    /// The candidates containing the typed line, in order.
    pub fn complete(&self, line: &str) -> (r: Vec<String>)
        ensures
            r.deep_view() == containing_of(self@, line@),
    {
        let n = self.completions.len();
        let mut out: Vec<String> = Vec::new();
        let mut i: usize = 0;
        proof {
            assert(self@.take(0) =~= Seq::<Seq<char>>::empty());
            assert(out.deep_view() =~= containing_of(self@.take(0), line@));
        }
        while i < n
            invariant
                n == self.completions@.len(),
                i <= n,
                out.deep_view() == containing_of(self@.take(i as int), line@),
            decreases n - i,
        {
            let ghost pre = out.deep_view();
            proof {
                assert(self@.take(i + 1).drop_last() =~= self@.take(i as int));
                assert(self@.take(i + 1).last() == self@[i as int]);
                assert(self@[i as int] == self.completions@[i as int]@);
            }
            if str_contains(self.completions[i].as_str(), line) {
                out.push(self.completions[i].clone());
                proof {
                    assert(out.deep_view() =~= pre + seq![self@[i as int]]);
                }
            } else {
                proof {
                    assert(pre + Seq::<Seq<char>>::empty() =~= pre);
                }
            }
            i += 1;
        }
        proof {
            assert(self@.take(n as int) =~= self@);
        }
        out
    }
}

} // verus!
