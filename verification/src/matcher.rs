//! The fuzzy category matcher: narrow a list of colon-segmented account
//! names down to those matching a colon-segmented partial query.

use vstd::prelude::*;

use crate::textutil::{lower_of, lowercase, split_colon, split_colon_str, str_starts_with};

verus! {

/// Every query segment is a prefix of the corresponding candidate
/// segment in the window starting at `w`.
pub open spec fn window_match_at(cand: Seq<Seq<char>>, q: Seq<Seq<char>>, w: int) -> bool {
    forall|k: int| 0 <= k < q.len() ==> (#[trigger] q[k]).is_prefix_of(cand[w + k])
}

/// Some contiguous window of the candidate's segments lines up with the
/// query's segments.
pub open spec fn window_match(cand: Seq<Seq<char>>, q: Seq<Seq<char>>) -> bool {
    exists|w: int| 0 <= w && w + q.len() <= cand.len() && #[trigger] window_match_at(cand, q, w)
}

/// Whether a category matches the query: its lowercase form, split on
/// `:`, has a window aligned with the query's segments.
pub open spec fn cat_matches(cat: Seq<char>, q: Seq<Seq<char>>) -> bool {
    window_match(split_colon(lower_of(cat)), q)
}

/// Whether any query segment is empty (a blank query matches nothing).
pub open spec fn some_seg_empty(parts: Seq<Seq<char>>) -> bool {
    exists|i: int| 0 <= i < parts.len() && (#[trigger] parts[i]).len() == 0
}

/// The matching candidates, in input order.
pub open spec fn matching_of(cats: Seq<Seq<char>>, q: Seq<Seq<char>>) -> Seq<Seq<char>>
    decreases cats.len(),
{
    if cats.len() == 0 {
        Seq::empty()
    } else {
        matching_of(cats.drop_last(), q) + if cat_matches(cats.last(), q) {
            seq![cats.last()]
        } else {
            Seq::empty()
        }
    }
}

/// What `filter_categories` returns: the query is folded to lowercase
/// before it is segmented and matched, as every candidate is.
pub open spec fn filter_categories_spec(cats: Seq<Seq<char>>, input: Seq<char>) -> Seq<Seq<char>> {
    if some_seg_empty(split_colon(lower_of(input))) {
        Seq::empty()
    } else {
        matching_of(cats, split_colon(lower_of(input)))
    }
}

/// Whether any of the owned segments is empty.
fn any_segment_empty(parts: &Vec<String>) -> (r: bool)
    ensures
        r == some_seg_empty(parts.deep_view()),
{
    let n = parts.len();
    let mut i: usize = 0;
    while i < n
        invariant
            n == parts@.len(),
            i <= n,
            forall|j: int| 0 <= j < i ==> (#[trigger] parts.deep_view()[j]).len() != 0,
        decreases n - i,
    {
        if parts[i].as_str().unicode_len() == 0 {
            proof {
                assert(parts.deep_view()[i as int].len() == 0);
            }
            return true;
        }
        i += 1;
    }
    false
}

/// Whether the window of `cand` starting at `w` lines up with `q`.
fn window_matches_at(cand: &Vec<String>, q: &Vec<String>, w: usize) -> (r: bool)
    requires
        w + q@.len() <= cand@.len(),
    ensures
        r == window_match_at(cand.deep_view(), q.deep_view(), w as int),
{
    let n = q.len();
    let cn = cand.len();
    let mut k: usize = 0;
    while k < n
        invariant
            n == q@.len(),
            cn == cand@.len(),
            w + n <= cn,
            k <= n,
            forall|j: int|
                0 <= j < k ==> (#[trigger] q.deep_view()[j]).is_prefix_of(
                    cand.deep_view()[w + j],
                ),
        decreases n - k,
    {
        if !str_starts_with(cand[w + k].as_str(), q[k].as_str()) {
            proof {
                assert(!q.deep_view()[k as int].is_prefix_of(cand.deep_view()[w + k]));
            }
            return false;
        }
        k += 1;
    }
    true
}

/// Whether some window of `cand` lines up with `q`.
fn window_matches(cand: &Vec<String>, q: &Vec<String>) -> (r: bool)
    ensures
        r == window_match(cand.deep_view(), q.deep_view()),
{
    let cn = cand.len();
    let qn = q.len();
    if qn > cn {
        return false;
    }
    let mut w: usize = 0;
    while w <= cn - qn
        invariant
            cn == cand@.len(),
            qn == q@.len(),
            qn <= cn,
            w <= cn - qn + 1,
            forall|v: int|
                0 <= v < w ==> !(#[trigger] window_match_at(cand.deep_view(), q.deep_view(), v)),
        decreases cn - w,
    {
        if window_matches_at(cand, q, w) {
            return true;
        }
        w += 1;
    }
    proof {
        assert forall|v: int| 0 <= v && v + q.deep_view().len() <= cand.deep_view().len()
            implies !(#[trigger] window_match_at(cand.deep_view(), q.deep_view(), v)) by {
            assert(v < w);
        }
    }
    false
}

/// Fuzzy matcher for partial queries such as `a:b` against full
/// colon-segmented category names: keeps, in order, every category whose
/// lowercase segments contain a window that the lowercase query's
/// segments prefix; a query with an empty segment (in particular a blank
/// query) matches nothing.
pub fn filter_categories(categories: &Vec<String>, input: &str) -> (r: Vec<String>)
    ensures
        r.deep_view() == filter_categories_spec(categories.deep_view(), input@),
{
    let folded = lowercase(input);
    let parts = split_colon_str(folded.as_str());
    if any_segment_empty(&parts) {
        let r: Vec<String> = Vec::new();
        proof {
            assert(r.deep_view() =~= filter_categories_spec(categories.deep_view(), input@));
        }
        return r;
    }
    let n = categories.len();
    let mut out: Vec<String> = Vec::new();
    let mut i: usize = 0;
    proof {
        assert(categories.deep_view().take(0) =~= Seq::<Seq<char>>::empty());
        assert(out.deep_view() =~= matching_of(categories.deep_view().take(0), parts.deep_view()));
    }
    while i < n
        invariant
            n == categories@.len(),
            i <= n,
            parts.deep_view() == split_colon(lower_of(input@)),
            !some_seg_empty(parts.deep_view()),
            out.deep_view() == matching_of(categories.deep_view().take(i as int), parts.deep_view()),
        decreases n - i,
    {
        let ghost pre = out.deep_view();
        let lc = lowercase(categories[i].as_str());
        let cparts = split_colon_str(lc.as_str());
        proof {
            assert(categories.deep_view()[i as int] == categories@[i as int]@);
            assert(cparts.deep_view() == split_colon(lower_of(categories.deep_view()[i as int])));
        }
        if window_matches(&cparts, &parts) {
            out.push(categories[i].clone());
            proof {
                assert(out.deep_view() =~= pre + seq![categories.deep_view()[i as int]]);
            }
        }
        proof {
            let cs = categories.deep_view();
            assert(cs.take(i + 1).drop_last() =~= cs.take(i as int));
            assert(cs.take(i + 1).last() == cs[i as int]);
            if window_match(cparts.deep_view(), parts.deep_view()) {
                assert(out.deep_view() =~= matching_of(cs.take(i + 1), parts.deep_view()));
            } else {
                assert(pre + Seq::<Seq<char>>::empty() =~= pre);
                assert(out.deep_view() =~= matching_of(cs.take(i + 1), parts.deep_view()));
            }
        }
        i += 1;
    }
    proof {
        assert(categories.deep_view().take(n as int) =~= categories.deep_view());
    }
    out
}

} // verus!
