//! Per-item category statistics: a ranked list of categories per item,
//! ordered by how often each category was assigned.

use vstd::prelude::*;

use radix_trie::TrieCommon;

use crate::textutil::str_eq;

verus! {

/// Category statistics for a single item: one category and how many times
/// the item was assigned to it.
#[derive(Debug, Clone)]
pub struct CatStat {
    category: String,
    hits: i64,
}

impl View for CatStat {
    type V = (Seq<char>, int);

    closed spec fn view(&self) -> (Seq<char>, int) {
        (self.category@, self.hits as int)
    }
}

impl DeepView for CatStat {
    type V = (Seq<char>, int);

    open spec fn deep_view(&self) -> (Seq<char>, int) {
        self.view()
    }
}

impl CatStat {
    /// The category name.
    pub fn category(&self) -> (r: &String)
        ensures
            r@ == self@.0,
    {
        &self.category
    }

    /// How many times the item hit this category.
    pub fn hits(&self) -> (r: i64)
        ensures
            r as int == self@.1,
    {
        self.hits
    }
}

// ---------------------------------------------------------------------------
// The ranking model: what one item's statistics list looks like, and what
// recording one more assignment does to it.
// ---------------------------------------------------------------------------

/// Hit counts never increase along the list.
pub open spec fn sorted_desc(s: Seq<(Seq<char>, int)>) -> bool {
    forall|i: int, j: int| 0 <= i < j < s.len() ==> s[i].1 >= s[j].1
}

/// No category occurs twice.
pub open spec fn cats_distinct(s: Seq<(Seq<char>, int)>) -> bool {
    forall|i: int, j: int| 0 <= i < j < s.len() ==> s[i].0 != s[j].0
}

/// A well-formed statistics list: ranked by descending hits, every count
/// at least one, category names non-empty and pairwise distinct.
pub open spec fn stat_seq_wf(s: Seq<(Seq<char>, int)>) -> bool {
    &&& sorted_desc(s)
    &&& cats_distinct(s)
    &&& forall|i: int| 0 <= i < s.len() ==> (#[trigger] s[i]).1 >= 1
    &&& forall|i: int| 0 <= i < s.len() ==> (#[trigger] s[i]).0.len() > 0
}

/// Total number of recorded assignments in a list.
pub open spec fn sum_hits(s: Seq<(Seq<char>, int)>) -> int
    decreases s.len(),
{
    if s.len() == 0 {
        0
    } else {
        sum_hits(s.drop_last()) + s.last().1
    }
}

/// Index of the first record for `cat`, or -1 if there is none.
pub open spec fn find_cat(s: Seq<(Seq<char>, int)>, cat: Seq<char>) -> int
    decreases s.len(),
{
    if s.len() == 0 {
        -1
    } else if s[0].0 == cat {
        0
    } else {
        let r = find_cat(s.drop_first(), cat);
        if r == -1 {
            -1
        } else {
            1 + r
        }
    }
}

/// Whether some record for `cat` is present.
pub open spec fn has_cat(s: Seq<(Seq<char>, int)>, cat: Seq<char>) -> bool {
    exists|i: int| 0 <= i < s.len() && (#[trigger] s[i]).0 == cat
}

pub proof fn lemma_find_cat_props(s: Seq<(Seq<char>, int)>, cat: Seq<char>)
    ensures
        -1 <= find_cat(s, cat) < s.len(),
        find_cat(s, cat) == -1 ==> !has_cat(s, cat),
        find_cat(s, cat) >= 0 ==> s[find_cat(s, cat)].0 == cat,
        forall|j: int|
            0 <= j < s.len() && s[j].0 == cat ==> find_cat(s, cat) >= 0 && find_cat(s, cat) <= j,
    decreases s.len(),
{
    if s.len() == 0 {
    } else if s[0].0 == cat {
    } else {
        lemma_find_cat_props(s.drop_first(), cat);
        assert forall|j: int| 0 <= j < s.len() && s[j].0 == cat implies find_cat(s, cat) >= 0
            && find_cat(s, cat) <= j by {
            assert(s.drop_first()[j - 1] == s[j]);
        }
        if find_cat(s.drop_first(), cat) == -1 {
            assert forall|i: int| 0 <= i < s.len() implies (#[trigger] s[i]).0 != cat by {
                if i > 0 {
                    assert(s.drop_first()[i - 1] == s[i]);
                }
            }
        }
    }
}

proof fn lemma_find_cat_at(s: Seq<(Seq<char>, int)>, cat: Seq<char>, i: int)
    requires
        0 <= i < s.len(),
        s[i].0 == cat,
        forall|j: int| 0 <= j < i ==> s[j].0 != cat,
    ensures
        find_cat(s, cat) == i,
    decreases s.len(),
{
    if i == 0 {
    } else {
        assert(s[0].0 != cat);
        lemma_find_cat_at(s.drop_first(), cat, i - 1);
    }
}

proof fn lemma_find_cat_none(s: Seq<(Seq<char>, int)>, cat: Seq<char>)
    requires
        forall|j: int| 0 <= j < s.len() ==> s[j].0 != cat,
    ensures
        find_cat(s, cat) == -1,
    decreases s.len(),
{
    if s.len() == 0 {
    } else {
        lemma_find_cat_none(s.drop_first(), cat);
    }
}

/// One recorded assignment before re-ranking: increment the existing
/// record's count, or append a fresh record with one hit.
pub open spec fn bump_stat(s: Seq<(Seq<char>, int)>, cat: Seq<char>) -> Seq<(Seq<char>, int)> {
    let i = find_cat(s, cat);
    if i == -1 {
        s.push((cat, 1))
    } else {
        s.update(i, (s[i].0, s[i].1 + 1))
    }
}

/// Stable insertion of `x` into a descending list: `x` goes after every
/// record with at least as many hits.
pub open spec fn insert_desc(x: (Seq<char>, int), s: Seq<(Seq<char>, int)>) -> Seq<
    (Seq<char>, int),
>
    decreases s.len(),
{
    if s.len() == 0 {
        seq![x]
    } else if s[0].1 >= x.1 {
        seq![s[0]] + insert_desc(x, s.drop_first())
    } else {
        seq![x] + s
    }
}

/// Stable sort by descending hits.
pub open spec fn sort_desc(s: Seq<(Seq<char>, int)>) -> Seq<(Seq<char>, int)>
    decreases s.len(),
{
    if s.len() == 0 {
        Seq::empty()
    } else {
        insert_desc(s.last(), sort_desc(s.drop_last()))
    }
}

/// What one `assign` does to an item's statistics list.
pub open spec fn update_stat_spec(s: Seq<(Seq<char>, int)>, cat: Seq<char>) -> Seq<
    (Seq<char>, int),
> {
    sort_desc(bump_stat(s, cat))
}

// ---------------------------------------------------------------------------
// Facts about the model, used to prove the ranking invariant.
// ---------------------------------------------------------------------------

proof fn lemma_insert_desc_len(x: (Seq<char>, int), s: Seq<(Seq<char>, int)>)
    ensures
        insert_desc(x, s).len() == s.len() + 1,
    decreases s.len(),
{
    if s.len() == 0 {
    } else if s[0].1 >= x.1 {
        lemma_insert_desc_len(x, s.drop_first());
    } else {
    }
}

proof fn lemma_sort_desc_len(s: Seq<(Seq<char>, int)>)
    ensures
        sort_desc(s).len() == s.len(),
    decreases s.len(),
{
    if s.len() == 0 {
    } else {
        lemma_sort_desc_len(s.drop_last());
        lemma_insert_desc_len(s.last(), sort_desc(s.drop_last()));
    }
}

proof fn lemma_sum_insert_desc(x: (Seq<char>, int), s: Seq<(Seq<char>, int)>)
    ensures
        sum_hits(insert_desc(x, s)) == sum_hits(s) + x.1,
    decreases s.len(),
{
    if s.len() == 0 {
        let t = insert_desc(x, s);
        assert(t =~= seq![x]);
        assert(t.last() == x);
        assert(t.drop_last() =~= Seq::<(Seq<char>, int)>::empty());
        assert(sum_hits(t) == sum_hits(t.drop_last()) + t.last().1);
    } else if s[0].1 >= x.1 {
        let rest = insert_desc(x, s.drop_first());
        lemma_sum_insert_desc(x, s.drop_first());
        lemma_sum_prepend(s[0], rest);
        lemma_sum_prepend(s[0], s.drop_first());
        assert(seq![s[0]] + s.drop_first() =~= s);
    } else {
        lemma_sum_prepend(x, s);
    }
}

/// Summing after prepending one record.
proof fn lemma_sum_prepend(x: (Seq<char>, int), s: Seq<(Seq<char>, int)>)
    ensures
        sum_hits(seq![x] + s) == x.1 + sum_hits(s),
    decreases s.len(),
{
    let t = seq![x] + s;
    if s.len() == 0 {
        assert(t =~= seq![x]);
        assert(t.last() == x);
        assert(t.drop_last() =~= Seq::<(Seq<char>, int)>::empty());
        assert(sum_hits(t) == sum_hits(t.drop_last()) + t.last().1);
    } else {
        assert(t.drop_last() =~= seq![x] + s.drop_last());
        lemma_sum_prepend(x, s.drop_last());
        assert(t.last() == s.last());
    }
}

proof fn lemma_sum_sort_desc(s: Seq<(Seq<char>, int)>)
    ensures
        sum_hits(sort_desc(s)) == sum_hits(s),
    decreases s.len(),
{
    if s.len() == 0 {
    } else {
        lemma_sum_sort_desc(s.drop_last());
        lemma_sum_insert_desc(s.last(), sort_desc(s.drop_last()));
    }
}

proof fn lemma_sum_update(s: Seq<(Seq<char>, int)>, i: int, x: (Seq<char>, int))
    requires
        0 <= i < s.len(),
    ensures
        sum_hits(s.update(i, x)) == sum_hits(s) - s[i].1 + x.1,
    decreases s.len(),
{
    let t = s.update(i, x);
    if i == s.len() - 1 {
        assert(t.drop_last() =~= s.drop_last());
        assert(t.last() == x);
    } else {
        assert(t.drop_last() =~= s.drop_last().update(i, x));
        lemma_sum_update(s.drop_last(), i, x);
        assert(t.last() == s.last());
    }
}

pub proof fn lemma_sum_bump(s: Seq<(Seq<char>, int)>, cat: Seq<char>)
    ensures
        sum_hits(bump_stat(s, cat)) == sum_hits(s) + 1,
{
    lemma_find_cat_props(s, cat);
    let i = find_cat(s, cat);
    if i == -1 {
        assert(s.push((cat, 1)).drop_last() =~= s);
    } else {
        lemma_sum_update(s, i, (s[i].0, s[i].1 + 1));
    }
}

/// Which categories occur is preserved by stable insertion, and so is
/// distinctness.
proof fn lemma_insert_desc_cats(x: (Seq<char>, int), s: Seq<(Seq<char>, int)>)
    ensures
        forall|c: Seq<char>|
            #[trigger] has_cat(insert_desc(x, s), c) == (x.0 == c || has_cat(s, c)),
        forall|k: int|
            0 <= k < insert_desc(x, s).len() ==> (#[trigger] insert_desc(x, s)[k]) == x
                || (exists|j: int| 0 <= j < s.len() && insert_desc(x, s)[k] == s[j]),
    decreases s.len(),
{
    let t = insert_desc(x, s);
    if s.len() == 0 {
        assert forall|c: Seq<char>| #[trigger] has_cat(t, c) == (x.0 == c || has_cat(s, c)) by {
            assert(t[0] == x);
            if x.0 == c {
                assert(t[0].0 == c);
            }
        }
    } else if s[0].1 >= x.1 {
        lemma_insert_desc_cats(x, s.drop_first());
        let rest = insert_desc(x, s.drop_first());
        assert(t =~= seq![s[0]] + rest);
        assert forall|c: Seq<char>| #[trigger] has_cat(t, c) == (x.0 == c || has_cat(s, c)) by {
            if has_cat(t, c) {
                let i = choose|i: int| 0 <= i < t.len() && (#[trigger] t[i]).0 == c;
                if i == 0 {
                    assert(s[0].0 == c);
                } else {
                    assert(rest[i - 1].0 == c);
                    assert(has_cat(rest, c));
                    if !(x.0 == c) {
                        let j = choose|j: int|
                            0 <= j < s.drop_first().len() && (#[trigger] s.drop_first()[j]).0 == c;
                        assert(s[j + 1].0 == c);
                    }
                }
            }
            if x.0 == c {
                assert(has_cat(rest, c));
                let i = choose|i: int| 0 <= i < rest.len() && (#[trigger] rest[i]).0 == c;
                assert(t[i + 1].0 == c);
            }
            if has_cat(s, c) {
                let i = choose|i: int| 0 <= i < s.len() && (#[trigger] s[i]).0 == c;
                if i == 0 {
                    assert(t[0].0 == c);
                } else {
                    assert(s.drop_first()[i - 1].0 == c);
                    assert(has_cat(s.drop_first(), c));
                    assert(has_cat(rest, c));
                    let k = choose|k: int| 0 <= k < rest.len() && (#[trigger] rest[k]).0 == c;
                    assert(t[k + 1].0 == c);
                }
            }
        }
        assert forall|k: int| 0 <= k < t.len() implies (#[trigger] t[k]) == x || (exists|j: int|
            0 <= j < s.len() && t[k] == s[j]) by {
            if k == 0 {
                assert(t[0] == s[0]);
            } else {
                assert(t[k] == rest[k - 1]);
                if rest[k - 1] != x {
                    let j = choose|j: int|
                        0 <= j < s.drop_first().len() && rest[k - 1] == s.drop_first()[j];
                    assert(t[k] == s[j + 1]);
                }
            }
        }
    } else {
        assert forall|c: Seq<char>| #[trigger] has_cat(t, c) == (x.0 == c || has_cat(s, c)) by {
            if has_cat(t, c) {
                let i = choose|i: int| 0 <= i < t.len() && (#[trigger] t[i]).0 == c;
                if i == 0 {
                } else {
                    assert(s[i - 1].0 == c);
                }
            }
            if x.0 == c {
                assert(t[0].0 == c);
            }
            if has_cat(s, c) {
                let i = choose|i: int| 0 <= i < s.len() && (#[trigger] s[i]).0 == c;
                assert(t[i + 1].0 == c);
            }
        }
        assert forall|k: int| 0 <= k < t.len() implies (#[trigger] t[k]) == x || (exists|j: int|
            0 <= j < s.len() && t[k] == s[j]) by {
            if k > 0 {
                assert(t[k] == s[k - 1]);
            }
        }
    }
}

proof fn lemma_insert_desc_sorted(x: (Seq<char>, int), s: Seq<(Seq<char>, int)>)
    requires
        sorted_desc(s),
    ensures
        sorted_desc(insert_desc(x, s)),
    decreases s.len(),
{
    let t = insert_desc(x, s);
    if s.len() == 0 {
    } else if s[0].1 >= x.1 {
        let rest = insert_desc(x, s.drop_first());
        lemma_insert_desc_sorted(x, s.drop_first());
        lemma_insert_desc_cats(x, s.drop_first());
        assert forall|i: int, j: int| 0 <= i < j < t.len() implies t[i].1 >= t[j].1 by {
            if i == 0 {
                assert(t[0] == s[0]);
                assert(rest[j - 1] == x || (exists|l: int|
                    0 <= l < s.drop_first().len() && rest[j - 1] == s.drop_first()[l]));
                if rest[j - 1] != x {
                    let l = choose|l: int|
                        0 <= l < s.drop_first().len() && rest[j - 1] == s.drop_first()[l];
                    assert(s.drop_first()[l] == s[l + 1]);
                    assert(s[0].1 >= s[l + 1].1);
                }
            } else {
                assert(t[i] == rest[i - 1]);
                assert(t[j] == rest[j - 1]);
            }
        }
    } else {
        assert forall|i: int, j: int| 0 <= i < j < t.len() implies t[i].1 >= t[j].1 by {
            if i == 0 {
                assert(t[j] == s[j - 1]);
                if j == 1 {
                    assert(s[0].1 < x.1);
                } else {
                    assert(s[0].1 >= s[j - 1].1);
                }
            } else {
                assert(t[i] == s[i - 1]);
                assert(t[j] == s[j - 1]);
            }
        }
    }
}

proof fn lemma_insert_desc_distinct(x: (Seq<char>, int), s: Seq<(Seq<char>, int)>)
    requires
        cats_distinct(s),
        !has_cat(s, x.0),
    ensures
        cats_distinct(insert_desc(x, s)),
{
    let t = insert_desc(x, s);
    lemma_insert_desc_splice(x, s);
    let p = choose|p: int|
        0 <= p <= s.len() && insert_desc(x, s) =~= #[trigger] s.take(p) + seq![x] + s.skip(p);
    assert forall|i: int, j: int| 0 <= i < j < t.len() implies t[i].0 != t[j].0 by {
        // Map positions of the spliced sequence back to `s` or to `x`.
        let li = if i < p {
            i
        } else {
            i - 1
        };
        let lj = if j < p {
            j
        } else {
            j - 1
        };
        if i != p {
            assert(t[i] == s[li]);
        }
        if j != p {
            assert(t[j] == s[lj]);
        }
        if i == p {
            assert(t[i] == x);
            if t[j].0 == x.0 {
                assert(has_cat(s, x.0)) by {
                    assert(s[lj].0 == x.0);
                }
            }
        } else if j == p {
            assert(t[j] == x);
            if t[i].0 == x.0 {
                assert(has_cat(s, x.0)) by {
                    assert(s[li].0 == x.0);
                }
            }
        } else {
            assert(li < lj);
            assert(s[li].0 != s[lj].0);
        }
    }
}

/// `insert_desc` keeps every element of `s` exactly once and adds `x`
/// exactly once: positionally, the result is `s` with `x` spliced in.
proof fn lemma_insert_desc_splice(x: (Seq<char>, int), s: Seq<(Seq<char>, int)>)
    ensures
        exists|p: int|
            0 <= p <= s.len() && insert_desc(x, s) =~= #[trigger] s.take(p) + seq![x] + s.skip(p),
    decreases s.len(),
{
    let t = insert_desc(x, s);
    if s.len() == 0 {
        assert(t =~= s.take(0) + seq![x] + s.skip(0));
    } else if s[0].1 >= x.1 {
        lemma_insert_desc_splice(x, s.drop_first());
        let p = choose|p: int|
            0 <= p <= s.drop_first().len() && insert_desc(x, s.drop_first()) =~= #[trigger] s
                .drop_first().take(p) + seq![x] + s.drop_first().skip(p);
        assert(t =~= s.take(p + 1) + seq![x] + s.skip(p + 1));
    } else {
        assert(t =~= s.take(0) + seq![x] + s.skip(0));
    }
}

/// Sorting preserves which categories occur, their counts being at least
/// one, non-emptiness of names, and distinctness; and it sorts.
pub proof fn lemma_sort_desc_wf(s: Seq<(Seq<char>, int)>)
    requires
        cats_distinct(s),
        forall|i: int| 0 <= i < s.len() ==> (#[trigger] s[i]).1 >= 1,
        forall|i: int| 0 <= i < s.len() ==> (#[trigger] s[i]).0.len() > 0,
    ensures
        sorted_desc(sort_desc(s)),
        cats_distinct(sort_desc(s)),
        forall|i: int| 0 <= i < sort_desc(s).len() ==> (#[trigger] sort_desc(s)[i]).1 >= 1,
        forall|i: int| 0 <= i < sort_desc(s).len() ==> (#[trigger] sort_desc(s)[i]).0.len() > 0,
        forall|c: Seq<char>| #[trigger] has_cat(sort_desc(s), c) == has_cat(s, c),
        sort_desc(s).len() == s.len(),
    decreases s.len(),
{
    lemma_sort_desc_len(s);
    if s.len() == 0 {
        assert forall|c: Seq<char>| #[trigger] has_cat(sort_desc(s), c) == has_cat(s, c) by {}
    } else {
        let front = s.drop_last();
        let x = s.last();
        assert(cats_distinct(front) && forall|i: int|
            0 <= i < front.len() ==> (#[trigger] front[i]).1 >= 1 && (#[trigger] front[i]).0.len()
                > 0) by {
            assert(forall|i: int| 0 <= i < front.len() ==> front[i] == s[i]);
        }
        lemma_sort_desc_wf(front);
        let sorted_front = sort_desc(front);
        assert(!has_cat(front, x.0)) by {
            if has_cat(front, x.0) {
                let i = choose|i: int| 0 <= i < front.len() && (#[trigger] front[i]).0 == x.0;
                assert(s[i].0 == s[s.len() - 1].0);
            }
        }
        lemma_insert_desc_sorted(x, sorted_front);
        lemma_insert_desc_distinct(x, sorted_front);
        lemma_insert_desc_cats(x, sorted_front);
        lemma_insert_desc_len(x, sorted_front);
        let t = insert_desc(x, sorted_front);
        assert forall|i: int| 0 <= i < t.len() implies (#[trigger] t[i]).1 >= 1 && (
        #[trigger] t[i]).0.len() > 0 by {
            if t[i] != x {
                let j = choose|j: int| 0 <= j < sorted_front.len() && t[i] == sorted_front[j];
            }
        }
        assert forall|c: Seq<char>| #[trigger] has_cat(t, c) == has_cat(s, c) by {
            assert(has_cat(t, c) == (x.0 == c || has_cat(front, c)));
            if x.0 == c {
                assert(s[s.len() - 1].0 == c);
            }
            if has_cat(front, c) {
                let i = choose|i: int| 0 <= i < front.len() && (#[trigger] front[i]).0 == c;
                assert(s[i].0 == c);
            }
            if has_cat(s, c) && x.0 != c {
                let i = choose|i: int| 0 <= i < s.len() && (#[trigger] s[i]).0 == c;
                assert(i < s.len() - 1);
                assert(front[i].0 == c);
            }
        }
    }
}

/// One assignment leaves the list well formed, records one more hit, adds
/// the category to those present, and never empties the list.
pub proof fn lemma_update_stat_wf(s: Seq<(Seq<char>, int)>, cat: Seq<char>)
    requires
        stat_seq_wf(s),
        cat.len() > 0,
    ensures
        stat_seq_wf(update_stat_spec(s, cat)),
        sum_hits(update_stat_spec(s, cat)) == sum_hits(s) + 1,
        update_stat_spec(s, cat).len() > 0,
        forall|c: Seq<char>|
            #[trigger] has_cat(update_stat_spec(s, cat), c) == (c == cat || has_cat(s, c)),
{
    lemma_find_cat_props(s, cat);
    lemma_sum_bump(s, cat);
    let b = bump_stat(s, cat);
    let i = find_cat(s, cat);
    assert(cats_distinct(b) && (forall|k: int| 0 <= k < b.len() ==> (#[trigger] b[k]).1 >= 1) && (
    forall|k: int| 0 <= k < b.len() ==> (#[trigger] b[k]).0.len() > 0)) by {
        if i == -1 {
            assert(forall|k: int| 0 <= k < s.len() ==> b[k] == s[k]);
            assert(b[b.len() - 1] == (cat, 1int));
        } else {
            assert(forall|k: int| 0 <= k < b.len() && k != i ==> b[k] == s[k]);
            assert(b[i] == (s[i].0, s[i].1 + 1));
        }
    }
    assert(forall|c: Seq<char>| #[trigger] has_cat(b, c) == (c == cat || has_cat(s, c))) by {
        assert forall|c: Seq<char>| #[trigger] has_cat(b, c) implies (c == cat || has_cat(s, c)) by {
            let k = choose|k: int| 0 <= k < b.len() && (#[trigger] b[k]).0 == c;
            if i == -1 && k == b.len() - 1 {
            } else {
                assert(b[k].0 == s[k].0);
            }
        }
        assert forall|c: Seq<char>| (c == cat || has_cat(s, c)) implies #[trigger] has_cat(
            b,
            c,
        ) by {
            if c == cat {
                if i == -1 {
                    assert(b[b.len() - 1].0 == cat);
                } else {
                    assert(b[i].0 == cat);
                }
            } else {
                let k = choose|k: int| 0 <= k < s.len() && (#[trigger] s[k]).0 == c;
                if i == -1 || k != i {
                    assert(b[k].0 == c);
                } else {
                    assert(b[i].0 == c);
                }
            }
        }
    }
    lemma_sort_desc_wf(b);
    lemma_sum_sort_desc(b);
    assert(b.len() > 0);
}

// ---------------------------------------------------------------------------
// The verified update itself.
// ---------------------------------------------------------------------------

/// First position whose record is for `cat`, if any.
fn find_category(stat: &Vec<CatStat>, cat: &str) -> (r: Option<usize>)
    ensures
        match r {
            Option::Some(i) => i < stat@.len() && stat.deep_view()[i as int].0 == cat@ && (forall|
                j: int,
            |
                0 <= j < i ==> stat.deep_view()[j].0 != cat@),
            Option::None => forall|j: int| 0 <= j < stat@.len() ==> stat.deep_view()[j].0 != cat@,
        },
{
    let n = stat.len();
    let mut i: usize = 0;
    while i < n
        invariant
            n == stat@.len(),
            i <= n,
            forall|j: int| 0 <= j < i ==> stat.deep_view()[j].0 != cat@,
        decreases n - i,
    {
        if str_eq(stat[i].category.as_str(), cat) {
            return Option::Some(i);
        }
        i += 1;
    }
    Option::None
}

/// First position in the sorted prefix `[0, k)` whose count is below that
/// of the record at `k`, or `k` itself.
fn insertion_point(v: &Vec<CatStat>, k: usize) -> (j: usize)
    requires
        k < v@.len(),
    ensures
        j <= k,
        forall|i: int| 0 <= i < j ==> v.deep_view()[i].1 >= v.deep_view()[k as int].1,
        j < k ==> v.deep_view()[j as int].1 < v.deep_view()[k as int].1,
{
    let xh = v[k].hits;
    let mut j: usize = 0;
    while j < k
        invariant
            k < v@.len(),
            j <= k,
            xh as int == v.deep_view()[k as int].1,
            forall|i: int| 0 <= i < j ==> v.deep_view()[i].1 >= v.deep_view()[k as int].1,
        decreases k - j,
    {
        if v[j].hits < xh {
            return j;
        }
        j += 1;
    }
    j
}

/// The exact position where stable insertion places a record.
proof fn lemma_insert_desc_at(x: (Seq<char>, int), s: Seq<(Seq<char>, int)>, j: int)
    requires
        sorted_desc(s),
        0 <= j <= s.len(),
        forall|i: int| 0 <= i < j ==> s[i].1 >= x.1,
        j < s.len() ==> s[j].1 < x.1,
    ensures
        insert_desc(x, s) =~= s.take(j) + seq![x] + s.skip(j),
    decreases s.len(),
{
    if s.len() == 0 {
        assert(insert_desc(x, s) =~= s.take(0) + seq![x] + s.skip(0));
    } else if j == 0 {
        assert(s[0].1 < x.1);
        assert(insert_desc(x, s) =~= s.take(0) + seq![x] + s.skip(0));
    } else {
        assert(s[0].1 >= x.1);
        let rest = s.drop_first();
        assert(forall|i: int| 0 <= i < j - 1 ==> rest[i] == s[i + 1]);
        lemma_insert_desc_at(x, rest, j - 1);
        assert(insert_desc(x, s) =~= seq![s[0]] + (rest.take(j - 1) + seq![x] + rest.skip(j - 1)));
        assert(seq![s[0]] + (rest.take(j - 1) + seq![x] + rest.skip(j - 1)) =~= s.take(j) + seq![x]
            + s.skip(j));
    }
}

/// Stable insertion sort by descending hit count.
fn sort_stats(v: &mut Vec<CatStat>)
    ensures
        final(v).deep_view() == sort_desc(old(v).deep_view()),
{
    let ghost orig = old(v).deep_view();
    let n = v.len();
    if n == 0 {
        proof {
            assert(v.deep_view() =~= sort_desc(orig));
        }
        return ;
    }
    proof {
        assert(orig.take(1).len() == 1);
        assert(orig.take(1).last() == orig[0]);
        assert(orig.take(1).drop_last() =~= Seq::<(Seq<char>, int)>::empty());
        assert(sort_desc(orig.take(1)) == insert_desc(
            orig.take(1).last(),
            sort_desc(orig.take(1).drop_last()),
        ));
        assert(sort_desc(Seq::<(Seq<char>, int)>::empty()) =~= Seq::<(Seq<char>, int)>::empty());
        assert(insert_desc(orig[0], Seq::empty()) =~= seq![orig[0]]);
        assert(v.deep_view().take(1) =~= seq![orig[0]]);
    }
    let mut k: usize = 1;
    while k < n
        invariant
            v@.len() == n,
            n == orig.len(),
            1 <= k <= n,
            v.deep_view().skip(k as int) =~= orig.skip(k as int),
            v.deep_view().take(k as int) =~= sort_desc(orig.take(k as int)),
            sorted_desc(v.deep_view().take(k as int)),
        decreases n - k,
    {
        let ghost pre = v.deep_view();
        let j = insertion_point(v, k);
        let ghost x = pre[k as int];
        let rec = v.remove(k);
        v.insert(j, rec);
        proof {
            let sorted_prefix = pre.take(k as int);
            assert forall|i: int| 0 <= i < j implies sorted_prefix[i].1 >= x.1 by {
                assert(sorted_prefix[i] == pre[i]);
            }
            lemma_insert_desc_at(x, sorted_prefix, j as int);
            // The new contents: prefix with x spliced at j, rest unchanged.
            assert(v.deep_view() =~= pre.take(k as int).take(j as int) + seq![x] + pre.take(
                k as int,
            ).skip(j as int) + pre.skip(k as int + 1));
            assert(v.deep_view().take(k as int + 1) =~= insert_desc(x, sorted_prefix));
            assert(v.deep_view().skip(k as int + 1) =~= pre.skip(k as int + 1));
            assert forall|i: int| 0 <= i < pre.skip(k as int + 1).len() implies #[trigger] pre.skip(
                k as int + 1,
            )[i] == orig.skip(k as int + 1)[i] by {
                assert(pre.skip(k as int)[i + 1] == pre[k + 1 + i]);
                assert(orig.skip(k as int)[i + 1] == orig[k + 1 + i]);
            }
            assert(pre.skip(k as int + 1) =~= orig.skip(k as int + 1));
            // Unfold the sort of one more element.
            assert(orig.take(k as int + 1).drop_last() =~= orig.take(k as int));
            assert(orig.take(k as int + 1).last() == orig[k as int]);
            assert(pre.skip(k as int)[0] == pre[k as int]);
            assert(orig.skip(k as int)[0] == orig[k as int]);
            assert(x == orig[k as int]);
            assert(sort_desc(orig.take(k as int + 1)) == insert_desc(
                orig[k as int],
                sort_desc(orig.take(k as int)),
            ));
            lemma_insert_desc_sorted(x, sorted_prefix);
        }
        k += 1;
    }
    proof {
        assert(v.deep_view().take(n as int) =~= v.deep_view());
        assert(orig.take(n as int) =~= orig);
    }
}

/// Record one more assignment of `cat` in an item's statistics list:
/// increment the matching record or append a fresh one, then re-rank.
pub fn update_stat(cat: &str, stat: &mut Vec<CatStat>)
    requires
        forall|j: int|
            0 <= j < old(stat).deep_view().len() ==> (#[trigger] old(stat).deep_view()[j]).1
                < i64::MAX,
    ensures
        final(stat).deep_view() == update_stat_spec(old(stat).deep_view(), cat@),
{
    let ghost orig = stat.deep_view();
    let found = find_category(stat, cat);
    match found {
        Option::Some(i) => {
            proof {
                lemma_find_cat_at(orig, cat@, i as int);
            }
            let rec = stat.remove(i);
            let bumped = CatStat { category: rec.category, hits: rec.hits + 1 };
            stat.insert(i, bumped);
            proof {
                assert(stat.deep_view() =~= bump_stat(orig, cat@));
            }
        },
        Option::None => {
            proof {
                lemma_find_cat_none(orig, cat@);
            }
            let fresh = CatStat { category: String::from_str(cat), hits: 1 };
            stat.push(fresh);
            proof {
                assert(stat.deep_view() =~= bump_stat(orig, cat@));
            }
        },
    }
    sort_stats(stat);
}

// ---------------------------------------------------------------------------
// The per-user store: a radix trie from item name to its statistics list.
// ---------------------------------------------------------------------------

#[verifier::external_type_specification]
#[verifier::external_body]
#[verifier::reject_recursive_types(K)]
#[verifier::reject_recursive_types(V)]
pub struct ExTrie<K, V>(radix_trie::Trie<K, V>);

/// Per-user category statistics, keyed by item name.
pub type CatStats = radix_trie::Trie<String, Vec<CatStat>>;

/// What a statistics trie holds: the item names mapped to their record
/// lists.
pub uninterp spec fn cat_stats_model(t: CatStats) -> Map<Seq<char>, Seq<(Seq<char>, int)>>;

/// Every stored list well formed and non-empty.
pub open spec fn stats_wf(m: Map<Seq<char>, Seq<(Seq<char>, int)>>) -> bool {
    forall|k: Seq<char>|
        m.contains_key(k) ==> stat_seq_wf(#[trigger] m[k]) && m[k].len() > 0
}

/// Relies on radix_trie::Trie::new: the fresh trie holds no entries.
#[verifier::external_body]
pub fn cat_stats_new() -> (t: CatStats)
    ensures
        cat_stats_model(t) =~= Map::empty(),
{
    radix_trie::Trie::new()
}

/// Relies on radix_trie::Trie::get: the value stored under `item`, if
/// any; the returned records are clones of the stored ones.
#[verifier::external_body]
pub fn cat_stats_get(t: &CatStats, item: &str) -> (r: Option<Vec<CatStat>>)
    ensures
        match r {
            Option::Some(v) => cat_stats_model(*t).contains_key(item@) && v.deep_view()
                == cat_stats_model(*t)[item@],
            Option::None => !cat_stats_model(*t).contains_key(item@),
        },
{
    t.get(item).cloned()
}

/// Relies on radix_trie::Trie::insert: stores `stats` under `item`,
/// replacing any previous value.
#[verifier::external_body]
pub fn cat_stats_insert(t: &mut CatStats, item: &str, stats: Vec<CatStat>)
    ensures
        cat_stats_model(*final(t)) == cat_stats_model(*old(t)).insert(item@, stats.deep_view()),
{
    t.insert(String::from(item), stats);
}

/// Relies on the derived Clone of radix_trie::Trie: the clone holds equal
/// keys and values.
#[verifier::external_body]
pub fn cat_stats_clone(t: &CatStats) -> (r: CatStats)
    ensures
        cat_stats_model(r) == cat_stats_model(*t),
{
    t.clone()
}

/// Relies on radix_trie::Trie::iter: every stored entry is produced
/// exactly once; pairs are clones of the stored keys and values.
#[verifier::external_body]
pub fn cat_stats_entries(t: &CatStats) -> (r: Vec<(String, Vec<CatStat>)>)
    ensures
        forall|i: int|
            0 <= i < r@.len() ==> cat_stats_model(*t).contains_key((#[trigger] r@[i]).0@)
                && r@[i].1.deep_view() == cat_stats_model(*t)[r@[i].0@],
        forall|k: Seq<char>|
            cat_stats_model(*t).contains_key(k) ==> exists|i: int|
                0 <= i < r@.len() && (#[trigger] r@[i]).0@ == k,
        forall|i: int, j: int| 0 <= i < j < r@.len() ==> r@[i].0@ != r@[j].0@,
{
    t.iter().map(|(k, v)| (k.clone(), v.clone())).collect()
}

/// The statistics list an item currently has, empty when the item is
/// unknown.
pub open spec fn stats_of(m: Map<Seq<char>, Seq<(Seq<char>, int)>>, item: Seq<char>) -> Seq<
    (Seq<char>, int),
> {
    if m.contains_key(item) {
        m[item]
    } else {
        Seq::empty()
    }
}

/// What one `assign` does to the whole store.
pub open spec fn assign_spec(
    m: Map<Seq<char>, Seq<(Seq<char>, int)>>,
    item: Seq<char>,
    cat: Seq<char>,
) -> Map<Seq<char>, Seq<(Seq<char>, int)>> {
    m.insert(item, update_stat_spec(stats_of(m, item), cat))
}

/// Record `cat` as the category chosen for `item`: update the statistics
/// or create a fresh entry, keeping the store well formed.
pub fn assign_category(item: &str, cat: &str, storage: &mut CatStats)
    requires
        cat@.len() > 0,
        stats_wf(cat_stats_model(*old(storage))),
        forall|j: int|
            0 <= j < stats_of(cat_stats_model(*old(storage)), item@).len() ==> (
            #[trigger] stats_of(cat_stats_model(*old(storage)), item@)[j]).1 < i64::MAX,
    ensures
        cat_stats_model(*final(storage)) == assign_spec(
            cat_stats_model(*old(storage)),
            item@,
            cat@,
        ),
        stats_wf(cat_stats_model(*final(storage))),
{
    let ghost m = cat_stats_model(*storage);
    let existing = cat_stats_get(storage, item);
    let mut stat: Vec<CatStat> = match existing {
        Option::Some(v) => v,
        Option::None => Vec::new(),
    };
    proof {
        assert(stat.deep_view() =~= stats_of(m, item@));
    }
    update_stat(cat, &mut stat);
    cat_stats_insert(storage, item, stat);
    proof {
        if m.contains_key(item@) {
            lemma_update_stat_wf(m[item@], cat@);
        } else {
            lemma_update_stat_wf(Seq::empty(), cat@);
        }
        let m2 = cat_stats_model(*storage);
        assert forall|k: Seq<char>| m2.contains_key(k) implies stat_seq_wf(#[trigger] m2[k]) by {
            if k != item@ {
                assert(m2[k] == m[k]);
            }
        }
    }
}

/// The most used category for `item`, or none when the item is unknown.
pub fn get_top_category(item: &str, storage: &CatStats) -> (r: Option<String>)
    requires
        stats_wf(cat_stats_model(*storage)),
    ensures
        match r {
            Option::Some(c) => cat_stats_model(*storage).contains_key(item@) && c@
                == cat_stats_model(*storage)[item@][0].0,
            Option::None => !cat_stats_model(*storage).contains_key(item@),
        },
{
    let found = cat_stats_get(storage, item);
    match found {
        Option::Some(stats) => {
            proof {
                assert(stats.deep_view().len() == stats@.len());
                assert(stats.deep_view()[0] == stats@[0]@);
            }
            Option::Some(stats[0].category.clone())
        },
        Option::None => Option::None,
    }
}

/// A dumped record list as model values.
pub open spec fn pairs_model(s: Seq<(Seq<char>, i64)>) -> Seq<(Seq<char>, int)> {
    Seq::new(s.len(), |i: int| (s[i].0, s[i].1 as int))
}

/// A whole dump as model values.
pub open spec fn dump_model(s: Seq<(Seq<char>, Seq<(Seq<char>, i64)>)>) -> Seq<
    (Seq<char>, Seq<(Seq<char>, int)>),
> {
    Seq::new(s.len(), |i: int| (s[i].0, pairs_model(s[i].1)))
}

/// What loading a dump yields: entries whose record lists satisfy the
/// store invariant are kept, later entries for an item winning; the rest
/// are dropped.
pub open spec fn load_spec(s: Seq<(Seq<char>, Seq<(Seq<char>, int)>)>) -> Map<
    Seq<char>,
    Seq<(Seq<char>, int)>,
>
    decreases s.len(),
{
    if s.len() == 0 {
        Map::empty()
    } else {
        let front = load_spec(s.drop_last());
        if stat_seq_wf(s.last().1) && s.last().1.len() > 0 && (forall|j: int|
            0 <= j < s.last().1.len() ==> (#[trigger] s.last().1[j]).1 < i64::MAX + 1) {
            front.insert(s.last().0, s.last().1)
        } else {
            front
        }
    }
}

/// Whether a dumped record list satisfies the store invariant.
fn stat_list_valid(v: &Vec<(String, i64)>) -> (r: bool)
    ensures
        r == (stat_seq_wf(pairs_model(v.deep_view())) && v.deep_view().len() > 0),
{
    let ghost pm = pairs_model(v.deep_view());
    let n = v.len();
    if n == 0 {
        return false;
    }
    let mut i: usize = 0;
    while i < n
        invariant
            n == v@.len(),
            i <= n,
            pm == pairs_model(v.deep_view()),
            forall|j: int|
                0 <= j < i ==> (#[trigger] pm[j]).1 >= 1 && pm[j].0.len()
                    > 0,
            forall|j: int| 0 < j < i ==> pm[j - 1].1 >= (#[trigger] pm[j]).1,
            forall|a: int, b: int| 0 <= a < b < i ==> (#[trigger] pm[a]).0 != (#[trigger] pm[b]).0,
        decreases n - i,
    {
        proof {
            assert(v.deep_view()[i as int] == v@[i as int].deep_view());
            assert(pm[i as int] == (v@[i as int].0@, v@[i as int].1 as int));
        }
        if v[i].1 < 1 {
            proof {
                assert(!stat_seq_wf(pm)) by {
                    assert(pm[i as int].1 < 1);
                }
            }
            return false;
        }
        if v[i].0.as_str().unicode_len() == 0 {
            proof {
                assert(!stat_seq_wf(pm)) by {
                    assert(pm[i as int].0.len() == 0);
                }
            }
            return false;
        }
        if i > 0 && v[i - 1].1 < v[i].1 {
            proof {
                assert(!sorted_desc(pm)) by {
                    assert(pm[i - 1].1 < pm[i as int].1);
                }
            }
            return false;
        }
        let mut j: usize = 0;
        while j < i
            invariant
                n == v@.len(),
                i < n,
                j <= i,
                pm == pairs_model(v.deep_view()),
                forall|a: int, b: int|
                    0 <= a < b < i ==> (#[trigger] pm[a]).0 != (#[trigger] pm[b]).0,
                forall|l: int| 0 <= l < j ==> (#[trigger] pm[l]).0 != pm[i as int].0,
            decreases i - j,
        {
            proof {
                assert(v.deep_view()[j as int] == v@[j as int].deep_view());
                assert(pm[j as int] == (v@[j as int].0@, v@[j as int].1 as int));
            }
            if str_eq(v[j].0.as_str(), v[i].0.as_str()) {
                proof {
                    assert(!cats_distinct(pm)) by {
                        assert(pm[j as int].0 == pm[i as int].0);
                    }
                }
                return false;
            }
            j += 1;
        }
        i += 1;
    }
    proof {
        assert(sorted_desc(pm)) by {
            assert forall|a: int, b: int|
                0 <= a < b < v.deep_view().len() implies pm[a].1 >= pm[b].1 by {
                lemma_desc_steps(pm, a, b);
            }
        }
        assert(cats_distinct(pm)) by {
            assert forall|a: int, b: int| 0 <= a < b < pm.len() implies pm[a].0 != pm[b].0 by {
                assert(b < n);
            }
        }
    }
    true
}

/// Adjacent descents give the full descending order.
proof fn lemma_desc_steps(s: Seq<(Seq<char>, int)>, a: int, b: int)
    requires
        forall|j: int| 0 < j < s.len() ==> s[j - 1].1 >= (#[trigger] s[j]).1,
        0 <= a <= b < s.len(),
    ensures
        s[a].1 >= s[b].1,
    decreases b - a,
{
    if a < b {
        lemma_desc_steps(s, a, b - 1);
        assert(s[b - 1].1 >= s[b].1);
    }
}

/// Rebuild a statistics store from dumped entries, keeping only lists
/// that satisfy the store invariant.
pub fn load_cat_stats(entries: &Vec<(String, Vec<(String, i64)>)>) -> (t: CatStats)
    ensures
        cat_stats_model(t) == load_spec(dump_model(entries.deep_view())),
        stats_wf(cat_stats_model(t)),
{
    let ghost dm = dump_model(entries.deep_view());
    let n = entries.len();
    let mut t = cat_stats_new();
    let mut i: usize = 0;
    proof {
        assert(dm.take(0) =~= Seq::<(Seq<char>, Seq<(Seq<char>, int)>)>::empty());
        assert(cat_stats_model(t) =~= load_spec(dm.take(0)));
    }
    while i < n
        invariant
            n == entries@.len(),
            i <= n,
            dm == dump_model(entries.deep_view()),
            cat_stats_model(t) == load_spec(dm.take(i as int)),
            stats_wf(cat_stats_model(t)),
        decreases n - i,
    {
        let ghost pre = cat_stats_model(t);
        proof {
            assert(dm.take(i + 1).drop_last() =~= dm.take(i as int));
            assert(dm.take(i + 1).last() == dm[i as int]);
            assert(entries.deep_view()[i as int] == entries@[i as int].deep_view());
            assert(dm[i as int].0 == entries@[i as int].0@);
            assert(dm[i as int].1 == pairs_model(entries@[i as int].1.deep_view()));
        }
        let (name, list) = &entries[i];
        let m = list.len();
        if stat_list_valid(list) {
            let mut stats: Vec<CatStat> = Vec::new();
            let mut k2: usize = 0;
            while k2 < m
                invariant
                    m == list@.len(),
                    k2 <= m,
                    pairs_model(list.deep_view()) == dm[i as int].1,
                    stats.deep_view() =~= pairs_model(list.deep_view()).take(k2 as int),
                decreases m - k2,
            {
                proof {
                    assert(list.deep_view()[k2 as int] == list@[k2 as int].deep_view());
                    assert(pairs_model(list.deep_view())[k2 as int] == (
                        list@[k2 as int].0@,
                        list@[k2 as int].1 as int,
                    ));
                }
                let (c, h) = &list[k2];
                stats.push(CatStat { category: c.clone(), hits: *h });
                proof {
                    assert(stats.deep_view() =~= pairs_model(list.deep_view()).take(
                        k2 as int,
                    ).push(pairs_model(list.deep_view())[k2 as int]));
                    assert(pairs_model(list.deep_view()).take(k2 as int).push(
                        pairs_model(list.deep_view())[k2 as int],
                    ) =~= pairs_model(list.deep_view()).take(k2 + 1));
                }
                k2 += 1;
            }
            proof {
                assert(pairs_model(list.deep_view()).take(m as int) =~= pairs_model(
                    list.deep_view(),
                ));
            }
            cat_stats_insert(&mut t, name.as_str(), stats);
        }
        proof {
            assert forall|j: int| 0 <= j < dm[i as int].1.len() implies (
            #[trigger] dm[i as int].1[j]).1 < i64::MAX + 1 by {
                assert(dm[i as int].1[j].1 == list@[j].1 as int);
            }
            let cur = cat_stats_model(t);
            assert(cur == load_spec(dm.take(i + 1)));
            assert forall|key: Seq<char>| cur.contains_key(key) implies stat_seq_wf(
                #[trigger] cur[key],
            ) && cur[key].len() > 0 by {
                if key != dm[i as int].0 {
                    assert(cur[key] == pre[key]);
                }
            }
        }
        i += 1;
    }
    proof {
        assert(dm.take(n as int) =~= dm);
    }
    t
}

/// Apply the user's choice for an item: an empty choice keeps the top
/// category (or none), a real one is recorded and used.
pub fn apply_category_choice(item: &str, chosen: &str, storage: &mut CatStats) -> (r: String)
    requires
        stats_wf(cat_stats_model(*old(storage))),
        forall|j: int|
            0 <= j < stats_of(cat_stats_model(*old(storage)), item@).len() ==> (
            #[trigger] stats_of(cat_stats_model(*old(storage)), item@)[j]).1 < i64::MAX,
    ensures
        stats_wf(cat_stats_model(*final(storage))),
        ({
            let m = cat_stats_model(*old(storage));
            if chosen@.len() == 0 {
                &&& cat_stats_model(*final(storage)) == m
                &&& r@ == if m.contains_key(item@) {
                    m[item@][0].0
                } else {
                    Seq::<char>::empty()
                }
            } else {
                &&& cat_stats_model(*final(storage)) == assign_spec(m, item@, chosen@)
                &&& r@ == chosen@
            }
        }),
{
    if chosen.unicode_len() == 0 {
        match get_top_category(item, storage) {
            Option::Some(cat) => cat,
            Option::None => {
                let r = String::new();
                proof {
                    assert(r@ =~= Seq::<char>::empty());
                }
                r
            },
        }
    } else {
        assign_category(item, chosen, storage);
        String::from_str(chosen)
    }
}

// ---------------------------------------------------------------------------
// The ranking invariant, stated over whole histories of assignments.
// ---------------------------------------------------------------------------

/// The store after a history of `assign` calls, each an (item, category)
/// pair, applied in order to an empty store.
pub open spec fn apply_assigns(
    m: Map<Seq<char>, Seq<(Seq<char>, int)>>,
    calls: Seq<(Seq<char>, Seq<char>)>,
) -> Map<Seq<char>, Seq<(Seq<char>, int)>>
    decreases calls.len(),
{
    if calls.len() == 0 {
        m
    } else {
        assign_spec(apply_assigns(m, calls.drop_last()), calls.last().0, calls.last().1)
    }
}

/// How many calls in the history assigned a category to `item`.
pub open spec fn count_assigns_to(calls: Seq<(Seq<char>, Seq<char>)>, item: Seq<char>) -> int
    decreases calls.len(),
{
    if calls.len() == 0 {
        0
    } else {
        count_assigns_to(calls.drop_last(), item) + if calls.last().0 == item {
            1int
        } else {
            0int
        }
    }
}

/// Ranking invariant: after any history of assignments with non-empty
/// category names, starting from an empty store, every item's list is
/// sorted by descending hits and its total hit count equals the number of
/// assignments recorded for that item.
pub proof fn lemma_ranking_invariant(calls: Seq<(Seq<char>, Seq<char>)>, item: Seq<char>)
    requires
        forall|i: int| 0 <= i < calls.len() ==> (#[trigger] calls[i]).1.len() > 0,
    ensures
        count_assigns_to(calls, item) >= 0,
        ({
            let m = apply_assigns(Map::empty(), calls);
            &&& stats_wf(m)
            &&& m.contains_key(item) <==> count_assigns_to(calls, item) > 0
            &&& m.contains_key(item) ==> sorted_desc(m[item]) && sum_hits(m[item])
                == count_assigns_to(calls, item)
        }),
    decreases calls.len(),
{
    if calls.len() == 0 {
    } else {
        let front = calls.drop_last();
        let last = calls.last();
        assert(forall|i: int| 0 <= i < front.len() ==> (#[trigger] front[i]).1.len() > 0) by {
            assert(forall|i: int| 0 <= i < front.len() ==> front[i] == calls[i]);
        }
        lemma_ranking_invariant(front, item);
        lemma_ranking_invariant(front, last.0);
        let m0 = apply_assigns(Map::empty(), front);
        let m = apply_assigns(Map::empty(), calls);
        lemma_update_stat_wf(stats_of(m0, last.0), last.1);
        assert(m == m0.insert(last.0, update_stat_spec(stats_of(m0, last.0), last.1)));
        assert(stats_wf(m)) by {
            assert forall|k: Seq<char>| m.contains_key(k) implies stat_seq_wf(#[trigger] m[k]) by {
                if k != last.0 {
                    assert(m[k] == m0[k]);
                }
            }
        }
        if last.0 == item {
            assert(sum_hits(stats_of(m0, item)) == count_assigns_to(front, item));
            assert(sum_hits(m[item]) == count_assigns_to(calls, item));
        } else {
            assert(m.contains_key(item) == m0.contains_key(item));
            assert(m.contains_key(item) ==> m[item] == m0[item]);
            assert(count_assigns_to(calls, item) == count_assigns_to(front, item));
        }
    }
}

} // verus!

