//! Line filters that clean up receipt item names before they are used as
//! ledger memos: store-number prefixes, separator runs and trailing unit
//! markers are removed.

use vstd::prelude::*;

use crate::textutil::{
    has_suffix, numeric_char, perek_char, strip_suffix_rep, strip_suffix_repeated, trim_end_numeric,
    trim_end_ws, trim_leading, trim_start_numeric, trim_start_perek, trim_start_ws, trim_trailing,
    whitespace_char,
};

verus! {

/// Remove leading whitespace, then a leading number, then whitespace.
pub open spec fn numfilter_spec(s: Seq<char>) -> Seq<char> {
    trim_leading(
        trim_leading(trim_leading(s, |c: char| whitespace_char(c)), |c: char| numeric_char(c)),
        |c: char| whitespace_char(c),
    )
}

/// Remove leading whitespace, a leading number, then any run of `*`, `:`
/// and spaces, then whitespace.
pub open spec fn perek_stage_spec(s: Seq<char>) -> Seq<char> {
    trim_leading(
        trim_leading(
            trim_leading(trim_leading(s, |c: char| whitespace_char(c)), |c: char| numeric_char(c)),
            |c: char| perek_char(c),
        ),
        |c: char| whitespace_char(c),
    )
}

/// Remove a trailing unit marker, then a trailing quantity.
pub open spec fn trim_units_spec(s: Seq<char>) -> Seq<char> {
    let t = if has_suffix(s, "кг"@) {
        trim_trailing(strip_suffix_rep(s, "кг"@), |c: char| whitespace_char(c))
    } else if has_suffix(s, "г"@) {
        trim_trailing(strip_suffix_rep(s, "г"@), |c: char| whitespace_char(c))
    } else if has_suffix(s, "мл"@) {
        trim_trailing(strip_suffix_rep(s, "мл"@), |c: char| whitespace_char(c))
    } else if has_suffix(s, "л"@) {
        trim_trailing(strip_suffix_rep(s, "л"@), |c: char| whitespace_char(c))
    } else {
        s
    };
    trim_trailing(trim_trailing(t, |c: char| numeric_char(c)), |c: char| whitespace_char(c))
}

/// Remove leading whitespace, a leading store number, then a separator
/// run, and finally apply the number filter once more.
pub open spec fn perek_free_spec(s: Seq<char>) -> Seq<char> {
    numfilter_spec(
        trim_leading(
            trim_leading(trim_leading(s, |c: char| whitespace_char(c)), |c: char| numeric_char(c)),
            |c: char| perek_char(c),
        ),
    )
}

/// Cut a leading id number from an item name.
pub fn numfilter<'a>(line: &'a str) -> (r: &'a str)
    ensures
        r@ == numfilter_spec(line@),
{
    trim_start_ws(trim_start_numeric(trim_start_ws(line)))
}

/// Cut a leading store number and separators from an item name.
pub fn perekrestok_filter<'a>(line: &'a str) -> (r: &'a str)
    ensures
        r@ == perek_free_spec(line@),
{
    numfilter(trim_start_perek(trim_start_numeric(trim_start_ws(line))))
}

/// Keep the line as it is.
pub fn nofilter<'a>(line: &'a str) -> (r: &'a str)
    ensures
        r@ == line@,
{
    line
}

fn perek_stage<'a>(line: &'a str) -> (r: &'a str)
    ensures
        r@ == perek_stage_spec(line@),
{
    trim_start_ws(trim_start_perek(trim_start_numeric(trim_start_ws(line))))
}

fn trim_units_stage<'a>(line: &'a str) -> (r: &'a str)
    ensures
        r@ == trim_units_spec(line@),
{
    proof {
        reveal_strlit("кг");
        reveal_strlit("г");
        reveal_strlit("мл");
        reveal_strlit("л");
    }
    let t: &'a str = if crate::textutil::str_ends_with(line, "кг") {
        trim_end_ws(strip_suffix_repeated(line, "кг"))
    } else if crate::textutil::str_ends_with(line, "г") {
        trim_end_ws(strip_suffix_repeated(line, "г"))
    } else if crate::textutil::str_ends_with(line, "мл") {
        trim_end_ws(strip_suffix_repeated(line, "мл"))
    } else if crate::textutil::str_ends_with(line, "л") {
        trim_end_ws(strip_suffix_repeated(line, "л"))
    } else {
        line
    };
    trim_end_ws(trim_end_numeric(t))
}

/// One cleanup pass of a line filter.
#[derive(Clone, Copy, PartialEq, Eq, Structural, Debug)]
pub enum FilterStep {
    Numeric,
    Perekrestok,
    TrimUnits,
}

/// What one pass does to a line.
pub open spec fn apply_step(st: FilterStep, s: Seq<char>) -> Seq<char> {
    match st {
        FilterStep::Numeric => numfilter_spec(s),
        FilterStep::Perekrestok => perek_stage_spec(s),
        FilterStep::TrimUnits => trim_units_spec(s),
    }
}

/// The passes applied in order, first added first.
pub open spec fn apply_steps(steps: Seq<FilterStep>, s: Seq<char>) -> Seq<char>
    decreases steps.len(),
{
    if steps.len() == 0 {
        s
    } else {
        apply_step(steps.last(), apply_steps(steps.drop_last(), s))
    }
}

/// A composable cleanup filter for receipt lines, built one pass at a
/// time.
pub struct LineFilter {
    steps: Vec<FilterStep>,
}

impl View for LineFilter {
    type V = Seq<FilterStep>;

    closed spec fn view(&self) -> Seq<FilterStep> {
        self.steps@
    }
}

impl LineFilter {
    /// The identity filter.
    pub fn new() -> (r: Self)
        ensures
            r@ == Seq::<FilterStep>::empty(),
    {
        LineFilter { steps: Vec::new() }
    }

    /// Add a pass that cuts a leading id number.
    pub fn numfilter(self) -> (r: Self)
        ensures
            r@ == self@.push(FilterStep::Numeric),
    {
        let mut s = self;
        s.steps.push(FilterStep::Numeric);
        s
    }

    /// Add a pass that cuts a leading store number and separators.
    pub fn perekrestok_filter(self) -> (r: Self)
        ensures
            r@ == self@.push(FilterStep::Perekrestok),
    {
        let mut s = self;
        s.steps.push(FilterStep::Perekrestok);
        s
    }

    /// Add a pass that cuts a trailing quantity and unit marker.
    pub fn trim_units_from_end(self) -> (r: Self)
        ensures
            r@ == self@.push(FilterStep::TrimUnits),
    {
        let mut s = self;
        s.steps.push(FilterStep::TrimUnits);
        s
    }

    /// Finish building; the filter is applied with `apply`.
    pub fn build(self) -> (r: Self)
        ensures
            r@ == self@,
    {
        self
    }

    /// Run every pass over `line`, in the order they were added.
    pub fn apply<'a>(&self, line: &'a str) -> (r: &'a str)
        ensures
            r@ == apply_steps(self@, line@),
    {
        let mut cur: &'a str = line;
        let n = self.steps.len();
        let mut i: usize = 0;
        proof {
            assert(self@.take(0) =~= Seq::<FilterStep>::empty());
        }
        while i < n
            invariant
                n == self@.len(),
                i <= n,
                cur@ == apply_steps(self@.take(i as int), line@),
            decreases n - i,
        {
            let step = self.steps[i];
            cur = match step {
                FilterStep::Numeric => numfilter(cur),
                FilterStep::Perekrestok => perek_stage(cur),
                FilterStep::TrimUnits => trim_units_stage(cur),
            };
            proof {
                assert(self@.take(i + 1).drop_last() =~= self@.take(i as int));
                assert(self@.take(i + 1).last() == self@[i as int]);
            }
            i += 1;
        }
        proof {
            assert(self@.take(n as int) =~= self@);
        }
        cur
    }
}

} // verus!
