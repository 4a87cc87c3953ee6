//! The conversation state machine that walks a user through categorizing
//! every uncategorized item of one uploaded receipt.  Transport work
//! (receiving events, sending messages, downloading files) happens
//! outside; each inbound event is turned into a state transition and a
//! list of actions for the transport layer to perform.

use vstd::prelude::*;

use crate::categories::{assign_spec, get_top_category, stats_of};
use crate::convert::{expected_split_models, trans_model};
use crate::receipt::sum_item_prices;
use crate::user::stripped_with_prefix;
use crate::matcher::{filter_categories, filter_categories_spec};
use crate::textutil::{
    contains_sub, dec_digits, lower_of, lowercase, sort_lex, sort_strings, split_colon,
    split_colon_str, str_contains, str_eq, str_starts_with, strip_prefix_str, trim_end_ws,
    trim_leading, trim_start_ws, trim_trailing, upper_of, whitespace_char,
};
use crate::user::{User, UserV};

verus! {

// ---------------------------------------------------------------------------
// The ordered map of decided items: item name -> chosen category, in the
// order the items were first decided.  Positions are stable, so buttons
// can address entries by index.
// ---------------------------------------------------------------------------

/// First index holding key `k`, or -1.
pub open spec fn dl_find(s: Seq<(Seq<char>, Seq<char>)>, k: Seq<char>) -> int
    decreases s.len(),
{
    if s.len() == 0 {
        -1
    } else if s[0].0 == k {
        0
    } else {
        let r = dl_find(s.drop_first(), k);
        if r == -1 {
            -1
        } else {
            1 + r
        }
    }
}

/// Whether some entry holds key `k`.
pub open spec fn dl_has(s: Seq<(Seq<char>, Seq<char>)>, k: Seq<char>) -> bool {
    exists|i: int| 0 <= i < s.len() && (#[trigger] s[i]).0 == k
}

/// Insert or overwrite: an existing entry keeps its position, a new key
/// goes to the end.
pub open spec fn dl_insert(
    s: Seq<(Seq<char>, Seq<char>)>,
    k: Seq<char>,
    v: Seq<char>,
) -> Seq<(Seq<char>, Seq<char>)> {
    let i = dl_find(s, k);
    if i == -1 {
        s.push((k, v))
    } else {
        s.update(i, (k, v))
    }
}

/// The keys, in order.
pub open spec fn dl_keys(s: Seq<(Seq<char>, Seq<char>)>) -> Seq<Seq<char>> {
    Seq::new(s.len(), |i: int| s[i].0)
}

/// Keys pairwise distinct.
pub open spec fn dl_distinct(s: Seq<(Seq<char>, Seq<char>)>) -> bool {
    forall|i: int, j: int| 0 <= i < j < s.len() ==> (#[trigger] s[i]).0 != (#[trigger] s[j]).0
}

pub proof fn lemma_dl_find_props(s: Seq<(Seq<char>, Seq<char>)>, k: Seq<char>)
    ensures
        -1 <= dl_find(s, k) < s.len(),
        dl_find(s, k) == -1 ==> !dl_has(s, k),
        dl_find(s, k) >= 0 ==> s[dl_find(s, k)].0 == k,
        forall|j: int| 0 <= j < s.len() && s[j].0 == k ==> dl_find(s, k) >= 0 && dl_find(s, k) <= j,
    decreases s.len(),
{
    if s.len() == 0 {
    } else if s[0].0 == k {
    } else {
        lemma_dl_find_props(s.drop_first(), k);
        assert forall|j: int| 0 <= j < s.len() && s[j].0 == k implies dl_find(s, k) >= 0 && dl_find(
            s,
            k,
        ) <= j by {
            assert(s.drop_first()[j - 1] == s[j]);
        }
        if dl_find(s.drop_first(), k) == -1 {
            assert forall|i: int| 0 <= i < s.len() implies (#[trigger] s[i]).0 != k by {
                if i > 0 {
                    assert(s.drop_first()[i - 1] == s[i]);
                }
            }
        }
    }
}

/// Inserting preserves distinct keys; a fresh key appends itself to the
/// key list, a known key leaves it as it was.
pub proof fn lemma_dl_insert(s: Seq<(Seq<char>, Seq<char>)>, k: Seq<char>, v: Seq<char>)
    requires
        dl_distinct(s),
    ensures
        dl_distinct(dl_insert(s, k, v)),
        !dl_has(s, k) ==> dl_keys(dl_insert(s, k, v)) =~= dl_keys(s).push(k),
        dl_has(s, k) ==> dl_keys(dl_insert(s, k, v)) =~= dl_keys(s),
        dl_insert(s, k, v).len() == if dl_has(s, k) {
            s.len()
        } else {
            s.len() + 1
        },
        forall|c: Seq<char>| #[trigger] dl_has(dl_insert(s, k, v), c) == (c == k || dl_has(s, c)),
{
    lemma_dl_find_props(s, k);
    let i = dl_find(s, k);
    let t = dl_insert(s, k, v);
    if i == -1 {
        assert(forall|j: int| 0 <= j < s.len() ==> t[j] == s[j]);
        assert(t[t.len() - 1] == (k, v));
        assert forall|a: int, b: int| 0 <= a < b < t.len() implies (#[trigger] t[a]).0 != (
        #[trigger] t[b]).0 by {
            if b == t.len() - 1 {
                if t[a].0 == k {
                    assert(s[a].0 == k);
                }
            }
        }
        assert forall|c: Seq<char>| #[trigger] dl_has(t, c) == (c == k || dl_has(s, c)) by {
            if dl_has(t, c) {
                let j = choose|j: int| 0 <= j < t.len() && (#[trigger] t[j]).0 == c;
                if j < s.len() {
                    assert(s[j].0 == c);
                }
            }
            if c == k {
                assert(t[t.len() - 1].0 == c);
            }
            if dl_has(s, c) {
                let j = choose|j: int| 0 <= j < s.len() && (#[trigger] s[j]).0 == c;
                assert(t[j].0 == c);
            }
        }
    } else {
        assert(forall|j: int| 0 <= j < s.len() && j != i ==> t[j] == s[j]);
        assert(t[i] == (k, v));
        assert(s[i].0 == k);
        assert forall|a: int, b: int| 0 <= a < b < t.len() implies (#[trigger] t[a]).0 != (
        #[trigger] t[b]).0 by {
            assert(t[a].0 == s[a].0);
            assert(t[b].0 == s[b].0);
        }
        assert forall|c: Seq<char>| #[trigger] dl_has(t, c) == (c == k || dl_has(s, c)) by {
            if dl_has(t, c) {
                let j = choose|j: int| 0 <= j < t.len() && (#[trigger] t[j]).0 == c;
                assert(s[j].0 == c);
            }
            if c == k {
                assert(t[i].0 == c);
            }
            if dl_has(s, c) {
                let j = choose|j: int| 0 <= j < s.len() && (#[trigger] s[j]).0 == c;
                assert(t[j].0 == s[j].0);
            }
        }
    }
}

/// Inserting a non-empty category keeps every decided category
/// non-empty.
pub proof fn lemma_dl_insert_values(s: Seq<(Seq<char>, Seq<char>)>, k: Seq<char>, v: Seq<char>)
    requires
        forall|i: int| 0 <= i < s.len() ==> (#[trigger] s[i]).1.len() > 0,
        v.len() > 0,
    ensures
        forall|i: int|
            0 <= i < dl_insert(s, k, v).len() ==> (#[trigger] dl_insert(s, k, v)[i]).1.len() > 0,
{
    lemma_dl_find_props(s, k);
    let f = dl_find(s, k);
    let t = dl_insert(s, k, v);
    assert forall|i: int| 0 <= i < t.len() implies (#[trigger] t[i]).1.len() > 0 by {
        if f == -1 {
            if i < s.len() {
                assert(t[i] == s[i]);
            } else {
                assert(t[i] == (k, v));
            }
        } else {
            if i == f {
                assert(t[i] == (k, v));
            } else {
                assert(t[i] == s[i]);
            }
        }
    }
}

/// The categories decided so far, item by item, in the order the items
/// were first decided.
#[derive(Debug, Clone)]
pub struct DecisionList {
    entries: Vec<(String, String)>,
}

impl View for DecisionList {
    type V = Seq<(Seq<char>, Seq<char>)>;

    closed spec fn view(&self) -> Seq<(Seq<char>, Seq<char>)> {
        self.entries.deep_view()
    }
}

impl DecisionList {
    /// Keys pairwise distinct and every decided category non-empty.
    pub open spec fn wf(&self) -> bool {
        &&& dl_distinct(self@)
        &&& forall|i: int| 0 <= i < self@.len() ==> (#[trigger] self@[i]).1.len() > 0
    }

    /// No decisions yet.
    pub fn new() -> (r: DecisionList)
        ensures
            r@ =~= Seq::<(Seq<char>, Seq<char>)>::empty(),
            r.wf(),
    {
        let r = DecisionList { entries: Vec::new() };
        proof {
            assert(r@ =~= Seq::<(Seq<char>, Seq<char>)>::empty());
        }
        r
    }

    /// How many items are decided.
    pub fn len(&self) -> (r: usize)
        ensures
            r == self@.len(),
    {
        self.entries.len()
    }

    /// First position deciding `item`, if any.
    fn position(&self, item: &str) -> (r: Option<usize>)
        ensures
            match r {
                Option::Some(i) => i < self@.len() && self@[i as int].0 == item@ && dl_find(
                    self@,
                    item@,
                ) == i as int,
                Option::None => dl_find(self@, item@) == -1,
            },
    {
        let n = self.entries.len();
        let mut i: usize = 0;
        while i < n
            invariant
                n == self.entries@.len(),
                i <= n,
                forall|j: int| 0 <= j < i ==> (#[trigger] self@[j]).0 != item@,
            decreases n - i,
        {
            if str_eq(self.entries[i].0.as_str(), item) {
                proof {
                    assert(self@[i as int].0 == item@);
                    lemma_dl_find_at(self@, item@, i as int);
                }
                return Option::Some(i);
            }
            i += 1;
        }
        proof {
            lemma_dl_find_none(self@, item@);
        }
        Option::None
    }

    /// Record the category for an item: overwrite in place or append.
    pub fn insert(&mut self, item: String, category: String)
        ensures
            final(self)@ == dl_insert(old(self)@, item@, category@),
    {
        let ghost pre = self@;
        let found = self.position(item.as_str());
        match found {
            Option::Some(i) => {
                self.entries.remove(i);
                self.entries.insert(i, (item, category));
                proof {
                    assert(self@ =~= pre.update(dl_find(pre, item@), (item@, category@)));
                }
            },
            Option::None => {
                self.entries.push((item, category));
                proof {
                    assert(self@ =~= pre.push((item@, category@)));
                }
            },
        }
    }

    /// The category decided for `item`, if any.
    pub fn get(&self, item: &str) -> (r: Option<String>)
        ensures
            match r {
                Option::Some(c) => dl_has(self@, item@) && c@ == self@[dl_find(self@, item@)].1,
                Option::None => !dl_has(self@, item@),
            },
    {
        proof {
            lemma_dl_find_props(self@, item@);
        }
        match self.position(item) {
            Option::Some(i) => {
                let (_, c) = &self.entries[i];
                Option::Some(c.clone())
            },
            Option::None => Option::None,
        }
    }

    /// The entry at a position: the item and its category.
    pub fn entry(&self, i: usize) -> (r: (String, String))
        requires
            i < self@.len(),
        ensures
            r.0@ == self@[i as int].0,
            r.1@ == self@[i as int].1,
    {
        let (k, v) = &self.entries[i];
        (k.clone(), v.clone())
    }

    /// All entries, in order.
    pub fn entries_list(&self) -> (r: Vec<(String, String)>)
        ensures
            r.deep_view() == self@,
    {
        let n = self.entries.len();
        let mut r: Vec<(String, String)> = Vec::new();
        let mut i: usize = 0;
        while i < n
            invariant
                n == self.entries@.len(),
                i <= n,
                r.deep_view() =~= self@.take(i as int),
            decreases n - i,
        {
            let (k, v) = &self.entries[i];
            r.push((k.clone(), v.clone()));
            proof {
                assert(r.deep_view() =~= self@.take(i as int).push(self@[i as int]));
                assert(self@.take(i as int).push(self@[i as int]) =~= self@.take(i + 1));
            }
            i += 1;
        }
        proof {
            assert(self@.take(n as int) =~= self@);
        }
        r
    }
}

proof fn lemma_dl_find_at(s: Seq<(Seq<char>, Seq<char>)>, k: Seq<char>, i: int)
    requires
        0 <= i < s.len(),
        s[i].0 == k,
        forall|j: int| 0 <= j < i ==> s[j].0 != k,
    ensures
        dl_find(s, k) == i,
    decreases s.len(),
{
    if i == 0 {
    } else {
        assert(s[0].0 != k);
        lemma_dl_find_at(s.drop_first(), k, i - 1);
    }
}

proof fn lemma_dl_find_none(s: Seq<(Seq<char>, Seq<char>)>, k: Seq<char>)
    requires
        forall|j: int| 0 <= j < s.len() ==> s[j].0 != k,
    ensures
        dl_find(s, k) == -1,
    decreases s.len(),
{
    if s.len() == 0 {
    } else {
        lemma_dl_find_none(s.drop_first(), k);
    }
}

// ---------------------------------------------------------------------------
// The conversation state, its inbound events and its outbound actions.
// ---------------------------------------------------------------------------

/// Where one chat's conversation stands.
#[derive(Debug, Clone)]
pub enum State {
    /// No active file.
    Idle,
    /// Waiting for a receipt upload.
    AwaitingFile { filename: String },
    /// Waiting for a free-text partial category for `item`.
    SelectingCategory {
        filename: String,
        item: String,
        items_left: Vec<String>,
        decided: DecisionList,
    },
    /// Waiting for a button click that supplies the full category.
    SelectingSubcategory {
        filename: String,
        item: String,
        category_prefix: String,
        items_left: Vec<String>,
        decided: DecisionList,
    },
    /// All items categorized; waiting for the memo line.
    Ready { filename: String, decided: DecisionList },
}

/// The ghost shape of a conversation state.
pub ghost enum StateV {
    Idle,
    AwaitingFile { filename: Seq<char> },
    SelectingCategory {
        filename: Seq<char>,
        item: Seq<char>,
        items_left: Seq<Seq<char>>,
        decided: Seq<(Seq<char>, Seq<char>)>,
    },
    SelectingSubcategory {
        filename: Seq<char>,
        item: Seq<char>,
        category_prefix: Seq<char>,
        items_left: Seq<Seq<char>>,
        decided: Seq<(Seq<char>, Seq<char>)>,
    },
    Ready { filename: Seq<char>, decided: Seq<(Seq<char>, Seq<char>)> },
}

impl View for State {
    type V = StateV;

    open spec fn view(&self) -> StateV {
        match self {
            State::Idle => StateV::Idle,
            State::AwaitingFile { filename } => StateV::AwaitingFile { filename: filename@ },
            State::SelectingCategory { filename, item, items_left, decided } => {
                StateV::SelectingCategory {
                    filename: filename@,
                    item: item@,
                    items_left: items_left.deep_view(),
                    decided: decided@,
                }
            },
            State::SelectingSubcategory { filename, item, category_prefix, items_left, decided } => {
                StateV::SelectingSubcategory {
                    filename: filename@,
                    item: item@,
                    category_prefix: category_prefix@,
                    items_left: items_left.deep_view(),
                    decided: decided@,
                }
            },
            State::Ready { filename, decided } => {
                StateV::Ready { filename: filename@, decided: decided@ }
            },
        }
    }
}

impl Default for State {
    /// A conversation starts idle.
    fn default() -> (r: State)
        ensures
            r@ == StateV::Idle,
    {
        State::Idle
    }
}

/// One inbound chat event.
#[derive(Debug, Clone)]
pub enum Event {
    /// The cancel command: a hard reset.
    Cancel,
    /// A free-text message.
    Text { text: String },
    /// An uploaded file was downloaded and parsed; these are its item
    /// names, in receipt order.
    FileParsed { filename: String, items: Vec<String> },
    /// An uploaded file could not be parsed as a receipt.
    FileFailed,
    /// A button click with its callback payload.
    Button { payload: String },
    /// The outcome of a requested finalization.
    FinalizeDone { ok: bool },
}

/// The ghost shape of an event.
pub ghost enum EventV {
    Cancel,
    Text { text: Seq<char> },
    FileParsed { filename: Seq<char>, items: Seq<Seq<char>> },
    FileFailed,
    Button { payload: Seq<char> },
    FinalizeDone { ok: bool },
}

impl View for Event {
    type V = EventV;

    open spec fn view(&self) -> EventV {
        match self {
            Event::Cancel => EventV::Cancel,
            Event::Text { text } => EventV::Text { text: text@ },
            Event::FileParsed { filename, items } => EventV::FileParsed {
                filename: filename@,
                items: items.deep_view(),
            },
            Event::FileFailed => EventV::FileFailed,
            Event::Button { payload } => EventV::Button { payload: payload@ },
            Event::FinalizeDone { ok } => EventV::FinalizeDone { ok: *ok },
        }
    }
}

/// One outbound instruction to the transport layer.
#[derive(Debug, Clone)]
pub enum Action {
    /// Confirm that the conversation state was reset.
    ResetNotice,
    /// Ask the user to upload a receipt file.
    AskUpload,
    /// Tell the user the uploaded file could not be parsed.
    ParseFailedNotice,
    /// Ask for a free-text category search for this item.
    AskCategory { item: String },
    /// Ask the user to pick one of these category buttons for the item;
    /// each option is a label and its callback payload.
    ShowCategoryButtons { item: String, options: Vec<(String, String)> },
    /// Ask again for a button click for this item.
    AskSubcategory { item: String },
    /// Confirm one item's category.
    ItemReady { item: String, category: String },
    /// Tell the user the last item was just categorized.
    LastItemNotice,
    /// Show the decided items as buttons; each is a label and its
    /// callback payload.
    ShowSummary { buttons: Vec<(String, String)> },
    /// Ask for the memo line.
    AskMemo,
    /// Parse the named file again and finalize it with this memo.
    Finalize { filename: String, memo: String },
    /// Confirm that an item is being edited again.
    EditNotice { item: String },
    /// Hand the finished ledger output to the user.
    LedgerReadyNotice,
    /// Report an internal fault and that the conversation was reset.
    InternalErrorNotice,
}

// ---------------------------------------------------------------------------
// Decimal indexes in button payloads.
// ---------------------------------------------------------------------------

/// A non-empty run of decimal digits.
pub open spec fn is_digit_seq(s: Seq<char>) -> bool {
    s.len() > 0 && forall|i: int|
        0 <= i < s.len() ==> ('0' as u32) <= ((#[trigger] s[i]) as u32) <= ('9' as u32)
}

/// The number the digits denote, most significant first.
pub open spec fn dec_value(s: Seq<char>) -> int
    decreases s.len(),
{
    if s.len() == 0 {
        0
    } else {
        dec_value(s.drop_last()) * 10 + (s.last() as u32 - '0' as u32)
    }
}

proof fn lemma_dec_value_bounds(s: Seq<char>, k: int)
    requires
        forall|i: int| 0 <= i < s.len() ==> ('0' as u32) <= ((#[trigger] s[i]) as u32) <= ('9' as u32),
        0 <= k <= s.len(),
    ensures
        0 <= dec_value(s.take(k)) <= dec_value(s),
    decreases s.len(),
{
    if k == s.len() {
        assert(s.take(k) =~= s);
        lemma_dec_value_nonneg(s);
    } else {
        let front = s.drop_last();
        assert(forall|i: int| 0 <= i < front.len() ==> front[i] == s[i]);
        assert(s.take(k) =~= front.take(k));
        lemma_dec_value_bounds(front, k);
        lemma_dec_value_nonneg(front);
        assert(s.last() as u32 - '0' as u32 >= 0);
        assert(dec_value(s) == dec_value(front) * 10 + (s.last() as u32 - '0' as u32));
    }
}

proof fn lemma_dec_value_nonneg(s: Seq<char>)
    requires
        forall|i: int| 0 <= i < s.len() ==> ('0' as u32) <= ((#[trigger] s[i]) as u32) <= ('9' as u32),
    ensures
        dec_value(s) >= 0,
    decreases s.len(),
{
    if s.len() == 0 {
    } else {
        let front = s.drop_last();
        assert(forall|i: int| 0 <= i < front.len() ==> front[i] == s[i]);
        lemma_dec_value_nonneg(front);
        assert(s.last() as u32 - '0' as u32 >= 0);
    }
}

/// Parse a non-empty all-digit string into an index.
fn parse_index(s: &str) -> (r: Option<usize>)
    ensures
        match r {
            Option::Some(v) => is_digit_seq(s@) && v as int == dec_value(s@),
            Option::None => !is_digit_seq(s@) || dec_value(s@) > usize::MAX,
        },
{
    let n = s.unicode_len();
    if n == 0 {
        return Option::None;
    }
    let mut acc: usize = 0;
    let mut i: usize = 0;
    while i < n
        invariant
            n == s@.len(),
            0 < n,
            i <= n,
            acc as int == dec_value(s@.take(i as int)),
            forall|j: int|
                0 <= j < i ==> ('0' as u32) <= ((#[trigger] s@[j]) as u32) <= ('9' as u32),
        decreases n - i,
    {
        let c = s.get_char(i);
        let cu = c as u32;
        if cu < '0' as u32 || cu > '9' as u32 {
            return Option::None;
        }
        let d: usize = (cu - ('0' as u32)) as usize;
        if acc > (usize::MAX - d) / 10 {
            proof {
                assert(s@.take(i + 1).drop_last() =~= s@.take(i as int));
                assert(s@.take(i + 1).last() == s@[i as int]);
                assert(dec_value(s@.take(i + 1)) == acc as int * 10 + d);
                assert(acc as int * 10 + d > usize::MAX) by {
                    assert(acc as int > (usize::MAX - d) / 10);
                };
                if is_digit_seq(s@) {
                    lemma_dec_value_bounds(s@, i + 1);
                }
            }
            return Option::None;
        }
        acc = acc * 10 + d;
        proof {
            assert(s@.take(i + 1).drop_last() =~= s@.take(i as int));
            assert(s@.take(i + 1).last() == s@[i as int]);
        }
        i += 1;
    }
    proof {
        assert(s@.take(n as int) =~= s@);
    }
    Option::Some(acc)
}

// ---------------------------------------------------------------------------
// Searching the account list for a partial category.
// ---------------------------------------------------------------------------

/// A plain-text query matches an expense account whose lowercase name
/// contains the lowercase query.
pub open spec fn text_match(acc: Seq<char>, q: Seq<char>) -> bool {
    "Expenses:"@.is_prefix_of(acc) && contains_sub(lower_of(acc), lower_of(q))
}

/// The accounts a plain-text query matches, in order.
pub open spec fn text_matching_of(accs: Seq<Seq<char>>, q: Seq<char>) -> Seq<Seq<char>>
    decreases accs.len(),
{
    if accs.len() == 0 {
        Seq::empty()
    } else {
        text_matching_of(accs.drop_last(), q) + if text_match(accs.last(), q) {
            seq![accs.last()]
        } else {
            Seq::empty()
        }
    }
}

/// What a category query matches: a query with a colon runs the fuzzy
/// segment matcher on its lowercase form, a plain one a substring search
/// over the expense accounts.
pub open spec fn search_matches(accs: Seq<Seq<char>>, q: Seq<char>) -> Seq<Seq<char>> {
    if contains_sub(q, ":"@) {
        filter_categories_spec(accs, q)
    } else {
        text_matching_of(accs, q)
    }
}

/// The matches a query is answered with, sorted.
pub open spec fn sorted_matches(accs: Seq<Seq<char>>, q: Seq<char>) -> Seq<Seq<char>> {
    sort_lex(search_matches(accs, q))
}

/// Find the accounts matching a query, sorted.
fn search_accounts(user: &User, q: &str) -> (r: Vec<String>)
    ensures
        r.deep_view() == sorted_matches(user@.accounts, q@),
{
    let mut ms: Vec<String>;
    if str_contains(q, ":") {
        ms = filter_categories(user.accounts_list(), q);
    } else {
        let accounts = user.accounts_list();
        let n = accounts.len();
        let mut out: Vec<String> = Vec::new();
        let mut i: usize = 0;
        proof {
            assert(user@.accounts.take(0) =~= Seq::<Seq<char>>::empty());
            assert(out.deep_view() =~= text_matching_of(user@.accounts.take(0), q@));
        }
        while i < n
            invariant
                n == accounts@.len(),
                accounts.deep_view() == user@.accounts,
                i <= n,
                out.deep_view() == text_matching_of(user@.accounts.take(i as int), q@),
            decreases n - i,
        {
            let ghost pre = out.deep_view();
            proof {
                assert(user@.accounts.take(i + 1).drop_last() =~= user@.accounts.take(i as int));
                assert(user@.accounts.take(i + 1).last() == user@.accounts[i as int]);
                assert(accounts.deep_view()[i as int] == accounts@[i as int]@);
            }
            let acc = &accounts[i];
            let la = lowercase(acc.as_str());
            if str_starts_with(acc.as_str(), "Expenses:") && str_contains(la.as_str(), lowercase(
                q,
            ).as_str()) {
                out.push(acc.clone());
                proof {
                    assert(out.deep_view() =~= pre + seq![user@.accounts[i as int]]);
                }
            } else {
                proof {
                    assert(pre + Seq::<Seq<char>>::empty() =~= pre);
                }
            }
            i += 1;
        }
        proof {
            assert(user@.accounts.take(n as int) =~= user@.accounts);
        }
        ms = out;
    }
    sort_strings(&mut ms);
    ms
}

/// The buttons offered for a list of matches: expense accounts only,
/// labelled without their shared prefix, with the full name as payload.
pub open spec fn expense_buttons_of(ms: Seq<Seq<char>>) -> Seq<(Seq<char>, Seq<char>)>
    decreases ms.len(),
{
    if ms.len() == 0 {
        Seq::empty()
    } else {
        expense_buttons_of(ms.drop_last()) + if "Expenses:"@.is_prefix_of(ms.last()) {
            seq![(ms.last().skip("Expenses:"@.len() as int), ms.last())]
        } else {
            Seq::empty()
        }
    }
}

/// Turn sorted matches into category buttons.
fn category_buttons(ms: &Vec<String>) -> (r: Vec<(String, String)>)
    ensures
        r.deep_view() == expense_buttons_of(ms.deep_view()),
{
    let n = ms.len();
    let mut out: Vec<(String, String)> = Vec::new();
    let mut i: usize = 0;
    proof {
        assert(ms.deep_view().take(0) =~= Seq::<Seq<char>>::empty());
        assert(out.deep_view() =~= expense_buttons_of(ms.deep_view().take(0)));
    }
    while i < n
        invariant
            n == ms@.len(),
            i <= n,
            out.deep_view() == expense_buttons_of(ms.deep_view().take(i as int)),
        decreases n - i,
    {
        let ghost pre = out.deep_view();
        proof {
            assert(ms.deep_view().take(i + 1).drop_last() =~= ms.deep_view().take(i as int));
            assert(ms.deep_view().take(i + 1).last() == ms.deep_view()[i as int]);
            assert(ms.deep_view()[i as int] == ms@[i as int]@);
        }
        let m = &ms[i];
        if str_starts_with(m.as_str(), "Expenses:") {
            let label = strip_prefix_str(m.as_str(), "Expenses:").to_owned();
            out.push((label, m.clone()));
            proof {
                assert(out.deep_view() =~= pre + seq![
                    (
                        ms.deep_view()[i as int].skip("Expenses:"@.len() as int),
                        ms.deep_view()[i as int],
                    ),
                ]);
            }
        } else {
            proof {
                assert(pre + Seq::<(Seq<char>, Seq<char>)>::empty() =~= pre);
            }
        }
        i += 1;
    }
    proof {
        assert(ms.deep_view().take(n as int) =~= ms.deep_view());
    }
    out
}

// ---------------------------------------------------------------------------
// Automatic categorization of the items the store already knows.
// ---------------------------------------------------------------------------

/// The decisions the store can make on its own: each item with known
/// statistics gets its top category.
pub open spec fn auto_decided(
    items: Seq<Seq<char>>,
    m: Map<Seq<char>, Seq<(Seq<char>, int)>>,
) -> Seq<(Seq<char>, Seq<char>)>
    decreases items.len(),
{
    if items.len() == 0 {
        Seq::empty()
    } else {
        let front = auto_decided(items.drop_last(), m);
        if m.contains_key(items.last()) {
            dl_insert(front, items.last(), m[items.last()][0].0)
        } else {
            front
        }
    }
}

/// The items the store knows nothing about, in receipt order.
pub open spec fn auto_uncat(items: Seq<Seq<char>>, m: Map<Seq<char>, Seq<(Seq<char>, int)>>) -> Seq<
    Seq<char>,
>
    decreases items.len(),
{
    if items.len() == 0 {
        Seq::empty()
    } else {
        auto_uncat(items.drop_last(), m) + if m.contains_key(items.last()) {
            Seq::empty()
        } else {
            seq![items.last()]
        }
    }
}

/// Split the receipt's items into those the store can categorize on its
/// own and those that need the user.
pub fn auto_cat_items(items: &Vec<String>, user: &User) -> (r: (DecisionList, Vec<String>))
    requires
        user.wf(),
    ensures
        r.0@ == auto_decided(items.deep_view(), user@.catmap),
        r.1.deep_view() == auto_uncat(items.deep_view(), user@.catmap),
        r.0.wf(),
{
    let n = items.len();
    let mut dec = DecisionList::new();
    let mut uncat: Vec<String> = Vec::new();
    let mut i: usize = 0;
    proof {
        assert(items.deep_view().take(0) =~= Seq::<Seq<char>>::empty());
        assert(dec@ =~= auto_decided(items.deep_view().take(0), user@.catmap));
        assert(uncat.deep_view() =~= auto_uncat(items.deep_view().take(0), user@.catmap));
    }
    while i < n
        invariant
            n == items@.len(),
            i <= n,
            user.wf(),
            dec@ == auto_decided(items.deep_view().take(i as int), user@.catmap),
            uncat.deep_view() == auto_uncat(items.deep_view().take(i as int), user@.catmap),
            dec.wf(),
        decreases n - i,
    {
        let ghost pre = dec@;
        let ghost preu = uncat.deep_view();
        proof {
            assert(items.deep_view().take(i + 1).drop_last() =~= items.deep_view().take(i as int));
            assert(items.deep_view().take(i + 1).last() == items.deep_view()[i as int]);
            assert(items.deep_view()[i as int] == items@[i as int]@);
        }
        let name = &items[i];
        match get_top_category(name.as_str(), &user.catmap) {
            Option::Some(cat) => {
                proof {
                    lemma_dl_insert(pre, name@, cat@);
                }
                dec.insert(name.clone(), cat);
                proof {
                    assert(preu + Seq::<Seq<char>>::empty() =~= preu);
                    assert forall|j: int| 0 <= j < dec@.len() implies (#[trigger] dec@[j]).1.len()
                        > 0 by {
                        let m = user@.catmap;
                        let k = items.deep_view()[i as int];
                        assert(m.contains_key(k));
                        assert(m[k][0].0.len() > 0);
                        lemma_dl_find_props(pre, k);
                        let f = dl_find(pre, k);
                        if f == -1 {
                            if j < pre.len() {
                                assert(dec@[j] == pre[j]);
                            } else {
                                assert(dec@[j] == (k, m[k][0].0));
                            }
                        } else {
                            if j == f {
                                assert(dec@[j] == (k, m[k][0].0));
                            } else {
                                assert(dec@[j] == pre[j]);
                            }
                        }
                    }
                }
            },
            Option::None => {
                uncat.push(name.clone());
                proof {
                    assert(uncat.deep_view() =~= preu + seq![items.deep_view()[i as int]]);
                }
            },
        }
        i += 1;
    }
    proof {
        assert(items.deep_view().take(n as int) =~= items.deep_view());
    }
    (dec, uncat)
}

// ---------------------------------------------------------------------------
// The summary keyboard: one button per decided item, addressing the
// entry by its stable position.
// ---------------------------------------------------------------------------

/// Segments joined with `:` between them.
pub open spec fn join_colon(parts: Seq<Seq<char>>) -> Seq<char>
    decreases parts.len(),
{
    if parts.len() == 0 {
        Seq::empty()
    } else if parts.len() == 1 {
        parts[0]
    } else {
        join_colon(parts.drop_last()) + seq![':'] + parts.last()
    }
}

/// A segment shortened to its first character, uppercased.
pub open spec fn abbrev_first(p: Seq<char>) -> Seq<char> {
    if p.len() == 0 {
        upper_of('\u{0}')
    } else {
        upper_of(p[0])
    }
}

/// A category shortened for a button label: every segment but the last
/// becomes its first character, uppercased.
pub open spec fn abbrev_cat(cat: Seq<char>) -> Seq<char> {
    let ps = split_colon(cat);
    if ps.len() > 1 {
        join_colon(Seq::new((ps.len() - 1) as nat, |i: int| abbrev_first(ps[i])).push(ps.last()))
    } else {
        cat
    }
}

/// The label of one summary button.
pub open spec fn summary_label(item: Seq<char>, cat: Seq<char>) -> Seq<char> {
    item + ": "@ + abbrev_cat(cat)
}

/// The summary keyboard: for the entry at position `i`, its label and
/// the payload `edit_i`.
pub open spec fn summary_buttons_spec(dec: Seq<(Seq<char>, Seq<char>)>) -> Seq<
    (Seq<char>, Seq<char>),
> {
    Seq::new(dec.len(), |i: int| (summary_label(dec[i].0, dec[i].1), "edit_"@ + dec_digits(i)))
}

/// Join owned segments with `:`.
fn join_colon_str(parts: &Vec<String>) -> (r: String)
    ensures
        r@ == join_colon(parts.deep_view()),
{
    let n = parts.len();
    let mut r = String::new();
    if n == 0 {
        proof {
            assert(r@ =~= join_colon(parts.deep_view()));
        }
        return r;
    }
    r.append(parts[0].as_str());
    proof {
        assert(parts.deep_view().take(1).len() == 1);
        assert(parts.deep_view().take(1)[0] == parts.deep_view()[0]);
        assert(r@ =~= join_colon(parts.deep_view().take(1)));
    }
    let mut i: usize = 1;
    while i < n
        invariant
            n == parts@.len(),
            1 <= i <= n,
            r@ == join_colon(parts.deep_view().take(i as int)),
        decreases n - i,
    {
        let ghost pre = r@;
        r.append(":");
        r.append(parts[i].as_str());
        proof {
            reveal_strlit(":");
            assert(parts.deep_view().take(i + 1).drop_last() =~= parts.deep_view().take(i as int));
            assert(parts.deep_view().take(i + 1).last() == parts.deep_view()[i as int]);
            assert(parts.deep_view().take(i + 1).len() == i + 1);
            assert(r@ =~= join_colon(parts.deep_view().take(i as int)) + seq![':']
                + parts.deep_view()[i as int]);
            assert(r@ =~= join_colon(parts.deep_view().take(i + 1)));
        }
        i += 1;
    }
    proof {
        assert(parts.deep_view().take(n as int) =~= parts.deep_view());
    }
    r
}

/// Shorten a category for a button label.
fn abbrev_cat_str(cat: &str) -> (r: String)
    ensures
        r@ == abbrev_cat(cat@),
{
    let ps = split_colon_str(cat);
    let n = ps.len();
    if n <= 1 {
        proof {
            assert(split_colon(cat@).len() == ps@.len());
        }
        return cat.to_owned();
    }
    let mut dparts: Vec<String> = Vec::new();
    let ghost target = Seq::new((ps.deep_view().len() - 1) as nat, |i: int| abbrev_first(
        ps.deep_view()[i],
    ));
    let mut i: usize = 0;
    while i < n - 1
        invariant
            n == ps@.len(),
            n == ps.deep_view().len(),
            n > 1,
            i <= n - 1,
            target == Seq::new((ps.deep_view().len() - 1) as nat, |j: int| abbrev_first(
                ps.deep_view()[j],
            )),
            dparts.deep_view() =~= target.take(i as int),
        decreases n - i,
    {
        let p = &ps[i];
        proof {
            assert(ps.deep_view()[i as int] == ps@[i as int]@);
        }
        let a: String = if p.as_str().unicode_len() == 0 {
            crate::textutil::char_upper('\u{0}')
        } else {
            crate::textutil::char_upper(p.as_str().get_char(0))
        };
        dparts.push(a);
        proof {
            assert(dparts.deep_view() =~= target.take(i as int).push(abbrev_first(
                ps.deep_view()[i as int],
            )));
            assert(target.take(i as int).push(target[i as int]) =~= target.take(i + 1));
        }
        i += 1;
    }
    let last = ps[n - 1].clone();
    dparts.push(last);
    proof {
        assert(target.take(n - 1) =~= target);
        assert(dparts.deep_view() =~= target.push(ps.deep_view()[n - 1]));
        assert(ps.deep_view().last() == ps.deep_view()[n - 1]);
    }
    join_colon_str(&dparts)
}

/// Build the summary keyboard for the decided items.
pub fn summary_buttons(dec: &DecisionList) -> (r: Vec<(String, String)>)
    ensures
        r.deep_view() == summary_buttons_spec(dec@),
{
    let n = dec.len();
    let mut out: Vec<(String, String)> = Vec::new();
    let mut i: usize = 0;
    while i < n
        invariant
            n == dec@.len(),
            i <= n,
            out.deep_view() =~= summary_buttons_spec(dec@).take(i as int),
        decreases n - i,
    {
        let (item, cat) = dec.entry(i);
        let mut label = item;
        label.append(": ");
        let short = abbrev_cat_str(cat.as_str());
        label.append(short.as_str());
        let mut payload = String::from_str("edit_");
        let digits = crate::textutil::fmt_u64(i as u64);
        payload.append(digits.as_str());
        proof {
            reveal_strlit(": ");
            reveal_strlit("edit_");
            assert(label@ =~= summary_label(dec@[i as int].0, dec@[i as int].1));
            assert(payload@ =~= "edit_"@ + dec_digits(i as int));
        }
        out.push((label, payload));
        proof {
            assert(out.deep_view() =~= summary_buttons_spec(dec@).take(i as int).push(
                summary_buttons_spec(dec@)[i as int],
            ));
            assert(summary_buttons_spec(dec@).take(i as int).push(
                summary_buttons_spec(dec@)[i as int],
            ) =~= summary_buttons_spec(dec@).take(i + 1));
        }
        i += 1;
    }
    proof {
        assert(summary_buttons_spec(dec@).take(n as int) =~= summary_buttons_spec(dec@));
    }
    out
}

// ---------------------------------------------------------------------------
// The transition relation.
// ---------------------------------------------------------------------------

/// Record the clicked category and move to the next item, or to the
/// memo prompt when none remains.
pub open spec fn advance_spec(
    filename: Seq<char>,
    item: Seq<char>,
    items_left: Seq<Seq<char>>,
    decided: Seq<(Seq<char>, Seq<char>)>,
    cat: Seq<char>,
) -> StateV {
    let dec2 = dl_insert(decided, item, cat);
    if items_left.len() > 0 {
        StateV::SelectingCategory {
            filename,
            item: items_left.last(),
            items_left: items_left.drop_last(),
            decided: dec2,
        }
    } else {
        StateV::Ready { filename, decided: dec2 }
    }
}

/// The next conversation state for one inbound event.
pub open spec fn step_spec(s: StateV, e: EventV, u: UserV) -> StateV {
    match e {
        EventV::Cancel => StateV::Idle,
        EventV::FinalizeDone { ok } => match s {
            StateV::Ready { filename, decided } => if ok {
                StateV::AwaitingFile { filename: Seq::empty() }
            } else {
                StateV::Idle
            },
            _ => s,
        },
        _ => match s {
            StateV::Idle => match e {
                // A button click reaching an idle conversation is a
                // stale result of a state that has moved on: a no-op.
                EventV::Button { .. } => StateV::Idle,
                _ => StateV::AwaitingFile { filename: Seq::empty() },
            },
            StateV::AwaitingFile { filename } => match e {
                EventV::FileParsed { filename: newfile, items } => {
                    let dec = auto_decided(items, u.catmap);
                    let un = auto_uncat(items, u.catmap);
                    if un.len() == 0 {
                        StateV::Ready { filename: newfile, decided: dec }
                    } else {
                        StateV::SelectingCategory {
                            filename: newfile,
                            item: un.last(),
                            items_left: un.drop_last(),
                            decided: dec,
                        }
                    }
                },
                EventV::FileFailed => StateV::AwaitingFile { filename: Seq::empty() },
                _ => StateV::AwaitingFile { filename },
            },
            StateV::SelectingCategory { filename, item, items_left, decided } => match e {
                EventV::Text { text } => {
                    if sorted_matches(u.accounts, text).len() == 0 {
                        StateV::SelectingCategory { filename, item, items_left, decided }
                    } else {
                        StateV::SelectingSubcategory {
                            filename,
                            item,
                            category_prefix: text,
                            items_left,
                            decided,
                        }
                    }
                },
                _ => StateV::SelectingCategory { filename, item, items_left, decided },
            },
            StateV::SelectingSubcategory { filename, item, category_prefix, items_left, decided } => match e {
                EventV::Button { payload } => {
                    if payload.len() == 0 {
                        StateV::SelectingSubcategory {
                            filename,
                            item,
                            category_prefix,
                            items_left,
                            decided,
                        }
                    } else {
                        advance_spec(filename, item, items_left, decided, payload)
                    }
                },
                _ => StateV::SelectingSubcategory {
                    filename,
                    item,
                    category_prefix,
                    items_left,
                    decided,
                },
            },
            StateV::Ready { filename, decided } => match e {
                EventV::Text { text } => StateV::Ready { filename, decided },
                EventV::Button { payload } => {
                    if "edit_"@.is_prefix_of(payload) {
                        let ds = payload.skip("edit_"@.len() as int);
                        if is_digit_seq(ds) && dec_value(ds) < decided.len() {
                            StateV::SelectingCategory {
                                filename,
                                item: decided[dec_value(ds)].0,
                                items_left: Seq::empty(),
                                decided,
                            }
                        } else {
                            StateV::Ready { filename, decided }
                        }
                    } else {
                        StateV::Ready { filename, decided }
                    }
                },
                _ => StateV::Ready { filename, decided },
            },
        },
    }
}

/// Distinct keys, non-empty categories.
pub open spec fn dl_wf(s: Seq<(Seq<char>, Seq<char>)>) -> bool {
    dl_distinct(s) && forall|i: int| 0 <= i < s.len() ==> (#[trigger] s[i]).1.len() > 0
}

/// What every reachable conversation state satisfies: its decided map
/// has distinct keys and no empty category.
pub open spec fn state_wf(s: StateV) -> bool {
    match s {
        StateV::Idle => true,
        StateV::AwaitingFile { .. } => true,
        StateV::SelectingCategory { decided, .. } => dl_wf(decided),
        StateV::SelectingSubcategory { decided, .. } => dl_wf(decided),
        StateV::Ready { decided, .. } => dl_wf(decided),
    }
}

/// What the actions returned with a transition must say.
pub open spec fn step_actions_ok(state: State, event: Event, u: UserV, acts: Seq<Action>) -> bool {
    match event {
        Event::Cancel => acts.len() == 1 && acts[0] is ResetNotice,
        Event::FinalizeDone { ok } => match state {
            State::Ready { .. } => if ok {
                acts.len() == 1 && acts[0] is LedgerReadyNotice
            } else {
                acts.len() == 1 && acts[0] is InternalErrorNotice
            },
            _ => acts.len() == 0,
        },
        _ => match state {
            State::Idle => match event {
                Event::Button { .. } => acts.len() == 0,
                _ => acts.len() == 1 && acts[0] is AskUpload,
            },
            State::AwaitingFile { .. } => match event {
                Event::FileParsed { filename, items } => {
                    let dec = auto_decided(items.deep_view(), u.catmap);
                    let un = auto_uncat(items.deep_view(), u.catmap);
                    if un.len() == 0 {
                        acts.len() == 2 && (acts[0] matches Action::ShowSummary { buttons }
                            && buttons.deep_view() == summary_buttons_spec(dec)) && acts[1]
                            is AskMemo
                    } else {
                        acts.len() == 1 && (acts[0] matches Action::AskCategory { item } && item@
                            == un.last())
                    }
                },
                Event::FileFailed => acts.len() == 1 && acts[0] is ParseFailedNotice,
                _ => acts.len() == 1 && acts[0] is AskUpload,
            },
            State::SelectingCategory { item, .. } => match event {
                Event::Text { text } => {
                    let ms = sorted_matches(u.accounts, text@);
                    if ms.len() == 0 {
                        acts.len() == 1 && (acts[0] matches Action::AskCategory { item: it } && it@
                            == item@)
                    } else {
                        acts.len() == 1 && (acts[0] matches Action::ShowCategoryButtons {
                            item: it,
                            options,
                        } && it@ == item@ && options.deep_view() == expense_buttons_of(ms))
                    }
                },
                _ => acts.len() == 1 && (acts[0] matches Action::AskCategory { item: it } && it@
                    == item@),
            },
            State::SelectingSubcategory { item, items_left, decided, .. } => match event {
                Event::Button { payload } => {
                    if payload@.len() == 0 {
                        acts.len() == 1 && (acts[0] matches Action::AskSubcategory { item: it }
                            && it@ == item@)
                    } else {
                        let dec2 = dl_insert(decided@, item@, payload@);
                        if items_left.deep_view().len() > 0 {
                            acts.len() == 2 && (acts[0] matches Action::ItemReady {
                                item: it,
                                category,
                            } && it@ == item@ && category@ == payload@) && (acts[1]
                                matches Action::AskCategory { item: nx } && nx@
                                == items_left.deep_view().last())
                        } else {
                            acts.len() == 4 && (acts[0] matches Action::ItemReady {
                                item: it,
                                category,
                            } && it@ == item@ && category@ == payload@) && acts[1] is LastItemNotice
                                && (acts[2] matches Action::ShowSummary { buttons }
                                && buttons.deep_view() == summary_buttons_spec(dec2)) && acts[3]
                                is AskMemo
                        }
                    }
                },
                _ => acts.len() == 1 && (acts[0] matches Action::AskSubcategory { item: it } && it@
                    == item@),
            },
            State::Ready { filename, decided } => match event {
                Event::Text { text } => acts.len() == 1 && (acts[0] matches Action::Finalize {
                    filename: f,
                    memo,
                } && f@ == filename@ && memo@ == text@),
                Event::Button { payload } => {
                    if "edit_"@.is_prefix_of(payload@) {
                        let ds = payload@.skip("edit_"@.len() as int);
                        if is_digit_seq(ds) && dec_value(ds) < decided@.len() {
                            acts.len() == 2 && (acts[0] matches Action::EditNotice { item } && item@
                                == decided@[dec_value(ds)].0) && (acts[1]
                                matches Action::AskCategory { item } && item@
                                == decided@[dec_value(ds)].0)
                        } else {
                            acts.len() == 0
                        }
                    } else {
                        acts.len() == 0
                    }
                },
                _ => acts.len() == 1 && acts[0] is AskMemo,
            },
        },
    }
}

/// Drive the conversation one event forward: the next state follows the
/// transition relation, the actions tell the transport layer what to
/// send, and a well-formed state stays well formed.
pub fn conv_step(state: State, event: Event, user: &User) -> (r: (State, Vec<Action>))
    requires
        user.wf(),
    ensures
        r.0@ == step_spec(state@, event@, user@),
        step_actions_ok(state, event, user@, r.1@),
        state_wf(state@) ==> state_wf(r.0@),
{
    match event {
        Event::Cancel => {
            let mut acts: Vec<Action> = Vec::new();
            acts.push(Action::ResetNotice);
            (State::Idle, acts)
        },
        Event::FinalizeDone { ok } => match state {
            State::Ready { filename, decided } => {
                let mut acts: Vec<Action> = Vec::new();
                if ok {
                    acts.push(Action::LedgerReadyNotice);
                    (State::AwaitingFile { filename: String::new() }, acts)
                } else {
                    acts.push(Action::InternalErrorNotice);
                    (State::Idle, acts)
                }
            },
            other => (other, Vec::new()),
        },
        Event::Text { text } => match state {
            State::Idle => {
                let mut acts: Vec<Action> = Vec::new();
                acts.push(Action::AskUpload);
                (State::AwaitingFile { filename: String::new() }, acts)
            },
            State::AwaitingFile { filename } => {
                let mut acts: Vec<Action> = Vec::new();
                acts.push(Action::AskUpload);
                (State::AwaitingFile { filename }, acts)
            },
            State::SelectingCategory { filename, item, items_left, decided } => {
                let ms = search_accounts(user, text.as_str());
                let mut acts: Vec<Action> = Vec::new();
                if ms.len() == 0 {
                    proof {
                        assert(sorted_matches(user@.accounts, text@).len() == 0);
                    }
                    acts.push(Action::AskCategory { item: item.clone() });
                    (State::SelectingCategory { filename, item, items_left, decided }, acts)
                } else {
                    let options = category_buttons(&ms);
                    acts.push(Action::ShowCategoryButtons { item: item.clone(), options });
                    (
                        State::SelectingSubcategory {
                            filename,
                            item,
                            category_prefix: text,
                            items_left,
                            decided,
                        },
                        acts,
                    )
                }
            },
            State::SelectingSubcategory { filename, item, category_prefix, items_left, decided } => {
                let mut acts: Vec<Action> = Vec::new();
                acts.push(Action::AskSubcategory { item: item.clone() });
                (
                    State::SelectingSubcategory {
                        filename,
                        item,
                        category_prefix,
                        items_left,
                        decided,
                    },
                    acts,
                )
            },
            State::Ready { filename, decided } => {
                let mut acts: Vec<Action> = Vec::new();
                acts.push(Action::Finalize { filename: filename.clone(), memo: text });
                (State::Ready { filename, decided }, acts)
            },
        },
        Event::FileParsed { filename, items } => match state {
            State::Idle => {
                let mut acts: Vec<Action> = Vec::new();
                acts.push(Action::AskUpload);
                (State::AwaitingFile { filename: String::new() }, acts)
            },
            State::AwaitingFile { filename: _old } => {
                let (dec, mut uncat) = auto_cat_items(&items, user);
                let mut acts: Vec<Action> = Vec::new();
                if uncat.len() == 0 {
                    let buttons = summary_buttons(&dec);
                    acts.push(Action::ShowSummary { buttons });
                    acts.push(Action::AskMemo);
                    (State::Ready { filename, decided: dec }, acts)
                } else {
                    let ghost unv = uncat.deep_view();
                    match uncat.pop() {
                        Option::Some(next) => {
                            proof {
                                assert(uncat.deep_view() =~= unv.drop_last());
                                assert(next@ == unv.last());
                            }
                            acts.push(Action::AskCategory { item: next.clone() });
                            (
                                State::SelectingCategory {
                                    filename,
                                    item: next,
                                    items_left: uncat,
                                    decided: dec,
                                },
                                acts,
                            )
                        },
                        Option::None => {
                            proof {
                                assert(false);
                            }
                            (State::Idle, Vec::new())
                        },
                    }
                }
            },
            State::SelectingCategory { filename, item, items_left, decided } => {
                let mut acts: Vec<Action> = Vec::new();
                acts.push(Action::AskCategory { item: item.clone() });
                (State::SelectingCategory { filename, item, items_left, decided }, acts)
            },
            State::SelectingSubcategory { filename, item, category_prefix, items_left, decided } => {
                let mut acts: Vec<Action> = Vec::new();
                acts.push(Action::AskSubcategory { item: item.clone() });
                (
                    State::SelectingSubcategory {
                        filename,
                        item,
                        category_prefix,
                        items_left,
                        decided,
                    },
                    acts,
                )
            },
            State::Ready { filename, decided } => {
                let mut acts: Vec<Action> = Vec::new();
                acts.push(Action::AskMemo);
                (State::Ready { filename, decided }, acts)
            },
        },
        Event::FileFailed => match state {
            State::Idle => {
                let mut acts: Vec<Action> = Vec::new();
                acts.push(Action::AskUpload);
                (State::AwaitingFile { filename: String::new() }, acts)
            },
            State::AwaitingFile { filename: _old } => {
                let mut acts: Vec<Action> = Vec::new();
                acts.push(Action::ParseFailedNotice);
                (State::AwaitingFile { filename: String::new() }, acts)
            },
            State::SelectingCategory { filename, item, items_left, decided } => {
                let mut acts: Vec<Action> = Vec::new();
                acts.push(Action::AskCategory { item: item.clone() });
                (State::SelectingCategory { filename, item, items_left, decided }, acts)
            },
            State::SelectingSubcategory { filename, item, category_prefix, items_left, decided } => {
                let mut acts: Vec<Action> = Vec::new();
                acts.push(Action::AskSubcategory { item: item.clone() });
                (
                    State::SelectingSubcategory {
                        filename,
                        item,
                        category_prefix,
                        items_left,
                        decided,
                    },
                    acts,
                )
            },
            State::Ready { filename, decided } => {
                let mut acts: Vec<Action> = Vec::new();
                acts.push(Action::AskMemo);
                (State::Ready { filename, decided }, acts)
            },
        },
        Event::Button { payload } => match state {
            State::Idle => (State::Idle, Vec::new()),
            State::AwaitingFile { filename } => {
                let mut acts: Vec<Action> = Vec::new();
                acts.push(Action::AskUpload);
                (State::AwaitingFile { filename }, acts)
            },
            State::SelectingCategory { filename, item, items_left, decided } => {
                let mut acts: Vec<Action> = Vec::new();
                acts.push(Action::AskCategory { item: item.clone() });
                (State::SelectingCategory { filename, item, items_left, decided }, acts)
            },
            State::SelectingSubcategory {
                filename,
                item,
                category_prefix,
                mut items_left,
                mut decided,
            } => {
                let mut acts: Vec<Action> = Vec::new();
                if payload.as_str().unicode_len() == 0 {
                    acts.push(Action::AskSubcategory { item: item.clone() });
                    (
                        State::SelectingSubcategory {
                            filename,
                            item,
                            category_prefix,
                            items_left,
                            decided,
                        },
                        acts,
                    )
                } else {
                    let ghost decv = decided@;
                    let ghost itemv = item@;
                    let ghost payloadv = payload@;
                    acts.push(
                        Action::ItemReady { item: item.clone(), category: payload.clone() },
                    );
                    decided.insert(item, payload);
                    proof {
                        if dl_distinct(decv) {
                            lemma_dl_insert(decv, itemv, payloadv);
                        }
                        if dl_wf(decv) {
                            lemma_dl_insert_values(decv, itemv, payloadv);
                        }
                    }
                    if items_left.len() > 0 {
                        let ghost leftv = items_left.deep_view();
                        match items_left.pop() {
                            Option::Some(next) => {
                                proof {
                                    assert(items_left.deep_view() =~= leftv.drop_last());
                                    assert(next@ == leftv.last());
                                }
                                acts.push(Action::AskCategory { item: next.clone() });
                                (
                                    State::SelectingCategory {
                                        filename,
                                        item: next,
                                        items_left,
                                        decided,
                                    },
                                    acts,
                                )
                            },
                            Option::None => {
                                proof {
                                    assert(false);
                                }
                                (State::Idle, Vec::new())
                            },
                        }
                    } else {
                        acts.push(Action::LastItemNotice);
                        let buttons = summary_buttons(&decided);
                        acts.push(Action::ShowSummary { buttons });
                        acts.push(Action::AskMemo);
                        (State::Ready { filename, decided }, acts)
                    }
                }
            },
            State::Ready { filename, decided } => {
                let mut acts: Vec<Action> = Vec::new();
                let dlen = decided.len();
                if str_starts_with(payload.as_str(), "edit_") {
                    let digits = strip_prefix_str(payload.as_str(), "edit_");
                    match parse_index(digits) {
                        Option::Some(v) => {
                            if v < dlen {
                                let (it, _) = decided.entry(v);
                                acts.push(Action::EditNotice { item: it.clone() });
                                acts.push(Action::AskCategory { item: it });
                                let empty_left: Vec<String> = Vec::new();
                                proof {
                                    assert(empty_left.deep_view() =~= Seq::<Seq<char>>::empty());
                                }
                                (
                                    State::SelectingCategory {
                                        filename,
                                        item: decided.entry(v).0,
                                        items_left: empty_left,
                                        decided,
                                    },
                                    acts,
                                )
                            } else {
                                (State::Ready { filename, decided }, acts)
                            }
                        },
                        Option::None => (State::Ready { filename, decided }, acts),
                    }
                } else {
                    (State::Ready { filename, decided }, acts)
                }
            },
        },
    }
}

// ---------------------------------------------------------------------------
// Laws of the state machine.
// ---------------------------------------------------------------------------

/// Idempotent cancel: in every state the cancel event resets to `Idle`,
/// and a second cancel changes nothing more.
pub proof fn lemma_cancel_idempotent(s: StateV, u: UserV)
    ensures
        step_spec(s, EventV::Cancel, u) == StateV::Idle,
        step_spec(step_spec(s, EventV::Cancel, u), EventV::Cancel, u) == step_spec(
            s,
            EventV::Cancel,
            u,
        ),
{
}

/// One full categorization round from a selection state: ask, then click
/// category `c`.
pub open spec fn cycle_spec(s: StateV, c: Seq<char>) -> StateV {
    match s {
        StateV::SelectingCategory { filename, item, items_left, decided } => advance_spec(
            filename,
            item,
            items_left,
            decided,
            c,
        ),
        _ => s,
    }
}

/// A query whose matches are non-empty followed by a button click is one
/// categorization round: the two chat events compose to `cycle_spec`.
pub proof fn lemma_cycle_is_two_steps(s: StateV, q: Seq<char>, c: Seq<char>, u: UserV)
    requires
        s is SelectingCategory,
        sorted_matches(u.accounts, q).len() > 0,
        c.len() > 0,
    ensures
        step_spec(step_spec(s, EventV::Text { text: q }, u), EventV::Button { payload: c }, u)
            == cycle_spec(s, c),
{
}

/// The rounds applied in order, one chosen category per round.
pub open spec fn apply_cycles(s: StateV, cs: Seq<Seq<char>>) -> StateV
    decreases cs.len(),
{
    if cs.len() == 0 {
        s
    } else {
        apply_cycles(cycle_spec(s, cs.first()), cs.drop_first())
    }
}

/// State machine termination: from a selection state with one current
/// item and `items_left` still pending, none of them decided yet and all
/// distinct, one categorization round per pending item reaches `Ready`,
/// and the decided map then holds exactly one new entry per pending
/// item, keyed by exactly those item names.
pub proof fn lemma_categorization_terminates(
    filename: Seq<char>,
    item: Seq<char>,
    items_left: Seq<Seq<char>>,
    decided: Seq<(Seq<char>, Seq<char>)>,
    cs: Seq<Seq<char>>,
)
    requires
        cs.len() == items_left.len() + 1,
        dl_distinct(decided),
        !dl_has(decided, item),
        forall|i: int| 0 <= i < items_left.len() ==> !dl_has(decided, #[trigger] items_left[i]),
        forall|i: int| 0 <= i < items_left.len() ==> #[trigger] items_left[i] != item,
        forall|i: int, j: int|
            0 <= i < j < items_left.len() ==> items_left[i] != items_left[j],
    ensures
        apply_cycles(
            StateV::SelectingCategory { filename, item, items_left, decided },
            cs,
        ) matches StateV::Ready { filename: f2, decided: d2 } && f2 == filename && dl_keys(d2)
            =~= dl_keys(decided) + seq![item] + items_left.reverse() && d2.len() == decided.len()
            + cs.len(),
    decreases items_left.len(),
{
    let s = StateV::SelectingCategory { filename, item, items_left, decided };
    let c0 = cs.first();
    let dec2 = dl_insert(decided, item, c0);
    lemma_dl_insert(decided, item, c0);
    if items_left.len() == 0 {
        assert(cycle_spec(s, c0) == StateV::Ready { filename, decided: dec2 });
        assert(apply_cycles(s, cs) == apply_cycles(cycle_spec(s, c0), cs.drop_first()));
        assert(cs.drop_first().len() == 0);
        assert(items_left.reverse() =~= Seq::<Seq<char>>::empty());
        assert(dl_keys(dec2) =~= dl_keys(decided) + seq![item] + items_left.reverse());
    } else {
        let next = items_left.last();
        let rest = items_left.drop_last();
        assert(cycle_spec(s, c0) == StateV::SelectingCategory {
            filename,
            item: next,
            items_left: rest,
            decided: dec2,
        });
        assert(forall|i: int| 0 <= i < rest.len() ==> rest[i] == items_left[i]);
        assert(!dl_has(dec2, next)) by {
            assert(dl_has(dec2, next) == (next == item || dl_has(decided, next)));
            assert(items_left[items_left.len() - 1] == next);
        }
        assert forall|i: int| 0 <= i < rest.len() implies !dl_has(dec2, #[trigger] rest[i]) by {
            assert(rest[i] == items_left[i]);
            assert(dl_has(dec2, rest[i]) == (rest[i] == item || dl_has(decided, rest[i])));
        }
        assert forall|i: int| 0 <= i < rest.len() implies #[trigger] rest[i] != next by {
            assert(rest[i] == items_left[i]);
            assert(items_left[i] != items_left[items_left.len() - 1]);
        }
        lemma_categorization_terminates(filename, next, rest, dec2, cs.drop_first());
        let r = apply_cycles(
            StateV::SelectingCategory { filename, item: next, items_left: rest, decided: dec2 },
            cs.drop_first(),
        );
        assert(apply_cycles(s, cs) == r);
        assert(dl_keys(dec2) =~= dl_keys(decided).push(item));
        assert(items_left.reverse() =~= seq![next] + rest.reverse());
        let d2 = match r {
            StateV::Ready { decided: d, .. } => d,
            _ => Seq::empty(),
        };
        assert(dl_keys(d2) =~= dl_keys(dec2) + seq![next] + rest.reverse());
        assert(dl_keys(decided).push(item) + seq![next] + rest.reverse() =~= dl_keys(decided)
            + seq![item] + (seq![next] + rest.reverse()));
    }
}

// ---------------------------------------------------------------------------
// Finalization: record the decisions in the store and emit the ledger
// transaction.
// ---------------------------------------------------------------------------

/// An error while finalizing a categorized receipt.
#[derive(Debug, Clone)]
pub enum ConvertError {
    /// A decided entry carries an empty category: an internal fault.
    EmptyCategory { item: String },
    /// A receipt item has no decided category.
    MissingCategory { item: String },
    /// The ledger transaction could not be assembled.
    BuildFailed { message: String },
}

/// Index of the first decided entry with an empty category, or -1.
pub open spec fn first_empty_value(s: Seq<(Seq<char>, Seq<char>)>) -> int
    decreases s.len(),
{
    if s.len() == 0 {
        -1
    } else if s[0].1.len() == 0 {
        0
    } else {
        let r = first_empty_value(s.drop_first());
        if r == -1 {
            -1
        } else {
            1 + r
        }
    }
}

proof fn lemma_first_empty_at(s: Seq<(Seq<char>, Seq<char>)>, i: int)
    requires
        0 <= i < s.len(),
        s[i].1.len() == 0,
        forall|j: int| 0 <= j < i ==> (#[trigger] s[j]).1.len() > 0,
    ensures
        first_empty_value(s) == i,
    decreases s.len(),
{
    if i == 0 {
    } else {
        lemma_first_empty_at(s.drop_first(), i - 1);
    }
}

proof fn lemma_first_empty_none(s: Seq<(Seq<char>, Seq<char>)>)
    requires
        forall|j: int| 0 <= j < s.len() ==> (#[trigger] s[j]).1.len() > 0,
    ensures
        first_empty_value(s) == -1,
    decreases s.len(),
{
    if s.len() == 0 {
    } else {
        lemma_first_empty_none(s.drop_first());
    }
}

/// The store after the first `k` decided entries are recorded, in order.
pub open spec fn apply_decided(
    m: Map<Seq<char>, Seq<(Seq<char>, int)>>,
    s: Seq<(Seq<char>, Seq<char>)>,
    k: int,
) -> Map<Seq<char>, Seq<(Seq<char>, int)>>
    decreases k,
{
    if k <= 0 {
        m
    } else {
        assign_spec(apply_decided(m, s, k - 1), s[k - 1].0, s[k - 1].1)
    }
}

/// Recording other items leaves an item's statistics untouched.
proof fn lemma_apply_decided_frame(
    m: Map<Seq<char>, Seq<(Seq<char>, int)>>,
    s: Seq<(Seq<char>, Seq<char>)>,
    k: int,
    key: Seq<char>,
)
    requires
        0 <= k <= s.len(),
        forall|l: int| 0 <= l < k ==> (#[trigger] s[l]).0 != key,
    ensures
        stats_of(apply_decided(m, s, k), key) == stats_of(m, key),
        apply_decided(m, s, k).contains_key(key) == m.contains_key(key),
    decreases k,
{
    if k > 0 {
        lemma_apply_decided_frame(m, s, k - 1, key);
    }
}

/// Index of the first receipt item with no decided category, or -1.
pub open spec fn first_missing(items: Seq<(Seq<char>, int)>, s: Seq<(Seq<char>, Seq<char>)>) -> int
    decreases items.len(),
{
    if items.len() == 0 {
        -1
    } else if !dl_has(s, items[0].0) {
        0
    } else {
        let r = first_missing(items.drop_first(), s);
        if r == -1 {
            -1
        } else {
            1 + r
        }
    }
}

proof fn lemma_first_missing_at(items: Seq<(Seq<char>, int)>, s: Seq<(Seq<char>, Seq<char>)>, i: int)
    requires
        0 <= i < items.len(),
        !dl_has(s, items[i].0),
        forall|j: int| 0 <= j < i ==> dl_has(s, (#[trigger] items[j]).0),
    ensures
        first_missing(items, s) == i,
    decreases items.len(),
{
    if i == 0 {
    } else {
        lemma_first_missing_at(items.drop_first(), s, i - 1);
    }
}

proof fn lemma_first_missing_none(items: Seq<(Seq<char>, int)>, s: Seq<(Seq<char>, Seq<char>)>)
    requires
        forall|j: int| 0 <= j < items.len() ==> dl_has(s, (#[trigger] items[j]).0),
    ensures
        first_missing(items, s) == -1,
    decreases items.len(),
{
    if items.len() == 0 {
    } else {
        lemma_first_missing_none(items.drop_first(), s);
    }
}

/// The category each receipt item was decided to carry.
pub open spec fn cats_of(items: Seq<(Seq<char>, int)>, s: Seq<(Seq<char>, Seq<char>)>) -> Seq<
    Seq<char>,
> {
    Seq::new(items.len(), |i: int| s[dl_find(s, items[i].0)].1)
}

/// An item's statistics can still count one more assignment.
pub open spec fn can_count_more(m: Map<Seq<char>, Seq<(Seq<char>, int)>>, item: Seq<char>) -> bool {
    forall|j: int| 0 <= j < stats_of(m, item).len() ==> (#[trigger] stats_of(m, item)[j]).1 < i64::MAX
}

/// Finalize a fully categorized receipt: record every decision in the
/// user's statistics, then emit one ledger transaction with one split
/// per item.  An empty decided category is an internal fault and aborts
/// before anything is recorded; an item without a decision is reported;
/// the transaction is built exactly when the item prices add up to the
/// receipt total.
pub fn finalize<'a>(
    purchase: &crate::receipt::Purchase,
    memo: &str,
    decided: &DecisionList,
    user: &mut User,
    acc: &'a qif_generator::account::Account,
    filter: &crate::filters::LineFilter,
) -> (r: Result<qif_generator::transaction::Transaction<'a>, ConvertError>)
    requires
        old(user).wf(),
        purchase.wf(),
        dl_distinct(decided@),
        forall|i: int|
            0 <= i < decided@.len() ==> can_count_more(
                old(user)@.catmap,
                (#[trigger] decided@[i]).0,
            ),
    ensures
        final(user)@.uid == old(user)@.uid,
        final(user)@.accounts == old(user)@.accounts,
        final(user).wf(),
        ({
            let s = decided@;
            let fe = first_empty_value(s);
            let items = purchase.items.deep_view();
            let fm = first_missing(items, s);
            &&& (fe >= 0 ==> final(user)@ == old(user)@ && (r matches Result::Err(
                ConvertError::EmptyCategory { item },
            ) && item@ == s[fe].0))
            &&& (fe == -1 ==> final(user)@.catmap == apply_decided(
                old(user)@.catmap,
                s,
                s.len() as int,
            ))
            &&& (fe == -1 && fm >= 0 ==> (r matches Result::Err(
                ConvertError::MissingCategory { item },
            ) && item@ == items[fm].0))
            &&& (fe == -1 && fm == -1 ==> {
                &&& (r is Ok <==> sum_item_prices(items) == purchase.spec_sum())
                &&& (r matches Result::Ok(t) ==> trans_model(t) == (
                    memo@,
                    -purchase.spec_sum(),
                    expected_split_models(items, cats_of(items, s), filter@),
                    crate::convert::date_parts(purchase.spec_date()),
                ))
                &&& (r matches Result::Err(e) ==> (e matches ConvertError::BuildFailed { message }
                    && message@ == crate::convert::sum_error_message(
                    purchase.spec_sum(),
                    -sum_item_prices(items),
                )))
            })
        }),
{
    let ghost s = decided@;
    let ghost m0 = user@.catmap;
    let n = decided.len();
    // Validate every decided category before recording anything: an
    // empty one aborts with the store untouched.
    let mut v: usize = 0;
    while v < n
        invariant
            n == s.len(),
            s == decided@,
            v <= n,
            user.wf(),
            user@ == old(user)@,
            forall|j: int| 0 <= j < v ==> (#[trigger] s[j]).1.len() > 0,
        decreases n - v,
    {
        let (it, cat) = decided.entry(v);
        if cat.as_str().unicode_len() == 0 {
            proof {
                lemma_first_empty_at(s, v as int);
            }
            return Result::Err(ConvertError::EmptyCategory { item: it });
        }
        v += 1;
    }
    proof {
        lemma_first_empty_none(s);
    }
    let mut i: usize = 0;
    while i < n
        invariant
            n == s.len(),
            s == decided@,
            i <= n,
            dl_distinct(s),
            first_empty_value(s) == -1,
            forall|j: int| 0 <= j < s.len() ==> (#[trigger] s[j]).1.len() > 0,
            user.wf(),
            user@.uid == old(user)@.uid,
            user@.accounts == old(user)@.accounts,
            m0 == old(user)@.catmap,
            user@.catmap == apply_decided(m0, s, i as int),
            forall|j: int| 0 <= j < s.len() ==> can_count_more(m0, (#[trigger] s[j]).0),
        decreases n - i,
    {
        let (it, cat) = decided.entry(i);
        proof {
            assert forall|l: int| 0 <= l < i implies (#[trigger] s[l]).0 != s[i as int].0 by {}
            lemma_apply_decided_frame(m0, s, i as int, s[i as int].0);
            assert(stats_of(user@.catmap, s[i as int].0) == stats_of(m0, s[i as int].0));
        }
        crate::categories::assign_category(it.as_str(), cat.as_str(), &mut user.catmap);
        i += 1;
    }
    let ghost items = purchase.items.deep_view();
    let in_count = purchase.items.len();
    let mut cats: Vec<String> = Vec::new();
    let mut k: usize = 0;
    while k < in_count
        invariant
            in_count == purchase.items@.len(),
            items == purchase.items.deep_view(),
            s == decided@,
            k <= in_count,
            cats@.len() == k,
            user.wf(),
            user@.uid == old(user)@.uid,
            user@.accounts == old(user)@.accounts,
            user@.catmap == apply_decided(m0, s, s.len() as int),
            m0 == old(user)@.catmap,
            first_empty_value(s) == -1,
            forall|j: int| 0 <= j < k ==> dl_has(s, (#[trigger] items[j]).0),
            forall|j: int| 0 <= j < k ==> (#[trigger] cats.deep_view()[j]) == s[dl_find(s, items[j].0)].1,
        decreases in_count - k,
    {
        proof {
            assert(items[k as int] == purchase.items@[k as int]@);
        }
        let name = &purchase.items[k].name;
        match decided.get(name.as_str()) {
            Option::Some(c) => {
                let ghost cv = c@;
                let ghost prec = cats.deep_view();
                cats.push(c);
                proof {
                    assert(cats.deep_view() =~= prec.push(cv));
                    assert(cats.deep_view()[k as int] == s[dl_find(s, items[k as int].0)].1);
                }
            },
            Option::None => {
                proof {
                    lemma_first_missing_at(items, s, k as int);
                }
                return Result::Err(ConvertError::MissingCategory { item: name.clone() });
            },
        }
        k += 1;
    }
    proof {
        lemma_first_missing_none(items, s);
        assert(cats.deep_view() =~= cats_of(items, s));
    }
    match crate::convert::convert(purchase, memo, acc, filter, &cats) {
        Result::Ok(t) => Result::Ok(t),
        Result::Err(message) => Result::Err(ConvertError::BuildFailed { message }),
    }
}

// ---------------------------------------------------------------------------
// Chat commands.
// ---------------------------------------------------------------------------

/// A chat command, parsed from a `/`-prefixed message.
#[derive(Debug, Clone)]
pub enum Command {
    /// List the supported commands.
    Help,
    /// Register the user.
    Start,
    /// Request account deletion.
    Delete,
    /// A diagnostic query.
    Request,
    /// Reset the conversation.
    Cancel,
    /// Add an account with the given name.
    NewAccount { account: String },
    /// List the known expense accounts.
    Accounts,
}

/// The ghost shape of a command.
pub ghost enum CommandV {
    Help,
    Start,
    Delete,
    Request,
    Cancel,
    NewAccount { account: Seq<char> },
    Accounts,
}

impl View for Command {
    type V = CommandV;

    open spec fn view(&self) -> CommandV {
        match self {
            Command::Help => CommandV::Help,
            Command::Start => CommandV::Start,
            Command::Delete => CommandV::Delete,
            Command::Request => CommandV::Request,
            Command::Cancel => CommandV::Cancel,
            Command::NewAccount { account } => CommandV::NewAccount { account: account@ },
            Command::Accounts => CommandV::Accounts,
        }
    }
}

/// What a message parses to: a bare command word, or the new-account
/// command followed by a space and the account name.
pub open spec fn parse_command_spec(text: Seq<char>) -> Option<CommandV> {
    if text == "/help"@ {
        Option::Some(CommandV::Help)
    } else if text == "/start"@ {
        Option::Some(CommandV::Start)
    } else if text == "/delete"@ {
        Option::Some(CommandV::Delete)
    } else if text == "/request"@ {
        Option::Some(CommandV::Request)
    } else if text == "/cancel"@ {
        Option::Some(CommandV::Cancel)
    } else if text == "/accounts"@ {
        Option::Some(CommandV::Accounts)
    } else if text == "/newaccount"@ {
        Option::Some(CommandV::NewAccount { account: Seq::empty() })
    } else if ("/newaccount "@).is_prefix_of(text) {
        Option::Some(
            CommandV::NewAccount { account: text.skip("/newaccount "@.len() as int) },
        )
    } else {
        Option::None
    }
}

/// Parse a `/`-prefixed chat message into a command.
pub fn parse_command(text: &str) -> (r: Option<Command>)
    ensures
        match r {
            Option::Some(c) => parse_command_spec(text@) == Option::Some(c@),
            Option::None => parse_command_spec(text@) is None,
        },
{
    if str_eq(text, "/help") {
        Option::Some(Command::Help)
    } else if str_eq(text, "/start") {
        Option::Some(Command::Start)
    } else if str_eq(text, "/delete") {
        Option::Some(Command::Delete)
    } else if str_eq(text, "/request") {
        Option::Some(Command::Request)
    } else if str_eq(text, "/cancel") {
        Option::Some(Command::Cancel)
    } else if str_eq(text, "/accounts") {
        Option::Some(Command::Accounts)
    } else if str_eq(text, "/newaccount") {
        let account = String::new();
        proof {
            assert(account@ =~= Seq::<char>::empty());
        }
        Option::Some(Command::NewAccount { account })
    } else if str_starts_with(text, "/newaccount ") {
        let rest = strip_prefix_str(text, "/newaccount ");
        Option::Some(Command::NewAccount { account: rest.to_owned() })
    } else {
        Option::None
    }
}

/// What handling a command replies.
#[derive(Debug, Clone)]
pub enum CommandOutcome {
    /// Show the command list.
    HelpText,
    /// Acknowledge registration.
    Starting,
    /// Acknowledge the deletion request.
    Deleting,
    /// Acknowledge the diagnostic request.
    Requesting,
    /// The conversation must be reset: feed the cancel event to the
    /// state machine.
    ResetRequested,
    /// The account was added.
    AccountAdded,
    /// The new-account command came without a name.
    NoAccountName,
    /// The expense accounts, prefix stripped and sorted, one per line.
    AccountsListing { lines: Vec<String> },
}

/// Handle one parsed command against the user's record: add an account,
/// list the expense accounts, or acknowledge.
pub fn handle_command(cmd: Command, user: &mut User) -> (r: CommandOutcome)
    ensures
        final(user)@.uid == old(user)@.uid,
        final(user)@.catmap == old(user)@.catmap,
        old(user).wf() ==> final(user).wf(),
        match cmd {
            Command::Help => r is HelpText && final(user)@ == old(user)@,
            Command::Start => r is Starting && final(user)@ == old(user)@,
            Command::Delete => r is Deleting && final(user)@ == old(user)@,
            Command::Request => r is Requesting && final(user)@ == old(user)@,
            Command::Cancel => r is ResetRequested && final(user)@ == old(user)@,
            Command::NewAccount { account } => {
                let trimmed = trim_trailing(
                    trim_leading(account@, |c: char| whitespace_char(c)),
                    |c: char| whitespace_char(c),
                );
                if trimmed.len() == 0 {
                    r is NoAccountName && final(user)@ == old(user)@
                } else {
                    r is AccountAdded && final(user)@.accounts == if old(
                        user,
                    )@.accounts.contains(trimmed) {
                        old(user)@.accounts
                    } else {
                        old(user)@.accounts.push(trimmed)
                    }
                }
            },
            Command::Accounts => r matches CommandOutcome::AccountsListing { lines }
                && lines.deep_view() == sort_lex(
                stripped_with_prefix(old(user)@.accounts, "Expenses:"@),
            ) && final(user)@ == old(user)@,
        },
{
    match cmd {
        Command::Help => CommandOutcome::HelpText,
        Command::Start => CommandOutcome::Starting,
        Command::Delete => CommandOutcome::Deleting,
        Command::Request => CommandOutcome::Requesting,
        Command::Cancel => CommandOutcome::ResetRequested,
        Command::NewAccount { account } => {
            let trimmed = trim_end_ws(trim_start_ws(account.as_str()));
            if trimmed.unicode_len() == 0 {
                CommandOutcome::NoAccountName
            } else {
                user.new_account(trimmed.to_owned());
                CommandOutcome::AccountAdded
            }
        },
        Command::Accounts => {
            let lines = user.expense_account_names();
            CommandOutcome::AccountsListing { lines }
        },
    }
}

} // verus!
