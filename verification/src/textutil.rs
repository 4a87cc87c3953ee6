//! Character-level helpers for `&str` values: equality, prefix, substring
//! and suffix tests, whitespace and digit trimming, colon-separated
//! segmentation, lexicographic comparison and decimal formatting.

use vstd::prelude::*;

verus! {

// ---------------------------------------------------------------------------
// Character classes.  The Unicode tables behind `char::is_numeric` and
// `char::is_whitespace` are far too large to restate, so the classes are
// named and everything downstream is exact relative to the names.
// ---------------------------------------------------------------------------

pub uninterp spec fn numeric_char(c: char) -> bool;

pub uninterp spec fn whitespace_char(c: char) -> bool;

/// Relies on char::is_numeric: membership in the Unicode numeric classes,
/// which depends on the character alone.
#[verifier::external_body]
pub fn is_numeric_char(c: char) -> (r: bool)
    ensures
        r == numeric_char(c),
{
    c.is_numeric()
}

/// Relies on char::is_whitespace: membership in the Unicode whitespace
/// class, which depends on the character alone.
#[verifier::external_body]
pub fn is_whitespace_char(c: char) -> (r: bool)
    ensures
        r == whitespace_char(c),
{
    c.is_whitespace()
}

/// The result of `str::to_lowercase`, a function of the characters alone.
pub uninterp spec fn lower_of(s: Seq<char>) -> Seq<char>;

/// Relies on str::to_lowercase: the lowercase form depends on the
/// characters alone.
#[verifier::external_body]
pub fn lowercase(s: &str) -> (r: String)
    ensures
        r@ == lower_of(s@),
{
    s.to_lowercase()
}

/// The result of `char::to_uppercase`, a function of the character alone.
pub uninterp spec fn upper_of(c: char) -> Seq<char>;

/// Relies on char::to_uppercase: the uppercase form depends on the
/// character alone; `to_string` only collects the iterator it returns.
#[verifier::external_body]
pub fn char_upper(c: char) -> (r: String)
    ensures
        r@ == upper_of(c),
{
    c.to_uppercase().to_string()
}

// ---------------------------------------------------------------------------
// String equality, prefix, suffix and substring tests.
// ---------------------------------------------------------------------------

/// Compare two string slices character by character.
pub fn str_eq(a: &str, b: &str) -> (r: bool)
    ensures
        r == (a@ == b@),
{
    let alen = a.unicode_len();
    let blen = b.unicode_len();
    if alen != blen {
        return false;
    }
    let mut i: usize = 0;
    while i < alen
        invariant
            alen == a@.len(),
            blen == b@.len(),
            alen == blen,
            i <= alen,
            forall|j: int| 0 <= j < i ==> a@[j] == b@[j],
        decreases alen - i,
    {
        if a.get_char(i) != b.get_char(i) {
            return false;
        }
        i += 1;
    }
    proof {
        assert(a@ =~= b@);
    }
    true
}

/// Whether `p` is a prefix of `s`.
pub fn str_starts_with(s: &str, p: &str) -> (r: bool)
    ensures
        r == p@.is_prefix_of(s@),
{
    let slen = s.unicode_len();
    let plen = p.unicode_len();
    if plen > slen {
        return false;
    }
    let mut i: usize = 0;
    while i < plen
        invariant
            slen == s@.len(),
            plen == p@.len(),
            plen <= slen,
            i <= plen,
            forall|j: int| 0 <= j < i ==> s@[j] == p@[j],
        decreases plen - i,
    {
        if s.get_char(i) != p.get_char(i) {
            proof {
                assert(s@[i as int] != p@[i as int]);
                assert(!p@.is_prefix_of(s@));
            }
            return false;
        }
        i += 1;
    }
    proof {
        assert(p@ =~= s@.subrange(0, p@.len() as int));
    }
    true
}

/// Remove a prefix that is known to be there.
pub fn strip_prefix_str<'a>(s: &'a str, p: &str) -> (r: &'a str)
    requires
        p@.is_prefix_of(s@),
    ensures
        r@ == s@.skip(p@.len() as int),
{
    let slen = s.unicode_len();
    let plen = p.unicode_len();
    let r = s.substring_char(plen, slen);
    proof {
        assert(r@ =~= s@.skip(p@.len() as int));
    }
    r
}

/// Whether `p` ends `s`.
pub open spec fn has_suffix(s: Seq<char>, p: Seq<char>) -> bool {
    p.len() <= s.len() && s.subrange(s.len() - p.len(), s.len() as int) == p
}

pub fn str_ends_with(s: &str, p: &str) -> (r: bool)
    ensures
        r == has_suffix(s@, p@),
{
    let slen = s.unicode_len();
    let plen = p.unicode_len();
    if plen > slen {
        return false;
    }
    let mut i: usize = 0;
    while i < plen
        invariant
            slen == s@.len(),
            plen == p@.len(),
            plen <= slen,
            i <= plen,
            forall|j: int| 0 <= j < i ==> s@[slen - plen + j] == p@[j],
        decreases plen - i,
    {
        if s.get_char(slen - plen + i) != p.get_char(i) {
            proof {
                assert(s@.subrange(s@.len() - p@.len(), s@.len() as int)[i as int] != p@[i as int]);
            }
            return false;
        }
        i += 1;
    }
    proof {
        assert(s@.subrange(s@.len() - p@.len(), s@.len() as int) =~= p@);
    }
    true
}

/// Whether `p` occurs contiguously anywhere inside `s`.
pub open spec fn contains_sub(s: Seq<char>, p: Seq<char>) -> bool {
    exists|i: int| 0 <= i && i + p.len() <= s.len() && #[trigger] s.subrange(i, i + p.len()) == p
}

/// Substring search, as `str::contains` with a string pattern.
pub fn str_contains(s: &str, p: &str) -> (r: bool)
    ensures
        r == contains_sub(s@, p@),
{
    let slen = s.unicode_len();
    let plen = p.unicode_len();
    if plen > slen {
        return false;
    }
    if plen == 0 {
        proof {
            assert(contains_sub(s@, p@)) by {
                assert(s@.subrange(0, 0 + p@.len() as int) =~= p@);
            }
        }
        return true;
    }
    let mut start: usize = 0;
    while start <= slen - plen
        invariant
            slen == s@.len(),
            plen == p@.len(),
            0 < plen <= slen,
            start <= slen - plen + 1,
            forall|i: int| 0 <= i < start ==> #[trigger] s@.subrange(i, i + p@.len()) != p@,
        decreases slen - start,
    {
        let mut j: usize = 0;
        let mut all_eq: bool = true;
        while j < plen
            invariant
                slen == s@.len(),
                plen == p@.len(),
                start + plen <= slen,
                j <= plen,
                all_eq ==> forall|k: int| 0 <= k < j ==> s@[start + k] == p@[k],
                !all_eq ==> s@.subrange(start as int, start + p@.len()) != p@,
            decreases plen - j,
        {
            if s.get_char(start + j) != p.get_char(j) {
                proof {
                    assert(s@.subrange(start as int, start + p@.len())[j as int] != p@[j as int]);
                }
                all_eq = false;
            }
            j += 1;
        }
        if all_eq {
            proof {
                assert(s@.subrange(start as int, start + p@.len()) =~= p@);
            }
            return true;
        }
        start += 1;
    }
    proof {
        assert forall|i: int| 0 <= i && i + p@.len() <= s@.len() implies #[trigger] s@.subrange(
            i,
            i + p@.len(),
        ) != p@ by {
            assert(i < start);
        }
    }
    false
}

// ---------------------------------------------------------------------------
// Trimming.  Each trim is stated as the subrange that remains after the
// longest run of matching characters is removed.
// ---------------------------------------------------------------------------

/// Length of the longest prefix of `s` whose characters all satisfy `p`.
pub open spec fn leading_count(s: Seq<char>, p: spec_fn(char) -> bool) -> int
    decreases s.len(),
{
    if s.len() == 0 || !p(s[0]) {
        0
    } else {
        1 + leading_count(s.drop_first(), p)
    }
}

/// Length of the longest suffix of `s` whose characters all satisfy `p`.
pub open spec fn trailing_count(s: Seq<char>, p: spec_fn(char) -> bool) -> int
    decreases s.len(),
{
    if s.len() == 0 || !p(s.last()) {
        0
    } else {
        1 + trailing_count(s.drop_last(), p)
    }
}

/// `s` with its longest prefix of `p`-characters removed.
pub open spec fn trim_leading(s: Seq<char>, p: spec_fn(char) -> bool) -> Seq<char> {
    s.subrange(leading_count(s, p), s.len() as int)
}

/// `s` with its longest suffix of `p`-characters removed.
pub open spec fn trim_trailing(s: Seq<char>, p: spec_fn(char) -> bool) -> Seq<char> {
    s.subrange(0, s.len() - trailing_count(s, p))
}

proof fn lemma_leading_count_is(s: Seq<char>, p: spec_fn(char) -> bool, i: int)
    requires
        0 <= i <= s.len(),
        forall|j: int| 0 <= j < i ==> p(s[j]),
        i < s.len() ==> !p(s[i]),
    ensures
        leading_count(s, p) == i,
    decreases s.len(),
{
    if i == 0 {
    } else {
        assert(p(s[0]));
        lemma_leading_count_is(s.drop_first(), p, i - 1);
    }
}

proof fn lemma_trailing_count_is(s: Seq<char>, p: spec_fn(char) -> bool, i: int)
    requires
        0 <= i <= s.len(),
        forall|j: int| s.len() - i <= j < s.len() ==> p(s[j]),
        i < s.len() ==> !p(s[s.len() - i - 1]),
    ensures
        trailing_count(s, p) == i,
    decreases s.len(),
{
    if i == 0 {
    } else {
        assert(p(s.last()));
        lemma_trailing_count_is(s.drop_last(), p, i - 1);
    }
}

/// Index of the first character at or after `from` that is not Unicode
/// whitespace, or the length of `s` if all of them are.
fn scan_whitespace(s: &str, from: usize) -> (r: usize)
    requires
        from <= s@.len(),
    ensures
        from <= r <= s@.len(),
        forall|j: int| from <= j < r ==> whitespace_char(s@[j]),
        r < s@.len() ==> !whitespace_char(s@[r as int]),
{
    let n = s.unicode_len();
    let mut i: usize = from;
    while i < n
        invariant
            n == s@.len(),
            from <= i <= n,
            forall|j: int| from <= j < i ==> whitespace_char(s@[j]),
        decreases n - i,
    {
        if !is_whitespace_char(s.get_char(i)) {
            return i;
        }
        i += 1;
    }
    i
}

/// `str::trim_start`: remove leading Unicode whitespace.
pub fn trim_start_ws<'a>(s: &'a str) -> (r: &'a str)
    ensures
        r@ == trim_leading(s@, |c: char| whitespace_char(c)),
{
    let i = scan_whitespace(s, 0);
    let n = s.unicode_len();
    let r = s.substring_char(i, n);
    proof {
        lemma_leading_count_is(s@, |c: char| whitespace_char(c), i as int);
    }
    r
}

/// Index of the first character that is not numeric, or the length of `s`.
fn scan_numeric(s: &str) -> (r: usize)
    ensures
        r <= s@.len(),
        forall|j: int| 0 <= j < r ==> numeric_char(s@[j]),
        r < s@.len() ==> !numeric_char(s@[r as int]),
{
    let n = s.unicode_len();
    let mut i: usize = 0;
    while i < n
        invariant
            n == s@.len(),
            i <= n,
            forall|j: int| 0 <= j < i ==> numeric_char(s@[j]),
        decreases n - i,
    {
        if !is_numeric_char(s.get_char(i)) {
            return i;
        }
        i += 1;
    }
    i
}

/// `str::trim_start_matches(char::is_numeric)`: remove leading numerics.
pub fn trim_start_numeric<'a>(s: &'a str) -> (r: &'a str)
    ensures
        r@ == trim_leading(s@, |c: char| numeric_char(c)),
{
    let n = s.unicode_len();
    let i = scan_numeric(s);
    let r = s.substring_char(i, n);
    proof {
        lemma_leading_count_is(s@, |c: char| numeric_char(c), i as int);
    }
    r
}

/// A character trimmed between the store number and the item name on some
/// supermarket receipts.
pub open spec fn perek_char(c: char) -> bool {
    c == '*' || c == ':' || c == ' '
}

/// Index of the first character that is none of `*`, `:` and space, or
/// the length of `s`.
fn scan_perek(s: &str) -> (r: usize)
    ensures
        r <= s@.len(),
        forall|j: int| 0 <= j < r ==> perek_char(s@[j]),
        r < s@.len() ==> !perek_char(s@[r as int]),
{
    let n = s.unicode_len();
    let mut i: usize = 0;
    while i < n
        invariant
            n == s@.len(),
            i <= n,
            forall|j: int| 0 <= j < i ==> perek_char(s@[j]),
        decreases n - i,
    {
        let c = s.get_char(i);
        if !(c == '*' || c == ':' || c == ' ') {
            return i;
        }
        i += 1;
    }
    i
}

/// `str::trim_start_matches(['*', ':', ' '])`.
pub fn trim_start_perek<'a>(s: &'a str) -> (r: &'a str)
    ensures
        r@ == trim_leading(s@, |c: char| perek_char(c)),
{
    let n = s.unicode_len();
    let i = scan_perek(s);
    let r = s.substring_char(i, n);
    proof {
        lemma_leading_count_is(s@, |c: char| perek_char(c), i as int);
    }
    r
}

/// Index just past the last character that is not Unicode whitespace, or
/// zero if every character is.
fn scan_end_ws(s: &str) -> (r: usize)
    ensures
        r <= s@.len(),
        forall|j: int| r <= j < s@.len() ==> whitespace_char(s@[j]),
        r > 0 ==> !whitespace_char(s@[r - 1]),
{
    let n = s.unicode_len();
    let mut i: usize = n;
    while i > 0
        invariant
            n == s@.len(),
            i <= n,
            forall|j: int| i <= j < n ==> whitespace_char(s@[j]),
        decreases i,
    {
        if !is_whitespace_char(s.get_char(i - 1)) {
            return i;
        }
        i -= 1;
    }
    i
}

/// `str::trim_end`: remove trailing Unicode whitespace.
pub fn trim_end_ws<'a>(s: &'a str) -> (r: &'a str)
    ensures
        r@ == trim_trailing(s@, |c: char| whitespace_char(c)),
{
    let n = s.unicode_len();
    let i = scan_end_ws(s);
    let r = s.substring_char(0, i);
    proof {
        lemma_trailing_count_is(s@, |c: char| whitespace_char(c), n - i);
    }
    r
}

/// Index just past the last character that is not numeric, or zero if
/// every character is.
fn scan_end_numeric(s: &str) -> (r: usize)
    ensures
        r <= s@.len(),
        forall|j: int| r <= j < s@.len() ==> numeric_char(s@[j]),
        r > 0 ==> !numeric_char(s@[r - 1]),
{
    let n = s.unicode_len();
    let mut i: usize = n;
    while i > 0
        invariant
            n == s@.len(),
            i <= n,
            forall|j: int| i <= j < n ==> numeric_char(s@[j]),
        decreases i,
    {
        if !is_numeric_char(s.get_char(i - 1)) {
            return i;
        }
        i -= 1;
    }
    i
}

/// `str::trim_end_matches(char::is_numeric)`: remove trailing numerics.
pub fn trim_end_numeric<'a>(s: &'a str) -> (r: &'a str)
    ensures
        r@ == trim_trailing(s@, |c: char| numeric_char(c)),
{
    let n = s.unicode_len();
    let i = scan_end_numeric(s);
    let r = s.substring_char(0, i);
    proof {
        lemma_trailing_count_is(s@, |c: char| numeric_char(c), n - i);
    }
    r
}

// ---------------------------------------------------------------------------
// Repeated suffix stripping, as `str::trim_end_matches` with a string
// pattern.
// ---------------------------------------------------------------------------

/// `s` with every trailing occurrence of the non-empty pattern `u` removed.
pub open spec fn strip_suffix_rep(s: Seq<char>, u: Seq<char>) -> Seq<char>
    decreases s.len(),
{
    if u.len() > 0 && has_suffix(s, u) {
        strip_suffix_rep(s.subrange(0, s.len() - u.len()), u)
    } else {
        s
    }
}

/// `str::trim_end_matches(u)` for a non-empty string pattern.
pub fn strip_suffix_repeated<'a>(s: &'a str, u: &str) -> (r: &'a str)
    requires
        u@.len() > 0,
    ensures
        r@ == strip_suffix_rep(s@, u@),
    decreases s@.len(),
{
    if str_ends_with(s, u) {
        let slen = s.unicode_len();
        let ulen = u.unicode_len();
        let shorter = s.substring_char(0, slen - ulen);
        strip_suffix_repeated(shorter, u)
    } else {
        s
    }
}

// ---------------------------------------------------------------------------
// Colon-separated segmentation, as `str::split(':')` collected to a vector.
// ---------------------------------------------------------------------------

pub open spec fn non_colon(c: char) -> bool {
    c != ':'
}

proof fn lemma_leading_count_le(s: Seq<char>, p: spec_fn(char) -> bool)
    ensures
        0 <= leading_count(s, p) <= s.len(),
    decreases s.len(),
{
    if s.len() == 0 || !p(s[0]) {
    } else {
        lemma_leading_count_le(s.drop_first(), p);
    }
}

/// The segments of `s` between `:` separators, in order; an empty input
/// yields one empty segment, as `str::split` does.
pub open spec fn split_colon(s: Seq<char>) -> Seq<Seq<char>>
    decreases s.len() via split_colon_decreases
{
    let k = leading_count(s, |c: char| non_colon(c));
    if k == s.len() {
        seq![s]
    } else {
        seq![s.subrange(0, k)] + split_colon(s.subrange(k + 1, s.len() as int))
    }
}

#[via_fn]
proof fn split_colon_decreases(s: Seq<char>) {
    lemma_leading_count_le(s, |c: char| non_colon(c));
}

/// Index of the first `:` at or after `from`, or the length of `s`.
fn scan_to_colon(s: &str, from: usize) -> (r: usize)
    requires
        from <= s@.len(),
    ensures
        from <= r <= s@.len(),
        forall|j: int| from <= j < r ==> s@[j] != ':',
        r < s@.len() ==> s@[r as int] == ':',
{
    let n = s.unicode_len();
    let mut i: usize = from;
    while i < n
        invariant
            n == s@.len(),
            from <= i <= n,
            forall|j: int| from <= j < i ==> s@[j] != ':',
        decreases n - i,
    {
        if s.get_char(i) == ':' {
            return i;
        }
        i += 1;
    }
    i
}

/// `str::split(':')` collected into owned segments.
pub fn split_colon_str(s: &str) -> (r: Vec<String>)
    ensures
        r.deep_view() == split_colon(s@),
    decreases s@.len(),
{
    let n = s.unicode_len();
    let k = scan_to_colon(s, 0);
    proof {
        lemma_leading_count_is(s@, |c: char| non_colon(c), k as int);
    }
    if k == n {
        let mut r: Vec<String> = Vec::new();
        r.push(s.to_owned());
        proof {
            assert(r.deep_view() =~= split_colon(s@));
        }
        r
    } else {
        let head = s.substring_char(0, k).to_owned();
        let tail = s.substring_char(k + 1, n);
        let mut r = split_colon_str(tail);
        r.insert(0, head);
        proof {
            assert(r.deep_view() =~= seq![head@] + split_colon(s@.subrange(
                k + 1,
                s@.len() as int,
            )));
            assert(r.deep_view() =~= split_colon(s@));
        }
        r
    }
}

// ---------------------------------------------------------------------------
// Lexicographic order on character sequences (code-point order, which is
// the order `str` comparison uses).
// ---------------------------------------------------------------------------

pub open spec fn lex_lt(a: Seq<char>, b: Seq<char>) -> bool
    decreases a.len(),
{
    if b.len() == 0 {
        false
    } else if a.len() == 0 {
        true
    } else if (a[0] as u32) < (b[0] as u32) {
        true
    } else if a[0] == b[0] {
        lex_lt(a.drop_first(), b.drop_first())
    } else {
        false
    }
}

pub open spec fn lex_le(a: Seq<char>, b: Seq<char>) -> bool {
    lex_lt(a, b) || a == b
}

proof fn lemma_lex_lt_skip(a: Seq<char>, b: Seq<char>, i: int)
    requires
        0 <= i <= a.len(),
        i <= b.len(),
        forall|j: int| 0 <= j < i ==> a[j] == b[j],
    ensures
        lex_lt(a, b) == lex_lt(a.skip(i), b.skip(i)),
    decreases i,
{
    if i > 0 {
        assert(a.len() > 0 && b.len() > 0);
        assert(a[0] == b[0]);
        assert(!((a[0] as u32) < (b[0] as u32)));
        lemma_lex_lt_skip(a.drop_first(), b.drop_first(), i - 1);
        assert(a.drop_first().skip(i - 1) =~= a.skip(i));
        assert(b.drop_first().skip(i - 1) =~= b.skip(i));
    } else {
        assert(a.skip(0) =~= a);
        assert(b.skip(0) =~= b);
    }
}

/// Three-way character-sequence comparison: whether `a@ <= b@` in
/// code-point order.
pub fn str_lex_le(a: &str, b: &str) -> (r: bool)
    ensures
        r == lex_le(a@, b@),
{
    let alen = a.unicode_len();
    let blen = b.unicode_len();
    let mut i: usize = 0;
    loop
        invariant
            alen == a@.len(),
            blen == b@.len(),
            i <= alen,
            i <= blen,
            forall|j: int| 0 <= j < i ==> a@[j] == b@[j],
        decreases alen - i,
    {
        if i == alen || i == blen {
            proof {
                lemma_lex_lt_skip(a@, b@, i as int);
                if i == alen && i == blen {
                    assert(a@ =~= b@);
                } else if i == alen {
                    assert(a@.skip(i as int).len() == 0);
                    assert(b@.skip(i as int).len() > 0);
                    assert(a@.len() != b@.len());
                } else {
                    assert(b@.skip(i as int).len() == 0);
                    assert(a@.skip(i as int).len() > 0);
                    assert(a@.len() != b@.len());
                }
            }
            return i == alen;
        }
        let ca = a.get_char(i);
        let cb = b.get_char(i);
        if ca != cb {
            proof {
                lemma_lex_lt_skip(a@, b@, i as int);
                assert(a@.skip(i as int)[0] == a@[i as int]);
                assert(b@.skip(i as int)[0] == b@[i as int]);
                if !((ca as u32) < (cb as u32)) {
                    assert(ca as u32 != cb as u32);
                    assert(a@ != b@) by {
                        assert(a@[i as int] != b@[i as int]);
                    }
                }
            }
            return (ca as u32) < (cb as u32);
        }
        i += 1;
    }
}

/// Two characters with the same code point are the same character.
proof fn lemma_char_antisym(c1: char, c2: char)
    requires
        !((c1 as u32) < (c2 as u32)),
        !((c2 as u32) < (c1 as u32)),
    ensures
        c1 == c2,
{
}

/// Code-point order is total.
pub proof fn lemma_lex_total(a: Seq<char>, b: Seq<char>)
    ensures
        lex_le(a, b) || lex_le(b, a),
    decreases a.len(),
{
    if a.len() == 0 && b.len() == 0 {
        assert(a =~= b);
    } else if b.len() == 0 {
        assert(lex_lt(b, a));
    } else if a.len() == 0 {
    } else if (a[0] as u32) < (b[0] as u32) {
    } else if (b[0] as u32) < (a[0] as u32) {
    } else {
        lemma_char_antisym(a[0], b[0]);
        assert(a[0] == b[0]);
        lemma_lex_total(a.drop_first(), b.drop_first());
        if a.drop_first() == b.drop_first() {
            assert(a.drop_first().len() == a.len() - 1);
            assert(b.drop_first().len() == b.len() - 1);
            assert(a.len() == b.len());
            assert forall|i: int| 0 <= i < a.len() implies a[i] == b[i] by {
                if i > 0 {
                    assert(a.drop_first()[i - 1] == a[i]);
                    assert(b.drop_first()[i - 1] == b[i]);
                }
            }
            assert(a =~= b);
        }
    }
}

/// Stable insertion into a list sorted by code-point order: `x` goes
/// after every element less than or equal to it.
pub open spec fn insert_lex(x: Seq<char>, s: Seq<Seq<char>>) -> Seq<Seq<char>>
    decreases s.len(),
{
    if s.len() == 0 {
        seq![x]
    } else if lex_le(s[0], x) {
        seq![s[0]] + insert_lex(x, s.drop_first())
    } else {
        seq![x] + s
    }
}

/// Stable sort in code-point order.
pub open spec fn sort_lex(s: Seq<Seq<char>>) -> Seq<Seq<char>>
    decreases s.len(),
{
    if s.len() == 0 {
        Seq::empty()
    } else {
        insert_lex(s.last(), sort_lex(s.drop_last()))
    }
}

pub open spec fn sorted_lex(s: Seq<Seq<char>>) -> bool {
    forall|i: int, j: int| 0 <= i < j < s.len() ==> lex_le(#[trigger] s[i], #[trigger] s[j])
}

proof fn lemma_insert_lex_splice(x: Seq<char>, s: Seq<Seq<char>>)
    ensures
        exists|p: int|
            0 <= p <= s.len() && insert_lex(x, s) =~= #[trigger] s.take(p) + seq![x] + s.skip(p),
    decreases s.len(),
{
    if s.len() == 0 {
        assert(insert_lex(x, s) =~= s.take(0) + seq![x] + s.skip(0));
    } else if lex_le(s[0], x) {
        lemma_insert_lex_splice(x, s.drop_first());
        let p = choose|p: int|
            0 <= p <= s.drop_first().len() && insert_lex(x, s.drop_first()) =~= #[trigger] s
                .drop_first().take(p) + seq![x] + s.drop_first().skip(p);
        assert(insert_lex(x, s) =~= s.take(p + 1) + seq![x] + s.skip(p + 1));
    } else {
        assert(insert_lex(x, s) =~= s.take(0) + seq![x] + s.skip(0));
    }
}

/// The exact position where stable insertion places an element.
proof fn lemma_insert_lex_at(x: Seq<char>, s: Seq<Seq<char>>, j: int)
    requires
        sorted_lex(s),
        0 <= j <= s.len(),
        forall|i: int| 0 <= i < j ==> lex_le(#[trigger] s[i], x),
        j < s.len() ==> !lex_le(s[j], x),
    ensures
        insert_lex(x, s) =~= s.take(j) + seq![x] + s.skip(j),
    decreases s.len(),
{
    if s.len() == 0 {
        assert(insert_lex(x, s) =~= s.take(0) + seq![x] + s.skip(0));
    } else if j == 0 {
        assert(!lex_le(s[0], x));
        assert(insert_lex(x, s) =~= s.take(0) + seq![x] + s.skip(0));
    } else {
        assert(lex_le(s[0], x));
        let rest = s.drop_first();
        assert(forall|i: int| 0 <= i < j - 1 ==> rest[i] == s[i + 1]);
        lemma_insert_lex_at(x, rest, j - 1);
        assert(insert_lex(x, s) =~= seq![s[0]] + (rest.take(j - 1) + seq![x] + rest.skip(j - 1)));
        assert(seq![s[0]] + (rest.take(j - 1) + seq![x] + rest.skip(j - 1)) =~= s.take(j) + seq![x]
            + s.skip(j));
    }
}

proof fn lemma_insert_lex_elems(x: Seq<char>, s: Seq<Seq<char>>)
    ensures
        forall|k: int|
            0 <= k < insert_lex(x, s).len() ==> (#[trigger] insert_lex(x, s)[k]) == x || (exists|
                j: int,
            |
                0 <= j < s.len() && insert_lex(x, s)[k] == s[j]),
    decreases s.len(),
{
    let t = insert_lex(x, s);
    if s.len() == 0 {
    } else if lex_le(s[0], x) {
        lemma_insert_lex_elems(x, s.drop_first());
        let rest = insert_lex(x, s.drop_first());
        assert forall|k: int| 0 <= k < t.len() implies (#[trigger] t[k]) == x || (exists|j: int|
            0 <= j < s.len() && t[k] == s[j]) by {
            if k == 0 {
                assert(t[0] == s[0]);
            } else {
                assert(t[k] == rest[k - 1]);
                if rest[k - 1] != x {
                    let j = choose|j: int|
                        0 <= j < s.drop_first().len() && rest[k - 1] == s.drop_first()[j];
                    assert(t[k] == s[j + 1]);
                }
            }
        }
    } else {
        assert forall|k: int| 0 <= k < t.len() implies (#[trigger] t[k]) == x || (exists|j: int|
            0 <= j < s.len() && t[k] == s[j]) by {
            if k > 0 {
                assert(t[k] == s[k - 1]);
            }
        }
    }
}

proof fn lemma_insert_lex_sorted(x: Seq<char>, s: Seq<Seq<char>>)
    requires
        sorted_lex(s),
    ensures
        sorted_lex(insert_lex(x, s)),
    decreases s.len(),
{
    let t = insert_lex(x, s);
    if s.len() == 0 {
    } else if lex_le(s[0], x) {
        assert(sorted_lex(s.drop_first())) by {
            assert(forall|i: int|
                0 <= i < s.drop_first().len() ==> #[trigger] s.drop_first()[i] == s[i + 1]);
        }
        lemma_insert_lex_sorted(x, s.drop_first());
        lemma_insert_lex_elems(x, s.drop_first());
        let rest = insert_lex(x, s.drop_first());
        assert forall|i: int, j: int| 0 <= i < j < t.len() implies lex_le(
            #[trigger] t[i],
            #[trigger] t[j],
        ) by {
            if i == 0 {
                assert(t[0] == s[0]);
                assert(t[j] == rest[j - 1]);
                if rest[j - 1] != x {
                    let l = choose|l: int|
                        0 <= l < s.drop_first().len() && rest[j - 1] == s.drop_first()[l];
                    assert(s.drop_first()[l] == s[l + 1]);
                    assert(lex_le(s[0], s[l + 1]));
                }
            } else {
                assert(t[i] == rest[i - 1]);
                assert(t[j] == rest[j - 1]);
            }
        }
    } else {
        lemma_lex_total(s[0], x);
        assert(lex_le(x, s[0]));
        assert forall|i: int, j: int| 0 <= i < j < t.len() implies lex_le(
            #[trigger] t[i],
            #[trigger] t[j],
        ) by {
            if i == 0 {
                assert(t[0] == x);
                assert(t[j] == s[j - 1]);
                if j > 1 {
                    assert(lex_le(s[0], s[j - 1]));
                    lemma_lex_le_trans(x, s[0], s[j - 1]);
                }
            } else {
                assert(t[i] == s[i - 1]);
                assert(t[j] == s[j - 1]);
            }
        }
    }
}

/// Code-point order is transitive.
pub proof fn lemma_lex_le_trans(a: Seq<char>, b: Seq<char>, c: Seq<char>)
    requires
        lex_le(a, b),
        lex_le(b, c),
    ensures
        lex_le(a, c),
    decreases a.len() + b.len() + c.len(),
{
    if a == b || b == c {
    } else {
        // Both steps are strict.
        if c.len() == 0 {
            assert(!lex_lt(b, c));
        } else if a.len() == 0 {
        } else if b.len() == 0 {
            assert(!lex_lt(a, b));
        } else {
            if (a[0] as u32) < (b[0] as u32) {
                if (b[0] as u32) < (c[0] as u32) {
                } else {
                    assert(b[0] == c[0]);
                }
            } else {
                assert(a[0] == b[0]);
                if (b[0] as u32) < (c[0] as u32) {
                } else {
                    assert(b[0] == c[0]);
                    assert(lex_lt(a.drop_first(), b.drop_first()));
                    assert(lex_lt(b.drop_first(), c.drop_first()));
                    lemma_lex_le_trans(a.drop_first(), b.drop_first(), c.drop_first());
                    assert(a[0] == c[0]);
                    if a.drop_first() == c.drop_first() {
                        assert(a.drop_first().len() == a.len() - 1);
                        assert(c.drop_first().len() == c.len() - 1);
                        assert(a.len() == c.len());
                        assert forall|i: int| 0 <= i < a.len() implies a[i] == c[i] by {
                            if i > 0 {
                                assert(a.drop_first()[i - 1] == a[i]);
                                assert(c.drop_first()[i - 1] == c[i]);
                            }
                        }
                        assert(a =~= c);
                    }
                }
            }
        }
    }
}

/// First position in the sorted prefix `[0, k)` that is strictly above
/// the element at `k`, or `k` itself.
fn lex_insertion_point(v: &Vec<String>, k: usize) -> (j: usize)
    requires
        k < v@.len(),
    ensures
        j <= k,
        forall|i: int| 0 <= i < j ==> lex_le(#[trigger] v.deep_view()[i], v.deep_view()[k as int]),
        j < k ==> !lex_le(v.deep_view()[j as int], v.deep_view()[k as int]),
{
    let mut j: usize = 0;
    while j < k
        invariant
            k < v@.len(),
            j <= k,
            forall|i: int|
                0 <= i < j ==> lex_le(#[trigger] v.deep_view()[i], v.deep_view()[k as int]),
        decreases k - j,
    {
        if !str_lex_le(v[j].as_str(), v[k].as_str()) {
            proof {
                assert(v.deep_view()[j as int] == v@[j as int]@);
                assert(v.deep_view()[k as int] == v@[k as int]@);
            }
            return j;
        }
        j += 1;
    }
    j
}

/// Stable insertion sort in code-point order, the order `str` comparison
/// uses.
pub fn sort_strings(v: &mut Vec<String>)
    ensures
        final(v).deep_view() == sort_lex(old(v).deep_view()),
        sorted_lex(final(v).deep_view()),
{
    let ghost orig = old(v).deep_view();
    let n = v.len();
    if n == 0 {
        proof {
            assert(v.deep_view() =~= sort_lex(orig));
        }
        return ;
    }
    proof {
        assert(orig.take(1).len() == 1);
        assert(orig.take(1).last() == orig[0]);
        assert(orig.take(1).drop_last() =~= Seq::<Seq<char>>::empty());
        assert(sort_lex(orig.take(1)) == insert_lex(
            orig.take(1).last(),
            sort_lex(orig.take(1).drop_last()),
        ));
        assert(sort_lex(Seq::<Seq<char>>::empty()) =~= Seq::<Seq<char>>::empty());
        assert(insert_lex(orig[0], Seq::empty()) =~= seq![orig[0]]);
        assert(v.deep_view().take(1) =~= seq![orig[0]]);
    }
    let mut k: usize = 1;
    while k < n
        invariant
            v@.len() == n,
            n == orig.len(),
            1 <= k <= n,
            v.deep_view().skip(k as int) =~= orig.skip(k as int),
            v.deep_view().take(k as int) =~= sort_lex(orig.take(k as int)),
            sorted_lex(v.deep_view().take(k as int)),
        decreases n - k,
    {
        let ghost pre = v.deep_view();
        let j = lex_insertion_point(v, k);
        let ghost x = pre[k as int];
        let rec = v.remove(k);
        v.insert(j, rec);
        proof {
            let sorted_prefix = pre.take(k as int);
            assert forall|i: int| 0 <= i < j implies lex_le(#[trigger] sorted_prefix[i], x) by {
                assert(sorted_prefix[i] == pre[i]);
            }
            lemma_insert_lex_at(x, sorted_prefix, j as int);
            assert(v.deep_view() =~= pre.take(k as int).take(j as int) + seq![x] + pre.take(
                k as int,
            ).skip(j as int) + pre.skip(k as int + 1));
            assert(v.deep_view().take(k as int + 1) =~= insert_lex(x, sorted_prefix));
            assert(v.deep_view().skip(k as int + 1) =~= pre.skip(k as int + 1));
            assert forall|i: int| 0 <= i < pre.skip(k as int + 1).len() implies #[trigger] pre.skip(
                k as int + 1,
            )[i] == orig.skip(k as int + 1)[i] by {
                assert(pre.skip(k as int)[i + 1] == pre[k + 1 + i]);
                assert(orig.skip(k as int)[i + 1] == orig[k + 1 + i]);
            }
            assert(pre.skip(k as int + 1) =~= orig.skip(k as int + 1));
            assert(orig.take(k as int + 1).drop_last() =~= orig.take(k as int));
            assert(orig.take(k as int + 1).last() == orig[k as int]);
            assert(pre.skip(k as int)[0] == pre[k as int]);
            assert(orig.skip(k as int)[0] == orig[k as int]);
            assert(x == orig[k as int]);
            assert(sort_lex(orig.take(k as int + 1)) == insert_lex(
                orig[k as int],
                sort_lex(orig.take(k as int)),
            ));
            lemma_insert_lex_sorted(x, sorted_prefix);
        }
        k += 1;
    }
    proof {
        assert(v.deep_view().take(n as int) =~= v.deep_view());
        assert(orig.take(n as int) =~= orig);
    }
}

// ---------------------------------------------------------------------------
// Decimal formatting for signed 64-bit integers.
// ---------------------------------------------------------------------------

pub open spec fn digit_char(d: int) -> char {
    if d == 0 {
        '0'
    } else if d == 1 {
        '1'
    } else if d == 2 {
        '2'
    } else if d == 3 {
        '3'
    } else if d == 4 {
        '4'
    } else if d == 5 {
        '5'
    } else if d == 6 {
        '6'
    } else if d == 7 {
        '7'
    } else if d == 8 {
        '8'
    } else {
        '9'
    }
}

/// The decimal digits of a non-negative integer, most significant first.
pub open spec fn dec_digits(n: int) -> Seq<char>
    decreases n,
{
    if n < 10 {
        seq![digit_char(n)]
    } else {
        dec_digits(n / 10).push(digit_char(n % 10))
    }
}

/// The decimal rendering of an integer, with a leading `-` when negative.
pub open spec fn dec_int(n: int) -> Seq<char> {
    if n < 0 {
        seq!['-'] + dec_digits(-n)
    } else {
        dec_digits(n)
    }
}

fn digit_str(d: u64) -> (r: &'static str)
    requires
        d < 10,
    ensures
        r@ =~= seq![digit_char(d as int)],
{
    let r: &'static str = match d {
        0 => "0",
        1 => "1",
        2 => "2",
        3 => "3",
        4 => "4",
        5 => "5",
        6 => "6",
        7 => "7",
        8 => "8",
        _ => "9",
    };
    proof {
        reveal_strlit("0");
        reveal_strlit("1");
        reveal_strlit("2");
        reveal_strlit("3");
        reveal_strlit("4");
        reveal_strlit("5");
        reveal_strlit("6");
        reveal_strlit("7");
        reveal_strlit("8");
        reveal_strlit("9");
    }
    r
}

/// The sequence of digit characters for the digits in `ds`, which hold a
/// number's digits least significant first.
spec fn digits_rev(ds: Seq<u64>) -> Seq<char>
    decreases ds.len(),
{
    if ds.len() == 0 {
        Seq::empty()
    } else {
        seq![digit_char(ds.last() as int)] + digits_rev(ds.drop_last())
    }
}

/// Decimal formatting of an unsigned 64-bit integer.
pub fn fmt_u64(v: u64) -> (r: String)
    ensures
        r@ == dec_digits(v as int),
{
    if v == 0 {
        let r = String::from_str("0");
        proof {
            reveal_strlit("0");
            assert(r@ =~= dec_digits(0));
        }
        return r;
    }
    let mut ds: Vec<u64> = Vec::new();
    let mut x: u64 = v;
    while x > 0
        invariant
            forall|j: int| 0 <= j < ds@.len() ==> ds@[j] < 10,
            x > 0 ==> dec_digits(v as int) =~= dec_digits(x as int) + digits_rev(ds@),
            x == 0 ==> dec_digits(v as int) =~= digits_rev(ds@),
        decreases x,
    {
        let d: u64 = x % 10;
        let ghost old_x = x;
        let ghost old_ds = ds@;
        ds.push(d);
        x = x / 10;
        proof {
            assert(ds@.drop_last() =~= old_ds);
            assert(ds@.last() == d);
            assert(digits_rev(ds@) == seq![digit_char(d as int)] + digits_rev(old_ds));
            if old_x >= 10 {
                assert(dec_digits(old_x as int) == dec_digits(old_x as int / 10).push(
                    digit_char(old_x as int % 10),
                ));
                assert(dec_digits(x as int).push(digit_char(d as int)) + digits_rev(old_ds)
                    =~= dec_digits(x as int) + (seq![digit_char(d as int)] + digits_rev(old_ds)));
            } else {
                assert(x == 0);
                assert(dec_digits(old_x as int) =~= seq![digit_char(d as int)]);
            }
        }
    }
    let mut r = String::new();
    let mut i: usize = ds.len();
    proof {
        assert(ds@.take(i as int) =~= ds@);
        assert(r@ + digits_rev(ds@.take(i as int)) =~= digits_rev(ds@));
    }
    while i > 0
        invariant
            i <= ds@.len(),
            forall|j: int| 0 <= j < ds@.len() ==> ds@[j] < 10,
            dec_digits(v as int) =~= digits_rev(ds@),
            r@ + digits_rev(ds@.take(i as int)) =~= dec_digits(v as int),
        decreases i,
    {
        i -= 1;
        let ghost pre = r@;
        r.append(digit_str(ds[i]));
        proof {
            assert(ds@.take(i + 1).drop_last() =~= ds@.take(i as int));
            assert(ds@.take(i + 1).last() == ds@[i as int]);
            assert(digits_rev(ds@.take(i + 1)) == seq![digit_char(ds@[i as int] as int)]
                + digits_rev(ds@.take(i as int)));
            assert(pre + seq![digit_char(ds@[i as int] as int)] + digits_rev(ds@.take(i as int))
                =~= pre + digits_rev(ds@.take(i + 1)));
            assert(r@ + digits_rev(ds@.take(i as int)) =~= pre + digits_rev(ds@.take(i + 1)));
        }
    }
    proof {
        assert(ds@.take(0) =~= Seq::<u64>::empty());
        assert(r@ + digits_rev(ds@.take(0)) =~= r@);
    }
    r
}

/// Decimal formatting of a signed 64-bit integer.
pub fn fmt_i64(v: i64) -> (r: String)
    requires
        v != i64::MIN,
    ensures
        r@ == dec_int(v as int),
{
    if v < 0 {
        let mut r = String::from_str("-");
        proof {
            reveal_strlit("-");
        }
        let m: u64 = (-v) as u64;
        let digits = fmt_u64(m);
        r.append(digits.as_str());
        proof {
            assert(r@ =~= dec_int(v as int));
        }
        r
    } else {
        let r = fmt_u64(v as u64);
        r
    }
}

} // verus!


