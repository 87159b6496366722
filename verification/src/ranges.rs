//! The range-list grammar and its parser.
//!
//! A range list is a comma-separated sequence of tokens; each token, after
//! trimming surrounding whitespace, is either a single index (`"7"`) or an
//! inclusive pair (`"2-4"`, both sides trimmed). Empty tokens are skipped.
//! The grammar is stated by spec functions over the character sequence, and
//! the parser is proved to decide it exactly.

use vstd::prelude::*;

verus! {

use vstd::arithmetic::div_mod::lemma_fundamental_div_mod;
use vstd::arithmetic::div_mod::lemma_mod_bound;

/// Why a range list was rejected.
#[derive(Clone, Copy, PartialEq, Eq, Structural, Debug)]
pub enum ParseError {
    /// A token, or one side of a range token, is not a valid index: it is
    /// empty, holds a non-digit character, or exceeds the machine word.
    InvalidInteger,
    /// A range token's start exceeds its end.
    InvalidRange,
}

impl ParseError {
    /// A short description of the failure, in the place of a formatting
    /// impl.
    pub fn message(&self) -> (r: &'static str)
        ensures
            *self == ParseError::InvalidInteger ==> r@
                == "invalid index: not a non-negative integer"@,
            *self == ParseError::InvalidRange ==> r@
                == "invalid range: start is greater than end"@,
    {
        match self {
            ParseError::InvalidInteger => "invalid index: not a non-negative integer",
            ParseError::InvalidRange => "invalid range: start is greater than end",
        }
    }
}

/// The whitespace characters that are insignificant around tokens.
pub open spec fn is_space(c: char) -> bool {
    c == ' ' || c == '\t' || c == '\n' || c == '\r' || c == '\u{b}' || c == '\u{c}'
}

/// Decimal digits.
pub open spec fn is_digit(c: char) -> bool {
    48 <= c as u32 <= 57
}

/// The value of a decimal digit.
pub open spec fn digit_val(c: char) -> int {
    c as u32 - 48
}

/// `s` with leading whitespace removed.
pub open spec fn trim_front(s: Seq<char>) -> Seq<char>
    decreases s.len(),
{
    if s.len() > 0 && is_space(s[0]) {
        trim_front(s.drop_first())
    } else {
        s
    }
}

/// `s` with trailing whitespace removed.
pub open spec fn trim_back(s: Seq<char>) -> Seq<char>
    decreases s.len(),
{
    if s.len() > 0 && is_space(s.last()) {
        trim_back(s.drop_last())
    } else {
        s
    }
}

/// `s` with surrounding whitespace removed.
pub open spec fn trim(s: Seq<char>) -> Seq<char> {
    trim_back(trim_front(s))
}

/// The position of the first `sep` in `s` at or after `from`, or `s.len()`
/// if there is none.
pub open spec fn first_sep(s: Seq<char>, sep: char, from: int) -> int
    decreases s.len() - from,
{
    if from < 0 || from >= s.len() {
        s.len() as int
    } else if s[from] == sep {
        from
    } else {
        first_sep(s, sep, from + 1)
    }
}

/// `first_sep` stays between `from` and the length, points at `sep` when it
/// is in range, and skips no earlier `sep`.
pub proof fn lemma_first_sep(s: Seq<char>, sep: char, from: int)
    requires
        0 <= from <= s.len(),
    ensures
        from <= first_sep(s, sep, from) <= s.len(),
        first_sep(s, sep, from) < s.len() ==> s[first_sep(s, sep, from)] == sep,
        forall|i: int| from <= i < first_sep(s, sep, from) ==> s[i] != sep,
    decreases s.len() - from,
{
    if from < s.len() && s[from] != sep {
        lemma_first_sep(s, sep, from + 1);
    }
}

/// A position with no `sep` before it (from `from`) that either points at a
/// `sep` or is the end is exactly `first_sep`.
pub proof fn lemma_first_sep_unique(s: Seq<char>, sep: char, from: int, j: int)
    requires
        0 <= from <= j <= s.len(),
        j < s.len() ==> s[j] == sep,
        forall|i: int| from <= i < j ==> s[i] != sep,
    ensures
        first_sep(s, sep, from) == j,
    decreases j - from,
{
    if from < j {
        lemma_first_sep_unique(s, sep, from + 1, j);
    }
}

/// `t` is a non-empty all-digit numeral.
pub open spec fn is_uint(t: Seq<char>) -> bool {
    t.len() > 0 && forall|i: int| 0 <= i < t.len() ==> is_digit(#[trigger] t[i])
}

/// The value of a numeral, most-significant digit first.
pub open spec fn uint_val(t: Seq<char>) -> int
    decreases t.len(),
{
    if t.len() == 0 {
        0
    } else {
        uint_val(t.drop_last()) * 10 + digit_val(t.last())
    }
}

/// `t` names an index that fits in a machine word.
pub open spec fn valid_index(t: Seq<char>) -> bool {
    is_uint(t) && uint_val(t) <= usize::MAX as int
}

/// The indices from `a` to `b` inclusive.
pub open spec fn range_set(a: int, b: int) -> Set<int> {
    Set::new(|k: int| a <= k <= b)
}

/// The indices denoted by one trimmed, non-empty token, or why it is
/// rejected. A token without `-` is a single index. A token with `-` is
/// split at its first `-`; both sides, trimmed, must be indices in order,
/// so a second `-` makes the right side fail the integer parse.
pub open spec fn token_result(t: Seq<char>) -> Result<Set<int>, ParseError> {
    let d = first_sep(t, '-', 0);
    if d >= t.len() {
        if valid_index(t) {
            Ok(range_set(uint_val(t), uint_val(t)))
        } else {
            Err(ParseError::InvalidInteger)
        }
    } else {
        let a = trim(t.subrange(0, d));
        let b = trim(t.subrange(d + 1, t.len() as int));
        if !valid_index(a) {
            Err(ParseError::InvalidInteger)
        } else if !valid_index(b) {
            Err(ParseError::InvalidInteger)
        } else if uint_val(a) > uint_val(b) {
            Err(ParseError::InvalidRange)
        } else {
            Ok(range_set(uint_val(a), uint_val(b)))
        }
    }
}

/// The indices denoted by the comma-separated tokens of `s` from position
/// `from` on, or the first token's error. Empty tokens contribute nothing.
pub open spec fn parse_from(s: Seq<char>, from: int) -> Result<Set<int>, ParseError>
    decreases s.len() - from,
        when 0 <= from <= s.len()
        via parse_from_dec
{
    let j = first_sep(s, ',', from);
    let t = trim(s.subrange(from, j));
    let head: Result<Set<int>, ParseError> = if t.len() == 0 {
        Ok(Set::empty())
    } else {
        token_result(t)
    };
    if j >= s.len() {
        head
    } else {
        match head {
            Err(e) => Err(e),
            Ok(a) => match parse_from(s, j + 1) {
                Err(e) => Err(e),
                Ok(b) => Ok(a.union(b)),
            },
        }
    }
}

#[via_fn]
proof fn parse_from_dec(s: Seq<char>, from: int) {
    lemma_first_sep(s, ',', from);
}

/// The indices denoted by a whole range list, or why it is rejected.
pub open spec fn spec_mask(s: Seq<char>) -> Result<Set<int>, ParseError> {
    parse_from(s, 0)
}

/// The union of the inclusive ranges in `ps`.
pub open spec fn pairs_set(ps: Seq<(usize, usize)>) -> Set<int>
    decreases ps.len(),
{
    if ps.len() == 0 {
        Set::empty()
    } else {
        range_set(ps[0].0 as int, ps[0].1 as int).union(pairs_set(ps.drop_first()))
    }
}

/// Appending a pair adds exactly its range to the union.
pub(crate) proof fn lemma_pairs_set_push(ps: Seq<(usize, usize)>, p: (usize, usize))
    ensures
        pairs_set(ps.push(p)) == pairs_set(ps).union(range_set(p.0 as int, p.1 as int)),
    decreases ps.len(),
{
    if ps.len() == 0 {
        assert(ps.push(p).drop_first() =~= Seq::<(usize, usize)>::empty());
        assert(pairs_set(Seq::<(usize, usize)>::empty()) == Set::<int>::empty());
        assert(ps.push(p)[0] == p);
        assert(pairs_set(ps.push(p)) =~= pairs_set(ps).union(
            range_set(p.0 as int, p.1 as int),
        ));
    } else {
        assert(ps.push(p).drop_first() =~= ps.drop_first().push(p));
        assert(ps.push(p)[0] == ps[0]);
        lemma_pairs_set_push(ps.drop_first(), p);
        assert(pairs_set(ps.push(p)) =~= pairs_set(ps).union(
            range_set(p.0 as int, p.1 as int),
        ));
    }
}

proof fn lemma_uint_val_nonneg(t: Seq<char>)
    requires
        forall|i: int| 0 <= i < t.len() ==> is_digit(#[trigger] t[i]),
    ensures
        uint_val(t) >= 0,
    decreases t.len(),
{
    if t.len() > 0 {
        lemma_uint_val_nonneg(t.drop_last());
    }
}

/// A numeral is at least any of its prefixes.
proof fn lemma_uint_val_prefix(t: Seq<char>, n: int)
    requires
        forall|i: int| 0 <= i < t.len() ==> is_digit(#[trigger] t[i]),
        0 <= n <= t.len(),
    ensures
        uint_val(t.take(n)) <= uint_val(t),
    decreases t.len() - n,
{
    if n == t.len() {
        assert(t.take(n) =~= t);
    } else {
        assert(t.take(n + 1).drop_last() =~= t.take(n));
        assert(t.take(n + 1).last() == t[n]);
        lemma_uint_val_nonneg(t.take(n));
        lemma_uint_val_prefix(t, n + 1);
    }
}

proof fn lemma_trim_front_window(u: Seq<char>) -> (f: int)
    ensures
        0 <= f <= u.len(),
        trim_front(u) == u.skip(f),
        forall|i: int| 0 <= i < f ==> is_space(#[trigger] u[i]),
    decreases u.len(),
{
    if u.len() > 0 && is_space(u[0]) {
        let f0 = lemma_trim_front_window(u.drop_first());
        assert(u.drop_first().skip(f0) =~= u.skip(f0 + 1));
        assert forall|i: int| 0 <= i < f0 + 1 implies is_space(#[trigger] u[i]) by {
            if i >= 1 {
                assert(u.drop_first()[i - 1] == u[i]);
            }
        }
        f0 + 1
    } else {
        assert(u.skip(0) =~= u);
        0
    }
}

proof fn lemma_trim_back_window(u: Seq<char>) -> (e: int)
    ensures
        0 <= e <= u.len(),
        trim_back(u) == u.take(e),
        forall|i: int| e <= i < u.len() ==> is_space(#[trigger] u[i]),
    decreases u.len(),
{
    if u.len() > 0 && is_space(u.last()) {
        let e0 = lemma_trim_back_window(u.drop_last());
        assert(u.drop_last().take(e0) =~= u.take(e0));
        assert forall|i: int| e0 <= i < u.len() implies is_space(#[trigger] u[i]) by {
            if i < u.len() - 1 {
                assert(u.drop_last()[i] == u[i]);
            }
        }
        e0
    } else {
        assert(u.take(u.len() as int) =~= u);
        u.len() as int
    }
}

/// The trimmed string is a window of the untrimmed one, with only
/// whitespace outside the window.
proof fn lemma_trim_window(u: Seq<char>) -> (w: (int, int))
    ensures
        0 <= w.0 <= w.1 <= u.len(),
        trim(u) == u.subrange(w.0, w.1),
        forall|i: int| 0 <= i < w.0 ==> is_space(#[trigger] u[i]),
        forall|i: int| w.1 <= i < u.len() ==> is_space(#[trigger] u[i]),
{
    let f = lemma_trim_front_window(u);
    let e = lemma_trim_back_window(u.skip(f));
    assert(u.skip(f).take(e) =~= u.subrange(f, f + e));
    assert forall|i: int| f + e <= i < u.len() implies is_space(#[trigger] u[i]) by {
        assert(u.skip(f)[i - f] == u[i]);
    }
    (f, f + e)
}

/// Law (single-index token): a range list without commas and dashes whose
/// trimmed text is a valid index denotes exactly that one index.
pub proof fn lemma_single_token(s: Seq<char>)
    requires
        trim(s).len() > 0,
        valid_index(trim(s)),
        forall|i: int| 0 <= i < s.len() ==> s[i] != ',',
        forall|i: int| 0 <= i < s.len() ==> s[i] != '-',
    ensures
        spec_mask(s) == Ok::<Set<int>, ParseError>(
            range_set(uint_val(trim(s)), uint_val(trim(s))),
        ),
{
    lemma_first_sep_unique(s, ',', 0, s.len() as int);
    assert(s.subrange(0, s.len() as int) =~= s);
    let w = lemma_trim_window(s);
    assert forall|x: int| 0 <= x < trim(s).len() implies trim(s)[x] != '-' by {
        assert(trim(s)[x] == s[x + w.0]);
    }
    lemma_first_sep_unique(trim(s), '-', 0, trim(s).len() as int);
}

proof fn lemma_trim_all_spaces(u: Seq<char>)
    requires
        forall|i: int| 0 <= i < u.len() ==> is_space(#[trigger] u[i]),
    ensures
        trim(u) == Seq::<char>::empty(),
    decreases u.len(),
{
    if u.len() > 0 {
        assert(u.drop_first() =~= u.skip(1));
        lemma_trim_all_spaces(u.skip(1));
    } else {
        assert(u =~= Seq::<char>::empty());
    }
}

proof fn lemma_trim_skip_spaces(u: Seq<char>, m: int)
    requires
        0 <= m <= u.len(),
        forall|i: int| 0 <= i < m ==> is_space(#[trigger] u[i]),
    ensures
        trim(u) == trim(u.skip(m)),
    decreases m,
{
    if m > 0 {
        assert(u.drop_first() =~= u.skip(1));
        lemma_trim_skip_spaces(u.skip(1), m - 1);
        assert(u.skip(1).skip(m - 1) =~= u.skip(m));
    } else {
        assert(u.skip(0) =~= u);
    }
}

proof fn lemma_trim_take_spaces(u: Seq<char>, e: int)
    requires
        0 <= e <= u.len(),
        forall|i: int| e <= i < u.len() ==> is_space(#[trigger] u[i]),
    ensures
        trim(u) == trim(u.take(e)),
    decreases u.len(),
{
    if e == u.len() {
        assert(u.take(e) =~= u);
    } else if is_space(u[0]) {
        if e == 0 {
            lemma_trim_all_spaces(u);
            assert(u.take(0) =~= Seq::<char>::empty());
            lemma_trim_all_spaces(u.take(0));
        } else {
            assert(u.drop_first() =~= u.skip(1));
            lemma_trim_take_spaces(u.skip(1), e - 1);
            assert(u.skip(1).take(e - 1) =~= u.take(e).skip(1));
            assert(u.take(e).drop_first() =~= u.take(e).skip(1));
        }
    } else {
        assert(is_space(u.last()));
        assert(trim_front(u) == u);
        assert(trim_front(u.drop_last()) == u.drop_last());
        lemma_trim_take_spaces(u.drop_last(), e);
        assert(u.drop_last().take(e) =~= u.take(e));
    }
}

/// Law (range token): a range list without commas that is one token with a
/// single dash, both trimmed sides valid indices in order, denotes exactly
/// the indices from the first to the second inclusive.
pub proof fn lemma_range_token(s: Seq<char>, d: int)
    requires
        forall|i: int| 0 <= i < s.len() ==> s[i] != ',',
        0 <= d < s.len(),
        s[d] == '-',
        forall|i: int| 0 <= i < s.len() && i != d ==> s[i] != '-',
        valid_index(trim(s.subrange(0, d))),
        valid_index(trim(s.subrange(d + 1, s.len() as int))),
        uint_val(trim(s.subrange(0, d))) <= uint_val(trim(s.subrange(d + 1, s.len() as int))),
    ensures
        spec_mask(s) == Ok::<Set<int>, ParseError>(
            range_set(
                uint_val(trim(s.subrange(0, d))),
                uint_val(trim(s.subrange(d + 1, s.len() as int))),
            ),
        ),
{
    lemma_first_sep_unique(s, ',', 0, s.len() as int);
    assert(s.subrange(0, s.len() as int) =~= s);
    let t = trim(s);
    let w = lemma_trim_window(s);
    assert(!is_space('-'));
    assert(w.0 <= d < w.1);
    assert forall|x: int| 0 <= x < t.len() && x != d - w.0 implies t[x] != '-' by {
        assert(t[x] == s[x + w.0]);
    }
    assert(t[d - w.0] == s[d]);
    lemma_first_sep_unique(t, '-', 0, d - w.0);
    // the first piece, trimmed, is the trimmed text left of the dash
    assert(t.subrange(0, d - w.0) =~= s.subrange(0, d).skip(w.0));
    lemma_trim_skip_spaces(s.subrange(0, d), w.0);
    // the second piece, trimmed, is the trimmed text right of the dash
    assert(t.subrange(d - w.0 + 1, t.len() as int) =~= s.subrange(d + 1, s.len() as int).take(
        w.1 - d - 1,
    ));
    lemma_trim_take_spaces(s.subrange(d + 1, s.len() as int), w.1 - d - 1);
}

/// Finds the first `sep` in `chars[lo..hi]`, or returns `hi`.
fn find_sep(chars: &Vec<char>, sep: char, lo: usize, hi: usize) -> (r: usize)
    requires
        lo <= hi <= chars@.len(),
    ensures
        lo <= r <= hi,
        r < hi ==> chars@[r as int] == sep,
        forall|i: int| lo <= i < r ==> chars@[i] != sep,
{
    let mut i: usize = lo;
    while i < hi
        invariant
            lo <= i <= hi <= chars@.len(),
            forall|j: int| lo <= j < i ==> chars@[j] != sep,
        decreases hi - i,
    {
        if chars[i] == sep {
            return i;
        }
        i = i + 1;
    }
    hi
}

fn is_space_char(c: char) -> (r: bool)
    ensures
        r == is_space(c),
{
    c == ' ' || c == '\t' || c == '\n' || c == '\r' || c == '\u{b}' || c == '\u{c}'
}

/// Narrows `[lo, hi)` to the trimmed token it holds.
fn trim_range(chars: &Vec<char>, lo: usize, hi: usize) -> (r: (usize, usize))
    requires
        lo <= hi <= chars@.len(),
    ensures
        lo <= r.0 <= r.1 <= hi,
        chars@.subrange(r.0 as int, r.1 as int) == trim(
            chars@.subrange(lo as int, hi as int),
        ),
{
    let mut l: usize = lo;
    while l < hi && is_space_char(chars[l])
        invariant
            lo <= l <= hi <= chars@.len(),
            trim_front(chars@.subrange(l as int, hi as int)) == trim_front(
                chars@.subrange(lo as int, hi as int),
            ),
        decreases hi - l,
    {
        proof {
            assert(chars@.subrange(l as int, hi as int).drop_first() =~= chars@.subrange(
                l + 1,
                hi as int,
            ));
        }
        l = l + 1;
    }
    let mut h: usize = hi;
    while h > l && is_space_char(chars[h - 1])
        invariant
            lo <= l <= h <= hi <= chars@.len(),
            trim_front(chars@.subrange(l as int, hi as int)) == trim_front(
                chars@.subrange(lo as int, hi as int),
            ),
            trim_back(chars@.subrange(l as int, h as int)) == trim_back(
                chars@.subrange(l as int, hi as int),
            ),
        decreases h,
    {
        proof {
            assert(chars@.subrange(l as int, h as int).drop_last() =~= chars@.subrange(
                l as int,
                h - 1,
            ));
        }
        h = h - 1;
    }
    proof {
        let s = chars@.subrange(lo as int, hi as int);
        let f = chars@.subrange(l as int, hi as int);
        let g = chars@.subrange(l as int, h as int);
        assert(trim_front(f) == trim_front(s));
        assert(trim_front(f) == f);
        assert(trim_back(g) == g);
        assert(trim(s) == g);
    }
    (l, h)
}

/// Parses the numeral in `chars[lo..hi]`, rejecting anything that is not a
/// non-empty digit string whose value fits in a machine word.
fn parse_uint(chars: &Vec<char>, lo: usize, hi: usize) -> (r: Result<usize, ParseError>)
    requires
        lo <= hi <= chars@.len(),
    ensures
        ({
            let t = chars@.subrange(lo as int, hi as int);
            match r {
                Ok(v) => valid_index(t) && v as int == uint_val(t),
                Err(e) => !valid_index(t) && e == ParseError::InvalidInteger,
            }
        }),
{
    let ghost t = chars@.subrange(lo as int, hi as int);
    if lo == hi {
        return Err(ParseError::InvalidInteger);
    }
    let mut v: usize = 0;
    let mut i: usize = lo;
    while i < hi
        invariant
            lo <= i <= hi <= chars@.len(),
            t == chars@.subrange(lo as int, hi as int),
            forall|x: int| 0 <= x < i - lo ==> is_digit(#[trigger] t[x]),
            v as int == uint_val(t.take(i - lo)),
        decreases hi - i,
    {
        let c: char = chars[i];
        let u: u32 = c as u32;
        proof {
            assert(t[i - lo] == c);
        }
        if u < 48 || u > 57 {
            proof {
                assert(!is_digit(t[i - lo]));
                assert(!is_uint(t));
            }
            return Err(ParseError::InvalidInteger);
        }
        let d: usize = (u - 48) as usize;
        proof {
            assert(t.take(i - lo + 1).drop_last() =~= t.take(i - lo));
            assert(t.take(i - lo + 1).last() == t[i - lo]);
            assert(uint_val(t.take(i - lo + 1)) == uint_val(t.take(i - lo)) * 10 + digit_val(
                t[i - lo],
            ));
            lemma_fundamental_div_mod(usize::MAX - d, 10);
            lemma_mod_bound(usize::MAX - d, 10);
        }
        if v > (usize::MAX - d) / 10 {
            proof {
                assert(uint_val(t.take(i - lo + 1)) > usize::MAX as int);
                if is_uint(t) {
                    lemma_uint_val_prefix(t, i - lo + 1);
                    assert(uint_val(t) > usize::MAX as int);
                }
            }
            return Err(ParseError::InvalidInteger);
        }
        v = v * 10 + d;
        i = i + 1;
    }
    proof {
        assert(t.take(hi - lo) =~= t);
    }
    Ok(v)
}

/// Parses one trimmed, non-empty token into its inclusive index pair.
fn parse_token(chars: &Vec<char>, lo: usize, hi: usize) -> (r: Result<(usize, usize), ParseError>)
    requires
        lo <= hi <= chars@.len(),
    ensures
        ({
            let t = chars@.subrange(lo as int, hi as int);
            match r {
                Ok(p) => p.0 <= p.1 && token_result(t) == Ok::<Set<int>, ParseError>(
                    range_set(p.0 as int, p.1 as int),
                ),
                Err(e) => token_result(t) == Err::<Set<int>, ParseError>(e),
            }
        }),
{
    let ghost t = chars@.subrange(lo as int, hi as int);
    let d = find_sep(chars, '-', lo, hi);
    proof {
        lemma_first_sep_unique(t, '-', 0, d - lo);
    }
    if d == hi {
        match parse_uint(chars, lo, hi) {
            Ok(v) => Ok((v, v)),
            Err(e) => Err(e),
        }
    } else {
        let t0 = trim_range(chars, lo, d);
        proof {
            assert(chars@.subrange(lo as int, d as int) =~= t.subrange(0, d - lo));
        }
        let a = match parse_uint(chars, t0.0, t0.1) {
            Ok(v) => v,
            Err(e) => {
                return Err(e);
            },
        };
        proof {
            assert(chars@.subrange(d + 1, hi as int) =~= t.subrange(d + 1 - lo, t.len() as int));
        }
        let t1 = trim_range(chars, d + 1, hi);
        let b = match parse_uint(chars, t1.0, t1.1) {
            Ok(v) => v,
            Err(e) => {
                return Err(e);
            },
        };
        if a > b {
            Err(ParseError::InvalidRange)
        } else {
            Ok((a, b))
        }
    }
}

/// Parses a whole range list into inclusive index pairs whose union is
/// exactly the denoted index set.
pub fn parse_chars(chars: &Vec<char>) -> (r: Result<Vec<(usize, usize)>, ParseError>)
    ensures
        ({
            match r {
                Ok(v) => spec_mask(chars@) == Ok::<Set<int>, ParseError>(pairs_set(v@))
                    && forall|x: int| 0 <= x < v@.len() ==> (#[trigger] v@[x]).0 <= v@[x].1,
                Err(e) => spec_mask(chars@) == Err::<Set<int>, ParseError>(e),
            }
        }),
{
    let ghost s = chars@;
    let mut acc: Vec<(usize, usize)> = Vec::new();
    let mut pos: usize = 0;
    proof {
        let r0 = parse_from(s, 0);
        if r0 is Ok {
            assert(pairs_set(acc@) == Set::<int>::empty());
            assert(pairs_set(acc@).union(r0->Ok_0) =~= r0->Ok_0);
        }
    }
    loop
        invariant
            pos <= s.len(),
            s == chars@,
            forall|x: int| 0 <= x < acc@.len() ==> (#[trigger] acc@[x]).0 <= acc@[x].1,
            parse_from(s, pos as int) is Ok ==> spec_mask(s) == Ok::<Set<int>, ParseError>(
                pairs_set(acc@).union(parse_from(s, pos as int)->Ok_0),
            ),
            parse_from(s, pos as int) is Err ==> spec_mask(s) == parse_from(s, pos as int),
        decreases s.len() - pos,
    {
        let j = find_sep(chars, ',', pos, chars.len());
        proof {
            lemma_first_sep_unique(s, ',', pos as int, j as int);
        }
        let t0 = trim_range(chars, pos, j);
        let ghost tok = trim(s.subrange(pos as int, j as int));
        proof {
            assert(tok == s.subrange(t0.0 as int, t0.1 as int));
            assert(tok.len() == t0.1 - t0.0);
        }
        if t0.1 == t0.0 {
            // empty token: contributes nothing
            if j == chars.len() {
                proof {
                    assert(parse_from(s, pos as int) == Ok::<Set<int>, ParseError>(Set::empty()));
                    assert(pairs_set(acc@).union(Set::empty()) =~= pairs_set(acc@));
                }
                return Ok(acc);
            }
            proof {
                let rest = parse_from(s, j + 1);
                if rest is Ok {
                    assert(parse_from(s, pos as int) == Ok::<Set<int>, ParseError>(
                        Set::empty().union(rest->Ok_0),
                    ));
                    assert(Set::empty().union(rest->Ok_0) =~= rest->Ok_0);
                    assert(pairs_set(acc@).union(Set::empty().union(rest->Ok_0))
                        =~= pairs_set(acc@).union(rest->Ok_0));
                } else {
                    assert(parse_from(s, pos as int) == rest);
                }
            }
            pos = j + 1;
        } else {
            let p = match parse_token(chars, t0.0, t0.1) {
                Ok(p) => p,
                Err(e) => {
                    proof {
                        assert(token_result(tok) == Err::<Set<int>, ParseError>(e));
                        assert(parse_from(s, pos as int) == Err::<Set<int>, ParseError>(e));
                    }
                    return Err(e);
                },
            };
            let ghost pset = range_set(p.0 as int, p.1 as int);
            let ghost acc0 = acc@;
            proof {
                assert(token_result(tok) == Ok::<Set<int>, ParseError>(pset));
                lemma_pairs_set_push(acc0, p);
            }
            acc.push(p);
            proof {
                assert(pairs_set(acc@) == pairs_set(acc0).union(pset));
            }
            if j == chars.len() {
                proof {
                    assert(parse_from(s, pos as int) == Ok::<Set<int>, ParseError>(pset));
                    assert(pairs_set(acc@) =~= spec_mask(s)->Ok_0);
                }
                return Ok(acc);
            }
            proof {
                let rest = parse_from(s, j + 1);
                if rest is Ok {
                    assert(parse_from(s, pos as int) == Ok::<Set<int>, ParseError>(
                        pset.union(rest->Ok_0),
                    ));
                    assert(pairs_set(acc0).union(pset.union(rest->Ok_0)) =~= pairs_set(
                        acc@,
                    ).union(rest->Ok_0));
                } else {
                    assert(parse_from(s, pos as int) == rest);
                }
            }
            pos = j + 1;
        }
    }
}

} // verus!
