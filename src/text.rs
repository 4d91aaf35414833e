use vstd::prelude::*;

verus! {

/// The characters that `char::is_whitespace` accepts (Unicode `White_Space`).
pub open spec fn is_ws(c: char) -> bool {
    ('\u{9}' <= c && c <= '\u{d}') || c == ' ' || c == '\u{85}' || c == '\u{a0}' || c == '\u{1680}'
        || ('\u{2000}' <= c && c <= '\u{200a}') || c == '\u{2028}' || c == '\u{2029}'
        || c == '\u{202f}' || c == '\u{205f}' || c == '\u{3000}'
}

pub fn char_is_ws(c: char) -> (r: bool)
    ensures
        r == is_ws(c),
{
    ('\u{9}' <= c && c <= '\u{d}') || c == ' ' || c == '\u{85}' || c == '\u{a0}' || c == '\u{1680}'
        || ('\u{2000}' <= c && c <= '\u{200a}') || c == '\u{2028}' || c == '\u{2029}'
        || c == '\u{202f}' || c == '\u{205f}' || c == '\u{3000}'
}

/// The characters of a string, in order.
pub fn chars_of(s: &str) -> (r: Vec<char>)
    ensures
        r@ == s@,
{
    let mut r: Vec<char> = Vec::new();
    for c in it: s.chars()
        invariant
            r@ == it.seq().take(it.index() as int),
            it.seq() == s@,
    {
        r.push(c);
    }
    r
}

/// The first position at or after `i` (and before `hi`) that does not hold whitespace.
pub open spec fn skip_ws(s: Seq<char>, i: int, hi: int) -> int
    decreases hi - i,
{
    if i < hi && is_ws(s[i]) {
        skip_ws(s, i + 1, hi)
    } else {
        i
    }
}

/// The end of `s[lo..j]` once trailing whitespace is cut off.
pub open spec fn back_ws(s: Seq<char>, lo: int, j: int) -> int
    decreases j - lo,
{
    if lo < j && is_ws(s[j - 1]) {
        back_ws(s, lo, j - 1)
    } else {
        j
    }
}

/// The first position at or after `i` (and before `hi`) that is not an ASCII space.
pub open spec fn skip_spaces(s: Seq<char>, i: int, hi: int) -> int
    decreases hi - i,
{
    if i < hi && s[i] == ' ' {
        skip_spaces(s, i + 1, hi)
    } else {
        i
    }
}

/// The first position at or after `i` that holds `c`, or `hi` when `s[i..hi]` has none.
pub open spec fn find_char(s: Seq<char>, c: char, i: int, hi: int) -> int
    decreases hi - i,
{
    if i < hi && s[i] != c {
        find_char(s, c, i + 1, hi)
    } else {
        i
    }
}

pub proof fn lemma_skip_spaces_bounds(s: Seq<char>, i: int, hi: int)
    requires
        i <= hi,
    ensures
        i <= skip_spaces(s, i, hi) <= hi,
    decreases hi - i,
{
    if i < hi && s[i] == ' ' {
        lemma_skip_spaces_bounds(s, i + 1, hi);
    }
}

pub proof fn lemma_back_ws_bounds(s: Seq<char>, lo: int, j: int)
    requires
        lo <= j,
    ensures
        lo <= back_ws(s, lo, j) <= j,
    decreases j - lo,
{
    if lo < j && is_ws(s[j - 1]) {
        lemma_back_ws_bounds(s, lo, j - 1);
    }
}

pub proof fn lemma_find_char_at(s: Seq<char>, c: char, i: int, j: int, hi: int)
    requires
        i <= j <= hi,
        forall|m: int| i <= m < j ==> s[m] != c,
        j == hi || s[j] == c,
    ensures
        find_char(s, c, i, hi) == j,
    decreases j - i,
{
    if i < j {
        lemma_find_char_at(s, c, i + 1, j, hi);
    }
}

pub proof fn lemma_skip_ws_at(s: Seq<char>, i: int, j: int, hi: int)
    requires
        i <= j <= hi,
        forall|m: int| i <= m < j ==> is_ws(s[m]),
        j == hi || !is_ws(s[j]),
    ensures
        skip_ws(s, i, hi) == j,
    decreases j - i,
{
    if i < j {
        lemma_skip_ws_at(s, i + 1, j, hi);
    }
}

pub proof fn lemma_skip_spaces_at(s: Seq<char>, i: int, j: int, hi: int)
    requires
        i <= j <= hi,
        forall|m: int| i <= m < j ==> s[m] == ' ',
        j == hi || s[j] != ' ',
    ensures
        skip_spaces(s, i, hi) == j,
    decreases j - i,
{
    if i < j {
        lemma_skip_spaces_at(s, i + 1, j, hi);
    }
}

/// Digits read in place inside a longer sequence spell the same number and give the
/// same parse.
pub proof fn lemma_parse_u64_shift(s: Seq<char>, lo: int, hi: int, d: Seq<char>)
    requires
        0 <= lo <= hi <= s.len(),
        s.subrange(lo, hi) == d,
        d.len() > 0,
        all_digits(d, 0, d.len() as int),
    ensures
        parse_u64_spec(s, lo, hi) == parse_u64_spec(d, 0, d.len() as int),
        all_digits(s, lo, hi),
{
    assert forall|m: int| lo <= m < hi implies is_digit(#[trigger] s[m]) by {
        assert(s[m] == d[m - lo]);
    }
    lemma_digits_value_shift(s, lo, hi, d);
}

proof fn lemma_digits_value_shift(s: Seq<char>, lo: int, hi: int, d: Seq<char>)
    requires
        0 <= lo <= hi <= s.len(),
        s.subrange(lo, hi) == d,
    ensures
        digits_value(s, lo, hi) == digits_value(d, 0, d.len() as int),
    decreases hi - lo,
{
    if lo < hi {
        assert(s.subrange(lo, hi - 1) == d.drop_last());
        lemma_digits_value_shift(s, lo, hi - 1, d.drop_last());
        assert(s[hi - 1] == d[d.len() - 1]);
        assert(digits_value(d.drop_last(), 0, d.len() - 1) == digits_value(d, 0, d.len() - 1)) by {
            lemma_digits_value_prefix(d, d.len() - 1);
        }
    }
}

proof fn lemma_digits_value_prefix(d: Seq<char>, k: int)
    requires
        0 <= k < d.len(),
    ensures
        digits_value(d.take(k), 0, k) == digits_value(d, 0, k),
    decreases k,
{
    if k > 0 {
        lemma_digits_value_prefix(d, k - 1);
        assert(d.take(k).take(k - 1) =~= d.take(k - 1));
        lemma_digits_value_prefix(d.take(k), k - 1);
    }
}

/// `s[lo..hi]` with leading and trailing whitespace removed, as `str::trim` does.
pub open spec fn trimmed(s: Seq<char>, lo: int, hi: int) -> Seq<char> {
    let e = back_ws(s, lo, hi);
    s.subrange(skip_ws(s, lo, e), e)
}

/// `pat` occurs in `s` starting at position `k`.
pub open spec fn occurs_at(s: Seq<char>, pat: Seq<char>, k: int) -> bool {
    0 <= k && k + pat.len() <= s.len() && s.subrange(k, k + pat.len()) == pat
}

/// `pat` occurs inside `s[lo..hi]`.
pub open spec fn occurs_within(s: Seq<char>, pat: Seq<char>, lo: int, hi: int) -> bool {
    exists|k: int| lo <= k && k + pat.len() <= hi && #[trigger] occurs_at(s, pat, k)
}

pub fn skip_ws_from(s: &Vec<char>, i: usize, hi: usize) -> (r: usize)
    requires
        i <= hi <= s.len(),
    ensures
        r == skip_ws(s@, i as int, hi as int),
        i <= r <= hi,
{
    let mut j = i;
    while j < hi && char_is_ws(s[j])
        invariant
            i <= j <= hi <= s.len(),
            skip_ws(s@, j as int, hi as int) == skip_ws(s@, i as int, hi as int),
        decreases hi - j,
    {
        j = j + 1;
    }
    j
}

pub fn back_ws_to(s: &Vec<char>, lo: usize, j: usize) -> (r: usize)
    requires
        lo <= j <= s.len(),
    ensures
        r == back_ws(s@, lo as int, j as int),
        lo <= r <= j,
{
    let mut k = j;
    while lo < k && char_is_ws(s[k - 1])
        invariant
            lo <= k <= j <= s.len(),
            back_ws(s@, lo as int, k as int) == back_ws(s@, lo as int, j as int),
        decreases k - lo,
    {
        k = k - 1;
    }
    k
}

pub fn skip_spaces_from(s: &Vec<char>, i: usize, hi: usize) -> (r: usize)
    requires
        i <= hi <= s.len(),
    ensures
        r == skip_spaces(s@, i as int, hi as int),
        i <= r <= hi,
{
    let mut j = i;
    while j < hi && s[j] == ' '
        invariant
            i <= j <= hi <= s.len(),
            skip_spaces(s@, j as int, hi as int) == skip_spaces(s@, i as int, hi as int),
        decreases hi - j,
    {
        j = j + 1;
    }
    j
}

pub fn find_char_from(s: &Vec<char>, c: char, i: usize, hi: usize) -> (r: usize)
    requires
        i <= hi <= s.len(),
    ensures
        r == find_char(s@, c, i as int, hi as int),
        i <= r <= hi,
        r < hi ==> s@[r as int] == c,
{
    let mut j = i;
    while j < hi && s[j] != c
        invariant
            i <= j <= hi <= s.len(),
            find_char(s@, c, j as int, hi as int) == find_char(s@, c, i as int, hi as int),
        decreases hi - j,
    {
        j = j + 1;
    }
    j
}

pub fn occurs_at_pos(s: &Vec<char>, pat: &Vec<char>, k: usize) -> (r: bool)
    ensures
        r == occurs_at(s@, pat@, k as int),
{
    if k > s.len() || pat.len() > s.len() - k {
        return false;
    }
    let mut j: usize = 0;
    while j < pat.len()
        invariant
            k + pat.len() <= s.len(),
            j <= pat.len(),
            forall|m: int| 0 <= m < j ==> s@[k + m] == pat@[m],
        decreases pat.len() - j,
    {
        if s[k + j] != pat[j] {
            assert(s@.subrange(k as int, k + pat.len())[j as int] != pat@[j as int]);
            return false;
        }
        j = j + 1;
    }
    assert(s@.subrange(k as int, k + pat.len()) =~= pat@);
    true
}

pub fn occurs_within_range(s: &Vec<char>, pat: &Vec<char>, lo: usize, hi: usize) -> (r: bool)
    requires
        lo <= hi <= s.len(),
    ensures
        r == occurs_within(s@, pat@, lo as int, hi as int),
{
    if pat.len() > hi - lo {
        return false;
    }
    if pat.len() == 0 {
        assert(s@.subrange(lo as int, lo as int) =~= pat@);
        assert(occurs_at(s@, pat@, lo as int));
        return true;
    }
    let last = hi - pat.len();
    let mut k = lo;
    while k <= last
        invariant
            lo <= k <= last + 1,
            last + pat.len() == hi,
            pat.len() > 0,
            hi <= s.len(),
            forall|m: int| lo <= m < k ==> !occurs_at(s@, pat@, m),
        decreases last + 1 - k,
    {
        if occurs_at_pos(s, pat, k) {
            return true;
        }
        k = k + 1;
    }
    false
}

pub open spec fn is_digit(c: char) -> bool {
    '0' <= c && c <= '9'
}

pub open spec fn all_digits(s: Seq<char>, lo: int, hi: int) -> bool {
    forall|k: int| lo <= k < hi ==> is_digit(#[trigger] s[k])
}

/// The number that the decimal digits `s[lo..hi]` spell.
pub open spec fn digits_value(s: Seq<char>, lo: int, hi: int) -> int
    decreases hi - lo,
{
    if hi <= lo {
        0
    } else {
        digits_value(s, lo, hi - 1) * 10 + (s[hi - 1] as int - '0' as int)
    }
}

/// What `u64::from_str` gives for `s[lo..hi]`: an optional `+`, then one or more
/// decimal digits whose value fits in a `u64`.
pub open spec fn parse_u64_spec(s: Seq<char>, lo: int, hi: int) -> Option<u64> {
    let d = if lo < hi && s[lo] == '+' {
        lo + 1
    } else {
        lo
    };
    if d < hi && all_digits(s, d, hi) && digits_value(s, d, hi) <= u64::MAX {
        Some(digits_value(s, d, hi) as u64)
    } else {
        None
    }
}

proof fn lemma_digits_value_mono(s: Seq<char>, lo: int, i: int, hi: int)
    requires
        lo <= i <= hi,
        all_digits(s, lo, hi),
    ensures
        0 <= digits_value(s, lo, i) <= digits_value(s, lo, hi),
    decreases hi - i,
{
    if i < hi {
        lemma_digits_value_mono(s, lo, i, hi - 1);
        assert(is_digit(s[hi - 1]));
    } else {
        lemma_digits_value_nonneg(s, lo, i);
    }
}

proof fn lemma_digits_value_nonneg(s: Seq<char>, lo: int, hi: int)
    requires
        all_digits(s, lo, hi),
    ensures
        0 <= digits_value(s, lo, hi),
    decreases hi - lo,
{
    if lo < hi {
        lemma_digits_value_nonneg(s, lo, hi - 1);
        assert(is_digit(s[hi - 1]));
    }
}

/// Reads `s[lo..hi]` as an unsigned decimal number, as `u64::from_str` does.
pub fn parse_u64_range(s: &Vec<char>, lo: usize, hi: usize) -> (r: Option<u64>)
    requires
        lo <= hi <= s.len(),
    ensures
        r == parse_u64_spec(s@, lo as int, hi as int),
{
    let d = if lo < hi && s[lo] == '+' {
        lo + 1
    } else {
        lo
    };
    if d >= hi {
        return None;
    }
    let mut acc: u64 = 0;
    let mut i = d;
    while i < hi
        invariant
            d <= i <= hi <= s.len(),
            d == (if lo < hi && s@[lo as int] == '+' {
                lo + 1
            } else {
                lo as int
            }),
            all_digits(s@, d as int, i as int),
            acc == digits_value(s@, d as int, i as int),
        decreases hi - i,
    {
        let c = s[i];
        if !('0' <= c && c <= '9') {
            assert(!is_digit(s@[i as int]));
            return None;
        }
        let digit = (c as u32 - '0' as u32) as u64;
        let next = match acc.checked_mul(10) {
            Some(m) => m.checked_add(digit),
            None => None,
        };
        match next {
            Some(v) => {
                acc = v;
            },
            None => {
                proof {
                    assert(digits_value(s@, d as int, i + 1) == acc * 10 + digit);
                    assert(acc * 10 + digit > u64::MAX) by (nonlinear_arith)
                        requires
                            acc * 10 > u64::MAX || acc * 10 + digit > u64::MAX,
                            digit >= 0,
                    {}
                    if all_digits(s@, d as int, hi as int) {
                        lemma_digits_value_mono(s@, d as int, i + 1, hi as int);
                    }
                }
                return None;
            },
        }
        i = i + 1;
    }
    Some(acc)
}

/// Relies on std's `FromIterator<&char>` for `String`: the characters are kept in order.
#[verifier::external_body]
pub fn string_of(s: &Vec<char>, lo: usize, hi: usize) -> (r: String)
    requires
        lo <= hi <= s.len(),
    ensures
        r@ == s@.subrange(lo as int, hi as int),
{
    s[lo..hi].iter().collect()
}

} // verus!
