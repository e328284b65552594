//! Character-level string helpers with exact contracts.
use vstd::prelude::*;
use vstd::string::StrSliceExecFns;

verus! {

/// Whether two strings hold the same characters.
pub fn str_eq(a: &str, b: &str) -> (same: bool)
    ensures
        same == (a@ == b@),
{
    let n = a.unicode_len();
    if n != b.unicode_len() {
        return false;
    }
    let mut i: usize = 0;
    while i < n
        invariant
            0 <= i <= n,
            n == a@.len(),
            n == b@.len(),
            forall|k: int| 0 <= k < i ==> a@[k] == b@[k],
        decreases n - i,
    {
        if a.get_char(i) != b.get_char(i) {
            return false;
        }
        i = i + 1;
    }
    assert(a@ =~= b@);
    true
}

/// The Unicode `White_Space` characters.
pub open spec fn white_space(c: char) -> bool {
    let u = c as u32;
    ||| 0x9 <= u <= 0xD
    ||| u == 0x20
    ||| u == 0x85
    ||| u == 0xA0
    ||| u == 0x1680
    ||| 0x2000 <= u <= 0x200A
    ||| u == 0x2028
    ||| u == 0x2029
    ||| u == 0x202F
    ||| u == 0x205F
    ||| u == 0x3000
}

/// Whether `c` is a Unicode `White_Space` character.
pub fn is_white_space(c: char) -> (ws: bool)
    ensures
        ws == white_space(c),
{
    let u = c as u32;
    (0x9 <= u && u <= 0xD) || u == 0x20 || u == 0x85 || u == 0xA0 || u == 0x1680 || (0x2000 <= u && u <= 0x200A)
        || u == 0x2028 || u == 0x2029 || u == 0x202F || u == 0x205F || u == 0x3000
}

/// `s` without its leading white space.
pub open spec fn trim_start_seq(s: Seq<char>) -> Seq<char>
    decreases s.len(),
{
    if s.len() > 0 && white_space(s[0]) {
        trim_start_seq(s.drop_first())
    } else {
        s
    }
}

/// `s` without its trailing white space.
pub open spec fn trim_end_seq(s: Seq<char>) -> Seq<char>
    decreases s.len(),
{
    if s.len() > 0 && white_space(s.last()) {
        trim_end_seq(s.drop_last())
    } else {
        s
    }
}

/// `s` without leading and trailing white space.
pub open spec fn trimmed(s: Seq<char>) -> Seq<char> {
    trim_end_seq(trim_start_seq(s))
}

/// Removes leading and trailing white space.
pub fn trim(s: &str) -> (t: &str)
    ensures
        t@ == trimmed(s@),
{
    let n = s.unicode_len();
    let mut i: usize = 0;
    assert(s@.subrange(0, n as int) =~= s@);
    while i < n && is_white_space(s.get_char(i))
        invariant
            0 <= i <= n,
            n == s@.len(),
            trim_start_seq(s@) == trim_start_seq(s@.subrange(i as int, n as int)),
        decreases n - i,
    {
        assert(s@.subrange(i as int, n as int).drop_first() =~= s@.subrange(i + 1, n as int));
        i = i + 1;
    }
    let ghost mid = s@.subrange(i as int, n as int);
    assert(trim_start_seq(mid) == mid);
    let mut j: usize = n;
    while j > i && is_white_space(s.get_char(j - 1))
        invariant
            i <= j <= n,
            n == s@.len(),
            mid == s@.subrange(i as int, n as int),
            trim_end_seq(mid) == trim_end_seq(s@.subrange(i as int, j as int)),
        decreases j,
    {
        assert(s@.subrange(i as int, j as int).drop_last() =~= s@.subrange(i as int, j - 1));
        assert(s@.subrange(i as int, j as int).last() == s@[j - 1]);
        j = j - 1;
    }
    assert(trim_end_seq(s@.subrange(i as int, j as int)) == s@.subrange(i as int, j as int));
    s.substring_char(i, j)
}

/// Whether `s` begins with `prefix`.
pub fn starts_with(s: &str, prefix: &str) -> (b: bool)
    ensures
        b == (prefix@.len() <= s@.len() && s@.subrange(0, prefix@.len() as int) == prefix@),
{
    let n = s.unicode_len();
    let m = prefix.unicode_len();
    if m > n {
        return false;
    }
    let mut i: usize = 0;
    while i < m
        invariant
            0 <= i <= m,
            m <= n,
            n == s@.len(),
            m == prefix@.len(),
            forall|k: int| 0 <= k < i ==> s@[k] == prefix@[k],
        decreases m - i,
    {
        if s.get_char(i) != prefix.get_char(i) {
            assert(s@.subrange(0, m as int)[i as int] != prefix@[i as int]);
            return false;
        }
        i = i + 1;
    }
    assert(s@.subrange(0, m as int) =~= prefix@);
    true
}

/// `pat` occurs in `s` at character position `i`.
pub open spec fn occurs_at(s: Seq<char>, pat: Seq<char>, i: int) -> bool {
    0 <= i && i + pat.len() <= s.len() && s.subrange(i, i + pat.len()) == pat
}

/// Character position of the first occurrence of `pat` in `s`.
pub fn find(s: &str, pat: &str) -> (pos: Option<usize>)
    ensures
        match pos {
            Some(i) => occurs_at(s@, pat@, i as int) && forall|k: int| 0 <= k < i ==> !#[trigger] occurs_at(s@, pat@, k),
            None => forall|k: int| !#[trigger] occurs_at(s@, pat@, k),
        },
{
    let n = s.unicode_len();
    let m = pat.unicode_len();
    if m > n {
        return None;
    }
    let mut i: usize = 0;
    loop
        invariant
            0 <= i <= n - m,
            m <= n,
            n == s@.len(),
            m == pat@.len(),
            forall|k: int| 0 <= k < i ==> !#[trigger] occurs_at(s@, pat@, k),
        decreases n - m - i,
    {
        let mut j: usize = 0;
        let mut matched = true;
        while j < m
            invariant
                0 <= j <= m,
                i + m <= n,
                n == s@.len(),
                m == pat@.len(),
                matched ==> forall|k: int| 0 <= k < j ==> s@[i + k] == pat@[k],
                !matched ==> !occurs_at(s@, pat@, i as int),
            decreases m - j,
        {
            if matched && s.get_char(i + j) != pat.get_char(j) {
                assert(s@.subrange(i as int, i + m)[j as int] == s@[i + j]);
                matched = false;
            }
            j = j + 1;
        }
        if matched {
            assert(s@.subrange(i as int, i + m) =~= pat@);
            return Some(i);
        }
        if i == n - m {
            assert forall|k: int| !#[trigger] occurs_at(s@, pat@, k) by {
                if 0 <= k <= i {
                }
            }
            return None;
        }
        i = i + 1;
    }
}

/// Position of the first `ch` in `s`, or the length of `s` when there is none.
pub open spec fn first_index_of(s: Seq<char>, ch: char) -> int
    decreases s.len(),
{
    if s.len() == 0 {
        0
    } else if s[0] == ch {
        0
    } else {
        1 + first_index_of(s.drop_first(), ch)
    }
}

pub proof fn lemma_first_index_of(s: Seq<char>, ch: char)
    ensures
        0 <= first_index_of(s, ch) <= s.len(),
        forall|k: int| 0 <= k < first_index_of(s, ch) ==> s[k] != ch,
        first_index_of(s, ch) < s.len() ==> s[first_index_of(s, ch)] == ch,
    decreases s.len(),
{
    if s.len() > 0 && s[0] != ch {
        lemma_first_index_of(s.drop_first(), ch);
        assert forall|k: int| 0 <= k < first_index_of(s, ch) implies s[k] != ch by {
            if k > 0 {
                assert(s[k] == s.drop_first()[k - 1]);
            }
        }
    }
}

/// The part of `s` before the first `ch` (all of `s` when there is none).
pub open spec fn before_char(s: Seq<char>, ch: char) -> Seq<char> {
    s.subrange(0, first_index_of(s, ch))
}

/// The part of `s` before the first `ch`: the first piece of `s` split at `ch`.
pub fn first_segment(s: &str, ch: char) -> (t: &str)
    ensures
        t@ == before_char(s@, ch),
{
    proof { lemma_first_index_of(s@, ch); }
    let n = s.unicode_len();
    let mut i: usize = 0;
    while i < n && s.get_char(i) != ch
        invariant
            0 <= i <= n,
            n == s@.len(),
            forall|k: int| 0 <= k < i ==> s@[k] != ch,
            0 <= first_index_of(s@, ch) <= s@.len(),
            forall|k: int| 0 <= k < first_index_of(s@, ch) ==> s@[k] != ch,
            first_index_of(s@, ch) < s@.len() ==> s@[first_index_of(s@, ch)] == ch,
        decreases n - i,
    {
        i = i + 1;
    }
    assert(i == first_index_of(s@, ch));
    s.substring_char(0, i)
}

/// `s` without any trailing `ch`.
pub open spec fn trim_end_char_seq(s: Seq<char>, ch: char) -> Seq<char>
    decreases s.len(),
{
    if s.len() > 0 && s.last() == ch {
        trim_end_char_seq(s.drop_last(), ch)
    } else {
        s
    }
}

/// Removes every trailing `ch`.
pub fn trim_end_char(s: &str, ch: char) -> (t: &str)
    ensures
        t@ == trim_end_char_seq(s@, ch),
{
    let n = s.unicode_len();
    let mut j: usize = n;
    assert(s@.subrange(0, n as int) =~= s@);
    while j > 0 && s.get_char(j - 1) == ch
        invariant
            0 <= j <= n,
            n == s@.len(),
            trim_end_char_seq(s@, ch) == trim_end_char_seq(s@.subrange(0, j as int), ch),
        decreases j,
    {
        assert(s@.subrange(0, j as int).drop_last() =~= s@.subrange(0, j - 1));
        assert(s@.subrange(0, j as int).last() == s@[j - 1]);
        j = j - 1;
    }
    assert(trim_end_char_seq(s@.subrange(0, j as int), ch) == s@.subrange(0, j as int));
    s.substring_char(0, j)
}

/// `s` with every leading copy of `prefix` removed (nothing is removed for an empty prefix).
pub open spec fn trim_start_matches_seq(s: Seq<char>, prefix: Seq<char>) -> Seq<char>
    decreases s.len(),
{
    if prefix.len() > 0 && prefix.len() <= s.len() && s.subrange(0, prefix.len() as int) == prefix {
        trim_start_matches_seq(s.subrange(prefix.len() as int, s.len() as int), prefix)
    } else {
        s
    }
}

/// Removes every leading copy of `prefix`.
pub fn trim_start_matches<'a>(s: &'a str, prefix: &str) -> (t: &'a str)
    ensures
        t@ == trim_start_matches_seq(s@, prefix@),
{
    let n = s.unicode_len();
    let m = prefix.unicode_len();
    if m == 0 {
        return s.substring_char(0, n);
    }
    let mut i: usize = 0;
    assert(s@.subrange(0, n as int) =~= s@);
    loop
        invariant
            0 <= i <= n,
            n == s@.len(),
            m == prefix@.len(),
            m > 0,
            trim_start_matches_seq(s@, prefix@) == trim_start_matches_seq(s@.subrange(i as int, n as int), prefix@),
        decreases n - i,
    {
        let rest = s.substring_char(i, n);
        if !starts_with(rest, prefix) {
            return rest;
        }
        assert(rest@.subrange(m as int, rest@.len() as int) =~= s@.subrange(i + m, n as int));
        i = i + m;
    }
}

/// The characters of `s` after position `i`.
pub fn suffix_from(s: &str, i: usize) -> (t: &str)
    requires
        i <= s@.len(),
    ensures
        t@ == s@.subrange(i as int, s@.len() as int),
{
    let n = s.unicode_len();
    s.substring_char(i, n)
}

/// The first `k` characters of `s` (all of `s` when it is shorter).
pub fn take_chars(s: &str, k: usize) -> (t: &str)
    ensures
        t@ == s@.take(if k <= s@.len() { k as int } else { s@.len() as int }),
{
    let n = s.unicode_len();
    let e = if k <= n { k } else { n };
    s.substring_char(0, e)
}

/// Decimal value of a string of digits.
pub open spec fn digits_value(s: Seq<char>) -> int
    decreases s.len(),
{
    if s.len() == 0 {
        0
    } else {
        digits_value(s.drop_last()) * 10 + (s.last() as u32 - '0' as u32)
    }
}

pub open spec fn is_digit(c: char) -> bool {
    '0' as u32 <= c as u32 <= '9' as u32
}

/// A non-empty string of ASCII digits.
pub open spec fn all_digits(s: Seq<char>) -> bool {
    s.len() > 0 && forall|i: int| 0 <= i < s.len() ==> is_digit(#[trigger] s[i])
}

/// Unsigned decimal syntax: an optional `+` followed by digits, with a value at most `max`.
pub open spec fn parse_unsigned(s: Seq<char>, max: int) -> Option<int> {
    let d = if s.len() > 0 && s[0] == '+' { s.drop_first() } else { s };
    if all_digits(d) && digits_value(d) <= max {
        Some(digits_value(d))
    } else {
        None
    }
}

proof fn lemma_digits_value_nonneg(s: Seq<char>)
    requires
        forall|i: int| 0 <= i < s.len() ==> is_digit(#[trigger] s[i]),
    ensures
        digits_value(s) >= 0,
    decreases s.len(),
{
    if s.len() > 0 {
        let d = s.drop_last();
        assert forall|i: int| 0 <= i < d.len() implies is_digit(#[trigger] d[i]) by {
            assert(d[i] == s[i]);
        }
        lemma_digits_value_nonneg(d);
        assert(is_digit(s[s.len() - 1]));
    }
}

proof fn lemma_digits_value_grows(s: Seq<char>, k: int)
    requires
        0 <= k <= s.len(),
        forall|i: int| 0 <= i < s.len() ==> is_digit(#[trigger] s[i]),
    ensures
        digits_value(s.take(k)) <= digits_value(s),
    decreases s.len() - k,
{
    if k < s.len() {
        lemma_digits_value_grows(s, k + 1);
        let t = s.take(k + 1);
        assert(t.drop_last() =~= s.take(k));
        assert(t.last() == s[k]);
        assert(is_digit(s[k]));
        assert forall|i: int| 0 <= i < s.take(k).len() implies is_digit(#[trigger] s.take(k)[i]) by {
            assert(s.take(k)[i] == s[i]);
        }
        lemma_digits_value_nonneg(s.take(k));
    } else {
        assert(s.take(k) =~= s);
    }
}

/// Parses an optional `+` followed by decimal digits, refusing values above `max`.
pub fn parse_unsigned_decimal(s: &str, max: u64) -> (v: Option<u64>)
    ensures
        match v {
            Some(x) => parse_unsigned(s@, max as int) == Some(x as int),
            None => parse_unsigned(s@, max as int) is None,
        },
{
    let n = s.unicode_len();
    let start: usize = if n > 0 && s.get_char(0) == '+' { 1 } else { 0 };
    let ghost d = if s@.len() > 0 && s@[0] == '+' { s@.drop_first() } else { s@ };
    assert(d =~= s@.subrange(start as int, n as int));
    assert(parse_unsigned(s@, max as int) == (if all_digits(d) && digits_value(d) <= max { Some(digits_value(d)) } else { None::<int> }));
    if start >= n {
        return None;
    }
    let mut value: u64 = 0;
    let mut i: usize = start;
    while i < n
        invariant
            start <= i <= n,
            n == s@.len(),
            d == s@.subrange(start as int, n as int),
            parse_unsigned(s@, max as int) == (if all_digits(d) && digits_value(d) <= max { Some(digits_value(d)) } else { None::<int> }),
            forall|k: int| start <= k < i ==> is_digit(#[trigger] s@[k]),
            value as int == digits_value(d.take(i - start)),
            value <= max,
        decreases n - i,
    {
        let c = s.get_char(i);
        let ghost t = d.take(i - start + 1);
        assert(t.drop_last() =~= d.take(i - start));
        assert(t.last() == c);
        let cu = c as u32;
        if !(48 <= cu && cu <= 57) {
            assert(d[i - start] == c);
            assert(!is_digit(d[i - start]));
            assert(!all_digits(d));
            assert(parse_unsigned(s@, max as int) is None);
            return None;
        }
        let digit = (cu - 48) as u64;
        assert(is_digit(s@[i as int]));
        if digit > max || value > (max - digit) / 10 {
            proof {
                assert(digits_value(t) > max) by (nonlinear_arith)
                    requires
                        digits_value(t) == value * 10 + digit,
                        digit > max || value > (max - digit) / 10,
                        value >= 0,
                {
                }
                if all_digits(d) {
                    lemma_digits_value_grows(d, i - start + 1);
                }
                assert(parse_unsigned(s@, max as int) is None);
            }
            return None;
        }
        assert(value * 10 + digit <= max) by (nonlinear_arith)
            requires
                value <= (max - digit) / 10,
                digit <= max,
                value >= 0,
        ;
        value = value * 10 + digit;
        i = i + 1;
    }
    assert(d.take(n - start) =~= d);
    assert(all_digits(d)) by {
        assert forall|k: int| 0 <= k < d.len() implies is_digit(#[trigger] d[k]) by {
            assert(d[k] == s@[start + k]);
        }
    }
    Some(value)
}

/// Result of `str::to_uppercase` (Unicode upper-casing) on a string.
pub uninterp spec fn uppercase_of(s: Seq<char>) -> Seq<char>;

/// Result of `str::to_lowercase` (Unicode lower-casing) on a string.
pub uninterp spec fn lowercase_of(s: Seq<char>) -> Seq<char>;

/// All characters of `s` are ASCII.
pub open spec fn all_ascii(s: Seq<char>) -> bool {
    forall|i: int| 0 <= i < s.len() ==> (#[trigger] s[i] as u32) < 128
}

/// An ASCII letter `a`-`z` upper-cased; any other character unchanged.
pub open spec fn ascii_upper(c: char) -> char {
    if 'a' <= c <= 'z' { ((c as u32) - 32) as char } else { c }
}

/// An ASCII letter `A`-`Z` lower-cased; any other character unchanged.
pub open spec fn ascii_lower(c: char) -> char {
    if 'A' <= c <= 'Z' { ((c as u32) + 32) as char } else { c }
}

/// Upper-cases `s` with `str::to_uppercase`. The Unicode mapping is named, not described; on
/// ASCII text it is the ASCII one: same length, `a`-`z` to `A`-`Z`, every other character kept.
#[verifier::external_body]
pub(crate) fn to_uppercase(s: &str) -> (u: String)
    ensures
        u@ == uppercase_of(s@),
        all_ascii(s@) ==> u@.len() == s@.len() && forall|i: int| 0 <= i < s@.len() ==> #[trigger] u@[i] == ascii_upper(s@[i]),
{
    s.to_uppercase()
}

/// Lower-cases `s` with `str::to_lowercase`. The Unicode mapping is named, not described; on
/// ASCII text it is the ASCII one: same length, `A`-`Z` to `a`-`z`, every other character kept.
#[verifier::external_body]
pub(crate) fn to_lowercase(s: &str) -> (l: String)
    ensures
        l@ == lowercase_of(s@),
        all_ascii(s@) ==> l@.len() == s@.len() && forall|i: int| 0 <= i < s@.len() ==> #[trigger] l@[i] == ascii_lower(s@[i]),
{
    s.to_lowercase()
}

} // verus!
