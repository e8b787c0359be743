//! Season descriptors: the directory names `2015-16` and `2015`.

use count_digits::CountDigits;
use vstd::prelude::*;

verus! {

/// Number of decimal digits of `n` (zero has one digit).
pub open spec fn decimal_digits(n: nat) -> nat
    decreases n,
{
    if n < 10 {
        1
    } else {
        1 + decimal_digits(n / 10)
    }
}

pub open spec fn is_digit(c: char) -> bool {
    '0' <= c && c <= '9'
}

pub open spec fn digit_value(c: char) -> nat {
    (c as u32 - '0' as u32) as nat
}

pub open spec fn all_digits(t: Seq<char>) -> bool {
    forall|i: int| 0 <= i < t.len() ==> is_digit(#[trigger] t[i])
}

/// The number written by a string of decimal digits.
pub open spec fn digits_value(t: Seq<char>) -> nat
    decreases t.len(),
{
    if t.len() == 0 {
        0
    } else {
        digits_value(t.drop_last()) * 10 + digit_value(t.last())
    }
}

/// The unsigned 16-bit number that a token denotes: an optional `+`
/// followed by at least one decimal digit, with a value below 65536.
pub open spec fn token_u16(t: Seq<char>) -> Option<nat> {
    let d = if t.len() > 0 && t[0] == '+' {
        t.subrange(1, t.len() as int)
    } else {
        t
    };
    if d.len() > 0 && all_digits(d) && digits_value(d) <= 65535 {
        Some(digits_value(d))
    } else {
        None
    }
}

/// A four-digit start year token.
pub open spec fn start_token(t: Seq<char>) -> Option<nat> {
    match token_u16(t) {
        Some(v) => if decimal_digits(v) == 4 {
            Some(v)
        } else {
            None
        },
        None => None,
    }
}

/// A two-digit end year token.
pub open spec fn end_token(t: Seq<char>) -> Option<nat> {
    match token_u16(t) {
        Some(v) => if decimal_digits(v) == 2 {
            Some(v)
        } else {
            None
        },
        None => None,
    }
}

pub open spec fn dash_free(s: Seq<char>) -> bool {
    forall|i: int| 0 <= i < s.len() ==> #[trigger] s[i] != '-'
}

/// Index of the first `-` of `s`, or `s.len()` when it has none.
pub open spec fn first_dash(s: Seq<char>) -> int
    decreases s.len(),
{
    if s.len() == 0 {
        0
    } else if s[0] == '-' {
        0
    } else {
        1 + first_dash(s.subrange(1, s.len() as int))
    }
}

/// The end year that a two-digit token gives within the start year's millennium.
pub open spec fn full_end_year(start: nat, end_token: nat) -> nat {
    end_token + (start / 1000) * 1000
}

/// The season that a directory name describes: the name is one start year
/// token, or a start year token and an end year token joined by one `-`.
pub open spec fn season_years(s: Seq<char>) -> Option<(nat, Option<nat>)> {
    let i = first_dash(s);
    if i >= s.len() {
        match start_token(s) {
            Some(y) => Some((y, None)),
            None => None,
        }
    } else {
        let a = s.subrange(0, i);
        let b = s.subrange(i + 1, s.len() as int);
        if !dash_free(b) {
            None
        } else {
            match (start_token(a), end_token(b)) {
                (Some(y0), Some(y1)) => Some((y0, Some(full_end_year(y0, y1)))),
                _ => None,
            }
        }
    }
}

/// Relies on `CountDigits::count_digits` of count-digits for `u16`:
/// the number of decimal digits, one for zero.
#[verifier::external_body]
fn count_decimal_digits(n: u16) -> (r: usize)
    ensures
        r == decimal_digits(n as nat),
{
    n.count_digits()
}

proof fn lemma_first_dash(s: Seq<char>)
    ensures
        0 <= first_dash(s) <= s.len(),
        forall|j: int| 0 <= j < first_dash(s) ==> s[j] != '-',
        first_dash(s) < s.len() ==> s[first_dash(s)] == '-',
    decreases s.len(),
{
    if s.len() > 0 && s[0] != '-' {
        let t = s.subrange(1, s.len() as int);
        lemma_first_dash(t);
        assert forall|j: int| 0 <= j < first_dash(s) implies s[j] != '-' by {
            if j > 0 {
                assert(s[j] == t[j - 1]);
            }
        }
    }
}

proof fn lemma_first_dash_at(s: Seq<char>, i: int)
    requires
        0 <= i <= s.len(),
        forall|j: int| 0 <= j < i ==> s[j] != '-',
        i < s.len() ==> s[i] == '-',
    ensures
        first_dash(s) == i,
    decreases s.len(),
{
    lemma_first_dash(s);
    if s.len() > 0 && s[0] != '-' {
        let t = s.subrange(1, s.len() as int);
        assert forall|j: int| 0 <= j < i - 1 implies t[j] != '-' by {
            assert(t[j] == s[j + 1]);
        }
        lemma_first_dash_at(t, i - 1);
    }
}

proof fn lemma_digits_value_prefix(t: Seq<char>, i: int)
    requires
        0 <= i <= t.len(),
    ensures
        digits_value(t.subrange(0, i)) <= digits_value(t),
    decreases t.len(),
{
    if i < t.len() {
        assert(t.drop_last() =~= t.subrange(0, t.len() - 1));
        lemma_digits_value_prefix(t.drop_last(), i);
        assert(t.drop_last().subrange(0, i) =~= t.subrange(0, i));
    } else {
        assert(t.subrange(0, i) =~= t);
    }
}

/// The value of a token as `u16::from_str` reads it.
fn parse_u16_token(t: &str) -> (r: Option<u16>)
    ensures
        match token_u16(t@) {
            Some(v) => r == Some(v as u16),
            None => r is None,
        },
{
    let n = t.unicode_len();
    let mut start: usize = 0;
    if n > 0 && t.get_char(0) == '+' {
        start = 1;
    }
    let ghost d = if t@.len() > 0 && t@[0] == '+' {
        t@.subrange(1, t@.len() as int)
    } else {
        t@
    };
    assert(d =~= t@.subrange(start as int, n as int));
    if start >= n {
        return None;
    }
    let mut acc: u32 = 0;
    let mut i: usize = start;
    while i < n
        invariant
            start <= i <= n,
            n == t@.len(),
            d =~= t@.subrange(start as int, n as int),
            d == (if t@.len() > 0 && t@[0] == '+' {
                t@.subrange(1, t@.len() as int)
            } else {
                t@
            }),
            forall|j: int| start <= j < i ==> is_digit(#[trigger] t@[j]),
            acc as nat == digits_value(t@.subrange(start as int, i as int)),
            acc <= 65535,
        decreases n - i,
    {
        let c = t.get_char(i);
        if c < '0' || c > '9' {
            assert(!is_digit(d[i - start]));
            return None;
        }
        let ghost prev = t@.subrange(start as int, i as int);
        let ghost next = t@.subrange(start as int, i + 1);
        assert(next.drop_last() =~= prev);
        acc = acc * 10 + (c as u32 - '0' as u32);
        i = i + 1;
        if acc > 65535 {
            proof {
                if all_digits(d) {
                    lemma_digits_value_prefix(d, i - start);
                    assert(d.subrange(0, i - start) =~= next);
                }
            }
            return None;
        }
    }
    assert(t@.subrange(start as int, i as int) =~= d);
    assert forall|j: int| 0 <= j < d.len() implies is_digit(#[trigger] d[j]) by {
        assert(d[j] == t@[start + j]);
    }
    Some(acc as u16)
}

fn start_year_token(t: &str) -> (r: Option<u16>)
    ensures
        match start_token(t@) {
            Some(v) => r == Some(v as u16),
            None => r is None,
        },
{
    match parse_u16_token(t) {
        Some(v) => {
            if count_decimal_digits(v) == 4 {
                Some(v)
            } else {
                None
            }
        },
        None => None,
    }
}

fn end_year_token(t: &str) -> (r: Option<u16>)
    ensures
        match end_token(t@) {
            Some(v) => r == Some(v as u16),
            None => r is None,
        },
{
    match parse_u16_token(t) {
        Some(v) => {
            if count_decimal_digits(v) == 2 {
                Some(v)
            } else {
                None
            }
        },
        None => None,
    }
}

/// Reads a directory name as a season: the start year and, for a season
/// that spans two calendar years, the end year.
pub fn parse_season_name(name: &str) -> (r: Option<(u32, Option<u32>)>)
    ensures
        match season_years(name@) {
            Some((y0, y1)) => r matches Some((a, b)) && a == y0 && match y1 {
                Some(e) => b matches Some(v) && v == e,
                None => b is None,
            },
            None => r is None,
        },
{
    let n = name.unicode_len();
    let mut i: usize = 0;
    let mut found = false;
    while !found && i < n
        invariant
            i <= n,
            n == name@.len(),
            forall|j: int| 0 <= j < i ==> name@[j] != '-',
            found ==> i < n && name@[i as int] == '-',
        decreases n - i + (if found { 0int } else { 1int }),
    {
        if name.get_char(i) == '-' {
            found = true;
        } else {
            i = i + 1;
        }
    }
    proof {
        lemma_first_dash_at(name@, i as int);
    }
    if i >= n {
        match start_year_token(name) {
            Some(y) => Some((y as u32, None)),
            None => None,
        }
    } else {
        let a = name.substring_char(0, i);
        let b = name.substring_char(i + 1, n);
        let mut k: usize = 0;
        let m = b.unicode_len();
        while k < m
            invariant
                k <= m,
                m == b@.len(),
                i < n,
                n == name@.len(),
                first_dash(name@) == i,
                b@ == name@.subrange(i + 1, n as int),
                forall|j: int| 0 <= j < k ==> b@[j] != '-',
            decreases m - k,
        {
            if b.get_char(k) == '-' {
                assert(!dash_free(b@));
                return None;
            }
            k = k + 1;
        }
        match (start_year_token(a), end_year_token(b)) {
            (Some(y0), Some(y1)) => {
                let start = y0 as u32;
                let end = y1 as u32 + (start / 1000) * 1000;
                Some((start, Some(end)))
            },
            _ => None,
        }
    }
}

/// Whether a directory name is a season descriptor (`2017-18` or `2017`).
pub fn validate_subdir_name(subdir_name: &str) -> (r: bool)
    ensures
        r == season_years(subdir_name@) is Some,
{
    parse_season_name(subdir_name).is_some()
}

} // verus!
