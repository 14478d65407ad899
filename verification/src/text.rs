//! Character-level text helpers shared by the parsers and formatters:
//! searching, trimming, decimal printing and string building.

use vstd::prelude::*;

verus! {

/// Appends one character; `String::push` from std.
/// Claimed: the new contents are the old contents followed by `c`.
#[verifier::external_body]
pub(crate) fn push_char(s: &mut String, c: char)
    ensures
        final(s)@ == old(s)@.push(c),
{
    s.push(c);
}

/// Removes the last character; `String::pop` from std.
/// Claimed: on a non-empty string the last character is removed and
/// returned; an empty string stays empty and `None` is returned.
#[verifier::external_body]
pub(crate) fn pop_char(s: &mut String) -> (r: Option<char>)
    ensures
        old(s)@.len() == 0 ==> r is None && final(s)@ == old(s)@,
        old(s)@.len() > 0 ==> r == Some(old(s)@.last()) && final(s)@ == old(s)@.drop_last(),
{
    s.pop()
}

/// The characters of a string slice, in order.
pub fn str_chars(s: &str) -> (v: Vec<char>)
    ensures
        v@ == s@,
{
    let mut v: Vec<char> = Vec::new();
    for c in it: s.chars()
        invariant
            v@ == it.seq().take(it.index() as int),
            it.seq() == s@,
    {
        v.push(c);
    }
    v
}

/// Appends `v[lo..hi]` to `s`.
pub fn push_chars(s: &mut String, v: &Vec<char>, lo: usize, hi: usize)
    requires
        lo <= hi <= v@.len(),
    ensures
        final(s)@ == old(s)@ + v@.subrange(lo as int, hi as int),
{
    let mut i = lo;
    while i < hi
        invariant
            lo <= i <= hi <= v@.len(),
            s@ == old(s)@ + v@.subrange(lo as int, i as int),
        decreases hi - i,
    {
        push_char(s, v[i]);
        assert(v@.subrange(lo as int, i + 1) == v@.subrange(lo as int, i as int).push(v@[i as int]));
        i = i + 1;
    }
}

/// A new string holding `v[lo..hi]`.
pub fn string_of_chars(v: &Vec<char>, lo: usize, hi: usize) -> (s: String)
    requires
        lo <= hi <= v@.len(),
    ensures
        s@ == v@.subrange(lo as int, hi as int),
{
    let mut s = String::new();
    push_chars(&mut s, v, lo, hi);
    s
}

/// Does `p` occur in `s` at position `i`?
pub open spec fn occurs_at(s: Seq<char>, p: Seq<char>, i: int) -> bool {
    0 <= i && i + p.len() <= s.len() && s.subrange(i, i + p.len()) == p
}

/// The first position at or after `from` where `p` occurs in `s`.
pub open spec fn find_from(s: Seq<char>, p: Seq<char>, from: int) -> Option<int>
    decreases s.len() + 1 - from,
{
    if from < 0 || from + p.len() > s.len() {
        None
    } else if occurs_at(s, p, from) {
        Some(from)
    } else {
        find_from(s, p, from + 1)
    }
}

/// The first position where `p` occurs in `s` (`str::find`).
pub open spec fn find(s: Seq<char>, p: Seq<char>) -> Option<int> {
    find_from(s, p, 0)
}

/// Does `p` occur anywhere in `s` (`str::contains`)?
pub open spec fn contains(s: Seq<char>, p: Seq<char>) -> bool {
    find(s, p) is Some
}

pub proof fn lemma_find_from(s: Seq<char>, p: Seq<char>, from: int)
    requires
        0 <= from,
    ensures
        find_from(s, p, from) matches Some(i) ==> {
            &&& from <= i
            &&& occurs_at(s, p, i)
            &&& forall|j: int| from <= j < i ==> !occurs_at(s, p, j)
        },
        find_from(s, p, from) is None ==> forall|j: int| from <= j ==> !occurs_at(s, p, j),
    decreases s.len() + 1 - from,
{
    if from + p.len() <= s.len() && !occurs_at(s, p, from) {
        lemma_find_from(s, p, from + 1);
    }
}

/// Characterization of `find` by its defining property.
pub proof fn lemma_find(s: Seq<char>, p: Seq<char>)
    ensures
        find(s, p) matches Some(i) ==> {
            &&& occurs_at(s, p, i)
            &&& forall|j: int| 0 <= j < i ==> !occurs_at(s, p, j)
        },
        find(s, p) is None ==> forall|j: int| !occurs_at(s, p, j),
{
    lemma_find_from(s, p, 0);
}

/// Position of the first occurrence of `p` in `s` at or after `from`.
pub fn find_chars_from(s: &Vec<char>, p: &Vec<char>, from: usize) -> (r: Option<usize>)
    requires
        from <= s@.len(),
    ensures
        r matches Some(i) ==> find_from(s@, p@, from as int) == Some(i as int),
        r is None ==> find_from(s@, p@, from as int) is None,
{
    if p.len() > s.len() {
        proof {
            lemma_find_from(s@, p@, from as int);
        }
        return None;
    }
    if p.len() == 0 {
        assert(s@.subrange(from as int, from as int) =~= p@);
        return Some(from);
    }
    let n = s.len();
    let last = n - p.len();
    let mut i = from;
    while i <= last
        invariant
            from <= i <= s@.len(),
            0 < p@.len() <= s@.len(),
            n == s@.len(),
            last == s@.len() - p@.len(),
            find_from(s@, p@, from as int) == find_from(s@, p@, i as int),
        decreases last + 1 - i,
    {
        let mut j: usize = 0;
        let mut ok = true;
        while j < p.len()
            invariant
                i <= last,
                last == s@.len() - p@.len(),
                i + p@.len() <= s@.len(),
                n == s@.len(),
                j <= p@.len(),
                ok ==> forall|k: int| 0 <= k < j ==> s@[i + k] == p@[k],
                !ok ==> !occurs_at(s@, p@, i as int),
            decreases p@.len() - j,
        {
            if s[i + j] != p[j] {
                ok = false;
                proof {
                    assert(s@.subrange(i as int, i + p@.len())[j as int] == s@[i + j]);
                }
            }
            j = j + 1;
        }
        if ok {
            assert(s@.subrange(i as int, i + p@.len()) =~= p@);
            return Some(i);
        }
        i = i + 1;
    }
    None
}

/// Position of the first occurrence of `p` in `s` (`str::find`).
pub fn find_chars(s: &Vec<char>, p: &Vec<char>) -> (r: Option<usize>)
    ensures
        r matches Some(i) ==> find(s@, p@) == Some(i as int),
        r is None ==> find(s@, p@) is None,
{
    find_chars_from(s, p, 0)
}

/// Unicode `White_Space` (what `char::is_whitespace` and `str::trim` use).
pub open spec fn is_space(c: char) -> bool {
    ||| '\u{9}' <= c <= '\u{d}'
    ||| c == ' '
    ||| c == '\u{85}'
    ||| c == '\u{a0}'
    ||| c == '\u{1680}'
    ||| '\u{2000}' <= c <= '\u{200a}'
    ||| c == '\u{2028}'
    ||| c == '\u{2029}'
    ||| c == '\u{202f}'
    ||| c == '\u{205f}'
    ||| c == '\u{3000}'
}

pub fn char_is_space(c: char) -> (r: bool)
    ensures
        r == is_space(c),
{
    ('\u{9}' <= c && c <= '\u{d}') || c == ' ' || c == '\u{85}' || c == '\u{a0}' || c == '\u{1680}'
        || ('\u{2000}' <= c && c <= '\u{200a}') || c == '\u{2028}' || c == '\u{2029}' || c
        == '\u{202f}' || c == '\u{205f}' || c == '\u{3000}'
}

/// Number of leading whitespace characters of `s`.
pub open spec fn lead_space(s: Seq<char>) -> nat
    decreases s.len(),
{
    if s.len() > 0 && is_space(s[0]) {
        1 + lead_space(s.drop_first())
    } else {
        0
    }
}

/// Number of trailing whitespace characters of `s`.
pub open spec fn trail_space(s: Seq<char>) -> nat
    decreases s.len(),
{
    if s.len() > 0 && is_space(s.last()) {
        1 + trail_space(s.drop_last())
    } else {
        0
    }
}

/// `s` with leading and trailing whitespace removed (`str::trim`).
pub open spec fn trim(s: Seq<char>) -> Seq<char> {
    let a = lead_space(s);
    if a == s.len() {
        Seq::empty()
    } else {
        s.subrange(a as int, s.len() - trail_space(s))
    }
}

pub proof fn lemma_lead_space(s: Seq<char>)
    ensures
        lead_space(s) <= s.len(),
        forall|k: int| 0 <= k < lead_space(s) ==> is_space(#[trigger] s[k]),
        lead_space(s) < s.len() ==> !is_space(s[lead_space(s) as int]),
    decreases s.len(),
{
    if s.len() > 0 && is_space(s[0]) {
        lemma_lead_space(s.drop_first());
        assert forall|k: int| 0 <= k < lead_space(s) implies is_space(#[trigger] s[k]) by {
            if k > 0 {
                assert(s[k] == s.drop_first()[k - 1]);
            }
        }
    }
}

pub proof fn lemma_trail_space(s: Seq<char>)
    ensures
        trail_space(s) <= s.len(),
        forall|k: int| s.len() - trail_space(s) <= k < s.len() ==> is_space(#[trigger] s[k]),
        trail_space(s) < s.len() ==> !is_space(s[s.len() - trail_space(s) - 1]),
    decreases s.len(),
{
    if s.len() > 0 && is_space(s.last()) {
        lemma_trail_space(s.drop_last());
        assert forall|k: int| s.len() - trail_space(s) <= k < s.len() implies is_space(
            #[trigger] s[k],
        ) by {
            if k < s.len() - 1 {
                assert(s[k] == s.drop_last()[k]);
            }
        }
    }
}

/// Index range `(start, end)` of `s@` that `trim` keeps.
pub fn trim_range(s: &Vec<char>) -> (r: (usize, usize))
    ensures
        r.0 <= r.1 <= s@.len(),
        s@.subrange(r.0 as int, r.1 as int) == trim(s@),
{
    proof {
        lemma_lead_space(s@);
        lemma_trail_space(s@);
    }
    let mut a: usize = 0;
    while a < s.len() && char_is_space(s[a])
        invariant
            a <= s@.len(),
            forall|k: int| 0 <= k < a ==> is_space(#[trigger] s@[k]),
            lead_space(s@) <= s@.len(),
            forall|k: int| 0 <= k < lead_space(s@) ==> is_space(#[trigger] s@[k]),
            lead_space(s@) < s@.len() ==> !is_space(s@[lead_space(s@) as int]),
        decreases s@.len() - a,
    {
        a = a + 1;
    }
    assert(a == lead_space(s@)) by {
        if a < lead_space(s@) {
            assert(is_space(s@[a as int]));
        }
        if a > lead_space(s@) {
            assert(is_space(s@[lead_space(s@) as int]));
        }
    }
    if a == s.len() {
        assert(s@.subrange(a as int, a as int) =~= Seq::<char>::empty());
        return (a, a);
    }
    let mut b: usize = s.len();
    while b > a && char_is_space(s[b - 1])
        invariant
            a < s@.len(),
            !is_space(s@[a as int]),
            a <= b <= s@.len(),
            forall|k: int| b <= k < s@.len() ==> is_space(#[trigger] s@[k]),
            trail_space(s@) <= s@.len(),
            forall|k: int|
                s@.len() - trail_space(s@) <= k < s@.len() ==> is_space(#[trigger] s@[k]),
            trail_space(s@) < s@.len() ==> !is_space(s@[s@.len() - trail_space(s@) - 1]),
        decreases b,
    {
        b = b - 1;
    }
    assert(b == s@.len() - trail_space(s@)) by {
        let t = s@.len() - trail_space(s@);
        if b > t {
            assert(is_space(s@[b - 1]));
        }
        if b < t {
            assert(is_space(s@[t - 1]));
        }
    }
    (a, b)
}

/// Is every character of `s` whitespace (`s.trim().is_empty()`)?
pub open spec fn is_blank(s: Seq<char>) -> bool {
    trim(s).len() == 0
}

/// Decimal digit character for `d < 10`.
pub open spec fn digit_char(d: nat) -> char {
    ((d + 48) as u8) as char
}

/// Decimal representation of `n` without leading zeros (`"0"` for zero).
pub open spec fn decimal(n: nat) -> Seq<char>
    decreases n,
{
    if n < 10 {
        seq![digit_char(n)]
    } else {
        decimal(n / 10).push(digit_char(n % 10))
    }
}

pub fn digit_to_char(d: u64) -> (c: char)
    requires
        d < 10,
    ensures
        c == digit_char(d as nat),
{
    let b: u8 = (d as u8) + 48;
    b as char
}

/// Appends the decimal representation of `n`.
pub fn push_decimal(s: &mut String, n: u128)
    ensures
        final(s)@ == old(s)@ + decimal(n as nat),
    decreases n,
{
    if n >= 10 {
        push_decimal(s, n / 10);
    }
    let d = (n % 10) as u64;
    push_char(s, digit_to_char(d));
    proof {
        if n >= 10 {
            assert(decimal(n as nat) == decimal((n / 10) as nat).push(digit_char((n % 10) as nat)));
        }
    }
}

/// Is `c` an ASCII decimal digit?
pub open spec fn is_digit(c: char) -> bool {
    '0' <= c <= '9'
}

/// Value of the digit character `c`.
pub open spec fn digit_value(c: char) -> nat {
    (c as nat - '0' as nat) as nat
}

/// Value of a string of decimal digits (big-endian); the empty string is 0.
pub open spec fn digits_value(s: Seq<char>) -> nat
    decreases s.len(),
{
    if s.len() == 0 {
        0
    } else {
        digits_value(s.drop_last()) * 10 + digit_value(s.last())
    }
}

/// Length of the longest prefix of `s` made of digits.
pub open spec fn digit_prefix_len(s: Seq<char>) -> nat
    decreases s.len(),
{
    if s.len() > 0 && is_digit(s[0]) {
        1 + digit_prefix_len(s.drop_first())
    } else {
        0
    }
}

pub proof fn lemma_digit_prefix_len(s: Seq<char>)
    ensures
        digit_prefix_len(s) <= s.len(),
        forall|k: int| 0 <= k < digit_prefix_len(s) ==> is_digit(#[trigger] s[k]),
        digit_prefix_len(s) < s.len() ==> !is_digit(s[digit_prefix_len(s) as int]),
    decreases s.len(),
{
    if s.len() > 0 && is_digit(s[0]) {
        lemma_digit_prefix_len(s.drop_first());
        assert forall|k: int| 0 <= k < digit_prefix_len(s) implies is_digit(#[trigger] s[k]) by {
            if k > 0 {
                assert(s[k] == s.drop_first()[k - 1]);
            }
        }
    }
}

/// How parsing an unsigned integer failed (the kinds of `ParseIntError`).
#[derive(Debug, Clone, Copy, PartialEq, Eq)]
pub enum IntErrorKind {
    Empty,
    InvalidDigit,
    PosOverflow,
}

/// `str::parse` of an unsigned integer type whose largest value is `max`:
/// an optional `+`, then decimal digits; the first problem met left to right
/// decides the error.
pub open spec fn parse_unsigned(s: Seq<char>, max: nat) -> Result<nat, IntErrorKind> {
    if s.len() == 0 {
        Err(IntErrorKind::Empty)
    } else if s.len() == 1 && (s[0] == '+' || s[0] == '-') {
        Err(IntErrorKind::InvalidDigit)
    } else {
        let body = if s[0] == '+' {
            s.drop_first()
        } else {
            s
        };
        parse_digits(body, max)
    }
}

/// The digits after the optional sign: the value of the leading digits
/// must fit, and nothing else may follow them.
pub open spec fn parse_digits(body: Seq<char>, max: nat) -> Result<nat, IntErrorKind> {
    let p = digit_prefix_len(body);
    if digits_value(body.take(p as int)) > max {
        Err(IntErrorKind::PosOverflow)
    } else if p < body.len() {
        Err(IntErrorKind::InvalidDigit)
    } else {
        Ok(digits_value(body))
    }
}

/// A parsed value never exceeds the type's largest value.
pub proof fn lemma_parse_unsigned_bound(s: Seq<char>, max: nat)
    ensures
        parse_unsigned(s, max) matches Ok(n) ==> n <= max,
{
    if s.len() > 0 {
        let body = if s[0] == '+' {
            s.drop_first()
        } else {
            s
        };
        lemma_digit_prefix_len(body);
        assert(body.take(body.len() as int) =~= body);
    }
}

/// A longer digit string never has a smaller value.
pub proof fn lemma_digits_value_mono(s: Seq<char>, i: int, j: int)
    requires
        0 <= i <= j <= s.len(),
    ensures
        digits_value(s.take(i)) <= digits_value(s.take(j)),
    decreases j - i,
{
    if i < j {
        lemma_digits_value_mono(s, i, j - 1);
        assert(s.take(j).drop_last() == s.take(j - 1));
    }
}

/// Parses `v[lo..hi]` as an unsigned integer no larger than `max`.
pub fn parse_unsigned_chars(v: &Vec<char>, lo: usize, hi: usize, max: u64) -> (r: Result<
    u64,
    IntErrorKind,
>)
    requires
        lo <= hi <= v@.len(),
    ensures
        match parse_unsigned(v@.subrange(lo as int, hi as int), max as nat) {
            Ok(n) => r == Ok::<u64, IntErrorKind>(n as u64),
            Err(e) => r == Err::<u64, IntErrorKind>(e),
        },
{
    let ghost s = v@.subrange(lo as int, hi as int);
    if lo == hi {
        return Err(IntErrorKind::Empty);
    }
    if hi - lo == 1 && (v[lo] == '+' || v[lo] == '-') {
        return Err(IntErrorKind::InvalidDigit);
    }
    let start = if v[lo] == '+' {
        lo + 1
    } else {
        lo
    };
    let ghost body = v@.subrange(start as int, hi as int);
    assert(body == (if s[0] == '+' {
        s.drop_first()
    } else {
        s
    }));
    proof {
        lemma_digit_prefix_len(body);
    }
    let mut i = start;
    let mut acc: u64 = 0;
    while i < hi && '0' <= v[i] && v[i] <= '9'
        invariant
            start <= i <= hi <= v@.len(),
            body == v@.subrange(start as int, hi as int),
            parse_unsigned(v@.subrange(lo as int, hi as int), max as nat) == parse_digits(
                body,
                max as nat,
            ),
            forall|k: int| 0 <= k < i - start ==> is_digit(#[trigger] body[k]),
            acc as nat == digits_value(body.take(i - start)),
            acc <= max,
            digit_prefix_len(body) <= body.len(),
            forall|k: int| 0 <= k < digit_prefix_len(body) ==> is_digit(#[trigger] body[k]),
            digit_prefix_len(body) < body.len() ==> !is_digit(body[digit_prefix_len(body) as int]),
        decreases hi - i,
    {
        let d = ((v[i] as u32) - 48) as u64;
        let ghost k = i - start;
        assert(body.take(k + 1).drop_last() == body.take(k));
        assert(body[k] == v@[i as int]);
        assert(body.take(k + 1).last() == v@[i as int]);
        assert(digits_value(body.take(k + 1)) == acc * 10 + d);
        let next: u128 = (acc as u128) * 10 + (d as u128);
        if next <= max as u128 {
            acc = next as u64;
        } else {
            {
                proof {
                    assert(digit_prefix_len(body) >= k + 1) by {
                        if digit_prefix_len(body) <= k {
                            assert(is_digit(body[digit_prefix_len(body) as int]));
                        }
                    }
                    lemma_digits_value_mono(body, k + 1, digit_prefix_len(body) as int);
                }
                return Err(IntErrorKind::PosOverflow);
            }
        }
        i = i + 1;
    }
    assert(digit_prefix_len(body) == i - start) by {
        let p = digit_prefix_len(body);
        if p < i - start {
            assert(is_digit(body[p as int]));
        }
        if p > i - start {
            assert(is_digit(body[i - start]));
            assert(body[i - start] == v@[i as int]);
        }
    }
    if i < hi {
        return Err(IntErrorKind::InvalidDigit);
    }
    assert(body.take(i - start) == body);
    Ok(acc)
}

/// Do two strings hold the same characters?
pub fn str_eq(a: &str, b: &str) -> (r: bool)
    ensures
        r == (a@ == b@),
{
    let x = str_chars(a);
    let y = str_chars(b);
    if x.len() != y.len() {
        return false;
    }
    let mut i: usize = 0;
    while i < x.len()
        invariant
            i <= x@.len(),
            x@ == a@,
            y@ == b@,
            x@.len() == y@.len(),
            forall|k: int| 0 <= k < i ==> x@[k] == y@[k],
        decreases x@.len() - i,
    {
        if x[i] != y[i] {
            proof {
                if a@ == b@ {
                    assert(x@[i as int] == y@[i as int]);
                }
            }
            return false;
        }
        i = i + 1;
    }
    assert(x@ =~= y@);
    true
}

/// The pieces of `s` between the occurrences of `p` from position `pos` on
/// (`str::split` for a non-empty `p`).
pub open spec fn split_from(s: Seq<char>, p: Seq<char>, pos: int) -> Seq<Seq<char>>
    decreases s.len() + 1 - pos,
{
    if p.len() == 0 || pos < 0 || pos > s.len() {
        Seq::empty()
    } else {
        match find_from(s, p, pos) {
            Some(i) => if pos <= i && i + p.len() <= s.len() {
                seq![s.subrange(pos, i)] + split_from(s, p, i + p.len())
            } else {
                Seq::empty()
            },
            None => seq![s.subrange(pos, s.len() as int)],
        }
    }
}

/// `s.split(p)` for a non-empty `p`.
pub open spec fn split(s: Seq<char>, p: Seq<char>) -> Seq<Seq<char>> {
    split_from(s, p, 0)
}

/// Does `s` start with `p`?
pub open spec fn starts_with(s: Seq<char>, p: Seq<char>) -> bool {
    p.len() <= s.len() && s.take(p.len() as int) == p
}

/// Does `v[lo..]` start with `p`?
pub fn chars_start_with(v: &Vec<char>, lo: usize, hi: usize, p: &Vec<char>) -> (r: bool)
    requires
        lo <= hi <= v@.len(),
    ensures
        r == starts_with(v@.subrange(lo as int, hi as int), p@),
{
    if p.len() > hi - lo {
        return false;
    }
    let mut j: usize = 0;
    while j < p.len()
        invariant
            lo <= hi <= v@.len(),
            p@.len() <= hi - lo,
            j <= p@.len(),
            forall|k: int| 0 <= k < j ==> v@[lo + k] == p@[k],
        decreases p@.len() - j,
    {
        if v[lo + j] != p[j] {
            proof {
                let s = v@.subrange(lo as int, hi as int);
                if starts_with(s, p@) {
                    assert(s.take(p@.len() as int)[j as int] == v@[lo + j]);
                }
            }
            return false;
        }
        j = j + 1;
    }
    assert(v@.subrange(lo as int, hi as int).take(p@.len() as int) =~= p@);
    true
}


/// Every character of a decimal representation is a digit.
pub proof fn lemma_decimal_digits(n: nat)
    ensures
        decimal(n).len() >= 1,
        forall|i: int| 0 <= i < decimal(n).len() ==> is_digit(#[trigger] decimal(n)[i]),
    decreases n,
{
    if n >= 10 {
        lemma_decimal_digits(n / 10);
        let d = decimal(n / 10);
        assert forall|i: int| 0 <= i < decimal(n).len() implies is_digit(
            #[trigger] decimal(n)[i],
        ) by {
            if i < d.len() {
                assert(decimal(n)[i] == d[i]);
            }
        }
    }
}

/// A digit character is worth its digit.
pub proof fn lemma_digit_char_value(d: nat)
    requires
        d < 10,
    ensures
        is_digit(digit_char(d)),
        digit_value(digit_char(d)) == d,
{
    let b = (d + 48) as u8;
    assert(b as nat == d + 48);
    assert((b as char) as nat == b as nat);
}

/// A decimal representation is worth the number it represents.
pub proof fn lemma_digits_value_decimal(n: nat)
    ensures
        digits_value(decimal(n)) == n,
    decreases n,
{
    if n < 10 {
        lemma_digit_char_value(n);
        assert(seq![digit_char(n)].drop_last() =~= Seq::<char>::empty());
        assert(seq![digit_char(n)].last() == digit_char(n));
        assert(decimal(n) == seq![digit_char(n)]);
        assert(digits_value(Seq::<char>::empty()) == 0);
        assert(digits_value(seq![digit_char(n)]) == digits_value(Seq::<char>::empty()) * 10
            + digit_value(digit_char(n)));
    } else {
        lemma_digit_char_value(n % 10);
        lemma_digits_value_decimal(n / 10);
        let d = decimal(n / 10);
        assert(decimal(n).drop_last() =~= d);
        assert(decimal(n).last() == digit_char(n % 10));
        assert(digits_value(decimal(n)) == (n / 10) * 10 + n % 10);
        assert((n / 10) * 10 + n % 10 == n) by (nonlinear_arith);
    }
}

/// Digits only: no whitespace to trim.
proof fn lemma_trim_digits(s: Seq<char>)
    requires
        s.len() > 0,
        forall|i: int| 0 <= i < s.len() ==> is_digit(#[trigger] s[i]),
    ensures
        trim(s) == s,
{
    assert(!is_space(s[0]));
    assert(!is_space(s.last())) by {
        assert(is_digit(s[s.len() - 1]));
    }
    assert(s.subrange(0, s.len() as int) =~= s);
}

/// The decimal text of a number reads back as that number: trimmed and
/// parsed, it gives the number whenever the type can hold it.
pub proof fn law_parse_decimal(n: nat, max: nat)
    requires
        n <= max,
    ensures
        trim(decimal(n)) == decimal(n),
        parse_unsigned(decimal(n), max) == Ok::<nat, IntErrorKind>(n),
{
    let s = decimal(n);
    lemma_decimal_digits(n);
    lemma_trim_digits(s);
    lemma_digits_value_decimal(n);
    lemma_digit_prefix_len(s);
    let p = digit_prefix_len(s);
    if p < s.len() {
        assert(is_digit(s[p as int]));
    }
    assert(s.take(s.len() as int) =~= s);
    assert(is_digit(s[0]));
}
} // verus!
