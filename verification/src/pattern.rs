//! The lexical pieces of the command language: runs of decimal digits
//! (the regex class `\d`, Unicode `Nd`) and the numbers they are read as,
//! bracketed indices, lines, and comma-separated lists.
use vstd::prelude::*;
use crate::text::{char_is_regex_digit, is_ascii_digit, regex_digit};

verus! {

/// The value of an ASCII decimal digit.
pub open spec fn digit_value(c: char) -> nat {
    ((c as u32) - ('0' as u32)) as nat
}

/// The message of an integer that does not fit.
pub open spec fn msg_too_large() -> Seq<char> {
    "number too large to fit in target type"@
}

/// The message of a character that is no ASCII digit.
pub open spec fn msg_invalid_digit() -> Seq<char> {
    "invalid digit found in string"@
}

/// Reads `s[k..]` on top of the value `acc` of `s[..k]`, one character at a
/// time from the left: a character other than `0`-`9` is an invalid digit,
/// and a value past `usize::MAX` is too large, whichever comes first.
pub open spec fn parse_digits_from(s: Seq<char>, k: int, acc: nat) -> Result<usize, Seq<char>>
    decreases s.len() - k,
{
    if k < 0 || k >= s.len() {
        if acc <= usize::MAX {
            Ok(acc as usize)
        } else {
            Err(msg_too_large())
        }
    } else if !is_ascii_digit(s[k]) {
        Err(msg_invalid_digit())
    } else if acc * 10 + digit_value(s[k]) > usize::MAX {
        Err(msg_too_large())
    } else {
        parse_digits_from(s, k + 1, acc * 10 + digit_value(s[k]))
    }
}

/// A nonempty run of digits read as a `usize`, as `str::parse::<usize>`
/// reads it: its value, or the error of the first character that is no
/// ASCII digit or that takes the value past `usize::MAX`.
pub open spec fn parse_usize(s: Seq<char>) -> Result<usize, Seq<char>> {
    parse_digits_from(s, 0, 0)
}

/// Whether every character of `s[i..j]` is a decimal digit (`\d`).
pub open spec fn all_digits(s: Seq<char>, i: int, j: int) -> bool {
    forall|k: int| i <= k < j ==> regex_digit(#[trigger] s[k])
}

/// The end of the run of decimal digits (`\d+`) that starts at `p`.
pub open spec fn digits_end(s: Seq<char>, p: int) -> int
    decreases s.len() - p,
{
    if 0 <= p < s.len() && regex_digit(s[p]) {
        digits_end(s, p + 1)
    } else {
        p
    }
}

/// An index in brackets, `[digits]`, at `p`: the digits' bounds and the
/// position after the `]`.
pub open spec fn bracketed(s: Seq<char>, p: int) -> Option<(int, int, int)> {
    if 0 <= p < s.len() && s[p] == '[' {
        let e = digits_end(s, p + 1);
        if e > p + 1 && e < s.len() && s[e] == ']' {
            Some((p + 1, e, e + 1))
        } else {
            None
        }
    } else {
        None
    }
}

/// The end of the line that `p` is on: the next `\n`, or the end.
pub open spec fn line_end(s: Seq<char>, p: int) -> int
    decreases s.len() - p,
{
    if 0 <= p < s.len() && s[p] != '\n' {
        line_end(s, p + 1)
    } else {
        p
    }
}

/// Whether `s` has `t` at `p`.
pub open spec fn has_at(s: Seq<char>, p: int, t: Seq<char>) -> bool {
    0 <= p && p + t.len() <= s.len() && s.subrange(p, p + t.len()) == t
}

/// Whether `s` starts with `t`.
pub open spec fn starts_with(s: Seq<char>, t: Seq<char>) -> bool {
    has_at(s, 0, t)
}

/// Whether `s` ends with `t`.
pub open spec fn ends_with(s: Seq<char>, t: Seq<char>) -> bool {
    t.len() <= s.len() && has_at(s, s.len() - t.len(), t)
}

/// The pieces of `s` between the separators `sep` (`str::split`): one more
/// piece than there are separators.
pub open spec fn split(s: Seq<char>, sep: char) -> Seq<Seq<char>>
    decreases s.len(),
{
    if s.len() == 0 {
        seq![Seq::empty()]
    } else {
        let rest = split(s.drop_last(), sep);
        if s.last() == sep {
            rest.push(Seq::empty())
        } else {
            rest.update(rest.len() - 1, rest.last().push(s.last()))
        }
    }
}

/// Splitting gives at least one piece.
pub proof fn lemma_split_nonempty(s: Seq<char>, sep: char)
    ensures
        split(s, sep).len() >= 1,
    decreases s.len(),
{
    if s.len() > 0 {
        lemma_split_nonempty(s.drop_last(), sep);
    }
}

/// The first position at or after `p` where `c` occurs, if any.
pub open spec fn find_char(s: Seq<char>, p: int, c: char) -> Option<int>
    decreases s.len() - p,
{
    if p < 0 || p >= s.len() {
        None
    } else if s[p] == c {
        Some(p)
    } else {
        find_char(s, p + 1, c)
    }
}

/// A found character is `c`, at or after `p`; when none is found, no `c`
/// comes at or after `p`.
pub proof fn lemma_find_char(s: Seq<char>, p: int, c: char)
    requires
        0 <= p,
    ensures
        find_char(s, p, c) matches Some(k) ==> p <= k < s.len() && s[k] == c,
        find_char(s, p, c) is None ==> forall|k: int| p <= k < s.len() ==> s[k] != c,
    decreases s.len() - p,
{
    if 0 <= p < s.len() && s[p] != c {
        lemma_find_char(s, p + 1, c);
    }
}

/// Whether `c` occurs in `s`.
pub open spec fn has_char(s: Seq<char>, c: char) -> bool {
    exists|i: int| 0 <= i < s.len() && s[i] == c
}

/// The runs of decimal digits in `s[p..]`, each read as a `usize`; the
/// error of the first that does not fit.
pub open spec fn numbers_from(s: Seq<char>, p: int) -> Result<Seq<usize>, Seq<char>>
    decreases s.len() - p,
{
    if p < 0 || p >= s.len() {
        Ok(Seq::empty())
    } else if regex_digit(s[p]) {
        let e = digits_end(s, p + 1);
        match parse_usize(s.subrange(p, e)) {
            Ok(n) => {
                proof {
                    lemma_digits_end(s, p + 1);
                }
                match numbers_from(s, e) {
                    Ok(rest) => Ok(seq![n].add(rest)),
                    Err(m) => Err(m),
                }
            },
            Err(m) => Err(m),
        }
    } else {
        numbers_from(s, p + 1)
    }
}

/// The indices that a path like `[2][0]` names: every run of digits in it.
pub open spec fn parse_indices(s: Seq<char>) -> Result<Seq<usize>, Seq<char>> {
    numbers_from(s, 0)
}

/// A run of digits ends within the text, all of it is digits, and the
/// character after it is not one.
pub proof fn lemma_digits_end(s: Seq<char>, p: int)
    requires
        0 <= p <= s.len(),
    ensures
        p <= digits_end(s, p) <= s.len(),
        all_digits(s, p, digits_end(s, p)),
        digits_end(s, p) < s.len() ==> !regex_digit(s[digits_end(s, p)]),
    decreases s.len() - p,
{
    if p < s.len() && regex_digit(s[p]) {
        lemma_digits_end(s, p + 1);
    }
}

/// The end of a line lies within the text.
pub proof fn lemma_line_end(s: Seq<char>, p: int)
    requires
        0 <= p <= s.len(),
    ensures
        p <= line_end(s, p) <= s.len(),
    decreases s.len() - p,
{
    if p < s.len() && s[p] != '\n' {
        lemma_line_end(s, p + 1);
    }
}

/// The end of the run of decimal digits from `p`.
pub fn scan_digits(s: &[char], p: usize) -> (e: usize)
    requires
        p <= s.len(),
    ensures
        e == digits_end(s@, p as int),
        p <= e <= s.len(),
{
    let mut e = p;
    while e < s.len() && char_is_regex_digit(s[e])
        invariant
            p <= e <= s.len(),
            digits_end(s@, e as int) == digits_end(s@, p as int),
        decreases s.len() - e,
    {
        e = e + 1;
    }
    e
}

/// The end of the line that `p` is on.
pub fn scan_line(s: &[char], p: usize) -> (e: usize)
    requires
        p <= s.len(),
    ensures
        e == line_end(s@, p as int),
        p <= e <= s.len(),
{
    let mut e = p;
    while e < s.len() && s[e] != '\n'
        invariant
            p <= e <= s.len(),
            line_end(s@, e as int) == line_end(s@, p as int),
        decreases s.len() - e,
    {
        e = e + 1;
    }
    e
}

/// Reads the characters `s[i..j]` as a `usize`.
pub fn read_usize(s: &[char], i: usize, j: usize) -> (r: Result<usize, String>)
    requires
        i <= j <= s.len(),
    ensures
        match r {
            Ok(n) => parse_usize(s@.subrange(i as int, j as int)) == Ok::<usize, Seq<char>>(n),
            Err(e) => parse_usize(s@.subrange(i as int, j as int)) == Err::<usize, Seq<char>>(e@),
        },
{
    let ghost d = s@.subrange(i as int, j as int);
    let mut v: usize = 0;
    let mut k = i;
    while k < j
        invariant
            i <= k <= j <= s.len(),
            d == s@.subrange(i as int, j as int),
            parse_usize(d) == parse_digits_from(d, k - i, v as nat),
        decreases j - k,
    {
        let c = s[k];
        assert(d[k - i] == c);
        if c < '0' || c > '9' {
            return Err(String::from_str("invalid digit found in string"));
        }
        let dv = (c as u32 - '0' as u32) as usize;
        assert(dv == digit_value(c));
        if v > (usize::MAX - dv) / 10 {
            assert(v * 10 + dv > usize::MAX) by (nonlinear_arith)
                requires
                    v > (usize::MAX - dv) / 10,
                    dv <= 9,
            ;
            return Err(String::from_str("number too large to fit in target type"));
        }
        assert(v * 10 + dv <= usize::MAX) by (nonlinear_arith)
            requires
                v <= (usize::MAX - dv) / 10,
                dv <= 9,
        ;
        v = v * 10 + dv;
        k = k + 1;
    }
    Ok(v)
}

/// The index in brackets at `p`, if there is one.
pub fn scan_bracketed(s: &[char], p: usize) -> (r: Option<(usize, usize, usize)>)
    requires
        p <= s.len(),
    ensures
        match r {
            Some((a, b, q)) => bracketed(s@, p as int) == Some((a as int, b as int, q as int))
                && q <= s.len() && a < b && q == b + 1 && all_digits(s@, a as int, b as int),
            None => bracketed(s@, p as int) is None,
        },
{
    if p < s.len() && s[p] == '[' {
        let e = scan_digits(s, p + 1);
        proof {
            lemma_digits_end(s@, p + 1);
        }
        if e > p + 1 && e < s.len() && s[e] == ']' {
            return Some((p + 1, e, e + 1));
        }
    }
    None
}

/// Whether `s` has the characters `t` at `p`.
pub fn chars_at(s: &[char], p: usize, t: &[char]) -> (b: bool)
    ensures
        b == has_at(s@, p as int, t@),
{
    if p > s.len() || t.len() > s.len() - p {
        return false;
    }
    let mut k: usize = 0;
    while k < t.len()
        invariant
            k <= t.len(),
            p + t.len() <= s.len(),
            s@.subrange(p as int, p + k) == t@.take(k as int),
        decreases t.len() - k,
    {
        if s[p + k] != t[k] {
            assert(s@.subrange(p as int, p + t.len())[k as int] != t@[k as int]);
            return false;
        }
        k = k + 1;
        assert(s@.subrange(p as int, p + k) =~= t@.take(k as int));
    }
    assert(t@.take(t.len() as int) =~= t@);
    true
}

/// The first position at or after `p` where `c` occurs.
pub fn scan_char(s: &[char], p: usize, c: char) -> (r: Option<usize>)
    ensures
        match r {
            Some(i) => find_char(s@, p as int, c) == Some(i as int) && i < s.len(),
            None => find_char(s@, p as int, c) is None,
        },
{
    let mut i = p;
    while i < s.len()
        invariant
            p <= i,
            find_char(s@, i as int, c) == find_char(s@, p as int, c),
        decreases s.len() - i,
    {
        if s[i] == c {
            return Some(i);
        }
        i = i + 1;
    }
    None
}

/// The runs of decimal digits in `s`, each read as a `usize`.
pub fn indices_of(s: &[char]) -> (r: Result<Vec<usize>, String>)
    ensures
        match r {
            Ok(v) => parse_indices(s@) == Ok::<Seq<usize>, Seq<char>>(v@),
            Err(e) => parse_indices(s@) == Err::<Seq<usize>, Seq<char>>(e@),
        },
{
    let mut out: Vec<usize> = Vec::new();
    let mut p: usize = 0;
    while p < s.len()
        invariant
            p <= s.len(),
            match numbers_from(s@, p as int) {
                Ok(rest) => parse_indices(s@) == Ok::<Seq<usize>, Seq<char>>(out@ + rest),
                Err(m) => parse_indices(s@) == Err::<Seq<usize>, Seq<char>>(m),
            },
        decreases s.len() - p,
    {
        if char_is_regex_digit(s[p]) {
            let e = scan_digits(s, p + 1);
            proof {
                lemma_digits_end(s@, p + 1);
            }
            match read_usize(s, p, e) {
                Ok(n) => {
                    proof {
                        match numbers_from(s@, e as int) {
                            Ok(rest) => {
                                assert(out@ + seq![n].add(rest) =~= out@.push(n) + rest);
                            },
                            Err(m) => {},
                        }
                    }
                    out.push(n);
                    p = e;
                },
                Err(m) => {
                    return Err(m);
                },
            }
        } else {
            p = p + 1;
        }
    }
    assert(out@ + Seq::<usize>::empty() =~= out@);
    Ok(out)
}

/// The pieces of `s` between the separators `sep`.
pub fn split_on(s: &[char], sep: char) -> (r: Vec<Vec<char>>)
    ensures
        r@.len() == split(s@, sep).len(),
        forall|i: int| 0 <= i < r@.len() ==> (#[trigger] r@[i])@ == split(s@, sep)[i],
{
    let mut r: Vec<Vec<char>> = Vec::new();
    let mut cur: Vec<char> = Vec::new();
    let mut k: usize = 0;
    while k < s.len()
        invariant
            k <= s.len(),
            r@.len() + 1 == split(s@.take(k as int), sep).len(),
            forall|i: int| 0 <= i < r@.len() ==> (#[trigger] r@[i])@ == split(
                s@.take(k as int),
                sep,
            )[i],
            cur@ == split(s@.take(k as int), sep).last(),
        decreases s.len() - k,
    {
        proof {
            lemma_split_nonempty(s@.take(k as int), sep);
        }
        assert(s@.take(k + 1).drop_last() =~= s@.take(k as int));
        if s[k] == sep {
            r.push(cur);
            cur = Vec::new();
            assert(cur@ =~= Seq::<char>::empty());
        } else {
            cur.push(s[k]);
        }
        k = k + 1;
    }
    assert(s@.take(k as int) =~= s@);
    r.push(cur);
    r
}

} // verus!
