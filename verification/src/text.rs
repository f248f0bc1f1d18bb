//! Characters and strings: classification, trimming, searching, joining and
//! decimal formatting, all over the character sequences that strings view as.
use vstd::prelude::*;

verus! {

/// `String::push` appends one character.
pub assume_specification[ std::string::String::push ](s: &mut std::string::String, ch: char)
    ensures
        final(s)@ == old(s)@.push(ch),
;

/// Whether a character beyond ASCII has the Unicode `Alphabetic` property
/// (what `char::is_alphabetic` answers for it).
pub uninterp spec fn alphabetic_beyond_ascii(c: char) -> bool;

/// Whether a character beyond ASCII is in one of the Unicode number
/// categories `Nd`, `Nl`, `No` (what `char::is_numeric` answers for it).
pub uninterp spec fn numeric_beyond_ascii(c: char) -> bool;

/// An ASCII Latin letter.
pub open spec fn is_ascii_letter(c: char) -> bool {
    ('a' <= c && c <= 'z') || ('A' <= c && c <= 'Z')
}

/// An ASCII decimal digit.
pub open spec fn is_ascii_digit(c: char) -> bool {
    '0' <= c && c <= '9'
}

/// `char::is_alphabetic`: the Unicode `Alphabetic` property; among ASCII
/// characters exactly the Latin letters have it.
pub open spec fn unicode_alphabetic(c: char) -> bool {
    if (c as u32) < 128 {
        is_ascii_letter(c)
    } else {
        alphabetic_beyond_ascii(c)
    }
}

/// `char::is_numeric`: membership of the Unicode number categories; among
/// ASCII characters exactly the digits `0`-`9` are in them.
pub open spec fn unicode_numeric(c: char) -> bool {
    if (c as u32) < 128 {
        is_ascii_digit(c)
    } else {
        numeric_beyond_ascii(c)
    }
}

/// Calls `char::is_alphabetic`. Trusted: an ASCII character is alphabetic
/// exactly when it is a Latin letter; for the rest of Unicode the answer is
/// the `Alphabetic` property, whose table is not written out here.
#[verifier::external_body]
pub(crate) fn char_is_alphabetic(c: char) -> (r: bool)
    ensures
        r == if (c as u32) < 128 {
            is_ascii_letter(c)
        } else {
            alphabetic_beyond_ascii(c)
        },
{
    c.is_alphabetic()
}

/// Calls `char::is_numeric`. Trusted: an ASCII character is numeric exactly
/// when it is a digit `0`-`9`; for the rest of Unicode the answer is
/// membership of the number categories, whose table is not written out
/// here.
#[verifier::external_body]
pub(crate) fn char_is_numeric(c: char) -> (r: bool)
    ensures
        r == if (c as u32) < 128 {
            is_ascii_digit(c)
        } else {
            numeric_beyond_ascii(c)
        },
{
    c.is_numeric()
}

/// Whether a character beyond ASCII is a Unicode decimal digit (general
/// category `Nd`), which is what the regex class `\d` matches.
pub uninterp spec fn decimal_beyond_ascii(c: char) -> bool;

/// Whether a character beyond ASCII is a word character of the regex class
/// `\w`: `Alphabetic`, a mark, a decimal digit, connector punctuation or
/// `Join_Control`.
pub uninterp spec fn word_beyond_ascii(c: char) -> bool;

/// The regex class `\d` (Unicode `Nd`); among ASCII characters it holds
/// exactly the digits `0`-`9`.
pub open spec fn regex_digit(c: char) -> bool {
    if (c as u32) < 128 {
        is_ascii_digit(c)
    } else {
        decimal_beyond_ascii(c)
    }
}

/// The regex class `\w`; among ASCII characters it holds exactly the
/// letters, the digits and `_`.
pub open spec fn regex_word(c: char) -> bool {
    if (c as u32) < 128 {
        is_ascii_letter(c) || is_ascii_digit(c) || c == '_'
    } else {
        word_beyond_ascii(c)
    }
}

/// Tests `c` against the regex `^\d$` with `regex::Regex::is_match`.
/// Trusted: with Unicode classes on (the crate's default), `\d` is the
/// general category `Nd`, which among ASCII characters holds exactly `0`-`9`;
/// beyond ASCII the answer is that category, whose table is not written out
/// here.
#[verifier::external_body]
pub(crate) fn char_is_regex_digit(c: char) -> (r: bool)
    ensures
        r == if (c as u32) < 128 {
            is_ascii_digit(c)
        } else {
            decimal_beyond_ascii(c)
        },
{
    regex::Regex::new(r"^\d$").unwrap().is_match(&c.to_string())
}

/// Tests `c` against the regex `^\w$` with `regex::Regex::is_match`.
/// Trusted: with Unicode classes on, `\w` is `Alphabetic`, marks, `Nd`,
/// connector punctuation and `Join_Control`, which among ASCII characters
/// hold exactly the letters, the digits and `_`; beyond ASCII the answer is
/// those properties, whose tables are not written out here.
#[verifier::external_body]
pub(crate) fn char_is_regex_word(c: char) -> (r: bool)
    ensures
        r == if (c as u32) < 128 {
            is_ascii_letter(c) || is_ascii_digit(c) || c == '_'
        } else {
            word_beyond_ascii(c)
        },
{
    regex::Regex::new(r"^\w$").unwrap().is_match(&c.to_string())
}

/// `char::is_alphanumeric`: alphabetic or numeric.
pub open spec fn unicode_alphanumeric(c: char) -> bool {
    unicode_alphabetic(c) || unicode_numeric(c)
}

/// The Unicode `White_Space` property, which `char::is_whitespace` tests and
/// `str::trim` strips.
pub open spec fn is_white(c: char) -> bool {
    let n = c as u32;
    (0x09 <= n && n <= 0x0d) || n == 0x20 || n == 0x85 || n == 0xa0 || n == 0x1680 || (0x2000
        <= n && n <= 0x200a) || n == 0x2028 || n == 0x2029 || n == 0x202f || n == 0x205f || n
        == 0x3000
}

/// Whether `c` is white space (`char::is_whitespace`).
pub fn is_white_char(c: char) -> (r: bool)
    ensures
        r == is_white(c),
{
    let n = c as u32;
    (0x09 <= n && n <= 0x0d) || n == 0x20 || n == 0x85 || n == 0xa0 || n == 0x1680 || (0x2000
        <= n && n <= 0x200a) || n == 0x2028 || n == 0x2029 || n == 0x202f || n == 0x205f || n
        == 0x3000
}

/// `s` without trailing white space.
pub open spec fn trim_end(s: Seq<char>) -> Seq<char>
    decreases s.len(),
{
    if s.len() > 0 && is_white(s.last()) {
        trim_end(s.drop_last())
    } else {
        s
    }
}

/// `s` without leading white space.
pub open spec fn trim_start(s: Seq<char>) -> Seq<char>
    decreases s.len(),
{
    if s.len() > 0 && is_white(s[0]) {
        trim_start(s.drop_first())
    } else {
        s
    }
}

/// `s` without leading or trailing white space (`str::trim`).
pub open spec fn trim(s: Seq<char>) -> Seq<char> {
    trim_end(trim_start(s))
}

/// Whether `p` occurs in `s` as a contiguous run (`str::contains`).
pub open spec fn contains(s: Seq<char>, p: Seq<char>) -> bool {
    exists|i: int| 0 <= i && i + p.len() <= s.len() && #[trigger] s.subrange(i, i + p.len()) == p
}

/// The characters of a string slice.
pub fn str_chars(s: &str) -> (v: Vec<char>)
    ensures
        v@ == s@,
{
    broadcast use vstd::string::group_string_axioms;

    let mut v: Vec<char> = Vec::new();
    for c in iter: s.chars()
        invariant
            v@ == iter.seq().take(iter.index() as int),
    {
        v.push(c);
    }
    assert(v@ =~= s@);
    v
}

/// A string of the characters `cs`.
pub fn string_of(cs: &[char]) -> (r: String)
    ensures
        r@ == cs@,
{
    let mut r = String::new();
    let mut i: usize = 0;
    while i < cs.len()
        invariant
            i <= cs.len(),
            r@ == cs@.take(i as int),
        decreases cs.len() - i,
    {
        r.push(cs[i]);
        i = i + 1;
        assert(r@ =~= cs@.take(i as int));
    }
    assert(cs@.take(cs.len() as int) =~= cs@);
    r
}

/// The character of a decimal digit.
pub open spec fn digit_char(d: nat) -> char {
    if d == 0 {
        '0'
    } else if d == 1 {
        '1'
    } else if d == 2 {
        '2'
    } else if d == 3 {
        '3'
    } else if d == 4 {
        '4'
    } else if d == 5 {
        '5'
    } else if d == 6 {
        '6'
    } else if d == 7 {
        '7'
    } else if d == 8 {
        '8'
    } else {
        '9'
    }
}

/// The decimal representation of `n`, without leading zeros (as `Display`
/// writes an unsigned integer).
pub open spec fn decimal(n: nat) -> Seq<char>
    decreases n,
{
    if n < 10 {
        seq![digit_char(n)]
    } else {
        decimal(n / 10).push(digit_char(n % 10))
    }
}

fn digit_to_char(d: usize) -> (c: char)
    requires
        d < 10,
    ensures
        c == digit_char(d as nat),
{
    if d == 0 {
        '0'
    } else if d == 1 {
        '1'
    } else if d == 2 {
        '2'
    } else if d == 3 {
        '3'
    } else if d == 4 {
        '4'
    } else if d == 5 {
        '5'
    } else if d == 6 {
        '6'
    } else if d == 7 {
        '7'
    } else if d == 8 {
        '8'
    } else {
        '9'
    }
}

/// Appends the decimal representation of `n`.
pub fn push_decimal(out: &mut String, n: usize)
    ensures
        final(out)@ == old(out)@ + decimal(n as nat),
    decreases n,
{
    if n >= 10 {
        push_decimal(out, n / 10);
    }
    out.push(digit_to_char(n % 10));
    assert(final(out)@ =~= old(out)@ + decimal(n as nat));
}

/// Appends the characters of `cs`.
pub fn push_chars(out: &mut String, cs: &[char])
    ensures
        final(out)@ == old(out)@ + cs@,
{
    let mut i: usize = 0;
    while i < cs.len()
        invariant
            i <= cs.len(),
            out@ == old(out)@ + cs@.take(i as int),
        decreases cs.len() - i,
    {
        out.push(cs[i]);
        i = i + 1;
        assert(out@ =~= old(out)@ + cs@.take(i as int));
    }
    assert(cs@.take(cs.len() as int) =~= cs@);
}

/// The characters `v[i..j]`.
pub fn sub_chars(v: &[char], i: usize, j: usize) -> (r: Vec<char>)
    requires
        i <= j <= v.len(),
    ensures
        r@ == v@.subrange(i as int, j as int),
{
    let mut r: Vec<char> = Vec::new();
    let mut k = i;
    while k < j
        invariant
            i <= k <= j <= v.len(),
            r@ == v@.subrange(i as int, k as int),
        decreases j - k,
    {
        r.push(v[k]);
        k = k + 1;
        assert(r@ =~= v@.subrange(i as int, k as int));
    }
    r
}

/// The length of `v` without its trailing white space.
pub fn trim_end_len(v: &[char]) -> (k: usize)
    ensures
        k <= v.len(),
        trim_end(v@) == v@.take(k as int),
{
    let mut k = v.len();
    assert(v@.take(k as int) =~= v@);
    while k > 0 && is_white_char(v[k - 1])
        invariant
            k <= v.len(),
            trim_end(v@) == trim_end(v@.take(k as int)),
        decreases k,
    {
        assert(v@.take(k as int).drop_last() =~= v@.take(k - 1));
        k = k - 1;
    }
    k
}

/// The number of leading white-space characters of `v`.
pub fn trim_start_len(v: &[char]) -> (k: usize)
    ensures
        k <= v.len(),
        trim_start(v@) == v@.skip(k as int),
{
    let mut k: usize = 0;
    assert(v@.skip(0) =~= v@);
    while k < v.len() && is_white_char(v[k])
        invariant
            k <= v.len(),
            trim_start(v@) == trim_start(v@.skip(k as int)),
        decreases v.len() - k,
    {
        assert(v@.skip(k as int).drop_first() =~= v@.skip(k + 1));
        k = k + 1;
    }
    k
}

/// `v` without trailing white space.
pub fn trimmed_end(v: &[char]) -> (r: Vec<char>)
    ensures
        r@ == trim_end(v@),
{
    let k = trim_end_len(v);
    let r = sub_chars(v, 0, k);
    assert(r@ =~= v@.take(k as int));
    r
}

/// `v` without leading or trailing white space.
pub fn trimmed(v: &[char]) -> (r: Vec<char>)
    ensures
        r@ == trim(v@),
{
    let i = trim_start_len(v);
    let rest = sub_chars(v, i, v.len());
    assert(rest@ =~= v@.skip(i as int));
    trimmed_end(rest.as_slice())
}

/// Whether `p` occurs in `s` at `i`.
fn occurs_at(s: &[char], p: &[char], i: usize) -> (r: bool)
    requires
        i + p.len() <= s.len(),
    ensures
        r == (s@.subrange(i as int, i + p.len()) == p@),
{
    let mut k: usize = 0;
    while k < p.len()
        invariant
            k <= p.len(),
            i + p.len() <= s.len(),
            s@.subrange(i as int, i + k) == p@.take(k as int),
        decreases p.len() - k,
    {
        if s[i + k] != p[k] {
            assert(s@.subrange(i as int, i + p.len())[k as int] != p@[k as int]);
            return false;
        }
        k = k + 1;
        assert(s@.subrange(i as int, i + k) =~= p@.take(k as int));
    }
    assert(p@.take(p.len() as int) =~= p@);
    true
}

/// Whether `p` occurs in `s` (`str::contains`).
pub fn chars_contain(s: &[char], p: &[char]) -> (r: bool)
    ensures
        r == contains(s@, p@),
{
    if p.len() > s.len() {
        return false;
    }
    let mut i: usize = 0;
    let last = s.len() - p.len();
    loop
        invariant
            p.len() <= s.len(),
            last == s.len() - p.len(),
            i <= last,
            forall|j: int| 0 <= j < i ==> #[trigger] s@.subrange(j, j + p@.len()) != p@,
        decreases last - i,
    {
        if occurs_at(s, p, i) {
            return true;
        }
        if i == last {
            return false;
        }
        i = i + 1;
    }
}

} // verus!
