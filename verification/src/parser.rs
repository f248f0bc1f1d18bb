//! The text format: a document is a sequence of values separated by `;`,
//! `,` or white space; a value is an array in brackets, a name, a
//! `name:value` pair, a number, or a string that starts with `\`. At the top
//! level the names of a value may be separated by spaces, so `hello world;`
//! is one value.
use vstd::prelude::*;
use crate::text::{
    char_is_alphabetic, char_is_numeric, decimal, is_ascii_digit, is_ascii_letter, push_decimal,
    string_of, sub_chars, trim, trim_end, trimmed, trimmed_end, unicode_alphabetic,
    unicode_alphanumeric, unicode_numeric,
};
use crate::value::{lemma_array_model, lemma_models_push, models, ListValue, Val};

verus! {

/// A parse result: a value and the position just after it, or an error
/// message.
pub type Parsed = Result<(Val, int), Seq<char>>;

/// The white space that separates values.
pub open spec fn is_gap(c: char) -> bool {
    c == ' ' || c == '\n' || c == '\r' || c == '\t'
}

/// A character that can start a name.
pub open spec fn name_start(c: char) -> bool {
    unicode_alphabetic(c) || c == '_'
}

/// A character that can continue a name.
pub open spec fn name_char(c: char) -> bool {
    unicode_alphanumeric(c) || c == '_'
}

/// A character that ends the value of a `name:value` pair.
pub open spec fn is_terminator(c: char) -> bool {
    c == ',' || c == ']' || c == ';'
}

/// A character that ends a top-level `\` string (and is part of it).
pub open spec fn ends_escaped(c: char) -> bool {
    c == ',' || c == ']' || c == ';' || c == '['
}

/// A character that, escaped by `\` inside an array, ends the element.
pub open spec fn ends_escaped_in_array(c: char) -> bool {
    c == ':' || c == ']' || c == '[' || c == ',' || c == ';' || c == '\\'
}

/// A character at which an array element of the general kind starts.
pub open spec fn starts_element(c: char) -> bool {
    c == '[' || is_ascii_letter(c) || c == '_' || is_ascii_digit(c)
}

/// A character at which a top-level value of the general kind starts.
pub open spec fn starts_item(c: char) -> bool {
    c == '[' || is_ascii_letter(c) || c == '_'
}

/// The error for a character that cannot start a top-level value.
pub open spec fn msg_unexpected(c: char, pos: nat) -> Seq<char> {
    "意外的字符 '"@ + seq![c] + "' 在位置 "@ + decimal(pos)
}

/// The error for a character that cannot start a value.
pub open spec fn msg_bad_start(c: char) -> Seq<char> {
    "无法解析值，起始字符: '"@ + seq![c] + "'"@
}

/// The error for a character that cannot start an array element.
pub open spec fn msg_unexpected_in_array(c: char, pos: nat) -> Seq<char> {
    "数组中意外的字符 '"@ + seq![c] + "' 在位置 "@ + decimal(pos)
}

/// The error for an array that the text ends inside of.
pub open spec fn msg_unclosed() -> Seq<char> {
    "未闭合的数组"@
}

/// The position just after the first character at or after `p` that ends a
/// top-level `\` string, or the end of the input.
pub open spec fn escaped_end(s: Seq<char>, p: int) -> int
    decreases s.len() - p,
{
    if p < 0 || p >= s.len() {
        s.len() as int
    } else if ends_escaped(s[p]) {
        p + 1
    } else {
        escaped_end(s, p + 1)
    }
}

/// The end of the run of digits, with at most one `.` (none if `dot`),
/// that starts at `p`.
pub open spec fn number_end(s: Seq<char>, p: int, dot: bool) -> int
    decreases s.len() - p,
{
    if p < 0 || p >= s.len() {
        p
    } else if is_ascii_digit(s[p]) {
        number_end(s, p + 1, dot)
    } else if s[p] == '.' && !dot {
        number_end(s, p + 1, true)
    } else {
        p
    }
}

/// The end of the run of name characters that starts at `p`.
pub open spec fn name_end(s: Seq<char>, p: int) -> int
    decreases s.len() - p,
{
    if 0 <= p < s.len() && name_char(s[p]) {
        name_end(s, p + 1)
    } else {
        p
    }
}

/// The first terminator at or after `p`, or the end of the input.
pub open spec fn terminator_at(s: Seq<char>, p: int) -> int
    decreases s.len() - p,
{
    if 0 <= p < s.len() && !is_terminator(s[p]) {
        terminator_at(s, p + 1)
    } else {
        p
    }
}

/// `s` without leading `:` characters.
pub open spec fn strip_leading_colons(s: Seq<char>) -> Seq<char>
    decreases s.len(),
{
    if s.len() > 0 && s[0] == ':' {
        strip_leading_colons(s.drop_first())
    } else {
        s
    }
}

/// `s` without trailing `:` characters.
pub open spec fn strip_trailing_colons(s: Seq<char>) -> Seq<char>
    decreases s.len(),
{
    if s.len() > 0 && s.last() == ':' {
        strip_trailing_colons(s.drop_last())
    } else {
        s
    }
}

/// The text of an array element that starts with `\`, gathered from `p` on
/// (`acc` so far), and the position after it. A `\` takes the next
/// character with it and ends the element when that character is one of
/// `: ] [ , ; \`; an unescaped `, ] ; [` ends it and is kept; a run of
/// white space after a space is dropped.
pub open spec fn escaped_in_array_scan(s: Seq<char>, p: int, acc: Seq<char>) -> (Seq<char>, int)
    decreases s.len() - p,
{
    if p < 0 || p >= s.len() {
        (acc, p)
    } else {
        let c = s[p];
        if c == '\\' {
            if p + 1 < s.len() {
                let acc2 = acc.push('\\').push(s[p + 1]);
                if ends_escaped_in_array(s[p + 1]) {
                    (acc2, p + 2)
                } else {
                    escaped_in_array_scan(s, p + 2, acc2)
                }
            } else {
                (acc.push('\\'), p + 1)
            }
        } else if c == ',' || c == ']' || c == ';' || c == '[' {
            (if acc.len() > 0 { acc.push(c) } else { acc }, p + 1)
        } else if is_gap(c) {
            escaped_in_array_scan(
                s,
                p + 1,
                if acc.len() > 0 && acc.last() == ' ' { acc } else { acc.push(c) },
            )
        } else {
            escaped_in_array_scan(s, p + 1, acc.push(c))
        }
    }
}

/// An array element that starts with `\` at `p`: its text without trailing
/// white space.
pub open spec fn escaped_in_array_at(s: Seq<char>, p: int) -> (Val, int) {
    let (acc, q) = escaped_in_array_scan(s, p, Seq::empty());
    (Val::Str(trim_end(acc)), q)
}

/// The pair that a `:` element gathered into `acc` stands for, when no array
/// follows: an empty key and the text after the leading `:`, trimmed.
pub open spec fn colon_finish(acc: Seq<char>, p: int) -> (Val, int) {
    (Val::Kv(Seq::empty(), Box::new(Val::Str(trim(acc.drop_first())))), p)
}

/// A value at `p`: an array, a name or pair, or a number.
pub open spec fn parse_value_at(s: Seq<char>, p: int) -> Parsed
    decreases s.len() - p, 3int,
{
    if !(0 <= p < s.len()) {
        Err(Seq::empty())
    } else if s[p] == '[' {
        parse_array_at(s, p)
    } else if name_start(s[p]) {
        parse_key_or_string_at(s, p)
    } else if unicode_numeric(s[p]) {
        let e = number_end(s, p, false);
        Ok((Val::Str(s.subrange(p, e)), e))
    } else {
        Err(msg_bad_start(s[p]))
    }
}

/// An array whose `[` is at `p`.
pub open spec fn parse_array_at(s: Seq<char>, p: int) -> Parsed
    decreases s.len() - p, 1int,
{
    if !(0 <= p < s.len()) {
        Err(Seq::empty())
    } else {
        array_items(s, p + 1, Seq::empty())
    }
}

/// The rest of an array from `p`, with the elements `acc` read so far.
pub open spec fn array_items(s: Seq<char>, p: int, acc: Seq<Val>) -> Parsed
    decreases s.len() - p, 4int,
{
    if p < 0 {
        Err(Seq::empty())
    } else if p >= s.len() {
        Err(msg_unclosed())
    } else {
        let c = s[p];
        if c == ']' {
            Ok((Val::Arr(acc), p + 1))
        } else if c == ',' || is_gap(c) {
            array_items(s, p + 1, acc)
        } else if c == '\\' {
            let (v, q) = escaped_in_array_at(s, p);
            if p < q <= s.len() {
                array_items(s, q, acc.push(v))
            } else {
                Err(Seq::empty())
            }
        } else if starts_element(c) {
            match parse_value_at(s, p) {
                Ok((v, q)) => if p < q <= s.len() {
                    array_items(s, q, acc.push(v))
                } else {
                    Err(Seq::empty())
                },
                Err(e) => Err(e),
            }
        } else if c == ':' {
            match colon_value_at(s, p) {
                Ok((v, q)) => if p < q <= s.len() {
                    array_items(s, q, acc.push(v))
                } else {
                    Err(Seq::empty())
                },
                Err(e) => Err(e),
            }
        } else {
            Err(msg_unexpected_in_array(c, p as nat))
        }
    }
}

/// A `:` element whose `:` is at `p`.
pub open spec fn colon_value_at(s: Seq<char>, p: int) -> Parsed
    decreases s.len() - p, 3int,
{
    if !(0 <= p < s.len()) {
        Err(Seq::empty())
    } else {
        colon_scan(s, p + 1, seq![':'])
    }
}

/// The rest of a `:` element from `p`, with the text `acc` gathered so far.
/// Letters, digits, `_`, `:` and escaped characters are kept, a run of white
/// space becomes one space, other characters are dropped; `, ] ;` end the
/// element (and are kept); a `[` makes it a pair of the trimmed text and the
/// array.
pub open spec fn colon_scan(s: Seq<char>, p: int, acc: Seq<char>) -> Parsed
    decreases s.len() - p, 2int,
{
    if p < 0 {
        Err(Seq::empty())
    } else if p >= s.len() {
        Ok(colon_finish(acc, p))
    } else {
        let c = s[p];
        if c == ',' || c == ']' || c == ';' {
            Ok(colon_finish(acc.push(c), p + 1))
        } else if c == '[' {
            match parse_array_at(s, p) {
                Ok((arr, q)) => Ok(
                    (
                        Val::Kv(
                            trim(strip_trailing_colons(strip_leading_colons(acc))),
                            Box::new(arr),
                        ),
                        q,
                    ),
                ),
                Err(e) => Err(e),
            }
        } else if c == '\\' {
            if p + 1 < s.len() {
                colon_scan(s, p + 2, acc.push('\\').push(s[p + 1]))
            } else {
                colon_scan(s, p + 1, acc.push('\\'))
            }
        } else if is_ascii_letter(c) || c == '_' || is_ascii_digit(c) || c == ':' {
            colon_scan(s, p + 1, acc.push(c))
        } else if is_gap(c) {
            colon_scan(s, p + 1, if acc.len() > 0 && acc.last() == ' ' { acc } else { acc.push(' ') })
        } else {
            colon_scan(s, p + 1, acc)
        }
    }
}

/// A run of name characters ends within the text.
pub proof fn lemma_name_end(s: Seq<char>, p: int)
    ensures
        p <= name_end(s, p),
        0 <= p <= s.len() ==> name_end(s, p) <= s.len(),
    decreases s.len() - p,
{
    if 0 <= p < s.len() && name_char(s[p]) {
        lemma_name_end(s, p + 1);
    }
}

/// A name at `p`, or a pair `name:value` whose value is an array or the
/// text up to the next terminator.
pub open spec fn parse_key_or_string_at(s: Seq<char>, p: int) -> Parsed
    decreases s.len() - p, 2int,
{
    let e = name_end(s, p);
    let name = s.subrange(p, e);
    if e < s.len() && s[e] == ':' {
        let q = e + 1;
        if q < s.len() && s[q] == '[' {
            proof {
                lemma_name_end(s, p);
            }
            match parse_array_at(s, q) {
                Ok((arr, r)) => Ok((Val::Kv(name, Box::new(arr)), r)),
                Err(m) => Err(m),
            }
        } else {
            let t = terminator_at(s, q);
            Ok((Val::Kv(name, Box::new(Val::Str(s.subrange(q, t)))), t))
        }
    } else {
        Ok((Val::Str(name), e))
    }
}

/// A `\` string ends within the text, past its start.
pub proof fn lemma_escaped_end(s: Seq<char>, p: int)
    requires
        0 <= p <= s.len(),
    ensures
        p <= escaped_end(s, p) <= s.len(),
        p < s.len() ==> p < escaped_end(s, p),
    decreases s.len() - p,
{
    if p < s.len() && !ends_escaped(s[p]) {
        lemma_escaped_end(s, p + 1);
    }
}

/// A space or a tab: what separates the names of one top-level value.
pub open spec fn is_blank(c: char) -> bool {
    c == ' ' || c == '\t'
}

/// The end of the run of blanks that starts at `p`.
pub open spec fn blank_end(s: Seq<char>, p: int) -> int
    decreases s.len() - p,
{
    if 0 <= p < s.len() && is_blank(s[p]) {
        blank_end(s, p + 1)
    } else {
        p
    }
}

/// Whether another name of the same top-level value starts at `f`: an
/// ASCII letter or `_` that does not begin a `name:` pair.
pub open spec fn joins_at(s: Seq<char>, f: int) -> bool {
    &&& 0 <= f < s.len()
    &&& is_ascii_letter(s[f]) || s[f] == '_'
    &&& !(name_end(s, f) < s.len() && s[name_end(s, f)] == ':')
}

/// The end of a plain top-level value whose first name starts at `p`: names
/// separated only by spaces and tabs run together into one value, which
/// stops before anything else (a `,`, `;`, line break, `[`, or a name that
/// begins a pair).
pub open spec fn words_end(s: Seq<char>, p: int) -> int
    decreases s.len() - p,
{
    let e = name_end(s, p);
    let f = blank_end(s, e);
    if p < e && e < f && joins_at(s, f) {
        words_end(s, f)
    } else {
        e
    }
}

/// A value of a document at `p`: as a value inside an array, except that a
/// plain name runs on over the names that follow it after spaces or tabs
/// (see [`words_end`]).
pub open spec fn item_at(s: Seq<char>, p: int) -> Parsed {
    match parse_value_at(s, p) {
        Ok((Val::Str(_), _)) => if 0 <= p < s.len() && s[p] != '[' {
            let t = words_end(s, p);
            Ok((Val::Str(s.subrange(p, t)), t))
        } else {
            parse_value_at(s, p)
        },
        other => other,
    }
}

/// The values of a document from `p` on, with the values `acc` read so far.
pub open spec fn document_items(s: Seq<char>, p: int, acc: Seq<Val>) -> Result<
    Seq<Val>,
    Seq<char>,
>
    decreases s.len() - p,
{
    if p < 0 {
        Err(Seq::empty())
    } else if p >= s.len() {
        Ok(acc)
    } else {
        let c = s[p];
        if starts_item(c) {
            match item_at(s, p) {
                Ok((v, q)) => if p < q <= s.len() {
                    document_items(s, q, acc.push(v))
                } else {
                    Err(Seq::empty())
                },
                Err(e) => Err(e),
            }
        } else if c == ';' || c == ',' || is_gap(c) {
            document_items(s, p + 1, acc)
        } else if c == '\\' {
            let q = escaped_end(s, p + 1);
            proof {
                lemma_escaped_end(s, p + 1);
            }
            document_items(s, q, acc.push(Val::Str(s.subrange(p, q))))
        } else {
            Err(msg_unexpected(c, p as nat))
        }
    }
}

/// The values of the document `s`, or the first error.
pub open spec fn parse_document(s: Seq<char>) -> Result<Seq<Val>, Seq<char>> {
    document_items(s, 0, Seq::empty())
}

/// The parse result that an executable result stands for.
pub open spec fn presult(r: Result<(ListValue, usize), String>) -> Parsed {
    match r {
        Ok((v, n)) => Ok((v@, n as int)),
        Err(e) => Err(e@),
    }
}

fn is_name_start(c: char) -> (r: bool)
    ensures
        r == name_start(c),
        (c as u32) < 128 ==> (r <==> (is_ascii_letter(c) || c == '_')),
{
    char_is_alphabetic(c) || c == '_'
}

fn is_name_char(c: char) -> (r: bool)
    ensures
        r == name_char(c),
{
    let a = char_is_alphabetic(c);
    let n = char_is_numeric(c);
    a || n || c == '_'
}

fn is_gap_char(c: char) -> (r: bool)
    ensures
        r == is_gap(c),
{
    c == ' ' || c == '\n' || c == '\r' || c == '\t'
}

fn is_terminator_char(c: char) -> (r: bool)
    ensures
        r == is_terminator(c),
{
    c == ',' || c == ']' || c == ';'
}

fn is_letter_char(c: char) -> (r: bool)
    ensures
        r == is_ascii_letter(c),
{
    ('a' <= c && c <= 'z') || ('A' <= c && c <= 'Z')
}

fn is_digit_char(c: char) -> (r: bool)
    ensures
        r == is_ascii_digit(c),
{
    '0' <= c && c <= '9'
}

fn unexpected_message(c: char, pos: usize) -> (r: String)
    ensures
        r@ == msg_unexpected(c, pos as nat),
{
    let mut r = String::new();
    r.append("意外的字符 '");
    r.push(c);
    r.append("' 在位置 ");
    push_decimal(&mut r, pos);
    r
}

fn bad_start_message(c: char) -> (r: String)
    ensures
        r@ == msg_bad_start(c),
{
    let mut r = String::new();
    r.append("无法解析值，起始字符: '");
    r.push(c);
    r.append("'");
    r
}

fn unexpected_in_array_message(c: char, pos: usize) -> (r: String)
    ensures
        r@ == msg_unexpected_in_array(c, pos as nat),
{
    let mut r = String::new();
    r.append("数组中意外的字符 '");
    r.push(c);
    r.append("' 在位置 ");
    push_decimal(&mut r, pos);
    r
}

/// A top-level string that starts with `\` at `start`: it runs to the first
/// of `, ] ; [` (included) or to the end of the input.
fn parse_escaped_string(s: &[char], start: usize) -> (r: (ListValue, usize))
    requires
        start < s.len(),
        s[start as int] == '\\',
    ensures
        r.1 == escaped_end(s@, start + 1),
        r.0@ == Val::Str(s@.subrange(start as int, r.1 as int)),
        start < r.1 <= s.len(),
{
    let mut pos = start + 1;
    while pos < s.len() && !(s[pos] == ',' || s[pos] == ']' || s[pos] == ';' || s[pos] == '[')
        invariant
            start < pos <= s.len(),
            escaped_end(s@, pos as int) == escaped_end(s@, start + 1),
        decreases s.len() - pos,
    {
        pos = pos + 1;
    }
    let end = if pos < s.len() {
        pos + 1
    } else {
        pos
    };
    (ListValue::String(string_of(sub_chars(s, start, end).as_slice())), end)
}

/// A number at `start`: digits with at most one `.`.
fn parse_number(s: &[char], start: usize) -> (r: (ListValue, usize))
    requires
        start < s.len(),
    ensures
        r.1 == number_end(s@, start as int, false),
        r.0@ == Val::Str(s@.subrange(start as int, r.1 as int)),
        start <= r.1 <= s.len(),
        is_ascii_digit(s[start as int]) ==> start < r.1,
{
    let mut pos = start;
    let mut has_dot = false;
    while pos < s.len() && (('0' <= s[pos] && s[pos] <= '9') || (s[pos] == '.' && !has_dot))
        invariant
            start <= pos <= s.len(),
            start < s.len(),
            number_end(s@, pos as int, has_dot) == number_end(s@, start as int, false),
            pos == start ==> !has_dot,
        decreases s.len() - pos,
    {
        if s[pos] == '.' {
            has_dot = true;
        }
        pos = pos + 1;
    }
    (ListValue::String(string_of(sub_chars(s, start, pos).as_slice())), pos)
}

/// An array element that starts with `\` at `start`.
fn parse_escaped_string_in_array(s: &[char], start: usize) -> (r: (ListValue, usize))
    requires
        start < s.len(),
        s[start as int] == '\\',
    ensures
        (r.0@, r.1 as int) == escaped_in_array_at(s@, start as int),
        start < r.1 <= s.len(),
{
    let ghost target = escaped_in_array_scan(s@, start as int, Seq::empty());
    let mut pos = start;
    let mut acc: Vec<char> = Vec::new();
    loop
        invariant_except_break
            start <= pos <= s.len(),
            start < s.len(),
            s[start as int] == '\\',
            pos == start ==> acc@.len() == 0,
            escaped_in_array_scan(s@, pos as int, acc@) == target,
        ensures
            start < pos <= s.len(),
            (acc@, pos as int) == target,
        decreases s.len() - pos,
    {
        if pos >= s.len() {
            break;
        }
        let c = s[pos];
        if c == '\\' {
            if pos + 1 < s.len() {
                let n = s[pos + 1];
                acc.push('\\');
                acc.push(n);
                pos = pos + 2;
                if n == ':' || n == ']' || n == '[' || n == ',' || n == ';' || n == '\\' {
                    break;
                }
            } else {
                acc.push('\\');
                pos = pos + 1;
                break;
            }
        } else if c == ',' || c == ']' || c == ';' || c == '[' {
            if acc.len() > 0 {
                acc.push(c);
            }
            pos = pos + 1;
            break;
        } else if is_gap_char(c) {
            if !(acc.len() > 0 && acc[acc.len() - 1] == ' ') {
                acc.push(c);
            }
            pos = pos + 1;
        } else {
            acc.push(c);
            pos = pos + 1;
        }
    }
    assert((acc@, pos as int) == target);
    let text = trimmed_end(acc.as_slice());
    (ListValue::String(string_of(text.as_slice())), pos)
}

/// `v` without leading and trailing `:` characters.
fn strip_colons(v: &[char]) -> (r: Vec<char>)
    ensures
        r@ == strip_trailing_colons(strip_leading_colons(v@)),
{
    let mut i: usize = 0;
    assert(v@.skip(0) =~= v@);
    while i < v.len() && v[i] == ':'
        invariant
            i <= v.len(),
            strip_leading_colons(v@) == strip_leading_colons(v@.skip(i as int)),
        decreases v.len() - i,
    {
        assert(v@.skip(i as int).drop_first() =~= v@.skip(i + 1));
        i = i + 1;
    }
    let mut j = v.len();
    assert(v@.skip(i as int).take((j - i) as int) =~= v@.skip(i as int));
    while j > i && v[j - 1] == ':'
        invariant
            i <= j <= v.len(),
            strip_leading_colons(v@) == v@.skip(i as int),
            strip_trailing_colons(v@.skip(i as int)) == strip_trailing_colons(
                v@.subrange(i as int, j as int),
            ),
        decreases j,
    {
        assert(v@.subrange(i as int, j as int).drop_last() =~= v@.subrange(i as int, j - 1));
        j = j - 1;
    }
    sub_chars(v, i, j)
}

/// The pair that a `:` element stands for when no array follows it.
fn colon_pair(acc: &Vec<char>, pos: usize) -> (r: (ListValue, usize))
    requires
        acc@.len() > 0,
    ensures
        (r.0@, r.1 as int) == colon_finish(acc@, pos as int),
{
    let rest = sub_chars(acc.as_slice(), 1, acc.len());
    assert(rest@ =~= acc@.drop_first());
    let val = trimmed(rest.as_slice());
    let text = string_of(val.as_slice());
    let sv = ListValue::String(text);
    assert(sv@ == Val::Str(trim(acc@.drop_first())));
    let key = String::new();
    assert(key@ == Seq::<char>::empty());
    let r = ListValue::KeyValue(key, Box::new(sv));
    assert(r@ == Val::Kv(Seq::<char>::empty(), Box::new(sv@)));
    (r, pos)
}

/// A value at `start`.
fn parse_value(s: &[char], start: usize) -> (r: Result<(ListValue, usize), String>)
    requires
        start < s.len(),
    ensures
        presult(r) == parse_value_at(s@, start as int),
        r matches Ok((_, q)) ==> start <= q <= s.len(),
        r matches Ok((_, q)) ==> (starts_element(s[start as int]) ==> start < q),
    decreases s.len() - start, 3int,
{
    let c = s[start];
    if c == '[' {
        return parse_array(s, start);
    }
    if is_name_start(c) {
        return parse_key_or_string(s, start);
    }
    if char_is_numeric(c) {
        let (v, e) = parse_number(s, start);
        return Ok((v, e));
    }
    Err(bad_start_message(c))
}

/// An array whose `[` is at `start`.
fn parse_array(s: &[char], start: usize) -> (r: Result<(ListValue, usize), String>)
    requires
        start < s.len(),
        s[start as int] == '[',
    ensures
        presult(r) == parse_array_at(s@, start as int),
        r matches Ok((_, q)) ==> start < q <= s.len(),
    decreases s.len() - start, 1int,
{
    let mut pos = start + 1;
    let mut arr: Vec<ListValue> = Vec::new();
    assert(models(arr@) =~= Seq::empty());
    while pos < s.len()
        invariant
            start < pos <= s.len(),
            array_items(s@, pos as int, models(arr@)) == parse_array_at(s@, start as int),
        decreases s.len() - pos,
    {
        let c = s[pos];
        if c == ']' {
            proof {
                lemma_array_model(arr);
            }
            return Ok((ListValue::Array(arr), pos + 1));
        } else if c == ',' || is_gap_char(c) {
            pos = pos + 1;
        } else if c == '\\' {
            let (v, np) = parse_escaped_string_in_array(s, pos);
            proof {
                lemma_models_push(arr@, v);
            }
            arr.push(v);
            pos = np;
        } else if c == '[' || is_letter_char(c) || c == '_' || is_digit_char(c) {
            match parse_value(s, pos) {
                Ok((v, np)) => {
                    proof {
                        lemma_models_push(arr@, v);
                    }
                    arr.push(v);
                    pos = np;
                },
                Err(e) => {
                    return Err(e);
                },
            }
        } else if c == ':' {
            match parse_colon_value(s, pos) {
                Ok((v, np)) => {
                    proof {
                        lemma_models_push(arr@, v);
                    }
                    arr.push(v);
                    pos = np;
                },
                Err(e) => {
                    return Err(e);
                },
            }
        } else {
            return Err(unexpected_in_array_message(c, pos));
        }
    }
    Err(String::from_str("未闭合的数组"))
}

/// A `:` element whose `:` is at `start`.
fn parse_colon_value(s: &[char], start: usize) -> (r: Result<(ListValue, usize), String>)
    requires
        start < s.len(),
        s[start as int] == ':',
    ensures
        presult(r) == colon_value_at(s@, start as int),
        r matches Ok((_, q)) ==> start < q <= s.len(),
    decreases s.len() - start, 3int,
{
    let mut pos = start + 1;
    let mut acc: Vec<char> = Vec::new();
    acc.push(':');
    while pos < s.len()
        invariant
            start < pos <= s.len(),
            acc@.len() > 0,
            colon_scan(s@, pos as int, acc@) == colon_value_at(s@, start as int),
        decreases s.len() - pos,
    {
        let c = s[pos];
        if c == ',' || c == ']' || c == ';' {
            acc.push(c);
            let (v, q) = colon_pair(&acc, pos + 1);
            return Ok((v, q));
        } else if c == '[' {
            match parse_array(s, pos) {
                Ok((arr, np)) => {
                    let key = trimmed(strip_colons(acc.as_slice()).as_slice());
                    return Ok((ListValue::KeyValue(string_of(key.as_slice()), Box::new(arr)), np));
                },
                Err(e) => {
                    return Err(e);
                },
            }
        } else if c == '\\' {
            acc.push('\\');
            pos = pos + 1;
            if pos < s.len() {
                acc.push(s[pos]);
                pos = pos + 1;
            }
        } else if is_letter_char(c) || c == '_' || is_digit_char(c) || c == ':' {
            acc.push(c);
            pos = pos + 1;
        } else if is_gap_char(c) {
            pos = pos + 1;
            if !(acc[acc.len() - 1] == ' ') {
                acc.push(' ');
            }
        } else {
            pos = pos + 1;
        }
    }
    let (v, q) = colon_pair(&acc, pos);
    Ok((v, q))
}

/// The end of the run of name characters from `start`.
fn scan_name(s: &[char], start: usize) -> (e: usize)
    requires
        start <= s.len(),
    ensures
        e == name_end(s@, start as int),
        start <= e <= s.len(),
        start < s.len() && name_char(s[start as int]) ==> start < e,
{
    let mut pos = start;
    while pos < s.len() && is_name_char(s[pos])
        invariant
            start <= pos <= s.len(),
            name_end(s@, pos as int) == name_end(s@, start as int),
            start < s.len() && name_char(s[start as int]) && pos == start ==> pos < s.len(),
        decreases s.len() - pos,
    {
        pos = pos + 1;
    }
    pos
}

/// The first terminator at or after `start`, or the end of the input.
fn scan_to_terminator(s: &[char], start: usize) -> (e: usize)
    requires
        start <= s.len(),
    ensures
        e == terminator_at(s@, start as int),
        start <= e <= s.len(),
{
    let mut pos = start;
    while pos < s.len() && !is_terminator_char(s[pos])
        invariant
            start <= pos <= s.len(),
            terminator_at(s@, pos as int) == terminator_at(s@, start as int),
        decreases s.len() - pos,
    {
        pos = pos + 1;
    }
    pos
}

/// A name at `start`, or a `name:value` pair.
fn parse_key_or_string(s: &[char], start: usize) -> (r: Result<(ListValue, usize), String>)
    requires
        start < s.len(),
    ensures
        presult(r) == parse_key_or_string_at(s@, start as int),
        r matches Ok((_, q)) ==> start <= q <= s.len(),
        r matches Ok((_, q)) ==> (name_char(s[start as int]) ==> start < q),
    decreases s.len() - start, 2int,
{
    let mut pos = scan_name(s, start);
    let name = string_of(sub_chars(s, start, pos).as_slice());
    if pos < s.len() && s[pos] == ':' {
        pos = pos + 1;
        if pos < s.len() && s[pos] == '[' {
            let ar = parse_array(s, pos);
            match ar {
                Ok((val, np)) => {
                    let r = ListValue::KeyValue(name, Box::new(val));
                    assert(r@ == Val::Kv(s@.subrange(start as int, pos - 1), Box::new(val@)));
                    assert(parse_array_at(s@, pos as int) == Ok::<(Val, int), Seq<char>>((val@, np as int)));
                    assert(presult(Ok((r, np))) == parse_key_or_string_at(s@, start as int));
                    Ok((r, np))
                },
                Err(e) => Err(e),
            }
        } else {
            let vstart = pos;
            pos = scan_to_terminator(s, vstart);
            let val = string_of(sub_chars(s, vstart, pos).as_slice());
            let ghost nm = name@;
            let ghost vv = val@;
            let sv = ListValue::String(val);
            assert(sv@ == Val::Str(vv));
            let r = ListValue::KeyValue(name, Box::new(sv));
            assert(r@ == Val::Kv(nm, Box::new(Val::Str(vv))));
            assert(presult(Ok((r, pos))) == parse_key_or_string_at(s@, start as int));
            Ok((r, pos))
        }
    } else {
        let r = ListValue::String(name);
        assert(presult(Ok((r, pos))) == parse_key_or_string_at(s@, start as int));
        Ok((r, pos))
    }
}

/// The end of the run of blanks from `start`.
fn scan_blanks(s: &[char], start: usize) -> (e: usize)
    requires
        start <= s.len(),
    ensures
        e == blank_end(s@, start as int),
        start <= e <= s.len(),
{
    let mut pos = start;
    while pos < s.len() && (s[pos] == ' ' || s[pos] == '\t')
        invariant
            start <= pos <= s.len(),
            blank_end(s@, pos as int) == blank_end(s@, start as int),
        decreases s.len() - pos,
    {
        pos = pos + 1;
    }
    pos
}

/// A run of blanks ends within the text.
proof fn lemma_blank_end(s: Seq<char>, p: int)
    requires
        0 <= p <= s.len(),
    ensures
        p <= blank_end(s, p) <= s.len(),
    decreases s.len() - p,
{
    if p < s.len() && is_blank(s[p]) {
        lemma_blank_end(s, p + 1);
    }
}

/// A plain top-level value ends within the text, past its start when that
/// is a name character.
pub proof fn lemma_words_end(s: Seq<char>, p: int)
    requires
        0 <= p <= s.len(),
    ensures
        name_end(s, p) <= words_end(s, p) <= s.len(),
    decreases s.len() - p,
{
    lemma_name_end(s, p);
    let e = name_end(s, p);
    lemma_blank_end(s, e);
    let f = blank_end(s, e);
    if p < e && e < f && joins_at(s, f) {
        lemma_words_end(s, f);
        lemma_name_end(s, f);
    }
}

/// The end of the plain top-level value whose first name starts at
/// `start` (see [`words_end`]).
fn scan_words(s: &[char], start: usize) -> (t: usize)
    requires
        start <= s.len(),
    ensures
        t == words_end(s@, start as int),
{
    let mut cur = start;
    loop
        invariant
            start <= cur <= s.len(),
            words_end(s@, cur as int) == words_end(s@, start as int),
        decreases s.len() - cur,
    {
        let e = scan_name(s, cur);
        let f = scan_blanks(s, e);
        if cur < e && e < f && f < s.len() && (is_letter_char(s[f]) || s[f] == '_') {
            let g = scan_name(s, f);
            if !(g < s.len() && s[g] == ':') {
                cur = f;
                continue;
            }
        }
        return e;
    }
}

/// The values of the document `s`, or the first error.
pub fn parse_items(s: &[char]) -> (r: Result<Vec<ListValue>, String>)
    ensures
        match r {
            Ok(v) => parse_document(s@) == Ok::<Seq<Val>, Seq<char>>(models(v@)),
            Err(e) => parse_document(s@) == Err::<Seq<Val>, Seq<char>>(e@),
        },
{
    let mut pos: usize = 0;
    let mut items: Vec<ListValue> = Vec::new();
    assert(models(items@) =~= Seq::empty());
    while pos < s.len()
        invariant
            pos <= s.len(),
            document_items(s@, pos as int, models(items@)) == parse_document(s@),
        decreases s.len() - pos,
    {
        let c = s[pos];
        if c == '[' || is_letter_char(c) || c == '_' {
            match parse_value(s, pos) {
                Ok((v, np)) => {
                    let plain = c != '[' && match &v {
                        ListValue::String(_) => true,
                        _ => false,
                    };
                    if plain {
                        let t = scan_words(s, pos);
                        proof {
                            lemma_name_end(s@, pos + 1);
                            assert(name_char(s@[pos as int]));
                            assert(name_end(s@, pos as int) == name_end(s@, pos + 1));
                            lemma_words_end(s@, pos as int);
                        }
                        let w = ListValue::String(string_of(&s[pos..t]));
                        proof {
                            lemma_models_push(items@, w);
                        }
                        items.push(w);
                        pos = t;
                    } else {
                        proof {
                            lemma_models_push(items@, v);
                        }
                        items.push(v);
                        pos = np;
                    }
                },
                Err(e) => {
                    return Err(e);
                },
            }
        } else if c == ';' || c == ',' || is_gap_char(c) {
            pos = pos + 1;
        } else if c == '\\' {
            let (v, np) = parse_escaped_string(s, pos);
            proof {
                lemma_models_push(items@, v);
            }
            items.push(v);
            pos = np;
        } else {
            return Err(unexpected_message(c, pos));
        }
    }
    Ok(items)
}

} // verus!
