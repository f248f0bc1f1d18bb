//! Running commands on a document.
use vstd::prelude::*;
use crate::data::{message_with_number, string_views, ListData};
use crate::pattern::{
    all_digits, chars_at, ends_with, has_at, has_char, indices_of, lemma_find_char, read_usize,
    scan_bracketed, scan_char, scan_line, split, split_on, starts_with,
};
use crate::semantics::{
    expand_inline, expand_vars, find_append, find_assignment, find_delete, find_insert, find_query,
    find_read_mark, find_replace, inline_value, last_on_line, match_move, match_new_array,
    match_print_range, match_single_index, rest_of_line, resolve, space_end, word_char, word_end,
    DocModel, MoveShape, Outcome, join, number, read_path, run_append, run_replace, run_insert,
    run_delete, run_new_array, with_new_array, list_vars, var_lines, search, search_in, hits,
    hit_line, shown_lines, opt_number, run_query, run_print, move_into, run_move, run_single, piped,
    run_pipeline, run_assignment, run_command, shifted_target,
};
use crate::text::{
    char_is_regex_word, chars_contain, is_white_char, push_chars, push_decimal,
    str_chars, string_of, sub_chars, trimmed,
};
use crate::value::{
    copy_value, lemma_array_model, list_literal_of, models, render, simple_value_of,
    value_to_string, ListValue, Val,
};

verus! {

/// What running a command came to: an answer (text or error), the end of
/// the program, or a panic.
#[derive(Debug)]
pub enum Step {
    Reply(Result<String, String>),
    Exit,
    Abort,
}

/// The answer's text, or its error's.
pub open spec fn answer(r: Result<String, String>) -> Result<Seq<char>, Seq<char>> {
    match r {
        Ok(s) => Ok(s@),
        Err(e) => Err(e@),
    }
}

/// The outcome that a step stands for, `d` being the document after it.
pub open spec fn outcome(s: Step, d: DocModel) -> Outcome {
    match s {
        Step::Reply(r) => Outcome::Reply(d, answer(r)),
        Step::Exit => Outcome::Exit,
        Step::Abort => Outcome::Abort,
    }
}

/// Whether `c` starts with `t`.
fn has_prefix(c: &[char], t: &str) -> (b: bool)
    ensures
        b == starts_with(c@, t@),
{
    let tv = str_chars(t);
    chars_at(c, 0, tv.as_slice())
}

/// Whether `c` has `t` at `p`.
fn has_text_at(c: &[char], p: usize, t: &str) -> (b: bool)
    ensures
        b == has_at(c@, p as int, t@),
{
    let tv = str_chars(t);
    chars_at(c, p, tv.as_slice())
}

/// Whether `c` ends with `t`.
pub(crate) fn has_suffix(c: &[char], t: &str) -> (b: bool)
    ensures
        b == ends_with(c@, t@),
{
    let tv = str_chars(t);
    if tv.len() > c.len() {
        return false;
    }
    chars_at(c, c.len() - tv.len(), tv.as_slice())
}

/// Whether `c` is `t`.
fn is_text(c: &[char], t: &str) -> (b: bool)
    ensures
        b == (c@ == t@),
{
    let tv = str_chars(t);
    if tv.len() != c.len() {
        return false;
    }
    let r = chars_at(c, 0, tv.as_slice());
    assert(c@.subrange(0, c@.len() as int) =~= c@);
    r
}

/// Whether `ch` occurs in `c`.
fn has_char_in(c: &[char], ch: char) -> (b: bool)
    ensures
        b == has_char(c@, ch),
{
    let r = scan_char(c, 0, ch);
    proof {
        lemma_find_char(c@, 0, ch);
    }
    r.is_some()
}

fn is_word_char(ch: char) -> (b: bool)
    ensures
        b == word_char(ch),
{
    char_is_regex_word(ch)
}

/// The end of the run of name characters from `p`.
fn scan_word(c: &[char], p: usize) -> (e: usize)
    requires
        p <= c.len(),
    ensures
        e == word_end(c@, p as int),
        p <= e <= c.len(),
{
    let mut e = p;
    while e < c.len() && is_word_char(c[e])
        invariant
            p <= e <= c.len(),
            word_end(c@, e as int) == word_end(c@, p as int),
        decreases c.len() - e,
    {
        e = e + 1;
    }
    e
}

/// The end of the run of white space from `p`.
fn scan_space(c: &[char], p: usize) -> (e: usize)
    requires
        p <= c.len(),
    ensures
        e == space_end(c@, p as int),
        p <= e <= c.len(),
{
    let mut e = p;
    while e < c.len() && is_white_char(c[e])
        invariant
            p <= e <= c.len(),
            space_end(c@, e as int) == space_end(c@, p as int),
        decreases c.len() - e,
    {
        e = e + 1;
    }
    e
}

/// The first `[digits]` directly followed by `mark`.
fn find_read_mark_in(c: &[char], mark: char) -> (r: Option<(usize, usize)>)
    ensures
        match r {
            Some((a, b)) => find_read_mark(c@, 0, mark) == Some((a as int, b as int)) && a <= b
                <= c.len() && all_digits(c@, a as int, b as int),
            None => find_read_mark(c@, 0, mark) is None,
        },
{
    let mut i: usize = 0;
    while i < c.len()
        invariant
            i <= c.len(),
            find_read_mark(c@, i as int, mark) == find_read_mark(c@, 0, mark),
        decreases c.len() - i,
    {
        match scan_bracketed(c, i) {
            Some((a, b, q)) => {
                if q < c.len() && c[q] == mark {
                    return Some((a, b));
                }
            },
            None => {},
        }
        i = i + 1;
    }
    None
}

/// `.+[digits]` and nothing more.
fn match_new_array_in(c: &[char]) -> (r: Option<(usize, usize)>)
    ensures
        match r {
            Some((a, b)) => match_new_array(c@) == Some((a as int, b as int)) && a <= b <= c.len()
                && all_digits(c@, a as int, b as int),
            None => match_new_array(c@) is None,
        },
{
    if has_prefix(c, ".+") {
        proof {
            reveal_strlit(".+");
        }
        match scan_bracketed(c, 2) {
            Some((a, b, q)) => {
                if q == c.len() {
                    return Some((a, b));
                }
            },
            None => {},
        }
    }
    None
}

/// The rest of the line from `q`, if it is not empty.
fn rest_of_line_in(c: &[char], q: usize) -> (r: Option<(usize, usize)>)
    ensures
        match r {
            Some((x, y)) => rest_of_line(c@, q as int) == Some((x as int, y as int)) && x <= y
                <= c.len(),
            None => rest_of_line(c@, q as int) is None,
        },
{
    if q < c.len() && c[q] != '\n' {
        Some((q, scan_line(c, q)))
    } else {
        None
    }
}

/// The first `.+[n]=value`.
fn find_append_in(c: &[char]) -> (r: Option<(usize, usize, usize, usize)>)
    ensures
        match r {
            Some((a, b, x, y)) => find_append(c@, 0) == Some(
                (a as int, b as int, x as int, y as int),
            ) && a <= b <= c.len() && x <= y <= c.len() && all_digits(c@, a as int, b as int),
            None => find_append(c@, 0) is None,
        },
{
    proof {
        reveal_strlit(".+");
    }
    let mut i: usize = 0;
    while i < c.len()
        invariant
            i <= c.len(),
            find_append(c@, i as int) == find_append(c@, 0),
        decreases c.len() - i,
    {
        proof {
            reveal_strlit(".+");
        }
        if has_text_at(c, i, ".+") {
            match scan_bracketed(c, i + 2) {
                Some((a, b, q)) => {
                    if q < c.len() && c[q] == '=' {
                        match rest_of_line_in(c, q + 1) {
                            Some((x, y)) => {
                                return Some((a, b, x, y));
                            },
                            None => {},
                        }
                    }
                },
                None => {},
            }
        }
        i = i + 1;
    }
    None
}

/// The first `.+>[n]=[inside]`.
fn find_replace_in(c: &[char]) -> (r: Option<(usize, usize, usize, usize)>)
    ensures
        match r {
            Some((a, b, x, y)) => find_replace(c@, 0) == Some(
                (a as int, b as int, x as int, y as int),
            ) && a <= b <= c.len() && x <= y <= c.len() && all_digits(c@, a as int, b as int),
            None => find_replace(c@, 0) is None,
        },
{
    proof {
        reveal_strlit(".+>");
        reveal_strlit("=[");
    }
    let mut i: usize = 0;
    while i < c.len()
        invariant
            i <= c.len(),
            find_replace(c@, i as int) == find_replace(c@, 0),
        decreases c.len() - i,
    {
        proof {
            reveal_strlit(".+>");
            reveal_strlit("=[");
        }
        if has_text_at(c, i, ".+>") {
            match scan_bracketed(c, i + 3) {
                Some((a, b, q)) => {
                    if has_text_at(c, q, "=[") {
                        match scan_char(c, q + 2, ']') {
                            Some(k) => {
                                proof {
                                    lemma_find_char(c@, q + 2, ']');
                                }
                                return Some((a, b, q + 2, k));
                            },
                            None => {},
                        }
                    }
                },
                None => {},
            }
        }
        i = i + 1;
    }
    None
}

/// The first `.+[n]>[m]=value` (`.+>[n]>[m]=value` if `gt`).
fn find_insert_in(c: &[char], gt: bool) -> (r: Option<(usize, usize, usize, usize, usize, usize)>)
    ensures
        match r {
            Some((a, b, a2, b2, x, y)) => find_insert(c@, 0, gt) == Some(
                (a as int, b as int, a2 as int, b2 as int, x as int, y as int),
            ) && a <= b <= c.len() && a2 <= b2 <= c.len() && x <= y <= c.len() && all_digits(
                c@,
                a as int,
                b as int,
            ) && all_digits(c@, a2 as int, b2 as int),
            None => find_insert(c@, 0, gt) is None,
        },
{
    proof {
        reveal_strlit(".+>");
        reveal_strlit(".+");
    }
    let lead: &str = if gt {
        ".+>"
    } else {
        ".+"
    };
    let lead_len: usize = if gt {
        3
    } else {
        2
    };
    let mut i: usize = 0;
    while i < c.len()
        invariant
            i <= c.len(),
            lead@ == (if gt {
                ".+>"@
            } else {
                ".+"@
            }),
            lead_len == lead@.len(),
            find_insert(c@, i as int, gt) == find_insert(c@, 0, gt),
        decreases c.len() - i,
    {
        if has_text_at(c, i, lead) {
            match scan_bracketed(c, i + lead_len) {
                Some((a, b, q)) => {
                    if q < c.len() && c[q] == '>' {
                        match scan_bracketed(c, q + 1) {
                            Some((a2, b2, q2)) => {
                                if q2 < c.len() && c[q2] == '=' {
                                    match rest_of_line_in(c, q2 + 1) {
                                        Some((x, y)) => {
                                            return Some((a, b, a2, b2, x, y));
                                        },
                                        None => {},
                                    }
                                }
                            },
                            None => {},
                        }
                    }
                },
                None => {},
            }
        }
        i = i + 1;
    }
    None
}

/// The first `.->[n]`.
fn find_delete_in(c: &[char]) -> (r: Option<(usize, usize)>)
    ensures
        match r {
            Some((a, b)) => find_delete(c@, 0) == Some((a as int, b as int)) && a <= b <= c.len()
                && all_digits(c@, a as int, b as int),
            None => find_delete(c@, 0) is None,
        },
{
    proof {
        reveal_strlit(".->");
    }
    let mut i: usize = 0;
    while i < c.len()
        invariant
            i <= c.len(),
            find_delete(c@, i as int) == find_delete(c@, 0),
        decreases c.len() - i,
    {
        proof {
            reveal_strlit(".->");
        }
        if has_text_at(c, i, ".->") {
            match scan_bracketed(c, i + 3) {
                Some((a, b, q)) => {
                    return Some((a, b));
                },
                None => {},
            }
        }
        i = i + 1;
    }
    None
}

/// Bounds as integers.
pub open spec fn opt_range(r: Option<(usize, usize)>) -> Option<(int, int)> {
    match r {
        Some((a, b)) => Some((a as int, b as int)),
        None => None,
    }
}

/// The first query `.?keyword[>[n][-[m]]]`.
fn find_query_in(c: &[char]) -> (r: Option<(usize, usize, Option<(usize, usize)>, Option<(usize, usize)>)>)
    ensures
        match r {
            Some((ks, ke, r1, r2)) => {
                &&& find_query(c@, 0) == Some((ks as int, ke as int, opt_range(r1), opt_range(r2)))
                &&& ks <= ke <= c.len()
                &&& r1 matches Some((a, b)) ==> a <= b <= c.len() && all_digits(c@, a as int, b as int)
                &&& r2 matches Some((a, b)) ==> a <= b <= c.len() && all_digits(c@, a as int, b as int)
            },
            None => find_query(c@, 0) is None,
        },
{
    let mut i: usize = 0;
    while i < c.len()
        invariant
            i <= c.len(),
            find_query(c@, i as int) == find_query(c@, 0),
        decreases c.len() - i,
    {
        proof {
            reveal_strlit(".?");
            lemma_find_char(c@, i + 2, '>');
        }
        let k = if i + 1 < c.len() {
            match scan_char(c, i + 2, '>') {
                Some(k) => k,
                None => c.len(),
            }
        } else {
            c.len()
        };
        if has_text_at(c, i, ".?") && k > i + 2 {
            if k < c.len() {
                match scan_bracketed(c, k + 1) {
                    Some((a, b, q)) => {
                        if q < c.len() && c[q] == '-' {
                            match scan_bracketed(c, q + 1) {
                                Some((a2, b2, _q2)) => {
                                    return Some((i + 2, k, Some((a, b)), Some((a2, b2))));
                                },
                                None => {
                                    return Some((i + 2, k, Some((a, b)), None));
                                },
                            }
                        } else {
                            return Some((i + 2, k, Some((a, b)), None));
                        }
                    },
                    None => {
                        return Some((i + 2, k, None, None));
                    },
                }
            } else {
                return Some((i + 2, k, None, None));
            }
        }
        i = i + 1;
    }
    None
}

/// `[n]-[m]` and nothing more.
fn match_print_range_in(a: &[char]) -> (r: Option<(usize, usize, usize, usize)>)
    ensures
        match r {
            Some((a1, b1, a2, b2)) => match_print_range(a@) == Some(
                (a1 as int, b1 as int, a2 as int, b2 as int),
            ) && a1 <= b1 <= a.len() && a2 <= b2 <= a.len() && all_digits(a@, a1 as int, b1 as int)
                && all_digits(a@, a2 as int, b2 as int),
            None => match_print_range(a@) is None,
        },
{
    match scan_bracketed(a, 0) {
        Some((a1, b1, q)) => {
            if q < a.len() && a[q] == '-' {
                match scan_bracketed(a, q + 1) {
                    Some((a2, b2, q2)) => {
                        if q2 == a.len() {
                            return Some((a1, b1, a2, b2));
                        }
                    },
                    None => {},
                }
            }
        },
        None => {},
    }
    None
}

/// `[n]` and nothing more.
fn match_single_index_in(a: &[char]) -> (r: Option<(usize, usize)>)
    ensures
        match r {
            Some((a1, b1)) => match_single_index(a@) == Some((a1 as int, b1 as int)) && a1 <= b1
                <= a.len() && all_digits(a@, a1 as int, b1 as int),
            None => match_single_index(a@) is None,
        },
{
    match scan_bracketed(a, 0) {
        Some((a1, b1, q)) => {
            if q == a.len() {
                return Some((a1, b1));
            }
        },
        None => {},
    }
    None
}

/// The shape of a move command, with `usize` bounds.
pub enum Move {
    Before(usize, usize, usize, usize, usize, usize),
    After(usize, usize, usize, usize, usize, usize),
    ToEnd(usize, usize, usize, usize),
}

/// The shape of move command that a matched move stands for.
pub open spec fn move_view(m: Move) -> MoveShape {
    match m {
        Move::Before(a, b, c, d, e, f) => MoveShape::Before(
            a as int,
            b as int,
            c as int,
            d as int,
            e as int,
            f as int,
        ),
        Move::After(a, b, c, d, e, f) => MoveShape::After(
            a as int,
            b as int,
            c as int,
            d as int,
            e as int,
            f as int,
        ),
        Move::ToEnd(a, b, c, d) => MoveShape::ToEnd(a as int, b as int, c as int, d as int),
    }
}

/// The digit runs of a matched move lie within `s`.
pub open spec fn move_bounded(m: Move, s: Seq<char>) -> bool {
    let n = s.len();
    match m {
        Move::Before(a, b, c, d, e, f) => a <= b <= n && c <= d <= n && e <= f <= n && all_digits(
            s,
            a as int,
            b as int,
        ) && all_digits(s, c as int, d as int) && all_digits(s, e as int, f as int),
        Move::After(a, b, c, d, e, f) => a <= b <= n && c <= d <= n && e <= f <= n && all_digits(
            s,
            a as int,
            b as int,
        ) && all_digits(s, c as int, d as int) && all_digits(s, e as int, f as int),
        Move::ToEnd(a, b, c, d) => a <= b <= n && c <= d <= n && all_digits(s, a as int, b as int)
            && all_digits(s, c as int, d as int),
    }
}

/// The shape of a move command.
fn match_move_in(c: &[char]) -> (r: Option<Move>)
    ensures
        match r {
            Some(m) => match_move(c@) == Some(move_view(m)) && move_bounded(m, c@),
            None => match_move(c@) is None,
        },
{
    proof {
        reveal_strlit(".>");
    }
    if !has_prefix(c, ".>") {
        return None;
    }
    match scan_bracketed(c, 2) {
        Some((a1, b1, q1)) => {
            if q1 < c.len() && c[q1] == '>' {
                match scan_bracketed(c, q1 + 1) {
                    Some((a2, b2, q2)) => {
                        if q2 == c.len() {
                            return Some(Move::ToEnd(a1, b1, a2, b2));
                        } else if c[q2] == '<' || c[q2] == '>' {
                            match scan_bracketed(c, q2 + 1) {
                                Some((a3, b3, q3)) => {
                                    if q3 == c.len() {
                                        if c[q2] == '<' {
                                            return Some(Move::Before(a1, b1, a2, b2, a3, b3));
                                        } else {
                                            return Some(Move::After(a1, b1, a2, b2, a3, b3));
                                        }
                                    }
                                },
                                None => {},
                            }
                        }
                    },
                    None => {},
                }
            }
        },
        None => {},
    }
    None
}

/// The last position in `(lo, hi)` whose character is not a line break.
fn last_on_line_in(c: &[char], lo: usize, hi: usize) -> (r: Option<usize>)
    requires
        lo <= hi <= c.len(),
    ensures
        match r {
            Some(g) => last_on_line(c@, lo as int, hi as int) == Some(g as int) && lo < g < hi,
            None => last_on_line(c@, lo as int, hi as int) is None,
        },
{
    let mut p = hi;
    while p > lo && p - 1 > lo
        invariant
            lo <= p <= hi <= c.len(),
            last_on_line(c@, lo as int, p as int) == last_on_line(c@, lo as int, hi as int),
        decreases p,
    {
        if c[p - 1] != '\n' {
            return Some(p - 1);
        }
        p = p - 1;
    }
    None
}

/// The first `$name = value`: the name's bounds and the trimmed value text.
fn find_assignment_in(c: &[char]) -> (r: Option<(usize, usize, Vec<char>)>)
    ensures
        match r {
            Some((a, b, t)) => find_assignment(c@, 0) == Some((c@.subrange(a as int, b as int), t@))
                && a <= b <= c.len(),
            None => find_assignment(c@, 0) is None,
        },
{
    let mut i: usize = 0;
    while i < c.len()
        invariant
            i <= c.len(),
            find_assignment(c@, i as int) == find_assignment(c@, 0),
        decreases c.len() - i,
    {
        let w = scan_word(c, i + 1);
        let j = scan_space(c, w);
        if c[i] == '$' && w > i + 1 && j < c.len() && c[j] == '=' {
            let f = scan_space(c, j + 1);
            if f < c.len() {
                let e = scan_line(c, f);
                let t = crate::text::trimmed(sub_chars(c, f, e).as_slice());
                return Some((i + 1, w, t));
            } else {
                match last_on_line_in(c, j, c.len()) {
                    Some(g) => {
                        let one = sub_chars(c, g, g + 1);
                        assert(one@ =~= seq![c@[g as int]]);
                        let t = crate::text::trimmed(one.as_slice());
                        return Some((i + 1, w, t));
                    },
                    None => {},
                }
            }
        }
        i = i + 1;
    }
    None
}

/// The characters of a value's text form.
fn rendered_chars(v: &ListValue) -> (r: Vec<char>)
    ensures
        r@ == render(v@),
{
    let s = value_to_string(v);
    str_chars(s.as_str())
}

impl ListData {
    /// What `${expr}` stands for.
    fn inline_value_of(&self, expr: &[char]) -> (r: Vec<char>)
        ensures
            r@ == inline_value(self@, expr@),
    {
        if has_prefix(expr, "[") {
            match indices_of(expr) {
                Ok(path) => {
                    match self.get(path.as_slice()) {
                        Some(v) => {
                            return rendered_chars(v);
                        },
                        None => {},
                    }
                },
                Err(_) => {},
            }
        }
        sub_chars(expr, 0, expr.len())
    }

    /// `c` with each `${expr}` replaced.
    fn expand_inline_of(&self, c: &[char]) -> (r: Vec<char>)
        ensures
            r@ == expand_inline(self@, c@, 0),
    {
        let mut out: Vec<char> = Vec::new();
        let mut i: usize = 0;
        while i < c.len()
            invariant
                i <= c.len(),
                out@ + expand_inline(self@, c@, i as int) == expand_inline(self@, c@, 0),
            decreases c.len() - i,
        {
            proof {
                reveal_strlit("${");
            }
            let opened = has_text_at(c, i, "${");
            let close = if opened {
                scan_char(c, i + 2, '}')
            } else {
                None
            };
            proof {
                if opened {
                    lemma_find_char(c@, i + 2, '}');
                }
            }
            match close {
                Some(k) => {
                    if k > i + 2 {
                        let inner = sub_chars(c, i + 2, k);
                        let mut rep = self.inline_value_of(inner.as_slice());
                        let ghost before = out@;
                        out.append(&mut rep);
                        assert(out@ + expand_inline(self@, c@, k + 1) =~= before + expand_inline(
                            self@,
                            c@,
                            i as int,
                        ));
                        i = k + 1;
                    } else {
                        let ghost before = out@;
                        out.push(c[i]);
                        assert(out@ + expand_inline(self@, c@, i + 1) =~= before + expand_inline(
                            self@,
                            c@,
                            i as int,
                        ));
                        i = i + 1;
                    }
                },
                None => {
                    let ghost before = out@;
                    out.push(c[i]);
                    assert(out@ + expand_inline(self@, c@, i + 1) =~= before + expand_inline(
                        self@,
                        c@,
                        i as int,
                    ));
                    i = i + 1;
                },
            }
        }
        assert(out@ + expand_inline(self@, c@, i as int) =~= out@);
        out
    }

    /// `c` with each `$name` of a set variable replaced.
    fn expand_vars_of(&self, c: &[char]) -> (r: Vec<char>)
        ensures
            r@ == expand_vars(self@, c@, 0),
    {
        let mut out: Vec<char> = Vec::new();
        let mut i: usize = 0;
        while i < c.len()
            invariant
                i <= c.len(),
                out@ + expand_vars(self@, c@, i as int) == expand_vars(self@, c@, 0),
            decreases c.len() - i,
        {
            let w = scan_word(c, i + 1);
            let ghost before = out@;
            if c[i] == '$' && w > i + 1 {
                let name = string_of(sub_chars(c, i + 1, w).as_slice());
                match self.variables.get(name.as_str()) {
                    Some(v) => {
                        let mut rep = rendered_chars(v);
                        out.append(&mut rep);
                    },
                    None => {
                        out.push('$');
                        let mut rep = sub_chars(c, i + 1, w);
                        out.append(&mut rep);
                    },
                }
                assert(out@ + expand_vars(self@, c@, w as int) =~= before + expand_vars(
                    self@,
                    c@,
                    i as int,
                ));
                i = w;
            } else {
                out.push(c[i]);
                assert(out@ + expand_vars(self@, c@, i + 1) =~= before + expand_vars(
                    self@,
                    c@,
                    i as int,
                ));
                i = i + 1;
            }
        }
        assert(out@ + expand_vars(self@, c@, i as int) =~= out@);
        out
    }

    /// `c` with its references resolved.
    fn resolve_of(&self, c: &[char]) -> (r: Vec<char>)
        ensures
            r@ == resolve(self@, c@),
    {
        let e = self.expand_inline_of(c);
        self.expand_vars_of(e.as_slice())
    }
}

/// The number written at `c[a..b]`.
fn number_at(c: &[char], a: usize, b: usize) -> (r: Result<usize, String>)
    requires
        a <= b <= c.len(),
        all_digits(c@, a as int, b as int),
    ensures
        match r {
            Ok(n) => number(c@, a as int, b as int) == Ok::<usize, Seq<char>>(n),
            Err(e) => number(c@, a as int, b as int) == Err::<usize, Seq<char>>(e@),
        },
{
    read_usize(c, a, b)
}

/// Joining one more text adds the separator and that text.
pub proof fn lemma_join_step(xs: Seq<Seq<char>>, i: int, sep: Seq<char>)
    requires
        0 <= i < xs.len(),
    ensures
        join(xs.take(i + 1), sep) == if i == 0 {
            xs[0]
        } else {
            join(xs.take(i), sep) + sep + xs[i]
        },
{
    if i == 0 {
        assert(xs.take(1) =~= seq![xs[0]]);
    } else {
        assert(xs.take(i + 1).drop_last() =~= xs.take(i));
    }
}

/// The strings `v` joined by `sep`.
fn join_strings(v: &Vec<String>, sep: &str) -> (r: String)
    ensures
        r@ == join(string_views(v@), sep@),
{
    let ghost xs = string_views(v@);
    let mut r = String::new();
    let mut i: usize = 0;
    while i < v.len()
        invariant
            i <= v.len(),
            xs == string_views(v@),
            r@ == join(xs.take(i as int), sep@),
        decreases v.len() - i,
    {
        if i > 0 {
            r.append(sep);
        }
        r.append(v[i].as_str());
        proof {
            lemma_join_step(xs, i as int, sep@);
        }
        i = i + 1;
    }
    assert(xs.take(v.len() as int) =~= xs);
    r
}

/// The text of the characters `a`, `b` and `c` in a row.
fn concat3(a: &str, b: &[char], c: &str) -> (r: String)
    ensures
        r@ == a@ + b@ + c@,
{
    let mut r = String::from_str(a);
    crate::text::push_chars(&mut r, b);
    r.append(c);
    r
}

impl ListData {
    /// Reads the value at a path.
    fn read_path_of(&self, path: &[char]) -> (r: Result<String, String>)
        ensures
            Outcome::Reply(self@, answer(r)) == read_path(self@, path@),
    {
        match indices_of(path) {
            Ok(idx) => match self.get(idx.as_slice()) {
                Some(v) => Ok(value_to_string(v)),
                None => Err(String::from_str("索引超出范围")),
            },
            Err(m) => Err(m),
        }
    }

    /// `.+[n]=value`.
    fn run_append_of(&mut self, c: &[char]) -> (r: Result<String, String>)
        ensures
            Outcome::Reply(final(self)@, answer(r)) == run_append(old(self)@, c@),
    {
        match find_append_in(c) {
            Some((a, b, x, y)) => match number_at(c, a, b) {
                Ok(n) => {
                    let t = sub_chars(c, x, y);
                    proof {
                        reveal_strlit("[");
                        reveal_strlit("]");
                    }
                    let v = if has_prefix(t.as_slice(), "[") && has_suffix(t.as_slice(), "]") {
                        assert(t@.subrange(0, 1)[0] == t@[0]);
                        assert(t@.subrange(t@.len() - 1, t@.len() as int)[0] == t@[t@.len() - 1]);
                        list_literal_of(sub_chars(t.as_slice(), 1, t.len() - 1).as_slice())
                    } else {
                        simple_value_of(t.as_slice())
                    };
                    match self.append(n, v) {
                        Ok(()) => Ok(self.to_string()),
                        Err(e) => Err(e),
                    }
                },
                Err(m) => Err(m),
            },
            None => Err(String::from_str("无效的追加命令")),
        }
    }

    /// `.+>[n]=[...]`.
    fn run_replace_of(&mut self, c: &[char]) -> (r: Result<String, String>)
        ensures
            Outcome::Reply(final(self)@, answer(r)) == run_replace(old(self)@, c@),
    {
        match find_replace_in(c) {
            Some((a, b, x, y)) => match number_at(c, a, b) {
                Ok(n) => {
                    let v = list_literal_of(sub_chars(c, x, y).as_slice());
                    let ghost vm = v@;
                    let ghost before = self.items@;
                    match self.replace(n, v) {
                        Ok(()) => {
                            assert(models(self.items@) =~= models(before).update(n as int, vm));
                            Ok(self.to_string())
                        },
                        Err(e) => Err(e),
                    }
                },
                Err(m) => Err(m),
            },
            None => Err(String::from_str("无效的替换命令")),
        }
    }

    /// `.+[n]>[m]=value` or `.+>[n]>[m]=value`.
    fn run_insert_of(&mut self, c: &[char], gt: bool) -> (r: Result<String, String>)
        ensures
            Outcome::Reply(final(self)@, answer(r)) == run_insert(old(self)@, c@, gt),
    {
        match find_insert_in(c, gt) {
            Some((a, b, a2, b2, x, y)) => match number_at(c, a, b) {
                Ok(n) => match number_at(c, a2, b2) {
                    Ok(p) => {
                        let v = simple_value_of(sub_chars(c, x, y).as_slice());
                        match self.insert(n, p, v) {
                            Ok(()) => Ok(self.to_string()),
                            Err(e) => Err(e),
                        }
                    },
                    Err(m) => Err(m),
                },
                Err(m) => Err(m),
            },
            None => Err(String::from_str("无效的插入命令")),
        }
    }

    /// `.->[n]`.
    fn run_delete_of(&mut self, c: &[char]) -> (r: Result<String, String>)
        ensures
            Outcome::Reply(final(self)@, answer(r)) == run_delete(old(self)@, c@),
    {
        match find_delete_in(c) {
            Some((a, b)) => match number_at(c, a, b) {
                Ok(n) => {
                    let ghost before = self.items@;
                    match self.delete(n) {
                        Ok(()) => {
                            assert(models(self.items@) =~= models(before).remove(n as int));
                            Ok(self.to_string())
                        },
                        Err(e) => Err(e),
                    }
                },
                Err(m) => Err(m),
            },
            None => Err(String::from_str("无效的删除命令")),
        }
    }

    /// `.+[n]`.
    fn run_new_array_of(&mut self, c: &[char], a: usize, b: usize) -> (r: Result<String, String>)
        requires
            a <= b <= c.len(),
            all_digits(c@, a as int, b as int),
        ensures
            Outcome::Reply(final(self)@, answer(r)) == run_new_array(
                old(self)@,
                (a as int, b as int),
                c@,
            ),
    {
        match number_at(c, a, b) {
            Ok(n) => {
                let ghost old_items = models(self.items@);
                let old_len = self.items.len();
                while self.items.len() <= n
                    invariant
                        old_len == old_items.len(),
                        old_len <= self.items@.len(),
                        self.items@.len() <= if n < old_len {
                            old_len as int
                        } else {
                            n + 1
                        },
                        forall|i: int|
                            0 <= i < self.items@.len() ==> (#[trigger] self.items@[i])@ == if i
                                < old_len {
                                old_items[i]
                            } else {
                                Val::Arr(Seq::empty())
                            },
                        self.variables == old(self).variables,
                        self.language == old(self).language,
                    decreases n + 1 - self.items.len(),
                {
                    let e: Vec<ListValue> = Vec::new();
                    proof {
                        lemma_array_model(e);
                        assert(models(e@) =~= Seq::<Val>::empty());
                    }
                    self.items.push(ListValue::Array(e));
                }
                let e: Vec<ListValue> = Vec::new();
                proof {
                    lemma_array_model(e);
                    assert(models(e@) =~= Seq::<Val>::empty());
                }
                self.items.set(n, ListValue::Array(e));
                assert(models(self.items@) =~= with_new_array(old_items, n));
                Ok(self.to_string())
            },
            Err(m) => Err(m),
        }
    }

    /// `$vars`: each variable as `name = value`, one per line.
    fn list_vars_of(&self) -> (r: String)
        ensures
            Outcome::Reply(self@, Ok(r@)) == list_vars(self@),
    {
        let n = self.variables.len();
        if n == 0 {
            return String::from_str("(无变量)");
        }
        let ghost xs = var_lines(self@.vars);
        let mut r = String::new();
        let mut i: usize = 0;
        while i < n
            invariant
                i <= n,
                n == self@.vars.len(),
                xs == var_lines(self@.vars),
                r@ == join(xs.take(i as int), seq!['\n']),
            decreases n - i,
        {
            if i > 0 {
                r.push('\n');
            }
            let (k, v) = self.variables.entry(i);
            r.append(k.as_str());
            r.append(" = ");
            crate::value::push_rendered(&mut r, v);
            proof {
                lemma_join_step(xs, i as int, seq!['\n']);
            }
            assert(r@ =~= join(xs.take(i + 1), seq!['\n']));
            i = i + 1;
        }
        assert(xs.take(n as int) =~= xs);
        r
    }
}

/// The first text a search for `kw` finds in `v`.
fn search_value(v: &ListValue, kw: &[char]) -> (r: Option<Vec<char>>)
    ensures
        match r {
            Some(t) => search(v@, kw@) == Some(t@),
            None => search(v@, kw@) is None,
        },
    decreases v,
{
    match v {
        ListValue::String(s) => {
            let sc = str_chars(s.as_str());
            if chars_contain(sc.as_slice(), kw) {
                Some(sc)
            } else {
                None
            }
        },
        ListValue::Array(arr) => {
            proof {
                lemma_array_model(*arr);
            }
            let ghost m = models(arr@);
            let mut i: usize = 0;
            assert(m.skip(0) =~= m);
            while i < arr.len()
                invariant
                    i <= arr.len(),
                    *v == ListValue::Array(*arr),
                    m == models(arr@),
                    v@ == Val::Arr(m),
                    search_in(m, kw@) == search_in(m.skip(i as int), kw@),
                decreases arr.len() - i,
            {
                proof {
                    broadcast use vstd::std_specs::vec::axiom_vec_index_decreases;

                    assert(decreases_to!(*v => v->Array_0));
                    assert(decreases_to!(*arr => arr[i as int]));
                    assert(m.skip(i as int)[0] == arr@[i as int]@);
                    assert(m.skip(i as int).drop_first() =~= m.skip(i + 1));
                }
                match search_value(&arr[i], kw) {
                    Some(t) => {
                        return Some(t);
                    },
                    None => {},
                }
                i = i + 1;
            }
            None
        },
        ListValue::KeyValue(k, b) => {
            let kc = str_chars(k.as_str());
            if chars_contain(kc.as_slice(), kw) {
                let mut out = kc;
                out.push(':');
                out.push(' ');
                let mut rest = rendered_chars(&**b);
                out.append(&mut rest);
                proof {
                    reveal_strlit(": ");
                }
                assert(out@ =~= k@ + ": "@ + render(b@));
                Some(out)
            } else {
                search_value(&**b, kw)
            }
        },
    }
}

/// A result line `[i]: text`.
fn hit_line_of(i: usize, t: &[char]) -> (r: String)
    ensures
        r@ == hit_line(i as nat, t@),
{
    let mut r = String::new();
    r.push('[');
    push_decimal(&mut r, i);
    r.append("]: ");
    push_chars(&mut r, t);
    assert(r@ =~= hit_line(i as nat, t@));
    r
}

proof fn lemma_hits_beyond(items: Seq<Val>, kw: Seq<char>, lo: int, m: int, hi: int)
    requires
        m <= hi,
        m + 1 >= items.len(),
    ensures
        hits(items, kw, lo, hi) == hits(items, kw, lo, m),
    decreases hi - m,
{
    if hi > m {
        if hi >= lo {
            lemma_hits_beyond(items, kw, lo, m, hi - 1);
        } else {
            lemma_hits_beyond(items, kw, lo, m, hi - 1);
        }
    }
}

proof fn lemma_shown_beyond(items: Seq<Val>, lo: int, m: int, hi: int)
    requires
        m <= hi,
        m + 1 >= items.len(),
    ensures
        shown_lines(items, lo, hi) == shown_lines(items, lo, m),
    decreases hi - m,
{
    if hi > m {
        lemma_shown_beyond(items, lo, m, hi - 1);
    }
}

proof fn lemma_hits_empty(items: Seq<Val>, kw: Seq<char>, lo: int, hi: int)
    requires
        hi < lo,
    ensures
        hits(items, kw, lo, hi) == Seq::<Seq<char>>::empty(),
{
}

impl ListData {
    /// The result lines of a search among the values `lo..=hi`.
    fn hit_lines(&self, kw: &[char], lo: usize, hi: usize) -> (r: Vec<String>)
        ensures
            string_views(r@) == hits(self@.items, kw@, lo as int, hi as int),
    {
        let ghost items = self@.items;
        let mut out: Vec<String> = Vec::new();
        let mut i = lo;
        assert(string_views(out@) =~= hits(items, kw@, lo as int, lo - 1));
        while i <= hi && i < self.items.len()
            invariant
                lo <= i,
                i == lo || i <= hi + 1,
                items == self@.items,
                string_views(out@) == hits(items, kw@, lo as int, i - 1),
            decreases self.items.len() - i,
        {
            match search_value(&self.items[i], kw) {
                Some(t) => {
                    let line = hit_line_of(i, t.as_slice());
                    let ghost before = out@;
                    out.push(line);
                    assert(string_views(out@) =~= string_views(before).push(line@));
                },
                None => {},
            }
            i = i + 1;
        }
        proof {
            if i > hi {
                if i == lo {
                    lemma_hits_empty(items, kw@, lo as int, hi as int);
                    lemma_hits_empty(items, kw@, lo as int, lo - 1);
                }
            } else {
                lemma_hits_beyond(items, kw@, lo as int, i - 1, hi as int);
            }
        }
        out
    }

    /// The lines `[i]: value` of the values `lo..=hi`.
    fn shown_lines_of(&self, lo: usize, hi: usize) -> (r: Vec<String>)
        ensures
            string_views(r@) == shown_lines(self@.items, lo as int, hi as int),
    {
        let ghost items = self@.items;
        let mut out: Vec<String> = Vec::new();
        let mut i = lo;
        assert(string_views(out@) =~= shown_lines(items, lo as int, lo - 1));
        while i <= hi && i < self.items.len()
            invariant
                lo <= i,
                i == lo || i <= hi + 1,
                items == self@.items,
                string_views(out@) == shown_lines(items, lo as int, i - 1),
            decreases self.items.len() - i,
        {
            let t = rendered_chars(&self.items[i]);
            let line = hit_line_of(i, t.as_slice());
            let ghost before = out@;
            out.push(line);
            assert(string_views(out@) =~= string_views(before).push(line@));
            i = i + 1;
        }
        proof {
            if i <= hi {
                lemma_shown_beyond(items, lo as int, i - 1, hi as int);
            }
        }
        out
    }

    /// `.?keyword`, `.?keyword>[n]`, `.?keyword>[n]-[m]`.
    fn run_query_of(&self, c: &[char]) -> (r: Result<String, String>)
        ensures
            Outcome::Reply(self@, answer(r)) == run_query(self@, c@),
    {
        match find_query_in(c) {
            Some((ks, ke, r1, r2)) => {
                let kw = sub_chars(c, ks, ke);
                let s1 = opt_number_at(c, r1);
                let s2 = opt_number_at(c, r2);
                let lines = match (s1, s2) {
                    (Some(s), Some(e)) => self.hit_lines(kw.as_slice(), s, e),
                    (Some(s), None) => self.hit_lines(kw.as_slice(), s, s),
                    _ => {
                        if self.items.len() == 0 {
                            let v: Vec<String> = Vec::new();
                            assert(string_views(v@) =~= hits(self@.items, kw@, 0, -1));
                            v
                        } else {
                            self.hit_lines(kw.as_slice(), 0, self.items.len() - 1)
                        }
                    },
                };
                let ghost lv = match (opt_number(c@, opt_range(r1)), opt_number(c@, opt_range(r2))) {
                    (Some(s), Some(e)) => hits(self@.items, kw@, s as int, e as int),
                    (Some(s), None) => hits(self@.items, kw@, s as int, s as int),
                    _ => hits(self@.items, kw@, 0, self@.items.len() - 1),
                };
                assert(string_views(lines@) == lv);
                if lines.len() == 0 {
                    Ok(concat2("未找到关键词: ", kw.as_slice()))
                } else {
                    let r = join_strings(&lines, "\n");
                    proof {
                        reveal_strlit("\n");
                    }
                    assert("\n"@ =~= seq!['\n']);
                    Ok(r)
                }
            },
            None => Err(String::from_str("无效的查询命令")),
        }
    }

    /// `.print>` followed by `a`.
    fn run_print_of(&self, a: &[char]) -> (r: Result<String, String>)
        ensures
            Outcome::Reply(self@, answer(r)) == run_print(self@, a@),
    {
        proof {
            reveal_strlit("$");
            reveal_strlit("[");
            reveal_strlit("]");
        }
        match match_print_range_in(a) {
            Some((a1, b1, a2, b2)) => match number_at(a, a1, b1) {
                Ok(s) => match number_at(a, a2, b2) {
                    Ok(e) => {
                        let lines = self.shown_lines_of(s, e);
                        let r = join_strings(&lines, "\n");
                        proof {
                            reveal_strlit("\n");
                        }
                        assert("\n"@ =~= seq!['\n']);
                        Ok(r)
                    },
                    Err(m) => Err(m),
                },
                Err(m) => Err(m),
            },
            None => {
                if has_prefix(a, "$") {
                    assert(a@.subrange(0, 1)[0] == a@[0]);
                    let name = sub_chars(a, 1, a.len());
                    assert(name@ =~= a@.drop_first());
                    let key = string_of(name.as_slice());
                    match self.variables.get(key.as_str()) {
                        Some(v) => Ok(value_to_string(v)),
                        None => Err(concat2("变量不存在: ", name.as_slice())),
                    }
                } else if has_prefix(a, "[") && has_suffix(a, "]") {
                    match match_single_index_in(a) {
                        Some((x, y)) => match number_at(a, x, y) {
                            Ok(n) => {
                                if n < self.items.len() {
                                    Ok(value_to_string(&self.items[n]))
                                } else {
                                    Err(String::from_str("索引超出范围"))
                                }
                            },
                            Err(m) => Err(m),
                        },
                        None => self.read_path_of(a),
                    }
                } else {
                    Ok(string_of(a))
                }
            },
        }
    }
}

/// The text of `a` followed by the characters `b`.
fn concat2(a: &str, b: &[char]) -> (r: String)
    ensures
        r@ == a@ + b@,
{
    let mut r = String::from_str(a);
    push_chars(&mut r, b);
    r
}

/// The number at a range, if there is one and it reads as a `usize`.
fn opt_number_at(c: &[char], r: Option<(usize, usize)>) -> (n: Option<usize>)
    requires
        r matches Some((a, b)) ==> a <= b <= c.len() && all_digits(c@, a as int, b as int),
    ensures
        n == opt_number(c@, opt_range(r)),
{
    match r {
        Some((a, b)) => match number_at(c, a, b) {
            Ok(n) => Some(n),
            Err(_) => None,
        },
        None => None,
    }
}

/// The segment `t` of a pipeline with `last` in place of its first `=`.
fn piped_of(t: &[char], last: &[char]) -> (r: Vec<char>)
    ensures
        r@ == piped(t@, last@),
{
    match scan_char(t, 0, '=') {
        Some(k) => {
            proof {
                lemma_find_char(t@, 0, '=');
            }
            let mut r = sub_chars(t, 0, k);
            let mut l = sub_chars(last, 0, last.len());
            let mut rest = sub_chars(t, k + 1, t.len());
            r.append(&mut l);
            r.append(&mut rest);
            assert(r@ =~= t@.take(k as int) + last@ + t@.skip(k + 1));
            r
        },
        None => sub_chars(t, 0, t.len()),
    }
}

impl ListData {
    /// Moves value `s` into the array that was value `t` at `p`, or back in
    /// as value `t` if that is no array (see [`move_into`]).
    fn move_into_of(&mut self, s: usize, t: usize, p: usize, after: bool) -> (r: Step)
        requires
            s < old(self).items@.len(),
            t < old(self).items@.len(),
        ensures
            outcome(r, final(self)@) == move_into(old(self)@, s, t, p as int, after),
    {
        let ghost old_items = models(self.items@);
        let v = self.items.remove(s);
        let ghost vm = v@;
        let ghost rest = models(self.items@);
        assert(rest =~= old_items.remove(s as int));
        assert(vm == old_items[s as int]);
        let tt: usize = if s < t {
            t - 1
        } else {
            t
        };
        assert(tt == shifted_target(s, t));
        if tt < self.items.len() {
            let mut slot = ListValue::String(String::new());
            self.items.set_and_swap(tt, &mut slot);
            match slot {
                ListValue::Array(mut arr) => {
                    proof {
                        lemma_array_model(arr);
                    }
                    let ghost am = models(arr@);
                    if after && p >= arr.len() {
                        return Step::Abort;
                    }
                    let at = if after {
                        p + 1
                    } else if p < arr.len() {
                        p
                    } else {
                        arr.len()
                    };
                    arr.insert(at, v);
                    proof {
                        lemma_array_model(arr);
                        assert(models(arr@) =~= am.insert(at as int, vm));
                    }
                    self.items.set(tt, ListValue::Array(arr));
                    assert(models(self.items@) =~= rest.update(
                        tt as int,
                        Val::Arr(am.insert(at as int, vm)),
                    ));
                    return Step::Reply(Ok(self.to_string()));
                },
                other => {
                    self.items.set(tt, other);
                },
            }
        }
        assert(models(self.items@) =~= rest);
        self.items.insert(t, v);
        assert(models(self.items@) =~= rest.insert(t as int, vm));
        Step::Reply(Ok(self.to_string()))
    }

    /// `.>[s]>[t]` (to the end), `.>[s]>[t]<[p]` (before `p`),
    /// `.>[s]>[t]>[p]` (after `p`).
    fn run_move_of(&mut self, c: &[char]) -> (r: Step)
        ensures
            outcome(r, final(self)@) == run_move(old(self)@, c@),
    {
        match match_move_in(c) {
            Some(Move::Before(a1, b1, a2, b2, a3, b3)) => match number_at(c, a1, b1) {
                Ok(s) => match number_at(c, a2, b2) {
                    Ok(t) => match number_at(c, a3, b3) {
                        Ok(p) => self.checked_move(s, t, p, false),
                        Err(m) => Step::Reply(Err(m)),
                    },
                    Err(m) => Step::Reply(Err(m)),
                },
                Err(m) => Step::Reply(Err(m)),
            },
            Some(Move::After(a1, b1, a2, b2, a3, b3)) => match number_at(c, a1, b1) {
                Ok(s) => match number_at(c, a2, b2) {
                    Ok(t) => match number_at(c, a3, b3) {
                        Ok(p) => self.checked_move(s, t, p, true),
                        Err(m) => Step::Reply(Err(m)),
                    },
                    Err(m) => Step::Reply(Err(m)),
                },
                Err(m) => Step::Reply(Err(m)),
            },
            Some(Move::ToEnd(a1, b1, a2, b2)) => match number_at(c, a1, b1) {
                Ok(s) => match number_at(c, a2, b2) {
                    Ok(t) => {
                        if s >= self.items.len() {
                            return Step::Reply(Err(message_with_number("源索引 ", s, " 超出范围")));
                        }
                        if t >= self.items.len() {
                            return Step::Reply(Err(message_with_number("目标索引 ", t, " 超出范围")));
                        }
                        let ghost old_items = models(self.items@);
                        let v = self.items.remove(s);
                        let ghost vm = v@;
                        let ghost rest = models(self.items@);
                        assert(rest =~= old_items.remove(s as int));
                        let at = if s < t {
                            t - 1
                        } else {
                            t
                        };
                        if at < self.items.len() {
                            let mut slot = ListValue::String(String::new());
                            self.items.set_and_swap(at, &mut slot);
                            match slot {
                                ListValue::Array(mut arr) => {
                                    proof {
                                        lemma_array_model(arr);
                                    }
                                    let ghost am = models(arr@);
                                    arr.push(v);
                                    proof {
                                        lemma_array_model(arr);
                                        assert(models(arr@) =~= am.push(vm));
                                    }
                                    self.items.set(at, ListValue::Array(arr));
                                    assert(models(self.items@) =~= rest.update(
                                        at as int,
                                        Val::Arr(am.push(vm)),
                                    ));
                                    return Step::Reply(Ok(self.to_string()));
                                },
                                other => {
                                    self.items.set(at, other);
                                },
                            }
                        }
                        assert(models(self.items@) =~= rest);
                        Step::Reply(Err(message_with_number("目标 [", t, "] 不是数组")))
                    },
                    Err(m) => Step::Reply(Err(m)),
                },
                Err(m) => Step::Reply(Err(m)),
            },
            None => Step::Reply(Err(String::from_str("无效的移动/插入命令"))),
        }
    }

    fn checked_move(&mut self, s: usize, t: usize, p: usize, after: bool) -> (r: Step)
        ensures
            outcome(r, final(self)@) == crate::semantics::move_checked(
                old(self)@,
                s,
                t,
                move_into(old(self)@, s, t, p as int, after),
            ),
    {
        if s >= self.items.len() {
            return Step::Reply(Err(message_with_number("源索引 ", s, " 超出范围")));
        }
        if t >= self.items.len() {
            return Step::Reply(Err(message_with_number("目标索引 ", t, " 超出范围")));
        }
        self.move_into_of(s, t, p, after)
    }
}

/// Whether `c` starts with `${`, ends with `}` and has a `[` right after
/// the `${`.
fn is_inline_path(c: &[char]) -> (b: bool)
    ensures
        b == (starts_with(c@, "${"@) && ends_with(c@, "}"@) && starts_with(
            c@.subrange(2, c@.len() - 1),
            "["@,
        )),
        b ==> 3 <= c.len(),
{
    proof {
        reveal_strlit("${");
        reveal_strlit("}");
        reveal_strlit("[");
    }
    if has_prefix(c, "${") && has_suffix(c, "}") {
        assert(c@.subrange(0, 2)[1] == c@[1]);
        assert(c@.subrange(c@.len() - 1, c@.len() as int)[0] == c@[c@.len() - 1]);
        let inner = sub_chars(c, 2, c.len() - 1);
        has_prefix(inner.as_slice(), "[")
    } else {
        false
    }
}

impl ListData {
    /// Runs a command that needs no reference resolution.
    fn run_single_of(&mut self, cmd: &[char]) -> (r: Step)
        ensures
            outcome(r, final(self)@) == run_single(old(self)@, cmd@),
            !(r is Exit),
    {
        proof {
            reveal(run_single);
        }
        let c = trimmed(cmd);
        let cs = c.as_slice();
        if is_inline_path(cs) {
            let inner = sub_chars(cs, 2, cs.len() - 1);
            return Step::Reply(self.read_path_of(inner.as_slice()));
        }
        if has_prefix(cs, "[") {
            return Step::Reply(self.read_path_of(cs));
        }
        let has_eq = has_char_in(cs, '=');
        let has_gt = has_char_in(cs, '>');
        let plus = has_prefix(cs, ".+[");
        let plus_gt = has_prefix(cs, ".+>[");
        if plus && !has_eq && !has_gt {
            match match_new_array_in(cs) {
                Some((a, b)) => {
                    return Step::Reply(self.run_new_array_of(cs, a, b));
                },
                None => {},
            }
        }
        if plus && !has_gt {
            return Step::Reply(self.run_append_of(cs));
        }
        if plus_gt && has_eq {
            let pat = str_chars("]>[");
            if !chars_contain(cs, pat.as_slice()) {
                return Step::Reply(self.run_replace_of(cs));
            }
        }
        if plus && has_gt {
            return Step::Reply(self.run_insert_of(cs, false));
        }
        if plus_gt {
            return Step::Reply(self.run_insert_of(cs, true));
        }
        if has_prefix(cs, ".->[") {
            return Step::Reply(self.run_delete_of(cs));
        }
        if has_prefix(cs, "$vars") || is_text(cs, "$v") || is_text(cs, "$variables") {
            return Step::Reply(Ok(self.list_vars_of()));
        }
        if has_prefix(cs, "$clear") {
            self.variables.clear();
            return Step::Reply(Ok(String::from_str("变量已清空")));
        }
        if is_text(cs, ".h") || is_text(cs, ".help") {
            return Step::Reply(Ok(self.get_help()));
        }
        let long = has_prefix(cs, ".setlang=");
        if long || has_prefix(cs, ".sl=") {
            proof {
                reveal_strlit(".setlang=");
                reveal_strlit(".sl=");
            }
            let from: usize = if long {
                9
            } else {
                4
            };
            let tail = sub_chars(cs, from, cs.len());
            assert(tail@ =~= cs@.skip(from as int));
            let lang = trimmed(tail.as_slice());
            self.language = string_of(lang.as_slice());
            return Step::Reply(Ok(concat2("语言已设置为: ", lang.as_slice())));
        }
        if has_prefix(cs, ".?") {
            return Step::Reply(self.run_query_of(cs));
        }
        if has_prefix(cs, ".print>") {
            proof {
                reveal_strlit(".print>");
            }
            let arg = sub_chars(cs, 7, cs.len());
            assert(arg@ =~= cs@.skip(7));
            return Step::Reply(self.run_print_of(arg.as_slice()));
        }
        if has_prefix(cs, ".>[") {
            return self.run_move_of(cs);
        }
        Step::Reply(Err(concat2("未知命令: ", cs)))
    }
}

impl ListData {
    /// Runs the segments of a pipeline `c` in turn.
    fn run_pipeline_of(&mut self, c: &[char]) -> (r: Step)
        ensures
            outcome(r, final(self)@) == run_pipeline(old(self)@, split(c@, '|'), 0, Seq::empty()),
    {
        proof {
            reveal(run_pipeline);
        }
        let segs = split_on(c, '|');
        let ghost sp = split(c@, '|');
        let mut last: Vec<char> = Vec::new();
        let mut i: usize = 0;
        while i < segs.len()
            invariant
                i <= segs@.len(),
                sp == split(c@, '|'),
                segs@.len() == sp.len(),
                forall|j: int| 0 <= j < segs@.len() ==> (#[trigger] segs@[j])@ == sp[j],
                run_pipeline(self@, sp, i as int, last@) == run_pipeline(
                    old(self)@,
                    sp,
                    0,
                    Seq::empty(),
                ),
            decreases segs.len() - i,
        {
            proof {
                reveal(run_pipeline);
            }
            let t = trimmed(segs[i].as_slice());
            let cmd = if i == 0 {
                t
            } else {
                piped_of(t.as_slice(), last.as_slice())
            };
            match self.run_single_of(cmd.as_slice()) {
                Step::Reply(Ok(s)) => {
                    last = str_chars(s.as_str());
                    i = i + 1;
                },
                other => {
                    return other;
                },
            }
        }
        Step::Reply(Ok(string_of(last.as_slice())))
    }

    /// `$name = value`.
    fn run_assignment_of(&mut self, c: &[char]) -> (r: Step)
        ensures
            outcome(r, final(self)@) == run_assignment(old(self)@, c@),
    {
        proof {
            reveal(run_assignment);
            reveal_strlit("[");
            reveal_strlit("\"");
        }
        match find_assignment_in(c) {
            Some((a, b, e)) => {
                let name = sub_chars(c, a, b);
                let es = e.as_slice();
                let value: ListValue;
                if has_prefix(es, "[") {
                    match indices_of(es) {
                        Ok(path) => match self.get(path.as_slice()) {
                            Some(v) => {
                                value = copy_value(v);
                            },
                            None => {
                                return Step::Reply(Err(concat2("索引超出范围: ", es)));
                            },
                        },
                        Err(m) => {
                            return Step::Reply(Err(m));
                        },
                    }
                } else if has_prefix(es, "\"") && has_suffix(es, "\"") {
                    if es.len() == 1 {
                        return Step::Abort;
                    }
                    value = ListValue::String(string_of(sub_chars(es, 1, es.len() - 1).as_slice()));
                } else {
                    let resolved = self.resolve_of(es);
                    value = simple_value_of(resolved.as_slice());
                }
                self.variables.insert(string_of(name.as_slice()), value);
                Step::Reply(Ok(concat3("变量 $", name.as_slice(), " 已设置")))
            },
            None => Step::Reply(Err(String::from_str("无效的变量赋值语法"))),
        }
    }

    /// Runs a command: what it answers and how it changes the document is
    /// `run_command`; `exit`/`exit()` end the program, and the commands on
    /// which the language panics come to `Abort`.
    pub fn run_command(&mut self, command: &str) -> (r: Step)
        ensures
            outcome(r, final(self)@) == run_command(old(self)@, command@),
    {
        let raw = str_chars(command);
        let c = trimmed(raw.as_slice());
        let cs = c.as_slice();
        if cs.len() == 0 {
            return Step::Reply(Ok(self.to_string()));
        }
        if is_text(cs, "exit()") || is_text(cs, "exit") {
            return Step::Exit;
        }
        if is_text(cs, ".h") || is_text(cs, ".help") {
            return Step::Reply(Ok(self.get_help()));
        }
        if has_suffix(cs, "<") && has_prefix(cs, "[") {
            match find_read_mark_in(cs, '<') {
                Some((a, b)) => {
                    return Step::Reply(
                        match number_at(cs, a, b) {
                            Ok(n) => if n < self.items.len() {
                                Ok(
                                    match &self.items[n] {
                                        ListValue::KeyValue(_, v) => value_to_string(v),
                                        other => value_to_string(other),
                                    },
                                )
                            } else {
                                Err(String::from_str("索引超出范围"))
                            },
                            Err(m) => Err(m),
                        },
                    );
                },
                None => {},
            }
        }
        if has_suffix(cs, "/") && has_prefix(cs, "[") {
            match find_read_mark_in(cs, '/') {
                Some((a, b)) => {
                    return Step::Reply(
                        match number_at(cs, a, b) {
                            Ok(n) => if n < self.items.len() {
                                match &self.items[n] {
                                    ListValue::KeyValue(k, _) => Ok(k.clone()),
                                    _ => Err(message_with_number("索引 ", n, " 不是键值对")),
                                }
                            } else {
                                Err(String::from_str("索引超出范围"))
                            },
                            Err(m) => Err(m),
                        },
                    );
                },
                None => {},
            }
        }
        if has_prefix(cs, "$") && has_char_in(cs, '=') {
            return self.run_assignment_of(cs);
        }
        if has_char_in(cs, '|') {
            return self.run_pipeline_of(cs);
        }
        if is_inline_path(cs) {
            let inner = sub_chars(cs, 2, cs.len() - 1);
            return Step::Reply(self.read_path_of(inner.as_slice()));
        }
        if cs.len() > 1 && cs[0] == '$' && scan_word(cs, 1) == cs.len() {
            let name = string_of(&cs[1..cs.len()]);
            proof {
                assert(cs@.drop_first() =~= cs@.subrange(1, cs@.len() as int));
            }
            match self.variables.get(name.as_str()) {
                Some(v) => {
                    return Step::Reply(Ok(value_to_string(v)));
                },
                None => {},
            }
        }
        let resolved = self.resolve_of(cs);
        self.run_single_of(resolved.as_slice())
    }

    /// Runs a command (see [`ListData::run_command`]) that neither ends the
    /// program nor panics, and gives its answer.
    pub fn execute_command(&mut self, command: &str) -> (r: Result<String, String>)
        requires
            !(run_command(old(self)@, command@) is Exit),
            !(run_command(old(self)@, command@) is Abort),
        ensures
            Outcome::Reply(final(self)@, answer(r)) == run_command(old(self)@, command@),
    {
        match self.run_command(command) {
            Step::Reply(r) => r,
            Step::Exit => Err(String::new()),
            Step::Abort => Err(String::new()),
        }
    }
}

} // verus!
