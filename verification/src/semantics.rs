//! What each command does to a document and what it answers, over the
//! document's model.
use vstd::prelude::*;
use crate::data::{
    as_array, assign, lookup, msg_index_out_of_range, msg_not_array, msg_position_out_of_range,
    render_document, value_at, HELP_TEXT,
};
use crate::pattern::{
    bracketed, find_char, lemma_find_char, has_at, has_char, line_end, parse_indices, parse_usize,
    split, starts_with, ends_with,
};
use crate::text::{contains, decimal, is_white, regex_word, trim};
use crate::value::{list_literal, render, simple_value, Val};

verus! {

/// The model of a document: its values, its variables in the order they
/// were first set, and its language.
pub struct DocModel {
    pub items: Seq<Val>,
    pub vars: Seq<(Seq<char>, Val)>,
    pub lang: Seq<char>,
}

/// What running a command comes to: the document after it and the answer
/// (text, or an error message); or the end of the program; or a panic.
pub enum Outcome {
    Reply(DocModel, Result<Seq<char>, Seq<char>>),
    Exit,
    Abort,
}

/// The answer `s`, with the document `d`.
pub open spec fn ok(d: DocModel, s: Seq<char>) -> Outcome {
    Outcome::Reply(d, Ok(s))
}

/// The error `s`, with the document `d`.
pub open spec fn fail(d: DocModel, s: Seq<char>) -> Outcome {
    Outcome::Reply(d, Err(s))
}

/// `d` with the values `items`.
pub open spec fn with_items(d: DocModel, items: Seq<Val>) -> DocModel {
    DocModel { items: items, vars: d.vars, lang: d.lang }
}

/// The reply of a command that changed the values: the new text.
pub open spec fn shown(d: DocModel) -> Outcome {
    ok(d, render_document(d.items))
}

/// `xs` joined by `sep`.
pub open spec fn join(xs: Seq<Seq<char>>, sep: Seq<char>) -> Seq<char>
    decreases xs.len(),
{
    if xs.len() == 0 {
        Seq::empty()
    } else if xs.len() == 1 {
        xs[0]
    } else {
        join(xs.drop_last(), sep) + sep + xs.last()
    }
}

/// The error for a path that leads to no value.
pub open spec fn msg_index() -> Seq<char> {
    "索引超出范围"@
}

// ----- patterns ---------------------------------------------------------
/// The first `[digits]` directly followed by `mark`, at or after `i`: the
/// digits' bounds.
pub open spec fn find_read_mark(c: Seq<char>, i: int, mark: char) -> Option<(int, int)>
    decreases c.len() - i,
{
    if i < 0 || i >= c.len() {
        None
    } else {
        match bracketed(c, i) {
            Some((a, b, q)) => if q < c.len() && c[q] == mark {
                Some((a, b))
            } else {
                find_read_mark(c, i + 1, mark)
            },
            None => find_read_mark(c, i + 1, mark),
        }
    }
}

/// The value part of a value: the value of a pair, or the value itself.
pub open spec fn value_part(v: Val) -> Val {
    match v {
        Val::Kv(_, b) => *b,
        _ => v,
    }
}

/// The error for reading the key of a value that is not a pair.
pub open spec fn msg_not_pair(n: usize) -> Seq<char> {
    "索引 "@ + decimal(n as nat) + " 不是键值对"@
}

/// `.+[digits]` and nothing more: the digits' bounds.
pub open spec fn match_new_array(c: Seq<char>) -> Option<(int, int)> {
    if starts_with(c, ".+"@) {
        match bracketed(c, 2) {
            Some((a, b, q)) => if q == c.len() {
                Some((a, b))
            } else {
                None
            },
            None => None,
        }
    } else {
        None
    }
}

/// The text that `=(.+)` takes after an `=` at `q - 1`: the rest of the
/// line, which must not be empty.
pub open spec fn rest_of_line(c: Seq<char>, q: int) -> Option<(int, int)> {
    if 0 <= q < c.len() && c[q] != '\n' {
        Some((q, line_end(c, q)))
    } else {
        None
    }
}

/// The first `.+[n]=value` at or after `i`: the bounds of `n` and of the
/// value.
pub open spec fn find_append(c: Seq<char>, i: int) -> Option<(int, int, int, int)>
    decreases c.len() - i,
{
    if i < 0 || i >= c.len() {
        None
    } else {
        let here = if has_at(c, i, ".+"@) {
            match bracketed(c, i + 2) {
                Some((a, b, q)) => if q < c.len() && c[q] == '=' {
                    match rest_of_line(c, q + 1) {
                        Some((x, y)) => Some((a, b, x, y)),
                        None => None,
                    }
                } else {
                    None
                },
                None => None,
            }
        } else {
            None
        };
        if here is Some {
            here
        } else {
            find_append(c, i + 1)
        }
    }
}

/// The first `.+>[n]=[inside]` at or after `i`: the bounds of `n` and of
/// the inside.
pub open spec fn find_replace(c: Seq<char>, i: int) -> Option<(int, int, int, int)>
    decreases c.len() - i,
{
    if i < 0 || i >= c.len() {
        None
    } else {
        let here = if has_at(c, i, ".+>"@) {
            match bracketed(c, i + 3) {
                Some((a, b, q)) => if has_at(c, q, "=["@) {
                    match find_char(c, q + 2, ']') {
                        Some(k) => Some((a, b, q + 2, k)),
                        None => None,
                    }
                } else {
                    None
                },
                None => None,
            }
        } else {
            None
        };
        if here is Some {
            here
        } else {
            find_replace(c, i + 1)
        }
    }
}

/// The first `.+[n]>[m]=value` (with `.+>` in place of `.+` if `gt`) at or
/// after `i`: the bounds of `n`, of `m` and of the value.
pub open spec fn find_insert(c: Seq<char>, i: int, gt: bool) -> Option<
    (int, int, int, int, int, int),
>
    decreases c.len() - i,
{
    if i < 0 || i >= c.len() {
        None
    } else {
        let lead: Seq<char> = if gt {
            ".+>"@
        } else {
            ".+"@
        };
        let here = if has_at(c, i, lead) {
            match bracketed(c, i + lead.len()) {
                Some((a, b, q)) => if q < c.len() && c[q] == '>' {
                    match bracketed(c, q + 1) {
                        Some((a2, b2, q2)) => if q2 < c.len() && c[q2] == '=' {
                            match rest_of_line(c, q2 + 1) {
                                Some((x, y)) => Some((a, b, a2, b2, x, y)),
                                None => None,
                            }
                        } else {
                            None
                        },
                        None => None,
                    }
                } else {
                    None
                },
                None => None,
            }
        } else {
            None
        };
        if here is Some {
            here
        } else {
            find_insert(c, i + 1, gt)
        }
    }
}

/// The first `.->[n]` at or after `i`: the bounds of `n`.
pub open spec fn find_delete(c: Seq<char>, i: int) -> Option<(int, int)>
    decreases c.len() - i,
{
    if i < 0 || i >= c.len() {
        None
    } else {
        let here = if has_at(c, i, ".->"@) {
            match bracketed(c, i + 3) {
                Some((a, b, q)) => Some((a, b)),
                None => None,
            }
        } else {
            None
        };
        if here is Some {
            here
        } else {
            find_delete(c, i + 1)
        }
    }
}

/// A query `.?keyword`, optionally followed by `>[n]` and then by `-[m]`,
/// first found at or after `i`: the keyword's bounds and the bounds of `n`
/// and `m`.
pub open spec fn find_query(c: Seq<char>, i: int) -> Option<
    (int, int, Option<(int, int)>, Option<(int, int)>),
>
    decreases c.len() - i,
{
    if i < 0 || i >= c.len() {
        None
    } else {
        let k = match find_char(c, i + 2, '>') {
            Some(k) => k,
            None => c.len() as int,
        };
        if has_at(c, i, ".?"@) && k > i + 2 {
            if k < c.len() {
                match bracketed(c, k + 1) {
                    Some((a, b, q)) => if q < c.len() && c[q] == '-' {
                        match bracketed(c, q + 1) {
                            Some((a2, b2, _q2)) => Some((i + 2, k, Some((a, b)), Some((a2, b2)))),
                            None => Some((i + 2, k, Some((a, b)), None)),
                        }
                    } else {
                        Some((i + 2, k, Some((a, b)), None))
                    },
                    None => Some((i + 2, k, None, None)),
                }
            } else {
                Some((i + 2, k, None, None))
            }
        } else {
            find_query(c, i + 1)
        }
    }
}

/// `[n]-[m]` and nothing more: the bounds of `n` and `m`.
pub open spec fn match_print_range(a: Seq<char>) -> Option<(int, int, int, int)> {
    match bracketed(a, 0) {
        Some((a1, b1, q)) => if q < a.len() && a[q] == '-' {
            match bracketed(a, q + 1) {
                Some((a2, b2, q2)) => if q2 == a.len() {
                    Some((a1, b1, a2, b2))
                } else {
                    None
                },
                None => None,
            }
        } else {
            None
        },
        None => None,
    }
}

/// `[n]` and nothing more: the bounds of `n`.
pub open spec fn match_single_index(a: Seq<char>) -> Option<(int, int)> {
    match bracketed(a, 0) {
        Some((a1, b1, q)) => if q == a.len() {
            Some((a1, b1))
        } else {
            None
        },
        None => None,
    }
}

/// The shapes of a move command.
pub enum MoveShape {
    /// `.>[s]>[d]<[p]`
    Before(int, int, int, int, int, int),
    /// `.>[s]>[d]>[p]`
    After(int, int, int, int, int, int),
    /// `.>[s]>[d]`
    ToEnd(int, int, int, int),
}

/// The shape of a move command, if it has one.
pub open spec fn match_move(c: Seq<char>) -> Option<MoveShape> {
    if starts_with(c, ".>"@) {
        match bracketed(c, 2) {
            Some((a1, b1, q1)) => if q1 < c.len() && c[q1] == '>' {
                match bracketed(c, q1 + 1) {
                    Some((a2, b2, q2)) => if q2 == c.len() {
                        Some(MoveShape::ToEnd(a1, b1, a2, b2))
                    } else if c[q2] == '<' || c[q2] == '>' {
                        match bracketed(c, q2 + 1) {
                            Some((a3, b3, q3)) => if q3 == c.len() {
                                if c[q2] == '<' {
                                    Some(MoveShape::Before(a1, b1, a2, b2, a3, b3))
                                } else {
                                    Some(MoveShape::After(a1, b1, a2, b2, a3, b3))
                                }
                            } else {
                                None
                            },
                            None => None,
                        }
                    } else {
                        None
                    },
                    None => None,
                }
            } else {
                None
            },
            None => None,
        }
    } else {
        None
    }
}

/// A character of a variable name: the regex class `\w`.
pub open spec fn word_char(c: char) -> bool {
    regex_word(c)
}

/// The end of the run of name characters from `p`.
pub open spec fn word_end(c: Seq<char>, p: int) -> int
    decreases c.len() - p,
{
    if 0 <= p < c.len() && word_char(c[p]) {
        word_end(c, p + 1)
    } else {
        p
    }
}

/// A run of word characters ends at or after `p`, and within the text.
pub proof fn lemma_word_end(c: Seq<char>, p: int)
    ensures
        p <= word_end(c, p),
        0 <= p <= c.len() ==> word_end(c, p) <= c.len(),
    decreases c.len() - p,
{
    if 0 <= p < c.len() && word_char(c[p]) {
        lemma_word_end(c, p + 1);
    }
}

/// The end of the run of white space from `p`.
pub open spec fn space_end(c: Seq<char>, p: int) -> int
    decreases c.len() - p,
{
    if 0 <= p < c.len() && is_white(c[p]) {
        space_end(c, p + 1)
    } else {
        p
    }
}

/// The last position in `(lo, c.len())` whose character is not `\n`.
pub open spec fn last_on_line(c: Seq<char>, lo: int, p: int) -> Option<int>
    decreases p - lo,
{
    if p <= lo + 1 {
        None
    } else if c[p - 1] != '\n' {
        Some(p - 1)
    } else {
        last_on_line(c, lo, p - 1)
    }
}

/// The value text of `$name = value` whose `=` is at `j`: the text after the
/// `=` and the white space after it, to the end of its line; when only white
/// space follows, the last character not a line break, if any.
pub open spec fn assigned_text(c: Seq<char>, j: int) -> Option<Seq<char>> {
    let f = space_end(c, j + 1);
    if f < c.len() {
        Some(c.subrange(f, line_end(c, f)))
    } else {
        match last_on_line(c, j, c.len() as int) {
            Some(g) => Some(seq![c[g]]),
            None => None,
        }
    }
}

/// The first `$name = value` at or after `i`: the name and the trimmed
/// value text.
pub open spec fn find_assignment(c: Seq<char>, i: int) -> Option<(Seq<char>, Seq<char>)>
    decreases c.len() - i,
{
    if i < 0 || i >= c.len() {
        None
    } else {
        let w = word_end(c, i + 1);
        let j = space_end(c, w);
        let here = if c[i] == '$' && w > i + 1 && j < c.len() && c[j] == '=' {
            match assigned_text(c, j) {
                Some(t) => Some((c.subrange(i + 1, w), trim(t))),
                None => None,
            }
        } else {
            None
        };
        if here is Some {
            here
        } else {
            find_assignment(c, i + 1)
        }
    }
}

// ----- references -------------------------------------------------------
/// What `${expr}` stands for: the value at the path `expr`, if it is one,
/// else `expr` itself.
pub open spec fn inline_value(d: DocModel, expr: Seq<char>) -> Seq<char> {
    if starts_with(expr, "["@) {
        match parse_indices(expr) {
            Ok(path) => match value_at(d.items, path) {
                Some(v) => render(v),
                None => expr,
            },
            Err(_) => expr,
        }
    } else {
        expr
    }
}

/// `c[i..]` with each `${expr}` replaced by what it stands for.
pub open spec fn expand_inline(d: DocModel, c: Seq<char>, i: int) -> Seq<char>
    decreases c.len() - i,
{
    if i < 0 || i >= c.len() {
        Seq::empty()
    } else if has_at(c, i, "${"@) && find_char(c, i + 2, '}') is Some && find_char(
        c,
        i + 2,
        '}',
    )->0 > i + 2 {
        let k = find_char(c, i + 2, '}')->0;
        proof {
            lemma_find_char(c, i + 2, '}');
        }
        inline_value(d, c.subrange(i + 2, k)) + expand_inline(d, c, k + 1)
    } else {
        seq![c[i]] + expand_inline(d, c, i + 1)
    }
}

/// `c[i..]` with each `$name` of a set variable replaced by its value's
/// text.
pub open spec fn expand_vars(d: DocModel, c: Seq<char>, i: int) -> Seq<char>
    decreases c.len() - i,
{
    if i < 0 || i >= c.len() {
        Seq::empty()
    } else if c[i] == '$' && word_end(c, i + 1) > i + 1 {
        let w = word_end(c, i + 1);
        proof {
            lemma_word_end(c, i + 1);
        }
        let name = c.subrange(i + 1, w);
        (match lookup(d.vars, name) {
            Some(v) => render(v),
            None => seq!['$'] + name,
        }) + expand_vars(d, c, w)
    } else {
        seq![c[i]] + expand_vars(d, c, i + 1)
    }
}

/// A command that is `$name` and nothing more.
pub open spec fn var_reference(c: Seq<char>) -> bool {
    c.len() > 1 && c[0] == '$' && word_end(c, 1) == c.len()
}

/// A command with its references resolved: `${...}` first, then `$name`.
pub open spec fn resolve(d: DocModel, c: Seq<char>) -> Seq<char> {
    let e = expand_inline(d, c, 0);
    expand_vars(d, e, 0)
}

// ----- document changes -------------------------------------------------
/// The array at index `i`, if the value there is one.
pub open spec fn array_at(items: Seq<Val>, i: int) -> Option<Seq<Val>> {
    if 0 <= i < items.len() {
        as_array(items[i])
    } else {
        None
    }
}

/// The values after `.+[n]`: extended with empty arrays to reach `n`, and
/// `n` an empty array.
pub open spec fn with_new_array(items: Seq<Val>, n: usize) -> Seq<Val> {
    let len = if n < items.len() {
        items.len() as int
    } else {
        n + 1
    };
    Seq::new(
        len as nat,
        |i: int|
            if i < items.len() && i != n {
                items[i]
            } else {
                Val::Arr(Seq::empty())
            },
    )
}

/// Appending `v` to the array at `n`.
pub open spec fn do_append(d: DocModel, n: usize, v: Val) -> Outcome {
    match array_at(d.items, n as int) {
        Some(a) => shown(with_items(d, d.items.update(n as int, Val::Arr(a.push(v))))),
        None => fail(d, msg_not_array(n)),
    }
}

/// Inserting `v` at position `p` of the array at `n`.
pub open spec fn do_insert(d: DocModel, n: usize, p: usize, v: Val) -> Outcome {
    match array_at(d.items, n as int) {
        Some(a) => if p <= a.len() {
            shown(with_items(d, d.items.update(n as int, Val::Arr(a.insert(p as int, v)))))
        } else {
            fail(d, msg_position_out_of_range(p))
        },
        None => fail(d, msg_not_array(n)),
    }
}

/// Replacing the value at `n` by `v`.
pub open spec fn do_replace(d: DocModel, n: usize, v: Val) -> Outcome {
    if n < d.items.len() {
        shown(with_items(d, d.items.update(n as int, v)))
    } else {
        fail(d, msg_index_out_of_range(n))
    }
}

/// Deleting the value at `n`.
pub open spec fn do_delete(d: DocModel, n: usize) -> Outcome {
    if n < d.items.len() {
        shown(with_items(d, d.items.remove(n as int)))
    } else {
        fail(d, msg_index_out_of_range(n))
    }
}

/// The reply to reading the value at a path.
pub open spec fn read_path(d: DocModel, path: Seq<char>) -> Outcome {
    match parse_indices(path) {
        Ok(idx) => match value_at(d.items, idx) {
            Some(v) => ok(d, render(v)),
            None => fail(d, msg_index()),
        },
        Err(m) => fail(d, m),
    }
}

/// The text of the value of the number at `c[a..b]`, or its error.
pub open spec fn number(c: Seq<char>, a: int, b: int) -> Result<usize, Seq<char>> {
    parse_usize(c.subrange(a, b))
}

/// `.+[n]=value`: a `[...]` value is an array literal, anything else a
/// command value.
pub open spec fn run_append(d: DocModel, c: Seq<char>) -> Outcome {
    match find_append(c, 0) {
        Some((a, b, x, y)) => match number(c, a, b) {
            Ok(n) => {
                let t = c.subrange(x, y);
                let v = if starts_with(t, "["@) && ends_with(t, "]"@) {
                    list_literal(t.subrange(1, t.len() - 1))
                } else {
                    simple_value(t)
                };
                do_append(d, n, v)
            },
            Err(m) => fail(d, m),
        },
        None => fail(d, "无效的追加命令"@),
    }
}

/// `.+>[n]=[...]`.
pub open spec fn run_replace(d: DocModel, c: Seq<char>) -> Outcome {
    match find_replace(c, 0) {
        Some((a, b, x, y)) => match number(c, a, b) {
            Ok(n) => do_replace(d, n, list_literal(c.subrange(x, y))),
            Err(m) => fail(d, m),
        },
        None => fail(d, "无效的替换命令"@),
    }
}

/// `.+[n]>[m]=value`, or with `gt` the form `.+>[n]>[m]=value`.
pub open spec fn run_insert(d: DocModel, c: Seq<char>, gt: bool) -> Outcome {
    match find_insert(c, 0, gt) {
        Some((a, b, a2, b2, x, y)) => match number(c, a, b) {
            Ok(n) => match number(c, a2, b2) {
                Ok(p) => do_insert(d, n, p, simple_value(c.subrange(x, y))),
                Err(m) => fail(d, m),
            },
            Err(m) => fail(d, m),
        },
        None => fail(d, "无效的插入命令"@),
    }
}

/// `.->[n]`.
pub open spec fn run_delete(d: DocModel, c: Seq<char>) -> Outcome {
    match find_delete(c, 0) {
        Some((a, b)) => match number(c, a, b) {
            Ok(n) => do_delete(d, n),
            Err(m) => fail(d, m),
        },
        None => fail(d, "无效的删除命令"@),
    }
}

/// `.+[n]`, the digits of `n` being `c[r.0..r.1]`.
pub open spec fn run_new_array(d: DocModel, r: (int, int), c: Seq<char>) -> Outcome {
    match number(c, r.0, r.1) {
        Ok(n) => shown(with_items(d, with_new_array(d.items, n))),
        Err(m) => fail(d, m),
    }
}

/// The lines `name = value` of the variables.
pub open spec fn var_lines(vars: Seq<(Seq<char>, Val)>) -> Seq<Seq<char>> {
    Seq::new(vars.len(), |i: int| vars[i].0 + " = "@ + render(vars[i].1))
}

/// `$vars`: one line per variable.
pub open spec fn list_vars(d: DocModel) -> Outcome {
    if d.vars.len() == 0 {
        ok(d, "(无变量)"@)
    } else {
        ok(d, join(var_lines(d.vars), seq!['\n']))
    }
}

// ----- queries ----------------------------------------------------------
/// The first text that a search for `kw` finds in `v`: a string that
/// contains it, or a pair whose key contains it (as `key: value`), looking
/// into arrays element by element and into pairs' values.
pub open spec fn search(v: Val, kw: Seq<char>) -> Option<Seq<char>>
    decreases v,
{
    match v {
        Val::Str(s) => if contains(s, kw) {
            Some(s)
        } else {
            None
        },
        Val::Arr(a) => search_in(a, kw),
        Val::Kv(k, b) => if contains(k, kw) {
            Some(k + ": "@ + render(*b))
        } else {
            search(*b, kw)
        },
    }
}

/// The first text that a search finds among `a`.
pub open spec fn search_in(a: Seq<Val>, kw: Seq<char>) -> Option<Seq<char>>
    decreases a,
{
    if a.len() == 0 {
        None
    } else {
        match search(a[0], kw) {
            Some(t) => Some(t),
            None => search_in(a.drop_first(), kw),
        }
    }
}

/// A result line `[i]: text`.
pub open spec fn hit_line(i: nat, t: Seq<char>) -> Seq<char> {
    seq!['['] + decimal(i) + "]: "@ + t
}

/// The result lines of a search among the values `lo..=hi` that exist.
pub open spec fn hits(items: Seq<Val>, kw: Seq<char>, lo: int, hi: int) -> Seq<Seq<char>>
    decreases hi - lo + 1,
{
    if hi < lo {
        Seq::empty()
    } else {
        let rest = hits(items, kw, lo, hi - 1);
        if 0 <= hi < items.len() && search(items[hi], kw) is Some {
            rest.push(hit_line(hi as nat, search(items[hi], kw)->0))
        } else {
            rest
        }
    }
}

/// A number of a query, if it reads as a `usize`.
pub open spec fn opt_number(c: Seq<char>, r: Option<(int, int)>) -> Option<usize> {
    match r {
        Some((a, b)) => match number(c, a, b) {
            Ok(n) => Some(n),
            Err(_) => None,
        },
        None => None,
    }
}

/// `.?keyword`, optionally with `>[n]` or `>[n]-[m]`.
pub open spec fn run_query(d: DocModel, c: Seq<char>) -> Outcome {
    match find_query(c, 0) {
        Some((ks, ke, r1, r2)) => {
            let kw = c.subrange(ks, ke);
            let lines = match (opt_number(c, r1), opt_number(c, r2)) {
                (Some(s), Some(e)) => hits(d.items, kw, s as int, e as int),
                (Some(s), None) => hits(d.items, kw, s as int, s as int),
                _ => hits(d.items, kw, 0, d.items.len() - 1),
            };
            if lines.len() == 0 {
                ok(d, "未找到关键词: "@ + kw)
            } else {
                ok(d, join(lines, seq!['\n']))
            }
        },
        None => fail(d, "无效的查询命令"@),
    }
}

/// The lines `[i]: value` of the values `lo..=hi` that exist.
pub open spec fn shown_lines(items: Seq<Val>, lo: int, hi: int) -> Seq<Seq<char>>
    decreases hi - lo + 1,
{
    if hi < lo {
        Seq::empty()
    } else {
        let rest = shown_lines(items, lo, hi - 1);
        if 0 <= hi < items.len() {
            rest.push(hit_line(hi as nat, render(items[hi])))
        } else {
            rest
        }
    }
}

/// `.print>` followed by `a`.
pub open spec fn run_print(d: DocModel, a: Seq<char>) -> Outcome {
    match match_print_range(a) {
        Some((a1, b1, a2, b2)) => match number(a, a1, b1) {
            Ok(s) => match number(a, a2, b2) {
                Ok(e) => ok(d, join(shown_lines(d.items, s as int, e as int), seq!['\n'])),
                Err(m) => fail(d, m),
            },
            Err(m) => fail(d, m),
        },
        None => if starts_with(a, "$"@) {
            let name = a.drop_first();
            match lookup(d.vars, name) {
                Some(v) => ok(d, render(v)),
                None => fail(d, "变量不存在: "@ + name),
            }
        } else if starts_with(a, "["@) && ends_with(a, "]"@) {
            match match_single_index(a) {
                Some((a1, b1)) => match number(a, a1, b1) {
                    Ok(n) => if n < d.items.len() {
                        ok(d, render(d.items[n as int]))
                    } else {
                        fail(d, msg_index())
                    },
                    Err(m) => fail(d, m),
                },
                None => read_path(d, a),
            }
        } else {
            ok(d, a)
        },
    }
}

// ----- moves ------------------------------------------------------------
/// The error for a move whose source index is past the end.
pub open spec fn msg_source(n: usize) -> Seq<char> {
    "源索引 "@ + decimal(n as nat) + " 超出范围"@
}

/// The error for a move whose target index is past the end.
pub open spec fn msg_target(n: usize) -> Seq<char> {
    "目标索引 "@ + decimal(n as nat) + " 超出范围"@
}

/// The error for a move whose target is not an array.
pub open spec fn msg_target_not_array(n: usize) -> Seq<char> {
    "目标 ["@ + decimal(n as nat) + "] 不是数组"@
}

/// The index, after value `s` is taken out, of what was value `t`.
pub open spec fn shifted_target(s: usize, t: usize) -> int {
    if s < t {
        t - 1
    } else {
        t as int
    }
}

/// Moves value `s` into the array that was value `t` (before the source was
/// taken out) at position `p`: in front of element `p` (at the end if there
/// is none), or with `after` just behind it. If that value is no array, the
/// source goes back in as value `t` of what is left.
pub open spec fn move_into(d: DocModel, s: usize, t: usize, p: int, after: bool) -> Outcome {
    let v = d.items[s as int];
    let rest = d.items.remove(s as int);
    let tt = shifted_target(s, t);
    match array_at(rest, tt) {
        Some(a) => if after && p >= a.len() {
            Outcome::Abort
        } else {
            let at = if after {
                p + 1
            } else if p < a.len() {
                p
            } else {
                a.len() as int
            };
            shown(with_items(d, rest.update(tt, Val::Arr(a.insert(at, v)))))
        },
        None => shown(with_items(d, rest.insert(t as int, v))),
    }
}

/// Checks the source and target of a move.
pub open spec fn move_checked(d: DocModel, s: usize, t: usize, then: Outcome) -> Outcome {
    if s >= d.items.len() {
        fail(d, msg_source(s))
    } else if t >= d.items.len() {
        fail(d, msg_target(t))
    } else {
        then
    }
}

/// `.>[src]>[dest]`, with an optional `<[pos]` or `>[pos]`.
pub open spec fn run_move(d: DocModel, c: Seq<char>) -> Outcome {
    match match_move(c) {
        Some(MoveShape::Before(a1, b1, a2, b2, a3, b3)) => match number(c, a1, b1) {
            Ok(s) => match number(c, a2, b2) {
                Ok(t) => match number(c, a3, b3) {
                    Ok(p) => move_checked(d, s, t, move_into(d, s, t, p as int, false)),
                    Err(m) => fail(d, m),
                },
                Err(m) => fail(d, m),
            },
            Err(m) => fail(d, m),
        },
        Some(MoveShape::After(a1, b1, a2, b2, a3, b3)) => match number(c, a1, b1) {
            Ok(s) => match number(c, a2, b2) {
                Ok(t) => match number(c, a3, b3) {
                    Ok(p) => move_checked(d, s, t, move_into(d, s, t, p as int, true)),
                    Err(m) => fail(d, m),
                },
                Err(m) => fail(d, m),
            },
            Err(m) => fail(d, m),
        },
        Some(MoveShape::ToEnd(a1, b1, a2, b2)) => match number(c, a1, b1) {
            Ok(s) => match number(c, a2, b2) {
                Ok(t) => move_checked(d, s, t, {
                    let v = d.items[s as int];
                    let rest = d.items.remove(s as int);
                    let at = shifted_target(s, t);
                    match array_at(rest, at) {
                        Some(a) => shown(with_items(d, rest.update(at, Val::Arr(a.push(v))))),
                        None => fail(with_items(d, rest), msg_target_not_array(t)),
                    }
                }),
                Err(m) => fail(d, m),
            },
            Err(m) => fail(d, m),
        },
        None => fail(d, "无效的移动/插入命令"@),
    }
}

// ----- commands ---------------------------------------------------------
/// A command that runs in a pipeline or after references are resolved.
#[verifier::opaque]
pub open spec fn run_single(d: DocModel, cmd: Seq<char>) -> Outcome {
    let c = trim(cmd);
    if starts_with(c, "${"@) && ends_with(c, "}"@) && starts_with(
        c.subrange(2, c.len() - 1),
        "["@,
    ) {
        read_path(d, c.subrange(2, c.len() - 1))
    } else if starts_with(c, "["@) {
        read_path(d, c)
    } else if starts_with(c, ".+["@) && !has_char(c, '=') && !has_char(c, '>') && match_new_array(
        c,
    ) is Some {
        run_new_array(d, match_new_array(c)->0, c)
    } else if starts_with(c, ".+["@) && !has_char(c, '>') {
        run_append(d, c)
    } else if starts_with(c, ".+>["@) && has_char(c, '=') && !contains(c, "]>["@) {
        run_replace(d, c)
    } else if starts_with(c, ".+["@) && has_char(c, '>') {
        run_insert(d, c, false)
    } else if starts_with(c, ".+>["@) {
        run_insert(d, c, true)
    } else if starts_with(c, ".->["@) {
        run_delete(d, c)
    } else if starts_with(c, "$vars"@) || c == "$v"@ || c == "$variables"@ {
        list_vars(d)
    } else if starts_with(c, "$clear"@) {
        ok(DocModel { items: d.items, vars: Seq::empty(), lang: d.lang }, "变量已清空"@)
    } else if c == ".h"@ || c == ".help"@ {
        ok(d, HELP_TEXT@)
    } else if starts_with(c, ".setlang="@) || starts_with(c, ".sl="@) {
        let lang = if starts_with(c, ".setlang="@) {
            trim(c.skip(9))
        } else {
            trim(c.skip(4))
        };
        ok(DocModel { items: d.items, vars: d.vars, lang: lang }, "语言已设置为: "@ + lang)
    } else if starts_with(c, ".?"@) {
        run_query(d, c)
    } else if starts_with(c, ".print>"@) {
        run_print(d, c.skip(7))
    } else if starts_with(c, ".>["@) {
        run_move(d, c)
    } else {
        fail(d, "未知命令: "@ + c)
    }
}

/// The segment `t` of a pipeline after the first, with the previous answer
/// put in place of its first `=`.
pub open spec fn piped(t: Seq<char>, last: Seq<char>) -> Seq<char> {
    match find_char(t, 0, '=') {
        Some(k) => t.take(k) + last + t.skip(k + 1),
        None => t,
    }
}

/// Runs the segments `segs[i..]` of a pipeline, `last` being the answer so
/// far.
#[verifier::opaque]
pub open spec fn run_pipeline(d: DocModel, segs: Seq<Seq<char>>, i: int, last: Seq<char>) -> Outcome
    decreases segs.len() - i,
{
    if i < 0 || i >= segs.len() {
        ok(d, last)
    } else {
        let t = trim(segs[i]);
        let r = if i == 0 {
            run_single(d, t)
        } else {
            run_single(d, piped(t, last))
        };
        match r {
            Outcome::Reply(d2, Ok(s)) => run_pipeline(d2, segs, i + 1, s),
            other => other,
        }
    }
}

/// The value that `$name = e` sets: the value at the path `e`; the inside
/// of a quoted `e`; or else `e`, with its references resolved, read as a
/// command value. When there is none, what the command comes to instead.
pub open spec fn assigned_value(d: DocModel, e: Seq<char>) -> Result<Val, Outcome> {
    if starts_with(e, "["@) {
        match parse_indices(e) {
            Ok(path) => match value_at(d.items, path) {
                Some(v) => Ok(v),
                None => Err(fail(d, "索引超出范围: "@ + e)),
            },
            Err(m) => Err(fail(d, m)),
        }
    } else if starts_with(e, "\""@) && ends_with(e, "\""@) {
        if e.len() == 1 {
            Err(Outcome::Abort)
        } else {
            Ok(Val::Str(e.subrange(1, e.len() - 1)))
        }
    } else {
        Ok(simple_value(resolve(d, e)))
    }
}

/// `$name = value`.
#[verifier::opaque]
pub open spec fn run_assignment(d: DocModel, c: Seq<char>) -> Outcome {
    match find_assignment(c, 0) {
        Some((name, e)) => match assigned_value(d, e) {
            Ok(v) => ok(
                DocModel { items: d.items, vars: assign(d.vars, name, v), lang: d.lang },
                "变量 $"@ + name + " 已设置"@,
            ),
            Err(o) => o,
        },
        None => fail(d, "无效的变量赋值语法"@),
    }
}

/// What a command does.
pub open spec fn run_command(d: DocModel, cmd: Seq<char>) -> Outcome {
    let c = trim(cmd);
    if c.len() == 0 {
        shown(d)
    } else if c == "exit()"@ || c == "exit"@ {
        Outcome::Exit
    } else if c == ".h"@ || c == ".help"@ {
        ok(d, HELP_TEXT@)
    } else if ends_with(c, "<"@) && starts_with(c, "["@) && find_read_mark(c, 0, '<') is Some {
        let (a, b) = find_read_mark(c, 0, '<')->0;
        match number(c, a, b) {
            Ok(n) => if n < d.items.len() {
                ok(d, render(value_part(d.items[n as int])))
            } else {
                fail(d, msg_index())
            },
            Err(m) => fail(d, m),
        }
    } else if ends_with(c, "/"@) && starts_with(c, "["@) && find_read_mark(c, 0, '/') is Some {
        let (a, b) = find_read_mark(c, 0, '/')->0;
        match number(c, a, b) {
            Ok(n) => if n < d.items.len() {
                match d.items[n as int] {
                    Val::Kv(k, _) => ok(d, k),
                    _ => fail(d, msg_not_pair(n)),
                }
            } else {
                fail(d, msg_index())
            },
            Err(m) => fail(d, m),
        }
    } else if starts_with(c, "$"@) && has_char(c, '=') {
        run_assignment(d, c)
    } else if has_char(c, '|') {
        run_pipeline(d, split(c, '|'), 0, Seq::empty())
    } else if starts_with(c, "${"@) && ends_with(c, "}"@) && starts_with(
        c.subrange(2, c.len() - 1),
        "["@,
    ) {
        read_path(d, c.subrange(2, c.len() - 1))
    } else if var_reference(c) && lookup(d.vars, c.drop_first()) is Some {
        ok(d, render(lookup(d.vars, c.drop_first())->0))
    } else {
        run_single(d, resolve(d, c))
    }
}

} // verus!
