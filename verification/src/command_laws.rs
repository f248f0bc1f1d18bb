//! Properties of single commands and of the value syntax, each over all
//! inputs: which values a ranged search or print answers for, what `.+[n]`
//! leaves at and around `n`, how a comma-separated list falls into pieces,
//! and how far a number with a decimal point reaches.
use vstd::prelude::*;
use crate::parser::{number_end, parse_value_at};
use crate::pattern::{lemma_split_nonempty, split};
use crate::semantics::{
    find_query, hits, join, match_print_range, number, ok, run_new_array, run_print, run_query,
    search, shown_lines, DocModel, Outcome,
};
use crate::text::{decimal, is_ascii_digit, trim};
use crate::value::{list_literal, render, Val};

verus! {

/// The line `[i]: t` of a search or print answer.
pub open spec fn answer_line(i: int, t: Seq<char>) -> Seq<char> {
    seq!['['] + decimal(i as nat) + "]: "@ + t
}

/// How many times `c` occurs in `s`.
pub open spec fn occurrences(s: Seq<char>, c: char) -> nat
    decreases s.len(),
{
    if s.len() == 0 {
        0
    } else {
        occurrences(s.drop_last(), c) + if s.last() == c {
            1nat
        } else {
            0nat
        }
    }
}

/// The indices among `lo..=hi` of the values that a search for `kw` finds
/// something in, in increasing order.
spec fn found_at(items: Seq<Val>, kw: Seq<char>, lo: int, hi: int) -> Seq<int>
    decreases hi - lo + 1,
{
    if hi < lo {
        Seq::empty()
    } else {
        let rest = found_at(items, kw, lo, hi - 1);
        if 0 <= hi < items.len() && search(items[hi], kw) is Some {
            rest.push(hi)
        } else {
            rest
        }
    }
}

proof fn lemma_hits(items: Seq<Val>, kw: Seq<char>, lo: int, hi: int)
    requires
        0 <= lo,
    ensures
        hits(items, kw, lo, hi).len() == found_at(items, kw, lo, hi).len(),
        forall|j: int|
            0 <= j < found_at(items, kw, lo, hi).len() ==> {
                let i = #[trigger] found_at(items, kw, lo, hi)[j];
                &&& lo <= i <= hi
                &&& i < items.len()
                &&& search(items[i], kw) is Some
                &&& hits(items, kw, lo, hi)[j] == answer_line(i, search(items[i], kw)->0)
            },
        forall|j: int, k: int|
            0 <= j < k < found_at(items, kw, lo, hi).len() ==> found_at(items, kw, lo, hi)[j]
                < found_at(items, kw, lo, hi)[k],
        forall|i: int|
            lo <= i <= hi && i < items.len() && (#[trigger] search(items[i], kw)) is Some
                ==> found_at(items, kw, lo, hi).contains(i),
    decreases hi - lo + 1,
{
    if hi >= lo {
        lemma_hits(items, kw, lo, hi - 1);
        let rest = found_at(items, kw, lo, hi - 1);
        if 0 <= hi < items.len() && search(items[hi], kw) is Some {
            assert(found_at(items, kw, lo, hi) == rest.push(hi));
            assert forall|i: int|
                lo <= i <= hi && i < items.len() && (#[trigger] search(items[i], kw)) is Some
                    implies found_at(items, kw, lo, hi).contains(i) by {
                if i == hi {
                    assert(rest.push(hi)[rest.len() as int] == hi);
                } else {
                    let w = choose|w: int| 0 <= w < rest.len() && rest[w] == i;
                    assert(rest.push(hi)[w] == i);
                }
            }
        }
    }
}

/// The answer of a search for `kw` that found something in the values at
/// the indices `found`: a line `[i]: text` for each, `text` being what the
/// search finds in value `i`; or, when it found nothing, that the keyword
/// was not found.
pub open spec fn query_answer(d: DocModel, kw: Seq<char>, found: Seq<int>) -> Outcome {
    if found.len() == 0 {
        ok(d, "未找到关键词: "@ + kw)
    } else {
        ok(
            d,
            join(
                Seq::new(
                    found.len(),
                    |j: int| answer_line(found[j], search(d.items[found[j]], kw)->0),
                ),
                seq!['\n'],
            ),
        )
    }
}

/// `found` lists, in increasing order, exactly the indices from `lo`
/// through `hi` of the values that mention `kw`.
pub open spec fn finds_exactly(items: Seq<Val>, kw: Seq<char>, lo: int, hi: int, found: Seq<int>) -> bool {
    &&& forall|j: int|
        0 <= j < found.len() ==> lo <= #[trigger] found[j] <= hi && found[j] < items.len()
            && search(items[found[j]], kw) is Some
    &&& forall|j: int, k: int| 0 <= j < k < found.len() ==> found[j] < found[k]
    &&& forall|i: int|
        lo <= i <= hi && i < items.len() && (#[trigger] search(items[i], kw)) is Some
            ==> found.contains(i)
}

proof fn lemma_query_lines(d: DocModel, kw: Seq<char>, lo: int, hi: int) -> (found: Seq<int>)
    requires
        0 <= lo,
    ensures
        finds_exactly(d.items, kw, lo, hi, found),
        query_answer(d, kw, found) == if hits(d.items, kw, lo, hi).len() == 0 {
            ok(d, "未找到关键词: "@ + kw)
        } else {
            ok(d, join(hits(d.items, kw, lo, hi), seq!['\n']))
        },
{
    lemma_hits(d.items, kw, lo, hi);
    let found = found_at(d.items, kw, lo, hi);
    let lines = Seq::new(
        found.len(),
        |j: int| answer_line(found[j], search(d.items[found[j]], kw)->0),
    );
    assert(lines =~= hits(d.items, kw, lo, hi));
    found
}

/// A search `.?keyword>[s]-[e]` answers for every value from `[s]` through
/// `[e]` that mentions the keyword, in order, and for no other; with none
/// it says that the keyword was not found.
pub proof fn law_query_range(
    d: DocModel,
    c: Seq<char>,
    ks: int,
    ke: int,
    a: int,
    b: int,
    a2: int,
    b2: int,
    s: usize,
    e: usize,
) -> (found: Seq<int>)
    requires
        find_query(c, 0) == Some((ks, ke, Some((a, b)), Some((a2, b2)))),
        number(c, a, b) == Ok::<usize, Seq<char>>(s),
        number(c, a2, b2) == Ok::<usize, Seq<char>>(e),
    ensures
        finds_exactly(d.items, c.subrange(ks, ke), s as int, e as int, found),
        run_query(d, c) == query_answer(d, c.subrange(ks, ke), found),
{
    lemma_query_lines(d, c.subrange(ks, ke), s as int, e as int)
}

/// A search `.?keyword>[n]` answers for the value `[n]` alone, if it
/// mentions the keyword.
pub proof fn law_query_one(d: DocModel, c: Seq<char>, ks: int, ke: int, a: int, b: int, n: usize) -> (found: Seq<int>)
    requires
        find_query(c, 0) == Some((ks, ke, Some((a, b)), None::<(int, int)>)),
        number(c, a, b) == Ok::<usize, Seq<char>>(n),
    ensures
        finds_exactly(d.items, c.subrange(ks, ke), n as int, n as int, found),
        run_query(d, c) == query_answer(d, c.subrange(ks, ke), found),
{
    lemma_query_lines(d, c.subrange(ks, ke), n as int, n as int)
}

/// A search `.?keyword` with no range answers for every value that
/// mentions the keyword, in order.
pub proof fn law_query_all(d: DocModel, c: Seq<char>, ks: int, ke: int) -> (found: Seq<int>)
    requires
        find_query(c, 0) == Some((ks, ke, None::<(int, int)>, None::<(int, int)>)),
    ensures
        finds_exactly(d.items, c.subrange(ks, ke), 0, d.items.len() - 1, found),
        run_query(d, c) == query_answer(d, c.subrange(ks, ke), found),
{
    lemma_query_lines(d, c.subrange(ks, ke), 0, d.items.len() - 1)
}

/// The number of values among `lo..=hi` that exist.
pub open spec fn existing_count(len: nat, lo: int, hi: int) -> nat {
    let top = if hi < len {
        hi
    } else {
        len - 1
    };
    if 0 <= lo <= top {
        (top - lo + 1) as nat
    } else {
        0
    }
}

proof fn lemma_shown_lines(items: Seq<Val>, lo: int, hi: int)
    requires
        0 <= lo,
    ensures
        shown_lines(items, lo, hi) =~= Seq::new(
            existing_count(items.len(), lo, hi),
            |k: int| answer_line(lo + k, render(items[lo + k])),
        ),
    decreases hi - lo + 1,
{
    if hi >= lo {
        lemma_shown_lines(items, lo, hi - 1);
    }
}

/// `.print>[s]-[e]` answers with one line `[i]: value` for each value from
/// `[s]` through `[e]` that exists, in order, and nothing else.
pub proof fn law_print_range(
    d: DocModel,
    t: Seq<char>,
    a1: int,
    b1: int,
    a2: int,
    b2: int,
    s: usize,
    e: usize,
)
    requires
        match_print_range(t) == Some((a1, b1, a2, b2)),
        number(t, a1, b1) == Ok::<usize, Seq<char>>(s),
        number(t, a2, b2) == Ok::<usize, Seq<char>>(e),
    ensures
        run_print(d, t) == ok(
            d,
            join(
                Seq::new(
                    existing_count(d.items.len(), s as int, e as int),
                    |k: int| answer_line(s + k, render(d.items[s + k])),
                ),
                seq!['\n'],
            ),
        ),
{
    lemma_shown_lines(d.items, s as int, e as int);
}

/// `.+[n]` succeeds once `n` reads as a number; afterwards the value at `n`
/// is an empty array whatever was there, every other value keeps its place
/// and content, and any gap up to `n` is filled with empty arrays.
pub proof fn law_new_array(d: DocModel, r: (int, int), c: Seq<char>, n: usize)
    requires
        number(c, r.0, r.1) == Ok::<usize, Seq<char>>(n),
    ensures
        run_new_array(d, r, c) matches Outcome::Reply(d2, Ok(_)) && {
            &&& d2.items.len() == if n < d.items.len() {
                d.items.len() as int
            } else {
                n + 1
            }
            &&& d2.items[n as int] == Val::Arr(Seq::empty())
            &&& forall|i: int|
                0 <= i < d.items.len() && i != n ==> #[trigger] d2.items[i] == d.items[i]
            &&& forall|i: int|
                d.items.len() <= i < d2.items.len() ==> #[trigger] d2.items[i] == Val::Arr(
                    Seq::empty(),
                )
            &&& d2.vars == d.vars
            &&& d2.lang == d.lang
        },
{
}

proof fn lemma_join_push(xs: Seq<Seq<char>>, y: Seq<char>, sep: Seq<char>)
    requires
        xs.len() >= 1,
    ensures
        join(xs.push(y), sep) == join(xs, sep) + sep + y,
{
    assert(xs.push(y).drop_last() =~= xs);
}

proof fn lemma_join_extend_last(xs: Seq<Seq<char>>, ch: char, sep: Seq<char>)
    requires
        xs.len() >= 1,
    ensures
        join(xs.update(xs.len() - 1, xs.last().push(ch)), sep) =~= join(xs, sep).push(ch),
{
    let ys = xs.update(xs.len() - 1, xs.last().push(ch));
    if xs.len() > 1 {
        assert(ys.drop_last() =~= xs.drop_last());
    }
}

/// Splitting at a separator gives one piece more than there are
/// separators, no piece holds the separator, and the pieces joined by the
/// separator give the text back.
pub proof fn law_split_pieces(s: Seq<char>, sep: char)
    ensures
        split(s, sep).len() == occurrences(s, sep) + 1,
        forall|i: int| 0 <= i < split(s, sep).len() ==> !(#[trigger] split(s, sep)[i]).contains(sep),
        join(split(s, sep), seq![sep]) == s,
    decreases s.len(),
{
    if s.len() > 0 {
        let t = s.drop_last();
        law_split_pieces(t, sep);
        lemma_split_nonempty(t, sep);
        let rest = split(t, sep);
        if s.last() == sep {
            lemma_join_push(rest, Seq::empty(), seq![sep]);
            assert(join(rest, seq![sep]) + seq![sep] + Seq::<char>::empty() =~= s);
            assert forall|i: int| 0 <= i < split(s, sep).len() implies !(#[trigger] split(
                s,
                sep,
            )[i]).contains(sep) by {
                if i < rest.len() {
                    assert(split(s, sep)[i] == rest[i]);
                } else {
                    assert(split(s, sep)[i] =~= Seq::<char>::empty());
                }
            }
        } else {
            lemma_join_extend_last(rest, s.last(), seq![sep]);
            assert(t.push(s.last()) =~= s);
            assert forall|i: int| 0 <= i < split(s, sep).len() implies !(#[trigger] split(
                s,
                sep,
            )[i]).contains(sep) by {
                if i < rest.len() - 1 {
                    assert(split(s, sep)[i] == rest[i]);
                } else {
                    let p = rest.last().push(s.last());
                    assert(split(s, sep)[i] == p);
                    if p.contains(sep) {
                        let w = choose|w: int| 0 <= w < p.len() && p[w] == sep;
                        assert(rest[rest.len() - 1][w] == sep);
                    }
                }
            }
        }
    }
}

/// An array literal `[x1,...,xk]` with something in it stands for one
/// string per comma-separated piece of its inside, in order: one more
/// element than there are commas, each element the trimmed piece, and none
/// holding a comma.
pub proof fn law_list_literal_pieces(inner: Seq<char>)
    requires
        trim(inner).len() > 0,
    ensures
        list_literal(inner) matches Val::Arr(a) && {
            &&& a.len() == occurrences(inner, ',') + 1
            &&& join(split(inner, ','), seq![',']) == inner
            &&& forall|i: int|
                0 <= i < a.len() ==> #[trigger] a[i] == Val::Str(trim(split(inner, ',')[i]))
                    && !split(inner, ',')[i].contains(',')
        },
{
    law_split_pieces(inner, ',');
}

proof fn lemma_digit_run(s: Seq<char>, q: int, e: int, dot: bool)
    requires
        0 <= q <= e <= s.len(),
        forall|k: int| q <= k < e ==> is_ascii_digit(#[trigger] s[k]),
    ensures
        number_end(s, q, dot) == number_end(s, e, dot),
    decreases e - q,
{
    if q < e {
        lemma_digit_run(s, q + 1, e, dot);
    }
}

/// A number with a decimal point, digits `s[p..m]`, `.` at `m`, digits
/// `s[m+1..e]`, is read whole as one value up to `e`, where the digits
/// stop.
pub proof fn law_number_with_point(s: Seq<char>, p: int, m: int, e: int)
    requires
        0 <= p < m < e <= s.len(),
        s[m] == '.',
        forall|k: int| p <= k < m ==> is_ascii_digit(#[trigger] s[k]),
        forall|k: int| m < k < e ==> is_ascii_digit(#[trigger] s[k]),
        e == s.len() || !is_ascii_digit(s[e]),
    ensures
        parse_value_at(s, p) == Ok::<(Val, int), Seq<char>>((Val::Str(s.subrange(p, e)), e)),
{
    lemma_digit_run(s, p, m, false);
    lemma_digit_run(s, m + 1, e, true);
    assert(is_ascii_digit(s[p]));
}

} // verus!
