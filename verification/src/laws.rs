//! Properties that hold across the operations of the library: what a read
//! gives back after each kind of edit, what setting a variable does, how
//! the binary frame and the document combinations undo each other, and
//! what a search finds.
use vstd::prelude::*;
use crate::binary::{framed, header, unframed, BINARY_VERSION};
use crate::combine::{kept_by, merged, subtracted};
use crate::data::{assign, descend, render_all, distinct_names, lookup, matching, step_into, value_at};
use crate::semantics::{
    array_at, assigned_value, do_append, do_delete, do_insert, do_replace, find_assignment,
    run_assignment, run_command, run_single, run_move, match_move, number, shifted_target, fail,
    MoveShape, search, search_in, var_reference, ok, word_char, word_end, DocModel, Outcome,
};
use crate::pattern::{has_char, starts_with};
use crate::text::{contains, trim};
use crate::value::{render, Val};

verus! {

/// The value read at `[i]`.
pub open spec fn item_at(items: Seq<Val>, i: usize) -> Option<Val> {
    value_at(items, seq![i])
}

/// The value read at `[n][m]`.
pub open spec fn element_at(items: Seq<Val>, n: usize, m: usize) -> Option<Val> {
    value_at(items, seq![n, m])
}

/// Reading a one-step path: the value at that index, if there is one.
proof fn lemma_read_one(items: Seq<Val>, i: usize)
    ensures
        value_at(items, seq![i]) == if i < items.len() {
            Some(items[i as int])
        } else {
            None::<Val>
        },
{
    assert(seq![i].drop_first() =~= Seq::<usize>::empty());
}

/// Reading a two-step path: the element `m` of the array (or of the
/// array of the pair) at `n`.
proof fn lemma_read_two(items: Seq<Val>, n: usize, m: usize)
    ensures
        value_at(items, seq![n, m]) == if n < items.len() {
            step_into(items[n as int], m)
        } else {
            None::<Val>
        },
{
    assert(seq![n, m].drop_first() =~= seq![m]);
    assert(seq![m].drop_first() =~= Seq::<usize>::empty());
    if n < items.len() {
        reveal_with_fuel(descend, 2);
    }
}

/// After appending `v` to the array at `n`, reading `[n][m]` gives the old
/// element for `m` below the array's old length, `v` at that length, and
/// nothing past it; every other value of the document is unchanged.
pub proof fn law_append_then_read(items: Seq<Val>, n: usize, v: Val)
    requires
        array_at(items, n as int) is Some,
    ensures
        ({
            let a = array_at(items, n as int)->0;
            let after = items.update(n as int, Val::Arr(a.push(v)));
            &&& forall|m: usize|
                #[trigger] element_at(after, n, m) == if m < a.len() {
                    element_at(items, n, m)
                } else if m == a.len() {
                    Some(v)
                } else {
                    None::<Val>
                }
            &&& after.len() == items.len()
            &&& forall|i: int| 0 <= i < items.len() && i != n ==> after[i] == items[i]
        }),
{
    let a = array_at(items, n as int)->0;
    let after = items.update(n as int, Val::Arr(a.push(v)));
    assert forall|m: usize|
        #[trigger] element_at(after, n, m) == if m < a.len() {
            element_at(items, n, m)
        } else if m == a.len() {
            Some(v)
        } else {
            None::<Val>
        } by {
        lemma_read_two(after, n, m);
        lemma_read_two(items, n, m);
    }
}

/// After inserting `v` at position `p` of the array at `n` (`p` at most its
/// length), reading `[n][m]` gives the old element for `m` before `p`, `v`
/// at `p`, the old element `m - 1` after `p` up to the new length, and
/// nothing past it.
pub proof fn law_insert_then_read(items: Seq<Val>, n: usize, p: usize, v: Val)
    requires
        array_at(items, n as int) is Some,
        p <= array_at(items, n as int)->0.len(),
    ensures
        ({
            let a = array_at(items, n as int)->0;
            let after = items.update(n as int, Val::Arr(a.insert(p as int, v)));
            forall|m: usize|
                #[trigger] element_at(after, n, m) == if m < p {
                    element_at(items, n, m)
                } else if m == p {
                    Some(v)
                } else if m <= a.len() {
                    element_at(items, n, (m - 1) as usize)
                } else {
                    None::<Val>
                }
        }),
{
    let a = array_at(items, n as int)->0;
    let after = items.update(n as int, Val::Arr(a.insert(p as int, v)));
    assert forall|m: usize|
        #[trigger] element_at(after, n, m) == if m < p {
            element_at(items, n, m)
        } else if m == p {
            Some(v)
        } else if m <= a.len() {
            element_at(items, n, (m - 1) as usize)
        } else {
            None::<Val>
        } by {
        lemma_read_two(after, n, m);
        lemma_read_two(items, n, m);
        if p < m && m <= a.len() {
            lemma_read_two(items, n, (m - 1) as usize);
        }
    }
}

/// After replacing the value at `n` (an index of the document) by `v`,
/// reading `[n]` gives `v` and every other index reads as before.
pub proof fn law_replace_then_read(items: Seq<Val>, n: usize, v: Val)
    requires
        n < items.len(),
    ensures
        forall|i: usize|
            #[trigger] item_at(items.update(n as int, v), i) == if i == n {
                Some(v)
            } else {
                item_at(items, i)
            },
{
    assert forall|i: usize|
        #[trigger] item_at(items.update(n as int, v), i) == if i == n {
            Some(v)
        } else {
            item_at(items, i)
        } by {
        lemma_read_one(items.update(n as int, v), i);
        lemma_read_one(items, i);
    }
}

/// After deleting the value at `n`, the document has one value fewer;
/// reading `[i]` gives the old value `i` before `n` and the old value
/// `i + 1` from `n` on.
pub proof fn law_delete_then_read(items: Seq<Val>, n: usize)
    requires
        n < items.len(),
    ensures
        items.remove(n as int).len() == items.len() - 1,
        forall|i: usize|
            #[trigger] item_at(items.remove(n as int), i) == if i < n {
                item_at(items, i)
            } else if i + 1 < items.len() {
                Some(items[i + 1])
            } else {
                None::<Val>
            },
{
    assert forall|i: usize|
        #[trigger] item_at(items.remove(n as int), i) == if i < n {
            item_at(items, i)
        } else if i + 1 < items.len() {
            Some(items[i + 1])
        } else {
            None::<Val>
        } by {
        lemma_read_one(items.remove(n as int), i);
        lemma_read_one(items, i);
    }
}

/// An edit that is refused (an index that is not an array or out of
/// range, a position past the end) leaves the document as it was.
pub proof fn law_refused_edit_keeps_document(
    d: DocModel,
    n: usize,
    p: usize,
    v: Val,
)
    ensures
        do_append(d, n, v) matches Outcome::Reply(d2, Err(_)) ==> d2 == d,
        do_insert(d, n, p, v) matches Outcome::Reply(d2, Err(_)) ==> d2 == d,
        do_replace(d, n, v) matches Outcome::Reply(d2, Err(_)) ==> d2 == d,
        do_delete(d, n) matches Outcome::Reply(d2, Err(_)) ==> d2 == d,
{
}

/// Setting a variable and reading it back gives the value set; the other
/// variables keep their values, and no name comes to be set twice.
pub proof fn law_assign_then_lookup(
    vars: Seq<(Seq<char>, Val)>,
    name: Seq<char>,
    v: Val,
    other: Seq<char>,
)
    requires
        distinct_names(vars),
    ensures
        lookup(assign(vars, name, v), name) == Some(v),
        other != name ==> lookup(assign(vars, name, v), other) == lookup(vars, other),
        distinct_names(assign(vars, name, v)),
{
    lemma_lookup_finds(vars, other);
    if exists|i: int| 0 <= i < vars.len() && (#[trigger] vars[i]).0 == name {
        let i = choose|i: int| 0 <= i < vars.len() && (#[trigger] vars[i]).0 == name;
        let after = vars.update(i, (name, v));
        assert(distinct_names(after));
        lemma_lookup_finds(after, name);
        lemma_lookup_finds(after, other);
        assert(after[i].0 == name);
        if other != name {
            if lookup(vars, other) is Some {
                let j = choose|j: int| 0 <= j < vars.len() && vars[j].0 == other && lookup(vars, other)
                    == Some(vars[j].1);
                assert(after[j] == vars[j]);
            }
            if lookup(after, other) is Some {
                let j = choose|j: int| 0 <= j < after.len() && after[j].0 == other && lookup(after, other)
                    == Some(after[j].1);
                assert(after[j] == vars[j]);
            }
        }
    } else {
        let after = vars.push((name, v));
        assert(distinct_names(after));
        lemma_lookup_finds(after, other);
        assert(after.drop_last() =~= vars);
    }
}

/// The value of a name is the value of the entry with that name, when the
/// names are distinct; there is none when no entry has the name.
proof fn lemma_lookup_finds(vars: Seq<(Seq<char>, Val)>, name: Seq<char>)
    requires
        distinct_names(vars),
    ensures
        lookup(vars, name) is Some <==> exists|j: int| 0 <= j < vars.len() && vars[j].0 == name,
        forall|j: int| 0 <= j < vars.len() && vars[j].0 == name ==> lookup(vars, name) == Some(vars[j].1),
    decreases vars.len(),
{
    if vars.len() > 0 {
        let rest = vars.drop_last();
        assert(distinct_names(rest));
        lemma_lookup_finds(rest, name);
        if vars.last().0 != name {
            assert forall|j: int| 0 <= j < rest.len() && rest[j].0 == name implies vars[j].0 == name by {}
            if exists|j: int| 0 <= j < vars.len() && vars[j].0 == name {
                let j = choose|j: int| 0 <= j < vars.len() && vars[j].0 == name;
                assert(j < vars.len() - 1);
                assert(rest[j] == vars[j]);
            }
        }
    }
}

/// A command that starts with `$` and holds `=` is an assignment.
proof fn lemma_assignment_dispatch(d: DocModel, c: Seq<char>)
    requires
        starts_with(trim(c), "$"@),
        has_char(trim(c), '='),
    ensures
        run_command(d, c) == run_assignment(d, trim(c)),
{
    reveal_strlit("exit()");
    reveal_strlit("exit");
    reveal_strlit(".h");
    reveal_strlit(".help");
    reveal_strlit("[");
    reveal_strlit("$");
    let t = trim(c);
    assert(t[0] == '$') by {
        assert(t.subrange(0, 1)[0] == t[0]);
    }
    assert(t != "exit()"@) by {
        assert("exit()"@[0] == 'e');
    }
    assert(t != "exit"@) by {
        assert("exit"@[0] == 'e');
    }
    assert(t != ".h"@) by {
        assert(".h"@[0] == '.');
    }
    assert(t != ".help"@) by {
        assert(".help"@[0] == '.');
    }
    assert(!starts_with(t, "["@)) by {
        if starts_with(t, "["@) {
            assert(t.subrange(0, 1)[0] == t[0]);
        }
    }
}

/// What a successful assignment does to the variables and the values.
proof fn lemma_assignment_sets(d: DocModel, c: Seq<char>)
    requires
        distinct_names(d.vars),
        run_assignment(d, c) matches Outcome::Reply(_, Ok(_)),
    ensures
        find_assignment(c, 0) matches Some((name, e)) && (assigned_value(d, e) matches Ok(v)
            && (run_assignment(d, c) matches Outcome::Reply(d2, _) && lookup(d2.vars, name) == Some(v)
            && d2.items == d.items && distinct_names(d2.vars))),
{
    reveal(run_assignment);
    match find_assignment(c, 0) {
        Some((name, e)) => {
            match assigned_value(d, e) {
                Ok(v) => {
                    law_assign_then_lookup(d.vars, name, v, name);
                },
                Err(o) => {
                    assert(o is Reply ==> o->Reply_1 is Err);
                },
            }
        },
        None => {},
    }
}

/// A command `$name = e` that succeeds sets `name` to the value `e` stands
/// for, leaves the values of the document alone, and keeps the names
/// distinct.
pub proof fn law_set_variable(d: DocModel, c: Seq<char>)
    requires
        distinct_names(d.vars),
        starts_with(trim(c), "$"@),
        has_char(trim(c), '='),
        run_command(d, c) matches Outcome::Reply(_, Ok(_)),
    ensures
        find_assignment(trim(c), 0) matches Some((name, e)) && (assigned_value(d, e) matches Ok(v)
            && (run_command(d, c) matches Outcome::Reply(d2, _) && lookup(d2.vars, name) == Some(v)
            && d2.items == d.items && distinct_names(d2.vars))),
{
    lemma_assignment_dispatch(d, c);
    lemma_assignment_sets(d, trim(c));
}

/// A command that is `$name` (white space around it aside) for a set
/// variable answers the variable's value and changes nothing.
pub proof fn law_read_variable(d: DocModel, c: Seq<char>)
    requires
        var_reference(trim(c)),
        lookup(d.vars, trim(c).drop_first()) is Some,
    ensures
        run_command(d, c) == ok(d, render(lookup(d.vars, trim(c).drop_first())->0)),
{
    let t = trim(c);
    lemma_word_run(t, 1);
    assert(!has_char(t, '=') && !has_char(t, '|')) by {
        assert forall|k: int| 0 <= k < t.len() implies t[k] != '=' && t[k] != '|' by {
            if k >= 1 {
                assert(word_char(t[k]));
            }
        }
    }
    assert(word_char(t[1]));
    reveal_strlit("exit()");
    reveal_strlit("exit");
    reveal_strlit(".h");
    reveal_strlit(".help");
    reveal_strlit("[");
    reveal_strlit("$");
    reveal_strlit("${");
    assert(t != "exit()"@) by {
        assert("exit()"@[0] == 'e');
    }
    assert(t != "exit"@) by {
        assert("exit"@[0] == 'e');
    }
    assert(t != ".h"@) by {
        assert(".h"@[0] == '.');
    }
    assert(t != ".help"@) by {
        assert(".help"@[0] == '.');
    }
    assert(!starts_with(t, "["@)) by {
        if starts_with(t, "["@) {
            assert(t.subrange(0, 1)[0] == t[0]);
        }
    }
    assert(!starts_with(t, "${"@)) by {
        if starts_with(t, "${"@) {
            assert(t.subrange(0, 2)[1] == t[1]);
        }
    }
}

/// Every character from `p` to where the run of word characters ends is
/// one.
proof fn lemma_word_run(s: Seq<char>, p: int)
    requires
        0 <= p <= s.len(),
    ensures
        p <= word_end(s, p) <= s.len(),
        forall|k: int| p <= k < word_end(s, p) ==> word_char(#[trigger] s[k]),
    decreases s.len() - p,
{
    if p < s.len() && word_char(s[p]) {
        lemma_word_run(s, p + 1);
    }
}

/// A run of word characters that reaches the end ends there.
proof fn lemma_word_end_at_end(s: Seq<char>, p: int)
    requires
        0 <= p <= s.len(),
        forall|k: int| p <= k < s.len() ==> word_char(#[trigger] s[k]),
    ensures
        word_end(s, p) == s.len(),
    decreases s.len() - p,
{
    if p < s.len() {
        lemma_word_end_at_end(s, p + 1);
    }
}

/// The name that an assignment sets is a non-empty run of word characters.
proof fn lemma_assigned_name(c: Seq<char>, i: int)
    requires
        0 <= i,
    ensures
        find_assignment(c, i) matches Some((name, _)) ==> name.len() > 0 && forall|k: int|
            0 <= k < name.len() ==> word_char(#[trigger] name[k]),
    decreases c.len() - i,
{
    if 0 <= i < c.len() {
        lemma_word_run(c, i + 1);
        let w = word_end(c, i + 1);
        assert forall|k: int| 0 <= k < w - (i + 1) implies word_char(
            #[trigger] c.subrange(i + 1, w)[k],
        ) by {
            assert(c.subrange(i + 1, w)[k] == c[i + 1 + k]);
        }
        lemma_assigned_name(c, i + 1);
    }
}

/// Setting a variable with `$name = e` and then running `$name` answers the
/// value that `e` stands for.
pub proof fn law_set_then_read_variable(d: DocModel, a: Seq<char>, c: Seq<char>)
    requires
        distinct_names(d.vars),
        starts_with(trim(a), "$"@),
        has_char(trim(a), '='),
        run_command(d, a) matches Outcome::Reply(_, Ok(_)),
        find_assignment(trim(a), 0) matches Some((name, _)) && trim(c) == seq!['$'] + name,
    ensures
        find_assignment(trim(a), 0) matches Some((name, e)) && (assigned_value(d, e) matches Ok(
            v,
        ) && (run_command(d, a) matches Outcome::Reply(d2, _) && run_command(d2, c) == ok(
            d2,
            render(v),
        ))),
{
    law_set_variable(d, a);
    let t = trim(a);
    lemma_assigned_name(t, 0);
    let (name, _) = find_assignment(t, 0)->0;
    let r = trim(c);
    assert(r.drop_first() =~= name);
    assert forall|k: int| 1 <= k < r.len() implies word_char(#[trigger] r[k]) by {
        assert(r[k] == name[k - 1]);
    }
    lemma_word_end_at_end(r, 1);
    match run_command(d, a) {
        Outcome::Reply(d2, _) => {
            law_read_variable(d2, c);
        },
        _ => {},
    }
}

/// A command other than a move, once its references are resolved, that
/// fails leaves the document as it was, and none of them panics.
pub proof fn law_failed_command_keeps_document(d: DocModel, cmd: Seq<char>)
    requires
        !starts_with(trim(cmd), ".>["@),
    ensures
        run_single(d, cmd) matches Outcome::Reply(d2, Err(_)) ==> d2 == d,
        !(run_single(d, cmd) is Abort),
        !(run_single(d, cmd) is Exit),
{
    reveal(run_single);
}

/// The bounds of the digits of a move's source and target, for a command of
/// one of the three move forms.
pub open spec fn move_indices(c: Seq<char>) -> Option<(int, int, int, int)> {
    match match_move(c) {
        Some(MoveShape::Before(a1, b1, a2, b2, _, _)) => Some((a1, b1, a2, b2)),
        Some(MoveShape::After(a1, b1, a2, b2, _, _)) => Some((a1, b1, a2, b2)),
        Some(MoveShape::ToEnd(a1, b1, a2, b2)) => Some((a1, b1, a2, b2)),
        None => None,
    }
}

/// A move command of none of the three forms is refused; one whose source
/// or target is past the end is refused and leaves the document as it was.
/// The only refused move that changes the document is a move to the end of
/// a value that is no array: it takes the source out.
pub proof fn law_refused_move(d: DocModel, c: Seq<char>)
    ensures
        match_move(c) is None ==> run_move(d, c) == fail(d, "无效的移动/插入命令"@),
        (move_indices(c) matches Some((a1, b1, a2, b2)) && number(c, a1, b1) matches Ok(s)
            && number(c, a2, b2) matches Ok(t) && (s >= d.items.len() || t >= d.items.len()))
            ==> (run_move(d, c) matches Outcome::Reply(d2, Err(_)) && d2 == d),
        (run_move(d, c) matches Outcome::Reply(d2, Err(_)) && d2 != d) ==> (match_move(c) matches Some(
            MoveShape::ToEnd(a1, b1, a2, b2),
        ) && number(c, a1, b1) matches Ok(s) && number(c, a2, b2) matches Ok(t) && s
            < d.items.len() && t < d.items.len() && array_at(
            d.items.remove(s as int),
            shifted_target(s, t),
        ) is None),
{
}

/// Whether `kw` occurs in a string of `v`, or in the key of a pair of `v`,
/// at any depth.
pub open spec fn mentions(v: Val, kw: Seq<char>) -> bool
    decreases v,
{
    match v {
        Val::Str(s) => contains(s, kw),
        Val::Arr(a) => exists|i: int| 0 <= i < a.len() && mentions(#[trigger] a[i], kw),
        Val::Kv(k, b) => contains(k, kw) || mentions(*b, kw),
    }
}

/// A search in a value finds something exactly when the keyword occurs in
/// one of its strings or keys. (What it finds is the first such string, or
/// the first such key with its value, a key coming before its value and
/// array elements from left to right: that is how `search` is written.)
pub proof fn law_search_finds_mention(v: Val, kw: Seq<char>)
    ensures
        search(v, kw) is Some <==> mentions(v, kw),
    decreases v, 1int, 0int,
{
    match v {
        Val::Str(_) => {},
        Val::Arr(a) => {
            lemma_search_in(v, a, 0, kw);
            assert(a.skip(0) =~= a);
            if mentions(v, kw) {
                let i = choose|i: int| 0 <= i < a.len() && mentions(#[trigger] a[i], kw);
                assert(a.skip(0)[i] == a[i]);
            }
        },
        Val::Kv(k, b) => {
            law_search_finds_mention(*b, kw);
        },
    }
}

/// A search among the elements `a[j..]` of the array `whole` finds
/// something exactly when one of them mentions the keyword.
proof fn lemma_search_in(whole: Val, a: Seq<Val>, j: int, kw: Seq<char>)
    requires
        whole == Val::Arr(a),
        0 <= j <= a.len(),
    ensures
        search_in(a.skip(j), kw) is Some <==> exists|i: int| j <= i < a.len() && mentions(
            #[trigger] a[i],
            kw,
        ),
    decreases whole, 0int, a.len() - j,
{
    if j < a.len() {
        assert(decreases_to!(whole => whole->Arr_0));
        assert(decreases_to!(a => a[j]));
        law_search_finds_mention(a[j], kw);
        lemma_search_in(whole, a, j + 1, kw);
        assert(a.skip(j)[0] == a[j]);
        assert(a.skip(j).drop_first() =~= a.skip(j + 1));
    }
}

/// Reading the frame of a binary file gives back what was framed.
pub proof fn law_frame_roundtrip(payload: Seq<u8>)
    ensures
        unframed(framed(payload)) == Ok::<Seq<u8>, Seq<char>>(payload),
{
    let c = framed(payload);
    assert(c.take(4) =~= header().take(4));
    assert(c[4] == BINARY_VERSION);
    assert(c.skip(5) =~= payload);
}

/// Taking a one-array document out of the one-array document it was joined
/// with leaves the elements of the array joined on whose text is not the
/// text of an element of the first; when no text is shared, that is the
/// whole array joined on.
pub proof fn law_merge_then_subtract(a: Seq<Val>, b: Seq<Val>)
    ensures
        subtracted(merged(seq![Val::Arr(a)], seq![Val::Arr(b)]), seq![Val::Arr(a)]) == seq![
            Val::Arr(b.filter(kept_by(render_all(a)))),
        ],
        (forall|i: int| 0 <= i < b.len() ==> !render_all(a).contains(render(#[trigger] b[i])))
            ==> subtracted(merged(seq![Val::Arr(a)], seq![Val::Arr(b)]), seq![Val::Arr(a)])
            == seq![Val::Arr(b)],
{
    let p = kept_by(render_all(a));
    let m = merged(seq![Val::Arr(a)], seq![Val::Arr(b)]);
    assert(m[0]->Arr_0 == a + b);
    Seq::filter_distributes_over_add(a, b, p);
    assert forall|i: int| 0 <= i < a.len() implies !p(#[trigger] a[i]) by {
        assert(render_all(a)[i] == render(a[i]));
    }
    lemma_filter_none(a, p);
    assert(Seq::<Val>::empty() + b.filter(p) =~= b.filter(p));
    if forall|i: int| 0 <= i < b.len() ==> !render_all(a).contains(render(#[trigger] b[i])) {
        lemma_filter_all(b, p);
    }
}

/// Filtering by a predicate that holds of no element leaves nothing.
proof fn lemma_filter_none(s: Seq<Val>, p: spec_fn(Val) -> bool)
    requires
        forall|i: int| 0 <= i < s.len() ==> !p(#[trigger] s[i]),
    ensures
        s.filter(p) == Seq::<Val>::empty(),
    decreases s.len(),
{
    reveal(Seq::filter);
    if s.len() > 0 {
        lemma_filter_none(s.drop_last(), p);
        assert(!p(s[s.len() - 1]));
    }
}

/// Filtering by a predicate that holds of every element leaves them all.
proof fn lemma_filter_all(s: Seq<Val>, p: spec_fn(Val) -> bool)
    requires
        forall|i: int| 0 <= i < s.len() ==> p(#[trigger] s[i]),
    ensures
        s.filter(p) == s,
    decreases s.len(),
{
    reveal(Seq::filter);
    if s.len() > 0 {
        lemma_filter_all(s.drop_last(), p);
        assert(p(s[s.len() - 1]));
        assert(s.drop_last().push(s.last()) =~= s);
    }
}

/// A search finds exactly the values whose text contains the pattern, in
/// ascending order.
pub proof fn law_search_finds_exactly(items: Seq<Val>, pat: Seq<char>)
    requires
        items.len() <= usize::MAX,
    ensures
        forall|i: usize|
            matching(items, pat, items.len() as int).contains(i) <==> (i < items.len() && contains(
                render(items[i as int]),
                pat,
            )),
        forall|x: int, y: int|
            0 <= x < y < matching(items, pat, items.len() as int).len() ==> matching(
                items,
                pat,
                items.len() as int,
            )[x] < matching(items, pat, items.len() as int)[y],
{
    lemma_matching(items, pat, items.len() as int);
}

/// What a search among the first `n` values finds.
proof fn lemma_matching(items: Seq<Val>, pat: Seq<char>, n: int)
    requires
        n <= items.len() <= usize::MAX,
    ensures
        forall|i: usize|
            matching(items, pat, n).contains(i) <==> (i < n && contains(render(items[i as int]), pat)),
        forall|x: int, y: int|
            0 <= x < y < matching(items, pat, n).len() ==> matching(items, pat, n)[x] < matching(
                items,
                pat,
                n,
            )[y],
        forall|x: int| 0 <= x < matching(items, pat, n).len() ==> matching(items, pat, n)[x] < n,
    decreases n,
{
    if n > 0 {
        lemma_matching(items, pat, n - 1);
        let prev = matching(items, pat, n - 1);
        let cur = matching(items, pat, n);
        assert forall|i: usize| cur.contains(i) <==> (i < n && contains(
            render(items[i as int]),
            pat,
        )) by {
            if contains(render(items[n - 1]), pat) {
                assert(cur == prev.push((n - 1) as usize));
                if cur.contains(i) {
                    let k = choose|k: int| 0 <= k < cur.len() && cur[k] == i;
                    if k < prev.len() {
                        assert(prev[k] == i);
                        assert(prev.contains(i));
                    }
                }
                if i < n && contains(render(items[i as int]), pat) {
                    if i == n - 1 {
                        assert(cur[prev.len() as int] == i);
                    } else {
                        assert(prev.contains(i));
                        let k = choose|k: int| 0 <= k < prev.len() && prev[k] == i;
                        assert(cur[k] == i);
                    }
                }
            } else {
                assert(cur == prev);
                if prev.contains(i) {
                    let k = choose|k: int| 0 <= k < prev.len() && prev[k] == i;
                    assert(prev[k] < n - 1);
                }
            }
        }
    }
}

} // verus!
