//! Reading back the text form of a document: for documents of names,
//! digit runs, arrays and `name:...` pairs, the parser gives back exactly
//! the values that were written out.
use vstd::prelude::*;
use crate::data::{render_document, render_items};
use crate::parser::{
    blank_end, item_at, words_end, array_items, document_items, is_terminator, name_char, name_end, number_end,
    parse_document, parse_value_at, terminator_at,
};
use crate::text::{is_ascii_digit, is_ascii_letter};
use crate::value::{render, render_join, Val};

verus! {

/// A name: an ASCII letter or `_`, then ASCII letters, digits and `_`.
pub open spec fn name_like(w: Seq<char>) -> bool {
    &&& w.len() > 0
    &&& is_ascii_letter(w[0]) || w[0] == '_'
    &&& forall|i: int| 0 <= i < w.len() ==> is_ascii_letter(#[trigger] w[i]) || is_ascii_digit(w[i])
        || w[i] == '_'
}

/// A run of ASCII digits.
pub open spec fn digit_run(w: Seq<char>) -> bool {
    w.len() > 0 && forall|i: int| 0 <= i < w.len() ==> is_ascii_digit(#[trigger] w[i])
}

/// The text of a pair `name:text`: no `,`, `]` or `;` in it, and not
/// starting with `[`.
pub open spec fn pair_text(t: Seq<char>) -> bool {
    (t.len() == 0 || t[0] != '[') && forall|i: int| 0 <= i < t.len() ==> !is_terminator(#[trigger] t[i])
}

/// The text of `a` joined by `,`, read from the front.
proof fn lemma_join_front(a: Seq<Val>)
    requires
        a.len() >= 1,
    ensures
        render_join(a) == if a.len() == 1 {
            render(a[0])
        } else {
            render(a[0]) + seq![','] + render_join(a.drop_first())
        },
    decreases a.len(),
{
    if a.len() > 2 {
        let b = a.drop_last();
        let c = a.drop_first();
        lemma_join_front(b);
        assert(b.drop_first() =~= c.drop_last());
        assert(c.last() == a.last());
        assert(b.last() == a[a.len() - 2]);
        assert(render_join(c) == render_join(c.drop_last()) + seq![','] + render(c.last()));
        assert(render_join(a) == render_join(b) + seq![','] + render(a.last()));
        assert(render_join(b) == render(a[0]) + seq![','] + render_join(b.drop_first()));
        assert(render_join(a) =~= render(a[0]) + seq![','] + render_join(c));
    } else if a.len() == 2 {
        assert(a.drop_last() =~= seq![a[0]]);
        assert(a.drop_first() =~= seq![a[1]]);
        assert(render_join(a.drop_last()) == render(a[0]));
        assert(render_join(a.drop_first()) == render(a[1]));
    }
}

/// The text of the values `a` separated by `; `, read from the front.
proof fn lemma_items_front(a: Seq<Val>)
    requires
        a.len() >= 1,
    ensures
        render_items(a) == if a.len() == 1 {
            render(a[0])
        } else {
            render(a[0]) + seq![';', ' '] + render_items(a.drop_first())
        },
    decreases a.len(),
{
    if a.len() > 2 {
        let b = a.drop_last();
        let c = a.drop_first();
        lemma_items_front(b);
        assert(b.drop_first() =~= c.drop_last());
        assert(c.last() == a.last());
        assert(render_items(c) == render_items(c.drop_last()) + seq![';', ' '] + render(c.last()));
        assert(render_items(a) == render_items(b) + seq![';', ' '] + render(a.last()));
        assert(render_items(b) == render(a[0]) + seq![';', ' '] + render_items(b.drop_first()));
        assert(render_items(a) =~= render(a[0]) + seq![';', ' '] + render_items(c));
    } else if a.len() == 2 {
        assert(a.drop_last() =~= seq![a[0]]);
        assert(a.drop_first() =~= seq![a[1]]);
        assert(render_items(a.drop_last()) == render(a[0]));
        assert(render_items(a.drop_first()) == render(a[1]));
    }
}

/// A run of name characters ended by a character that is not one.
proof fn lemma_name_end_at(s: Seq<char>, p: int, e: int)
    requires
        0 <= p <= e < s.len(),
        forall|k: int| p <= k < e ==> name_char(#[trigger] s[k]),
        !name_char(s[e]),
    ensures
        name_end(s, p) == e,
    decreases e - p,
{
    if p < e {
        lemma_name_end_at(s, p + 1, e);
    }
}

/// A run of digits ended by a character that is neither a digit nor `.`.
proof fn lemma_number_end_at(s: Seq<char>, p: int, e: int)
    requires
        0 <= p <= e < s.len(),
        forall|k: int| p <= k < e ==> is_ascii_digit(#[trigger] s[k]),
        !is_ascii_digit(s[e]),
        s[e] != '.',
    ensures
        number_end(s, p, false) == e,
    decreases e - p,
{
    if p < e {
        lemma_number_end_at(s, p + 1, e);
    }
}

/// A text without terminators ended by one.
proof fn lemma_terminator_at(s: Seq<char>, p: int, e: int)
    requires
        0 <= p <= e < s.len(),
        forall|k: int| p <= k < e ==> !is_terminator(#[trigger] s[k]),
        is_terminator(s[e]),
    ensures
        terminator_at(s, p) == e,
    decreases e - p,
{
    if p < e {
        lemma_terminator_at(s, p + 1, e);
    }
}

/// A value that reads back from its text inside an array: a name or a digit
/// run; an array of such values; or a pair of a name and either such an
/// array or a pair text.
pub open spec fn plain_element(v: Val) -> bool
    decreases v,
{
    match v {
        Val::Str(w) => name_like(w) || digit_run(w),
        Val::Arr(a) => forall|i: int| 0 <= i < a.len() ==> plain_element(#[trigger] a[i]),
        Val::Kv(k, b) => name_like(k) && match *b {
            Val::Arr(a) => forall|i: int| 0 <= i < a.len() ==> plain_element(#[trigger] a[i]),
            Val::Str(t) => pair_text(t),
            Val::Kv(_, _) => false,
        },
    }
}

/// A value that reads back from its text as a value of a document: as
/// inside an array, except that a string must be a name.
pub open spec fn plain_item(v: Val) -> bool {
    match v {
        Val::Str(w) => name_like(w),
        _ => plain_element(v),
    }
}

/// The text of an array element starts with a character that begins an
/// element.
proof fn lemma_element_start(v: Val)
    requires
        plain_element(v),
    ensures
        render(v).len() > 0,
        render(v)[0] == '[' || is_ascii_letter(render(v)[0]) || render(v)[0] == '_'
            || is_ascii_digit(render(v)[0]),
        plain_item(v) ==> render(v)[0] == '[' || is_ascii_letter(render(v)[0]) || render(v)[0]
            == '_',
{
    match v {
        Val::Str(w) => {},
        Val::Arr(a) => {},
        Val::Kv(k, b) => {
            assert(render(v) == k + seq![':'] + render(*b));
            assert(render(v)[0] == k[0]);
        },
    }
}

/// Reading an element whose text stands at `x.len()` and is followed by
/// `,`, `]` or `;` gives the element back, just past its text.
proof fn lemma_read_element(v: Val, x: Seq<char>, y: Seq<char>)
    requires
        plain_element(v),
        y.len() > 0,
        y[0] == ',' || y[0] == ']' || y[0] == ';',
    ensures
        parse_value_at(x + render(v) + y, x.len() as int) == Ok::<(Val, int), Seq<char>>(
            (v, (x.len() + render(v).len()) as int),
        ),
    decreases v, 1int, 0int,
{
    let s = x + render(v) + y;
    let p = x.len() as int;
    let r = render(v);
    assert forall|k: int| 0 <= k < r.len() implies s[p + k] == r[k] by {}
    assert(s[p + r.len()] == y[0]);
    lemma_element_start(v);
    match v {
        Val::Str(w) => {
            if name_like(w) {
                assert forall|k: int| p <= k < p + w.len() implies name_char(#[trigger] s[k]) by {
                    assert(s[k] == w[k - p]);
                }
                lemma_name_end_at(s, p, p + w.len());
                assert(s.subrange(p, p + w.len()) =~= w);
            } else {
                assert forall|k: int| p <= k < p + w.len() implies is_ascii_digit(#[trigger] s[k]) by {
                    assert(s[k] == w[k - p]);
                }
                lemma_number_end_at(s, p, p + w.len());
                assert(s.subrange(p, p + w.len()) =~= w);
            }
        },
        Val::Arr(a) => {
            let x2 = x + seq!['['];
            assert(a.skip(0) =~= a);
            assert(r == seq!['['] + render_join(a) + seq![']']);
            assert(s =~= x2 + render_join(a.skip(0)) + seq![']'] + y);
            lemma_read_items(a, 0, x2, y);
            assert(a.take(0) =~= Seq::<Val>::empty());
        },
        Val::Kv(k, b) => {
            assert(r == k + seq![':'] + render(*b));
            let e = p + k.len();
            assert forall|i: int| p <= i < e implies name_char(#[trigger] s[i]) by {
                assert(s[i] == k[i - p]);
            }
            assert(s[e] == ':');
            lemma_name_end_at(s, p, e);
            assert(s.subrange(p, e) =~= k);
            let q = e + 1;
            match *b {
                Val::Arr(a) => {
                    let x2 = x + k + seq![':', '['];
                    assert(a.skip(0) =~= a);
                    assert(render(*b) == seq!['['] + render_join(a) + seq![']']);
                    assert(s =~= x2 + render_join(a.skip(0)) + seq![']'] + y);
                    assert(decreases_to!(v => *b));
                    lemma_read_items(a, 0, x2, y);
                    assert(a.take(0) =~= Seq::<Val>::empty());
                    assert(s[q] == '[');
                },
                Val::Str(t) => {
                    assert(r == k + seq![':'] + t);
                    assert forall|i: int| q <= i < q + t.len() implies !is_terminator(
                        #[trigger] s[i],
                    ) by {
                        assert(s[i] == t[i - q]);
                    }
                    lemma_terminator_at(s, q, q + t.len());
                    assert(s.subrange(q, q + t.len()) =~= t);
                    if t.len() > 0 {
                        assert(s[q] == t[0]);
                    }
                },
                Val::Kv(_, _) => {},
            }
        },
    }
}

/// Reading the elements `a[j..]` of an array, whose texts joined by `,`
/// stand at `x.len()` followed by `]` and a `,`, `]` or `;`, after the
/// elements `a[..j]` were read, gives the array back, just past its `]`.
proof fn lemma_read_items(a: Seq<Val>, j: int, x: Seq<char>, y: Seq<char>)
    requires
        0 <= j <= a.len(),
        forall|i: int| 0 <= i < a.len() ==> plain_element(#[trigger] a[i]),
        y.len() > 0,
        y[0] == ',' || y[0] == ']' || y[0] == ';',
    ensures
        array_items(x + render_join(a.skip(j)) + seq![']'] + y, x.len() as int, a.take(j))
            == Ok::<(Val, int), Seq<char>>(
            (Val::Arr(a), (x.len() + render_join(a.skip(j)).len() + 1) as int),
        ),
    decreases Val::Arr(a), 0int, a.len() - j,
{
    let t = a.skip(j);
    let s = x + render_join(t) + seq![']'] + y;
    let p = x.len() as int;
    if j == a.len() {
        assert(t.len() == 0);
        assert(render_join(t) == Seq::<char>::empty());
        assert(s[p] == ']');
        assert(a.take(j) =~= a);
    } else {
        lemma_join_front(t);
        let v = a[j];
        assert(t[0] == v);
        let whole = Val::Arr(a);
        assert(decreases_to!(whole => whole->Arr_0));
        assert(decreases_to!(a => a[j]));
        let rest = if t.len() == 1 {
            Seq::<char>::empty()
        } else {
            seq![','] + render_join(t.drop_first())
        };
        let y2 = rest + seq![']'] + y;
        assert(render_join(t) == render(v) + rest);
        assert(s =~= x + render(v) + y2);
        lemma_read_element(v, x, y2);
        lemma_element_start(v);
        assert(s[p] == render(v)[0]);
        let q = p + render(v).len();
        assert(a.take(j).push(v) =~= a.take(j + 1));
        assert(t.drop_first() =~= a.skip(j + 1));
        if t.len() == 1 {
            assert(s[q] == ']');
            assert(a.take(j + 1) =~= a);
            assert(array_items(s, q, a.take(j + 1)) == Ok::<(Val, int), Seq<char>>(
                (Val::Arr(a), q + 1),
            ));
        } else {
            assert(s[q] == ',');
            let x2 = x + render(v) + seq![','];
            assert(s =~= x2 + render_join(a.skip(j + 1)) + seq![']'] + y);
            lemma_read_items(a, j + 1, x2, y);
            assert(array_items(s, q, a.take(j + 1)) == array_items(s, q + 1, a.take(j + 1)));
        }
    }
}

/// Reading a value of a document whose text stands at `x.len()` and is
/// followed by `;` gives the value back, just past its text.
proof fn lemma_read_item(v: Val, x: Seq<char>, y: Seq<char>)
    requires
        plain_item(v),
        y.len() > 0,
        y[0] == ';',
    ensures
        item_at(x + render(v) + y, x.len() as int) == Ok::<(Val, int), Seq<char>>(
            (v, (x.len() + render(v).len()) as int),
        ),
{
    let s = x + render(v) + y;
    let p = x.len() as int;
    lemma_read_element(v, x, y);
    match v {
        Val::Str(w) => {
            let e = p + w.len();
            assert forall|k: int| p <= k < e implies name_char(#[trigger] s[k]) by {
                assert(s[k] == w[k - p]);
            }
            assert(s[e] == ';');
            lemma_name_end_at(s, p, e);
            assert(blank_end(s, e) == e);
            assert(words_end(s, p) == e);
            assert(s.subrange(p, e) =~= w);
        },
        _ => {},
    }
}

/// Reading the values `items[j..]` of a document, whose texts joined by
/// `; ` stand at `x.len()` followed by the final `;`, after the values
/// `items[..j]` were read, gives all the values.
proof fn lemma_read_document(items: Seq<Val>, j: int, x: Seq<char>)
    requires
        0 <= j < items.len(),
        forall|i: int| 0 <= i < items.len() ==> plain_item(#[trigger] items[i]),
    ensures
        document_items(x + render_items(items.skip(j)) + seq![';'], x.len() as int, items.take(j))
            == Ok::<Seq<Val>, Seq<char>>(items),
    decreases items.len() - j,
{
    let t = items.skip(j);
    let s = x + render_items(t) + seq![';'];
    let p = x.len() as int;
    lemma_items_front(t);
    let v = items[j];
    assert(t[0] == v);
    assert(plain_item(v));
    assert(plain_element(v));
    let rest = if t.len() == 1 {
        Seq::<char>::empty()
    } else {
        seq![';', ' '] + render_items(t.drop_first())
    };
    let y = rest + seq![';'];
    assert(render_items(t) == render(v) + rest);
    assert(s =~= x + render(v) + y);
    lemma_read_element(v, x, y);
    lemma_element_start(v);
    assert(s[p] == render(v)[0]);
    let q = p + render(v).len();
    lemma_read_item(v, x, y);
    assert(items.take(j).push(v) =~= items.take(j + 1));
    assert(t.drop_first() =~= items.skip(j + 1));
    assert(s[q] == ';');
    assert(document_items(s, q, items.take(j + 1)) == document_items(s, q + 1, items.take(j + 1)));
    if t.len() == 1 {
        assert(q + 1 == s.len());
        assert(items.take(j + 1) =~= items);
        assert(document_items(s, q + 1, items.take(j + 1)) == Ok::<Seq<Val>, Seq<char>>(items));
    } else {
        assert(s[q + 1] == ' ');
        let x2 = x + render(v) + seq![';', ' '];
        assert(s =~= x2 + render_items(items.skip(j + 1)) + seq![';']);
        lemma_read_document(items, j + 1, x2);
        assert(document_items(s, q + 1, items.take(j + 1)) == document_items(
            s,
            q + 2,
            items.take(j + 1),
        ));
    }
}

/// The text form of a document of names, arrays of names and digit runs
/// (nested to any depth), and `name:...` pairs of such arrays or of texts
/// without `,`, `]`, `;` (and not starting with `[`) reads back as the same
/// values.
pub proof fn law_text_roundtrip(items: Seq<Val>)
    requires
        forall|i: int| 0 <= i < items.len() ==> plain_item(#[trigger] items[i]),
    ensures
        parse_document(render_document(items)) == Ok::<Seq<Val>, Seq<char>>(items),
{
    let s = render_document(items);
    if items.len() == 0 {
        assert(render_items(items) == Seq::<char>::empty());
        assert(s =~= seq![';']);
        assert(document_items(s, 0, items) == document_items(s, 1, items));
        assert(document_items(s, 1, items) == Ok::<Seq<Val>, Seq<char>>(items));
        assert(items =~= Seq::<Val>::empty());
    } else {
        assert(items.skip(0) =~= items);
        assert(items.take(0) =~= Seq::<Val>::empty());
        assert(s =~= Seq::<char>::empty() + render_items(items.skip(0)) + seq![';']);
        lemma_read_document(items, 0, Seq::<char>::empty());
        assert(parse_document(s) == document_items(s, 0, items.take(0)));
    }
}

} // verus!
