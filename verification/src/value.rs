use vstd::prelude::*;
use crate::pattern::{has_char, split, split_on};
use crate::text::{str_chars, string_of, trim, trimmed};

verus! {

/// A value of a `.list` document.
#[derive(Debug)]
pub enum ListValue {
    String(String),
    Array(Vec<ListValue>),
    KeyValue(String, Box<ListValue>),
}

/// The mathematical model of a [`ListValue`].
pub enum Val {
    Str(Seq<char>),
    Arr(Seq<Val>),
    Kv(Seq<char>, Box<Val>),
}

/// The model of a value: strings by their characters, arrays by the models of
/// their elements.
pub open spec fn model(v: &ListValue) -> Val
    decreases v,
{
    match v {
        ListValue::String(s) => Val::Str(s@),
        ListValue::Array(a) => Val::Arr(
            Seq::new(
                a@.len(),
                |i: int|
                    if 0 <= i < a@.len() {
                        model(&a@[i])
                    } else {
                        Val::Str(Seq::empty())
                    },
            ),
        ),
        ListValue::KeyValue(k, b) => Val::Kv(k@, Box::new(model(&**b))),
    }
}

impl View for ListValue {
    type V = Val;

    open spec fn view(&self) -> Val {
        model(self)
    }
}

/// The models of a sequence of values.
pub open spec fn models(a: Seq<ListValue>) -> Seq<Val> {
    Seq::new(a.len(), |i: int| a[i]@)
}

/// An array's model is the array of its elements' models.
pub proof fn lemma_array_model(a: Vec<ListValue>)
    ensures
        ListValue::Array(a)@ == Val::Arr(models(a@)),
{
    let v = ListValue::Array(a);
    assert(v@->Arr_0 =~= models(a@));
}

/// Pushing a value pushes its model.
pub proof fn lemma_models_push(a: Seq<ListValue>, v: ListValue)
    ensures
        models(a.push(v)) == models(a).push(v@),
{
    assert(models(a.push(v)) =~= models(a).push(v@));
}

/// The text form of a value: a string as itself, an array as its elements'
/// text forms joined by `,` inside brackets, a pair as `key:value`.
pub open spec fn render(v: Val) -> Seq<char>
    decreases v,
{
    match v {
        Val::Str(s) => s,
        Val::Arr(a) => seq!['['] + render_join(a) + seq![']'],
        Val::Kv(k, b) => k + seq![':'] + render(*b),
    }
}

/// The text forms of `a` joined by `,`.
pub open spec fn render_join(a: Seq<Val>) -> Seq<char>
    decreases a,
{
    if a.len() == 0 {
        Seq::empty()
    } else if a.len() == 1 {
        render(a[0])
    } else {
        render_join(a.drop_last()) + seq![','] + render(a.last())
    }
}

/// Joining one more element adds `,` and its text.
pub proof fn lemma_render_join_step(a: Seq<Val>, i: int)
    requires
        0 < i < a.len(),
    ensures
        render_join(a.take(i + 1)) == render_join(a.take(i)) + seq![','] + render(a[i]),
{
    assert(a.take(i + 1).drop_last() =~= a.take(i));
}

/// Appends the text form of `v`.
pub fn push_rendered(out: &mut String, v: &ListValue)
    ensures
        final(out)@ == old(out)@ + render(v@),
    decreases v,
{
    match v {
        ListValue::String(s) => {
            out.append(s.as_str());
        },
        ListValue::Array(a) => {
            let ghost m = v@->Arr_0;
            out.push('[');
            let mut i: usize = 0;
            while i < a.len()
                invariant
                    i <= a.len(),
                    *v == ListValue::Array(*a),
                    m == v@->Arr_0,
                    m.len() == a.len(),
                    forall|j: int| 0 <= j < a.len() ==> #[trigger] m[j] == a@[j]@,
                    out@ == old(out)@ + seq!['['] + render_join(m.take(i as int)),
                decreases a.len() - i,
            {
                proof {
                    broadcast use vstd::std_specs::vec::axiom_vec_index_decreases;

                    assert(decreases_to!(*v => v->Array_0));
                    assert(decreases_to!(*a => a[i as int]));
                }
                if i > 0 {
                    out.push(',');
                }
                push_rendered(out, &a[i]);
                proof {
                    if i > 0 {
                        lemma_render_join_step(m, i as int);
                    } else {
                        assert(m.take(1) =~= seq![m[0]]);
                    }
                }
                i = i + 1;
                assert(out@ =~= old(out)@ + seq!['['] + render_join(m.take(i as int)));
            }
            out.push(']');
            assert(m.take(a.len() as int) =~= m);
            assert(out@ =~= old(out)@ + render(v@));
        },
        ListValue::KeyValue(k, b) => {
            out.append(k.as_str());
            out.push(':');
            push_rendered(out, &**b);
            assert(out@ =~= old(out)@ + render(v@));
        },
    }
}

/// The text form of a value.
pub fn value_to_string(val: &ListValue) -> (r: String)
    ensures
        r@ == render(val@),
{
    let mut r = String::new();
    push_rendered(&mut r, val);
    assert(r@ =~= render(val@));
    r
}

/// Strings of the trimmed pieces.
pub open spec fn trimmed_pieces(p: Seq<Seq<char>>) -> Seq<Val> {
    Seq::new(p.len(), |i: int| Val::Str(trim(p[i])))
}

/// A value written in a command: trimmed, and an array of the trimmed
/// comma-separated pieces if it has a comma, else a string.
pub open spec fn simple_value(s: Seq<char>) -> Val {
    let t = trim(s);
    if has_char(t, ',') {
        Val::Arr(trimmed_pieces(split(t, ',')))
    } else {
        Val::Str(t)
    }
}

/// The array that the inside of `[...]` in a command stands for: empty if
/// it is blank, else the trimmed comma-separated pieces.
pub open spec fn list_literal(inner: Seq<char>) -> Val {
    if trim(inner).len() == 0 {
        Val::Arr(Seq::empty())
    } else {
        Val::Arr(trimmed_pieces(split(inner, ',')))
    }
}

/// An array of strings of the trimmed pieces of `s` between commas.
fn pieces_value(s: &[char]) -> (r: ListValue)
    ensures
        r@ == Val::Arr(trimmed_pieces(split(s@, ','))),
{
    let parts = split_on(s, ',');
    let mut out: Vec<ListValue> = Vec::new();
    let mut i: usize = 0;
    while i < parts.len()
        invariant
            i <= parts@.len(),
            parts@.len() == split(s@, ',').len(),
            forall|j: int| 0 <= j < parts@.len() ==> (#[trigger] parts@[j])@ == split(s@, ',')[j],
            out@.len() == i,
            forall|j: int| 0 <= j < i ==> (#[trigger] out@[j])@ == Val::Str(trim(split(s@, ',')[j])),
        decreases parts.len() - i,
    {
        let t = trimmed(parts[i].as_slice());
        out.push(ListValue::String(string_of(t.as_slice())));
        i = i + 1;
    }
    proof {
        lemma_array_model(out);
    }
    let r = ListValue::Array(out);
    assert(r@->Arr_0 =~= trimmed_pieces(split(s@, ',')));
    r
}

/// The value a command writes as `s`.
pub fn simple_value_of(s: &[char]) -> (r: ListValue)
    ensures
        r@ == simple_value(s@),
{
    let t = trimmed(s);
    let mut k: usize = 0;
    while k < t.len()
        invariant
            k <= t.len(),
            t@ == trim(s@),
            forall|j: int| 0 <= j < k ==> t@[j] != ',',
        decreases t.len() - k,
    {
        if t[k] == ',' {
            assert(has_char(t@, ','));
            return pieces_value(t.as_slice());
        }
        k = k + 1;
    }
    ListValue::String(string_of(t.as_slice()))
}

/// Reads a value written in a command: trimmed, an array of the trimmed
/// comma-separated pieces if it has a comma, else a string.
pub fn parse_simple_value(s: &str) -> (r: ListValue)
    ensures
        r@ == simple_value(s@),
{
    let cs = str_chars(s);
    simple_value_of(cs.as_slice())
}

/// The array that the inside of `[...]` stands for.
pub fn list_literal_of(inner: &[char]) -> (r: ListValue)
    ensures
        r@ == list_literal(inner@),
{
    let t = trimmed(inner);
    if t.len() == 0 {
        let v: Vec<ListValue> = Vec::new();
        proof {
            lemma_array_model(v);
        }
        let r = ListValue::Array(v);
        assert(r@->Arr_0 =~= Seq::<Val>::empty());
        r
    } else {
        pieces_value(inner)
    }
}

/// A copy of `v` with the same model.
pub fn copy_value(v: &ListValue) -> (r: ListValue)
    ensures
        r@ == v@,
    decreases v,
{
    match v {
        ListValue::String(s) => ListValue::String(s.clone()),
        ListValue::Array(a) => {
            let mut out: Vec<ListValue> = Vec::new();
            let mut i: usize = 0;
            while i < a.len()
                invariant
                    i <= a.len(),
                    *v == ListValue::Array(*a),
                    out@.len() == i,
                    forall|j: int| 0 <= j < i ==> (#[trigger] out@[j])@ == a@[j]@,
                decreases a.len() - i,
            {
                proof {
                    broadcast use vstd::std_specs::vec::axiom_vec_index_decreases;
                    assert(decreases_to!(*v => v->Array_0));
                    assert(decreases_to!(*a => a[i as int]));
                    assert(decreases_to!(*v => a[i as int]));
                }
                out.push(copy_value(&a[i]));
                i = i + 1;
            }
            let r = ListValue::Array(out);
            assert(r@ == v@) by {
                assert(model(&r) =~= model(v)) by {
                    if let Val::Arr(x) = model(&r) {
                        if let Val::Arr(y) = model(v) {
                            assert(x =~= y);
                        }
                    }
                }
            }
            r
        },
        ListValue::KeyValue(k, b) => ListValue::KeyValue(k.clone(), Box::new(copy_value(&**b))),
    }
}

impl Clone for ListValue {
    fn clone(&self) -> (r: Self)
        ensures
            r@ == self@,
    {
        copy_value(self)
    }
}

} // verus!
