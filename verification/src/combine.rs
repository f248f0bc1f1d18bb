//! Combining two documents: joining one onto another, and taking the values
//! of one out of another.
use vstd::prelude::*;
use crate::data::{render_all, ListData};
use crate::value::{
    copy_value, lemma_array_model, lemma_models_push, models, render, value_to_string, ListValue,
    Val,
};

verus! {

/// Whether both documents are one array each.
pub open spec fn single_arrays(a: Seq<Val>, b: Seq<Val>) -> bool {
    a.len() == 1 && b.len() == 1 && a[0] is Arr && b[0] is Arr
}

/// `b` joined onto `a`: two one-array documents become one array of both
/// arrays' elements; otherwise the values of `b` follow those of `a`.
pub open spec fn merged(a: Seq<Val>, b: Seq<Val>) -> Seq<Val> {
    if single_arrays(a, b) {
        seq![Val::Arr(a[0]->Arr_0 + b[0]->Arr_0)]
    } else {
        a + b
    }
}

/// Whether the text of `v` is not among `gone`.
pub open spec fn kept_by(gone: Seq<Seq<char>>) -> spec_fn(Val) -> bool {
    |v: Val| !gone.contains(render(v))
}

/// `b` taken out of `a`: the values of `a` whose text is the text of some
/// value of `b` are dropped; for two one-array documents, the same is done
/// to the elements of the first array with the elements of the second.
pub open spec fn subtracted(a: Seq<Val>, b: Seq<Val>) -> Seq<Val> {
    if single_arrays(a, b) {
        seq![Val::Arr(a[0]->Arr_0.filter(kept_by(render_all(b[0]->Arr_0))))]
    } else {
        a.filter(kept_by(render_all(b)))
    }
}

/// Copies of the values `a` followed by copies of `b`.
fn joined_copies(a: &Vec<ListValue>, b: &Vec<ListValue>) -> (r: Vec<ListValue>)
    ensures
        models(r@) == models(a@) + models(b@),
{
    let mut r: Vec<ListValue> = Vec::new();
    let mut i: usize = 0;
    while i < a.len()
        invariant
            i <= a@.len(),
            models(r@) == models(a@.take(i as int)),
        decreases a@.len() - i,
    {
        proof {
            lemma_models_push(r@, a@[i as int]);
            assert(a@.take(i + 1) =~= a@.take(i as int).push(a@[i as int]));
            lemma_models_push(a@.take(i as int), a@[i as int]);
        }
        r.push(copy_value(&a[i]));
        i = i + 1;
    }
    assert(a@.take(a@.len() as int) =~= a@);
    let mut j: usize = 0;
    while j < b.len()
        invariant
            j <= b@.len(),
            models(r@) == models(a@) + models(b@.take(j as int)),
        decreases b@.len() - j,
    {
        proof {
            lemma_models_push(r@, b@[j as int]);
            assert(b@.take(j + 1) =~= b@.take(j as int).push(b@[j as int]));
            lemma_models_push(b@.take(j as int), b@[j as int]);
            assert(models(a@) + models(b@.take(j as int)).push(b@[j as int]@) =~= (models(a@)
                + models(b@.take(j as int))).push(b@[j as int]@));
        }
        r.push(copy_value(&b[j]));
        j = j + 1;
    }
    assert(b@.take(b@.len() as int) =~= b@);
    r
}

/// The text forms of the values `a`, one string each.
fn texts_of(a: &Vec<ListValue>) -> (r: Vec<String>)
    ensures
        r@.len() == a@.len(),
        forall|k: int| 0 <= k < a@.len() ==> (#[trigger] r@[k])@ == render(a@[k]@),
{
    let mut r: Vec<String> = Vec::new();
    let mut i: usize = 0;
    while i < a.len()
        invariant
            i <= a@.len(),
            r@.len() == i,
            forall|k: int| 0 <= k < i ==> (#[trigger] r@[k])@ == render(a@[k]@),
        decreases a@.len() - i,
    {
        r.push(value_to_string(&a[i]));
        i = i + 1;
    }
    r
}

/// Whether one of `texts` equals `t`.
fn among(texts: &Vec<String>, t: &String) -> (b: bool)
    ensures
        b == exists|k: int| 0 <= k < texts@.len() && (#[trigger] texts@[k])@ == t@,
{
    let mut i: usize = 0;
    while i < texts.len()
        invariant
            i <= texts@.len(),
            forall|k: int| 0 <= k < i ==> (#[trigger] texts@[k])@ != t@,
        decreases texts@.len() - i,
    {
        if texts[i] == *t {
            return true;
        }
        i = i + 1;
    }
    false
}

impl ListData {
    /// Joins `other` onto the document (see [`merged`]); the variables and
    /// the language stay.
    pub fn merge(&mut self, other: &ListData)
        ensures
            final(self)@.items == merged(old(self)@.items, other@.items),
            final(self)@.vars == old(self)@.vars,
            final(self)@.lang == old(self)@.lang,
    {
        let mut joined: Option<Vec<ListValue>> = None;
        if self.items.len() == 1 && other.items.len() == 1 {
            match (&self.items[0], &other.items[0]) {
                (ListValue::Array(a1), ListValue::Array(a2)) => {
                    joined = Some(joined_copies(a1, a2));
                    proof {
                        lemma_array_model(*a1);
                        lemma_array_model(*a2);
                    }
                },
                _ => {},
            }
        }
        match joined {
            Some(v) => {
                let ghost m = models(v@);
                proof {
                    lemma_array_model(v);
                }
                self.items.set(0, ListValue::Array(v));
                assert(self@.items =~= seq![Val::Arr(m)]);
            },
            None => {
                let mut j: usize = 0;
                let ghost start = old(self)@.items;
                while j < other.items.len()
                    invariant
                        j <= other@.items.len(),
                        other@.items.len() == other.items@.len(),
                        self@.items == start + other@.items.take(j as int),
                        self@.vars == old(self)@.vars,
                        self@.lang == old(self)@.lang,
                    decreases other.items@.len() - j,
                {
                    proof {
                        lemma_models_push(self.items@, other.items@[j as int]);
                        assert(other@.items.take(j + 1) =~= other@.items.take(j as int).push(
                            other@.items[j as int],
                        ));
                    }
                    self.items.push(copy_value(&other.items[j]));
                    j = j + 1;
                }
                assert(other@.items.take(j as int) =~= other@.items);
            },
        }
    }

    /// Takes the values of `other` out of the document (see
    /// [`subtracted`]); the variables and the language stay.
    pub fn subtract(&mut self, other: &ListData)
        ensures
            final(self)@.items == subtracted(old(self)@.items, other@.items),
            final(self)@.vars == old(self)@.vars,
            final(self)@.lang == old(self)@.lang,
    {
        if self.items.len() == 1 && other.items.len() == 1 {
            let mut rest: Option<Vec<ListValue>> = None;
            match (&self.items[0], &other.items[0]) {
                (ListValue::Array(a1), ListValue::Array(a2)) => {
                    proof {
                        lemma_array_model(*a1);
                        lemma_array_model(*a2);
                    }
                    rest = Some(kept_copies(a1, a2));
                },
                _ => {},
            }
            match rest {
                Some(v) => {
                    let ghost m = models(v@);
                    proof {
                        lemma_array_model(v);
                    }
                    self.items.set(0, ListValue::Array(v));
                    assert(self@.items =~= seq![Val::Arr(m)]);
                    return;
                },
                None => {},
            }
        }
        let kept = kept_copies(&self.items, &other.items);
        self.items = kept;
    }
}

/// Copies of the values of `a` whose text is not the text of a value of
/// `b`, in order.
fn kept_copies(a: &Vec<ListValue>, b: &Vec<ListValue>) -> (r: Vec<ListValue>)
    ensures
        models(r@) == models(a@).filter(kept_by(render_all(models(b@)))),
{
    let gone = texts_of(b);
    let ghost pred = kept_by(render_all(models(b@)));
    let ghost start = models(a@);
    let mut kept: Vec<ListValue> = Vec::new();
    let mut i: usize = 0;
    while i < a.len()
        invariant
            i <= a@.len(),
            start == models(a@),
            pred == kept_by(render_all(models(b@))),
            gone@.len() == b@.len(),
            forall|k: int| 0 <= k < b@.len() ==> (#[trigger] gone@[k])@ == render(b@[k]@),
            models(kept@) == start.take(i as int).filter(pred),
        decreases a@.len() - i,
    {
        let t = value_to_string(&a[i]);
        let found = among(&gone, &t);
        proof {
            reveal(Seq::filter);
            let v = start[i as int];
            let texts = render_all(models(b@));
            assert(start.take(i + 1).drop_last() =~= start.take(i as int));
            assert(start.take(i + 1).last() == v);
            assert(v == a@[i as int]@);
            assert(t@ == render(v));
            assert(pred(v) == !texts.contains(render(v)));
            if found {
                let k = choose|k: int| 0 <= k < gone@.len() && (#[trigger] gone@[k])@ == t@;
                assert(texts[k] == render(v));
                assert(texts.contains(render(v)));
            } else {
                if texts.contains(render(v)) {
                    let k = choose|k: int| 0 <= k < texts.len() && texts[k] == render(v);
                    assert(gone@[k]@ == t@);
                }
                assert(pred(v));
            }
        }
        if !found {
            proof {
                lemma_models_push(kept@, a@[i as int]);
            }
            kept.push(copy_value(&a[i]));
        }
        i = i + 1;
    }
    assert(start.take(i as int) =~= start);
    kept
}

} // verus!
