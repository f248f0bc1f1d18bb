//! A convenient interface to documents: `List`, and `ListItem` for a path
//! into one.
use vstd::prelude::*;
use crate::command::{answer, Step};
use crate::data::{
    as_array, matching, msg_index_out_of_range, msg_not_array, msg_position_out_of_range,
    render_all, render_range, slice_of, step_into, string_views, ListData,
};
use crate::parser::parse_document;
use crate::semantics::{array_at, run_command, with_items, DocModel, Outcome};
use crate::value::{
    lemma_array_model, models, parse_simple_value, render, simple_value, value_to_string,
    ListValue, Val,
};

verus! {

/// One step of an item's path into a value: into the element of an array
/// (or of the array of a pair), except that element 0 of an array holding
/// exactly one array is the first element of that inner array.
pub open spec fn item_step(v: Val, j: usize) -> Option<Val> {
    match v {
        Val::Arr(a) => if a.len() == 1 && a[0] is Arr && j == 0 {
            step_into(a[0], 0)
        } else {
            step_into(v, j)
        },
        _ => step_into(v, j),
    }
}

/// The value reached from `v` by the item steps of `path`.
pub open spec fn item_descend(v: Val, path: Seq<usize>) -> Option<Val>
    decreases path.len(),
{
    if path.len() == 0 {
        Some(v)
    } else {
        match item_step(v, path[0]) {
            Some(w) => item_descend(w, path.drop_first()),
            None => None,
        }
    }
}

/// The value an item's path leads to: the document's value at its first
/// index, then item steps.
pub open spec fn item_value(d: DocModel, path: Seq<usize>) -> Option<Val> {
    if path.len() == 0 || path[0] >= d.items.len() {
        None
    } else {
        item_descend(d.items[path[0] as int], path.drop_first())
    }
}

/// The element `j` of an array value, or of the array of a pair.
fn element_of<'a>(v: &'a ListValue, j: usize) -> (r: Option<&'a ListValue>)
    ensures
        match r {
            Some(w) => step_into(v@, j) == Some(w@),
            None => step_into(v@, j) is None,
        },
{
    match v {
        ListValue::Array(arr) => {
            proof {
                lemma_array_model(*arr);
            }
            if j < arr.len() {
                Some(&arr[j])
            } else {
                None
            }
        },
        ListValue::KeyValue(_, b) => match &**b {
            ListValue::Array(arr) => {
                proof {
                    lemma_array_model(*arr);
                }
                if j < arr.len() {
                    Some(&arr[j])
                } else {
                    None
                }
            },
            _ => {
                assert(!(b@ is Arr));
                None
            },
        },
        _ => None,
    }
}

/// One item step (see [`item_step`]).
fn item_step_of<'a>(v: &'a ListValue, j: usize) -> (r: Option<&'a ListValue>)
    ensures
        match r {
            Some(w) => item_step(v@, j) == Some(w@),
            None => item_step(v@, j) is None,
        },
{
    match v {
        ListValue::Array(arr) => {
            proof {
                lemma_array_model(*arr);
            }
            if arr.len() == 1 && j == 0 {
                match &arr[0] {
                    ListValue::Array(_) => {
                        return element_of(&arr[0], 0);
                    },
                    _ => {},
                }
            }
            element_of(v, j)
        },
        _ => element_of(v, j),
    }
}

/// A path of indices into a document.
pub struct ListItem {
    data: ListData,
    indices: Vec<usize>,
}

impl View for ListItem {
    type V = (DocModel, Seq<usize>);

    closed spec fn view(&self) -> (DocModel, Seq<usize>) {
        (self.data@, self.indices@)
    }
}

/// The elements of the array that an item's path leads to, if it leads to
/// one.
pub open spec fn item_elements(v: (DocModel, Seq<usize>)) -> Option<Seq<Val>> {
    match item_value(v.0, v.1) {
        Some(w) => as_array(w),
        None => None,
    }
}

/// The texts of the elements of the array that an item's path leads to;
/// none if it leads to no array.
pub open spec fn item_array(v: (DocModel, Seq<usize>)) -> Seq<Seq<char>> {
    match item_elements(v) {
        Some(a) => render_all(a),
        None => Seq::empty(),
    }
}

impl ListItem {
    /// The item at `indices` of `data`.
    pub fn new(data: ListData, indices: Vec<usize>) -> (r: ListItem)
        ensures
            r@ == (data@, indices@),
    {
        ListItem { data, indices }
    }

    /// The value at the item's path (see [`item_value`]), if there is one.
    fn target(&self) -> (r: Option<&ListValue>)
        ensures
            match r {
                Some(v) => item_value(self@.0, self@.1) == Some(v@),
                None => item_value(self@.0, self@.1) is None,
            },
    {
        let n = self.indices.len();
        if n == 0 || self.indices[0] >= self.data.items.len() {
            return None;
        }
        let ghost target = item_value(self@.0, self@.1);
        let mut cur: &ListValue = &self.data.items[self.indices[0]];
        let mut k: usize = 1;
        assert(self.indices@.drop_first() =~= self.indices@.skip(1));
        while k < n
            invariant
                1 <= k <= n,
                n == self.indices@.len(),
                target == item_value(self@.0, self@.1),
                item_descend(cur@, self.indices@.skip(k as int)) == target,
            decreases n - k,
        {
            let j = self.indices[k];
            assert(self.indices@.skip(k as int).drop_first() =~= self.indices@.skip(k + 1));
            match item_step_of(cur, j) {
                Some(w) => {
                    cur = w;
                },
                None => {
                    return None;
                },
            }
            k = k + 1;
        }
        assert(self.indices@.skip(k as int).len() == 0);
        Some(cur)
    }

    /// The text of the value at the item's path (see [`item_value`]), or
    /// empty if there is none.
    pub fn value(&self) -> (r: String)
        ensures
            r@ == match item_value(self@.0, self@.1) {
                Some(v) => render(v),
                None => Seq::empty(),
            },
    {
        match self.target() {
            Some(v) => value_to_string(v),
            None => String::new(),
        }
    }

    /// The texts of the elements of the array at the item's path; empty if
    /// the path leads to no array.
    pub fn array(&self) -> (r: Vec<String>)
        ensures
            string_views(r@) == item_array(self@),
    {
        match self.target() {
            Some(ListValue::Array(arr)) => {
                proof {
                    lemma_array_model(*arr);
                }
                assert(models(arr@).subrange(0, arr@.len() as int) =~= models(arr@));
                render_range(arr, 0, arr.len())
            },
            _ => {
                let v: Vec<String> = Vec::new();
                assert(string_views(v@) =~= Seq::<Seq<char>>::empty());
                v
            },
        }
    }

    /// A slice of [`ListItem::array`]: from `start` to `end` (0 or past the
    /// end meaning the end), clamped to the array.
    pub fn slice(&self, start: usize, end: usize) -> (r: Vec<String>)
        ensures
            string_views(r@) == match item_elements(self@) {
                Some(a) => render_all(slice_of(a, start, end)),
                None => Seq::empty(),
            },
    {
        match self.target() {
            Some(ListValue::Array(arr)) => {
                proof {
                    lemma_array_model(*arr);
                }
                let len = arr.len();
                let actual_end = if end == 0 || end > len {
                    len
                } else {
                    end
                };
                let actual_start = if start > len {
                    len
                } else {
                    start
                };
                if actual_start >= actual_end {
                    let v: Vec<String> = Vec::new();
                    assert(string_views(v@) =~= render_all(Seq::empty()));
                    return v;
                }
                render_range(arr, actual_start, actual_end)
            },
            _ => {
                let v: Vec<String> = Vec::new();
                assert(string_views(v@) =~= Seq::<Seq<char>>::empty());
                v
            },
        }
    }

    /// The number of elements of [`ListItem::array`].
    pub fn len(&self) -> (n: usize)
        ensures
            n == item_array(self@).len(),
    {
        self.array().len()
    }

    /// Whether [`ListItem::array`] is empty.
    pub fn is_empty(&self) -> (b: bool)
        ensures
            b == (item_array(self@).len() == 0),
    {
        self.len() == 0
    }

    /// The item one index deeper.
    pub fn get(&self, index: usize) -> (r: ListItem)
        ensures
            r@ == (self@.0, self@.1.push(index)),
    {
        let mut new_indices = self.indices.clone();
        new_indices.push(index);
        assert(new_indices@ =~= self.indices@.push(index));
        ListItem { data: self.data.copy(), indices: new_indices }
    }

    /// The texts of [`ListItem::array`] one by one.
    pub fn into_iter(self) -> (r: ListItemIter)
        ensures
            string_views(r@.0) == item_array(self@),
            r@.1 == 0,
    {
        ListItemIter { items: self.array(), position: 0 }
    }
}

impl Clone for ListItem {
    fn clone(&self) -> (r: Self)
        ensures
            r@ == self@,
    {
        let indices = self.indices.clone();
        assert(indices@ =~= self.indices@);
        ListItem { data: self.data.copy(), indices }
    }
}

/// The texts of an item's array, one at a time.
pub struct ListItemIter {
    items: Vec<String>,
    position: usize,
}

impl View for ListItemIter {
    type V = (Seq<String>, nat);

    closed spec fn view(&self) -> (Seq<String>, nat) {
        (self.items@, self.position as nat)
    }
}

impl ListItemIter {
    /// The next text, if any is left.
    pub fn next(&mut self) -> (r: Option<String>)
        ensures
            final(self)@.0 == old(self)@.0,
            old(self)@.1 < old(self)@.0.len() ==> (r matches Some(s) && s@ == old(self)@.0[old(
                self,
            )@.1 as int]@ && final(self)@.1 == old(self)@.1 + 1),
            old(self)@.1 >= old(self)@.0.len() ==> r is None && final(self)@ == old(self)@,
    {
        if self.position < self.items.len() {
            let item = self.items[self.position].clone();
            self.position = self.position + 1;
            Some(item)
        } else {
            None
        }
    }

    /// How many texts are left, as a lower and an upper bound.
    pub fn size_hint(&self) -> (r: (usize, Option<usize>))
        ensures
            r.0 == self@.0.len() - self@.1 || (self@.1 > self@.0.len() && r.0 == 0),
            r.1 == Some(r.0),
    {
        let remaining = if self.position <= self.items.len() {
            self.items.len() - self.position
        } else {
            0
        };
        (remaining, Some(remaining))
    }
}

/// A document.
pub struct List {
    data: ListData,
}

impl View for List {
    type V = DocModel;

    closed spec fn view(&self) -> DocModel {
        self.data@
    }
}

/// The document an empty `List` holds.
pub open spec fn empty_doc() -> DocModel {
    DocModel { items: Seq::empty(), vars: Seq::empty(), lang: "en"@ }
}

/// The document that `List::new` makes of a text: its values, or none if it
/// does not parse.
pub open spec fn doc_of_text(content: Seq<char>) -> DocModel {
    match parse_document(content) {
        Ok(items) => DocModel { items: items, vars: Seq::empty(), lang: "en"@ },
        Err(_) => empty_doc(),
    }
}

/// `out` is what a call of some state of a function gave for the item of
/// value `i` of `d`.
pub open spec fn mapped_from<F: FnMut(ListItem) -> T, T>(d: DocModel, i: int, out: T) -> bool {
    exists|it: ListItem, g: F| #[trigger] call_ensures(g, (it,), out) && it@ == (d, seq![i as usize])
}

/// Some state of a function answered `b` for the item of value `i` of `d`.
pub open spec fn answered<F: FnMut(&ListItem) -> bool>(d: DocModel, i: usize, b: bool) -> bool {
    exists|it: &ListItem, g: F| #[trigger] call_ensures(g, (it,), b) && it@ == (d, seq![i])
}

/// `r` holds the items of the values `chosen` (in increasing order), for
/// which `f` answered `true`, and `f` answered `false` for every other value.
pub open spec fn picks<F: FnMut(&ListItem) -> bool>(
    d: DocModel,
    r: Seq<ListItem>,
    chosen: Seq<usize>,
) -> bool {
    &&& chosen.len() == r.len()
    &&& forall|a: int, b: int| 0 <= a < b < chosen.len() ==> chosen[a] < chosen[b]
    &&& forall|k: int|
        0 <= k < chosen.len() ==> chosen[k] < d.items.len() && (#[trigger] r[k])@ == (
            d,
            seq![chosen[k]],
        ) && answered::<F>(d, chosen[k], true)
    &&& forall|i: usize|
        i < d.items.len() && !chosen.contains(i) ==> answered::<F>(d, i, false)
}

impl List {
    /// The document of `content`, or an empty one if it does not parse.
    pub fn new(content: &str) -> (r: List)
        ensures
            r@ == doc_of_text(content@),
    {
        match ListData::from_string(content) {
            Ok(data) => {
                assert(data@.vars =~= Seq::<(Seq<char>, Val)>::empty());
                List { data }
            },
            Err(_) => List::empty(),
        }
    }

    /// The document of `content`, or the parse error.
    pub fn parse(content: &str) -> (r: Result<List, String>)
        ensures
            match r {
                Ok(l) => parse_document(content@) is Ok && l@ == doc_of_text(content@),
                Err(e) => parse_document(content@) == Err::<Seq<Val>, Seq<char>>(e@),
            },
    {
        match ListData::from_string(content) {
            Ok(data) => {
                assert(data@.vars =~= Seq::<(Seq<char>, Val)>::empty());
                Ok(List { data })
            },
            Err(e) => Err(e),
        }
    }

    /// An empty document.
    pub fn empty() -> (r: List)
        ensures
            r@ == empty_doc(),
    {
        let data = ListData::new();
        assert(data@.items =~= Seq::<Val>::empty());
        assert(data@.vars =~= Seq::<(Seq<char>, Val)>::empty());
        List { data }
    }

    /// A document holding `data`.
    pub fn from_data(data: ListData) -> (r: List)
        ensures
            r@ == data@,
    {
        List { data }
    }

    /// The text form of the document.
    pub fn to_string(&self) -> (r: String)
        ensures
            r@ == crate::data::render_document(self@.items),
    {
        self.data.to_string()
    }

    /// The number of values.
    pub fn len(&self) -> (n: usize)
        ensures
            n == self@.items.len(),
    {
        self.data.len()
    }

    /// Whether there are no values.
    pub fn is_empty(&self) -> (b: bool)
        ensures
            b == (self@.items.len() == 0),
    {
        self.data.is_empty()
    }

    /// The item at value `index`.
    pub fn get(&self, index: usize) -> (r: ListItem)
        ensures
            r@ == (self@, seq![index]),
    {
        let mut indices: Vec<usize> = Vec::new();
        indices.push(index);
        assert(indices@ =~= seq![index]);
        ListItem::new(self.data.copy(), indices)
    }

    /// The item at a path of indices.
    pub fn at(&self, indices: &[usize]) -> (r: ListItem)
        ensures
            r@ == (self@, indices@),
    {
        let mut v: Vec<usize> = Vec::new();
        let mut i: usize = 0;
        while i < indices.len()
            invariant
                i <= indices.len(),
                v@ == indices@.take(i as int),
            decreases indices.len() - i,
        {
            v.push(indices[i]);
            i = i + 1;
            assert(v@ =~= indices@.take(i as int));
        }
        assert(indices@.take(i as int) =~= indices@);
        ListItem::new(self.data.copy(), v)
    }

    /// The items at values `start` up to (not including) `end`, within the
    /// document.
    pub fn slice(&self, start: usize, end: usize) -> (r: Vec<ListItem>)
        ensures
            r@.len() == if start < end && start < self@.items.len() {
                (if end < self@.items.len() {
                    end as int
                } else {
                    self@.items.len() as int
                }) - start
            } else {
                0
            },
            forall|i: int| 0 <= i < r@.len() ==> (#[trigger] r@[i])@ == (self@, seq![(start + i) as usize]),
    {
        let stop = if end < self.len() {
            end
        } else {
            self.len()
        };
        let mut result: Vec<ListItem> = Vec::new();
        let mut i = start;
        while i < stop
            invariant
                start <= i,
                i <= stop || i == start,
                stop <= self@.items.len(),
                stop == if end < self@.items.len() {
                    end as int
                } else {
                    self@.items.len() as int
                },
                result@.len() == i - start,
                forall|j: int| 0 <= j < result@.len() ==> (#[trigger] result@[j])@ == (self@, seq![(start + j) as usize]),
            decreases stop - i,
        {
            result.push(self.get(i));
            i = i + 1;
        }
        result
    }

    /// Runs a command (see [`ListData::run_command`]).
    pub fn run_step(&mut self, command: &str) -> (r: Step)
        ensures
            crate::command::outcome(r, final(self)@) == run_command(old(self)@, command@),
    {
        self.data.run_command(command)
    }

    /// Runs a command that neither ends the program nor panics.
    pub fn run(&mut self, command: &str) -> (r: Result<String, String>)
        requires
            !(run_command(old(self)@, command@) is Exit),
            !(run_command(old(self)@, command@) is Abort),
        ensures
            Outcome::Reply(final(self)@, answer(r)) == run_command(old(self)@, command@),
    {
        self.data.execute_command(command)
    }

    /// The indices of the values whose text contains `pattern`.
    pub fn find(&self, pattern: &str) -> (r: Vec<usize>)
        ensures
            r@ == matching(self@.items, pattern@, self@.items.len() as int),
    {
        self.data.find(pattern)
    }

    /// The indices of the elements of the array at `index` whose text
    /// contains `pattern`.
    pub fn find_in(&self, index: usize, pattern: &str) -> (r: Option<Vec<usize>>)
        ensures
            r is Some <==> crate::semantics::array_at(self@.items, index as int) is Some,
            r matches Some(v) ==> v@ == matching(
                crate::semantics::array_at(self@.items, index as int)->0,
                pattern@,
                crate::semantics::array_at(self@.items, index as int)->0.len() as int,
            ),
    {
        self.data.find_in_array(index, pattern)
    }

    /// Appends the value `value` stands for (see [`simple_value`]) to the
    /// array at `index`.
    pub fn append(&mut self, index: usize, value: &str) -> (r: Result<(), String>)
        ensures
            match array_at(old(self)@.items, index as int) {
                Some(a) => r is Ok && final(self)@ == with_items(
                    old(self)@,
                    old(self)@.items.update(index as int, Val::Arr(a.push(simple_value(value@)))),
                ),
                None => r matches Err(e) && e@ == msg_not_array(index) && final(self)@ == old(
                    self,
                )@,
            },
    {
        let val = parse_simple_value(value);
        let r = self.data.append(index, val);
        proof {
            if r is Err {
                assert(self@.items =~= old(self)@.items);
            }
        }
        r
    }

    /// Inserts the value `value` stands for at `position` of the array at
    /// `index`.
    pub fn insert(&mut self, index: usize, position: usize, value: &str) -> (r: Result<(), String>)
        ensures
            match array_at(old(self)@.items, index as int) {
                Some(a) => if position <= a.len() {
                    r is Ok && final(self)@ == with_items(
                        old(self)@,
                        old(self)@.items.update(
                            index as int,
                            Val::Arr(a.insert(position as int, simple_value(value@))),
                        ),
                    )
                } else {
                    r matches Err(e) && e@ == msg_position_out_of_range(position) && final(self)@
                        == old(self)@
                },
                None => r matches Err(e) && e@ == msg_not_array(index) && final(self)@ == old(
                    self,
                )@,
            },
    {
        let val = parse_simple_value(value);
        let r = self.data.insert(index, position, val);
        proof {
            if r is Err {
                assert(self@.items =~= old(self)@.items);
            }
        }
        r
    }

    /// Removes value `index`.
    pub fn delete(&mut self, index: usize) -> (r: Result<(), String>)
        ensures
            index < old(self)@.items.len() ==> r is Ok && final(self)@ == with_items(
                old(self)@,
                old(self)@.items.remove(index as int),
            ),
            index >= old(self)@.items.len() ==> (r matches Err(e) && e@ == msg_index_out_of_range(
                index,
            ) && final(self)@ == old(self)@),
    {
        let ghost before = self.data.items@;
        let r = self.data.delete(index);
        proof {
            if index < before.len() {
                assert(self@.items =~= old(self)@.items.remove(index as int));
            } else {
                assert(self@.items =~= old(self)@.items);
            }
        }
        r
    }

    /// Replaces value `index` with the value `value` stands for.
    pub fn replace(&mut self, index: usize, value: &str) -> (r: Result<(), String>)
        ensures
            index < old(self)@.items.len() ==> r is Ok && final(self)@ == with_items(
                old(self)@,
                old(self)@.items.update(index as int, simple_value(value@)),
            ),
            index >= old(self)@.items.len() ==> (r matches Err(e) && e@ == msg_index_out_of_range(
                index,
            ) && final(self)@ == old(self)@),
    {
        let val = parse_simple_value(value);
        let ghost vm = val@;
        let r = self.data.replace(index, val);
        proof {
            if r is Ok {
                assert(self@.items =~= old(self)@.items.update(index as int, vm));
            } else {
                assert(self@.items =~= old(self)@.items);
            }
        }
        r
    }

    /// The items of all the values, in order.
    pub fn to_vec(&self) -> (r: Vec<ListItem>)
        ensures
            r@.len() == self@.items.len(),
            forall|i: int| 0 <= i < r@.len() ==> (#[trigger] r@[i])@ == (self@, seq![i as usize]),
    {
        let mut result: Vec<ListItem> = Vec::new();
        let mut i: usize = 0;
        while i < self.len()
            invariant
                i <= self@.items.len(),
                result@.len() == i,
                forall|j: int| 0 <= j < i ==> (#[trigger] result@[j])@ == (self@, seq![j as usize]),
            decreases self@.items.len() - i,
        {
            result.push(self.get(i));
            i = i + 1;
        }
        result
    }

    /// Calls `f` on the item of each value in turn and gives what it
    /// returns.
    pub fn map<F, T>(&self, mut f: F) -> (r: Vec<T>)
        where
            F: FnMut(ListItem) -> T,
        requires
            forall|it: ListItem| call_requires(f, (it,)),
        ensures
            r@.len() == self@.items.len(),
            forall|i: int| 0 <= i < r@.len() ==> mapped_from::<F, T>(self@, i, #[trigger] r@[i]),
    {
        let mut result: Vec<T> = Vec::new();
        let mut i: usize = 0;
        while i < self.len()
            invariant
                i <= self@.items.len(),
                result@.len() == i,
                forall|it: ListItem| call_requires(f, (it,)),
                forall|j: int| 0 <= j < i ==> mapped_from::<F, T>(self@, j, #[trigger] result@[j]),
            decreases self@.items.len() - i,
        {
            let item = self.get(i);
            let ghost g = f;
            let ghost iv = item;
            let out = f(item);
            assert(mapped_from::<F, T>(self@, i as int, out)) by {
                assert(call_ensures(g, (iv,), out));
            }
            let ghost before = result@;
            result.push(out);
            assert forall|j: int| 0 <= j < i + 1 implies mapped_from::<F, T>(
                self@,
                j,
                #[trigger] result@[j],
            ) by {
                if j < i {
                    assert(result@[j] == before[j]);
                }
            }
            i = i + 1;
        }
        result
    }

    /// Calls `f` on the item of each value in turn.
    pub fn for_each<F>(&self, mut f: F)
        where
            F: FnMut(ListItem),
        requires
            forall|it: ListItem| call_requires(f, (it,)),
    {
        let mut i: usize = 0;
        while i < self.len()
            invariant
                i <= self@.items.len(),
                forall|it: ListItem| call_requires(f, (it,)),
            decreases self@.items.len() - i,
        {
            f(self.get(i));
            i = i + 1;
        }
    }

    /// The items of the values, in order, for which `f` answers `true`.
    pub fn filter<F>(&self, mut f: F) -> (r: Vec<ListItem>)
        where
            F: FnMut(&ListItem) -> bool,
        requires
            forall|it: &ListItem| call_requires(f, (it,)),
        ensures
            exists|chosen: Seq<usize>| #[trigger] picks::<F>(self@, r@, chosen),
    {
        let mut result: Vec<ListItem> = Vec::new();
        let ghost mut chosen: Seq<usize> = Seq::empty();
        let mut i: usize = 0;
        while i < self.len()
            invariant
                i <= self@.items.len(),
                forall|it: &ListItem| call_requires(f, (it,)),
                chosen.len() == result@.len(),
                forall|a: int, b: int| 0 <= a < b < chosen.len() ==> chosen[a] < chosen[b],
                forall|k: int| 0 <= k < chosen.len() ==> #[trigger] chosen[k] < i,
                forall|k: int|
                    0 <= k < chosen.len() ==> (#[trigger] result@[k])@ == (self@, seq![chosen[k]])
                        && answered::<F>(self@, chosen[k], true),
                forall|j: usize| j < i && !chosen.contains(j) ==> answered::<F>(self@, j, false),
            decreases self@.items.len() - i,
        {
            let item = self.get(i);
            let ghost g = f;
            let ghost iv = item;
            let keep = f(&item);
            proof {
                assert(call_ensures(g, (&iv,), keep));
                assert(answered::<F>(self@, i, keep));
            }
            if keep {
                let ghost before = result@;
                let ghost chosen_before = chosen;
                result.push(item);
                proof {
                    chosen = chosen.push(i);
                    assert(result@[result@.len() - 1] == iv);
                    assert forall|k: int| 0 <= k < chosen.len() implies #[trigger] chosen[k] < i
                        + 1 by {
                        if k < chosen_before.len() {
                            assert(chosen_before[k] < i);
                        }
                    }
                    assert forall|a: int, b: int| 0 <= a < b < chosen.len() implies chosen[a]
                        < chosen[b] by {
                        if b < chosen_before.len() {
                            assert(chosen_before[a] < chosen_before[b]);
                        } else {
                            assert(chosen_before[a] < i);
                        }
                    }
                    assert forall|k: int| 0 <= k < chosen.len() implies (
                    #[trigger] result@[k])@ == (self@, seq![chosen[k]]) && answered::<F>(
                        self@,
                        chosen[k],
                        true,
                    ) by {
                        if k < chosen_before.len() {
                            assert(result@[k] == before[k]);
                            assert(chosen[k] == chosen_before[k]);
                        } else {
                            assert(result@[k] == iv);
                            assert(chosen[k] == i);
                        }
                    }
                    assert forall|j: usize| j < i + 1 && !chosen.contains(j) implies answered::<F>(
                        self@,
                        j,
                        false,
                    ) by {
                        if j < i {
                            if chosen_before.contains(j) {
                                let k = choose|k: int| 0 <= k < chosen_before.len() && chosen_before[k] == j;
                                assert(chosen[k] == j);
                            }
                        } else {
                            assert(chosen[chosen.len() - 1] == i);
                        }
                    }
                }
            } else {
                proof {
                    assert forall|k: int| 0 <= k < chosen.len() implies #[trigger] chosen[k] < i
                        + 1 by {
                        assert(chosen[k] < i);
                    }
                    assert forall|j: usize| j < i + 1 && !chosen.contains(j) implies answered::<F>(
                        self@,
                        j,
                        false,
                    ) by {}
                }
            }
            i = i + 1;
        }
        assert forall|k: int| 0 <= k < chosen.len() implies #[trigger] chosen[k] < self@.items.len() by {
            assert(chosen[k] < i);
        }
        assert(picks::<F>(self@, result@, chosen));
        result
    }

    /// The document.
    pub fn raw(&self) -> (r: &ListData)
        ensures
            r@ == self@,
    {
        &self.data
    }

    /// The document, to change.
    pub fn raw_mut(&mut self) -> (r: &mut ListData)
        ensures
            r@ == old(self)@,
            final(self)@ == final(r)@,
    {
        &mut self.data
    }

    /// The item at value `index`.
    pub fn idx(&self, index: usize) -> (r: ListItem)
        ensures
            r@ == (self@, seq![index]),
    {
        self.get(index)
    }

    /// The items of all the values, one at a time.
    pub fn into_iter(self) -> (r: ListIter)
        ensures
            r@ == (self@, 0nat),
    {
        ListIter { list: self, position: 0 }
    }
}

impl Clone for List {
    fn clone(&self) -> (r: Self)
        ensures
            r@ == self@,
    {
        List { data: self.data.copy() }
    }
}

/// The items of a document's values, one at a time.
pub struct ListIter {
    list: List,
    position: usize,
}

impl View for ListIter {
    type V = (DocModel, nat);

    closed spec fn view(&self) -> (DocModel, nat) {
        (self.list@, self.position as nat)
    }
}

impl ListIter {
    /// The item of the next value, if any is left.
    pub fn next(&mut self) -> (r: Option<ListItem>)
        ensures
            final(self)@.0 == old(self)@.0,
            old(self)@.1 < old(self)@.0.items.len() ==> (r matches Some(it) && it@ == (
                old(self)@.0,
                seq![old(self)@.1 as usize],
            ) && final(self)@.1 == old(self)@.1 + 1),
            old(self)@.1 >= old(self)@.0.items.len() ==> r is None && final(self)@ == old(self)@,
    {
        if self.position < self.list.len() {
            let item = self.list.get(self.position);
            self.position = self.position + 1;
            Some(item)
        } else {
            None
        }
    }

    /// How many items are left, as a lower and an upper bound.
    pub fn size_hint(&self) -> (r: (usize, Option<usize>))
        ensures
            r.0 == self@.0.items.len() - self@.1 || (self@.1 > self@.0.items.len() && r.0 == 0),
            r.1 == Some(r.0),
    {
        let len = self.list.len();
        let remaining = if self.position <= len {
            len - self.position
        } else {
            0
        };
        (remaining, Some(remaining))
    }
}

} // verus!
