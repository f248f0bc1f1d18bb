//! A `.list` document: its values, its named variables and its language.
use vstd::prelude::*;
use crate::parser::{parse_document, parse_items};
use crate::semantics::DocModel;
use crate::text::{chars_contain, contains, push_decimal, str_chars, decimal};
use crate::value::{
    copy_value, lemma_array_model, models, push_rendered, render, value_to_string, ListValue, Val,
};

verus! {

/// Named values, each name at most once, in the order they were first set.
#[derive(Debug)]
pub struct Variables {
    entries: Vec<(String, ListValue)>,
}

/// The names and models of a sequence of entries.
pub open spec fn entry_models(e: Seq<(String, ListValue)>) -> Seq<(Seq<char>, Val)> {
    Seq::new(e.len(), |i: int| (e[i].0@, e[i].1@))
}

/// No name occurs twice.
pub open spec fn distinct_names(e: Seq<(Seq<char>, Val)>) -> bool {
    forall|i: int, j: int| 0 <= i < j < e.len() ==> (#[trigger] e[i]).0 != (#[trigger] e[j]).0
}

/// The value of `name` among `e`, if it is set.
pub open spec fn lookup(e: Seq<(Seq<char>, Val)>, name: Seq<char>) -> Option<Val>
    decreases e.len(),
{
    if e.len() == 0 {
        None
    } else if e.last().0 == name {
        Some(e.last().1)
    } else {
        lookup(e.drop_last(), name)
    }
}

/// Sets `name` to `v`: in place where it is set, else at the end.
pub open spec fn assign(e: Seq<(Seq<char>, Val)>, name: Seq<char>, v: Val) -> Seq<(Seq<char>, Val)> {
    if exists|i: int| 0 <= i < e.len() && (#[trigger] e[i]).0 == name {
        let i = choose|i: int| 0 <= i < e.len() && (#[trigger] e[i]).0 == name;
        e.update(i, (name, v))
    } else {
        e.push((name, v))
    }
}

impl View for Variables {
    type V = Seq<(Seq<char>, Val)>;

    closed spec fn view(&self) -> Seq<(Seq<char>, Val)> {
        entry_models(self.entries@)
    }
}

impl Variables {
    #[verifier::type_invariant]
    spec fn names_distinct(self) -> bool {
        distinct_names(entry_models(self.entries@))
    }

    /// No variables.
    pub fn new() -> (r: Variables)
        ensures
            r@ == Seq::<(Seq<char>, Val)>::empty(),
    {
        let r = Variables { entries: Vec::new() };
        assert(r@ =~= Seq::<(Seq<char>, Val)>::empty());
        r
    }

    /// The number of variables.
    pub fn len(&self) -> (n: usize)
        ensures
            n == self@.len(),
    {
        self.entries.len()
    }

    /// Whether there are no variables.
    pub fn is_empty(&self) -> (b: bool)
        ensures
            b == (self@.len() == 0),
    {
        self.entries.len() == 0
    }

    /// The name and value of the `i`-th variable.
    pub fn entry(&self, i: usize) -> (r: (&String, &ListValue))
        requires
            i < self@.len(),
        ensures
            (r.0@, r.1@) == self@[i as int],
    {
        let e = &self.entries[i];
        (&e.0, &e.1)
    }

    proof fn lemma_lookup_position(e: Seq<(Seq<char>, Val)>, name: Seq<char>, i: int)
        requires
            distinct_names(e),
            0 <= i < e.len(),
            e[i].0 == name,
        ensures
            lookup(e, name) == Some(e[i].1),
        decreases e.len(),
    {
        if i < e.len() - 1 {
            assert(e.drop_last()[i] == e[i]);
            Self::lemma_lookup_position(e.drop_last(), name, i);
        }
    }

    proof fn lemma_lookup_absent(e: Seq<(Seq<char>, Val)>, name: Seq<char>)
        requires
            forall|i: int| 0 <= i < e.len() ==> (#[trigger] e[i]).0 != name,
        ensures
            lookup(e, name) == None::<Val>,
        decreases e.len(),
    {
        if e.len() > 0 {
            assert(e[e.len() - 1].0 != name);
            assert forall|i: int| 0 <= i < e.drop_last().len() implies (
            #[trigger] e.drop_last()[i]).0 != name by {
                assert(e.drop_last()[i] == e[i]);
            }
            Self::lemma_lookup_absent(e.drop_last(), name);
        }
    }

    /// The position of `name`, if it is set.
    fn position(&self, name: &String) -> (r: Option<usize>)
        ensures
            match r {
                Some(i) => i < self@.len() && self@[i as int].0 == name@,
                None => forall|i: int| 0 <= i < self@.len() ==> (#[trigger] self@[i]).0 != name@,
            },
    {
        let mut i: usize = 0;
        while i < self.entries.len()
            invariant
                i <= self.entries@.len(),
                forall|j: int| 0 <= j < i ==> (#[trigger] self@[j]).0 != name@,
            decreases self.entries.len() - i,
        {
            if self.entries[i].0 == *name {
                return Some(i);
            }
            i = i + 1;
        }
        None
    }

    /// The value of `name`, if it is set.
    pub fn get(&self, name: &str) -> (r: Option<&ListValue>)
        ensures
            match r {
                Some(v) => lookup(self@, name@) == Some(v@),
                None => lookup(self@, name@) == None::<Val>,
            },
    {
        proof {
            use_type_invariant(self);
        }
        let key = String::from_str(name);
        match self.position(&key) {
            Some(i) => {
                proof {
                    Self::lemma_lookup_position(self@, name@, i as int);
                }
                Some(&self.entries[i].1)
            },
            None => {
                proof {
                    Self::lemma_lookup_absent(self@, name@);
                }
                None
            },
        }
    }

    /// Whether `name` is set.
    pub fn contains_key(&self, name: &str) -> (b: bool)
        ensures
            b == (lookup(self@, name@) is Some),
    {
        self.get(name).is_some()
    }

    /// Sets `name` to `value`.
    pub fn insert(&mut self, name: String, value: ListValue)
        ensures
            final(self)@ == assign(old(self)@, name@, value@),
    {
        proof {
            use_type_invariant(&*self);
        }
        let ghost old_e = self@;
        let ghost nm = name@;
        let ghost vm = value@;
        let pos = self.position(&name);
        let mut es: Vec<(String, ListValue)> = Vec::new();
        std::mem::swap(&mut es, &mut self.entries);
        assert(entry_models(es@) == old_e);
        match pos {
            Some(i) => {
                let mut entry = (name, value);
                es.set_and_swap(i, &mut entry);
                proof {
                    assert(exists|k: int| 0 <= k < old_e.len() && (#[trigger] old_e[k]).0 == nm);
                    let k = choose|k: int| 0 <= k < old_e.len() && (#[trigger] old_e[k]).0 == nm;
                    assert(k == i);
                    assert(entry_models(es@) =~= old_e.update(i as int, (nm, vm)));
                }
            },
            None => {
                es.push((name, value));
                assert(entry_models(es@) =~= old_e.push((nm, vm)));
            },
        }
        assert(distinct_names(entry_models(es@)));
        self.entries = es;
    }

    /// A copy with the same variables.
    pub fn copy(&self) -> (r: Variables)
        ensures
            r@ == self@,
    {
        proof {
            use_type_invariant(self);
        }
        let mut es: Vec<(String, ListValue)> = Vec::new();
        let mut i: usize = 0;
        while i < self.entries.len()
            invariant
                i <= self.entries@.len(),
                entry_models(es@) == entry_models(self.entries@).take(i as int),
            decreases self.entries.len() - i,
        {
            let e = &self.entries[i];
            let k = e.0.clone();
            let v = copy_value(&e.1);
            let ghost before = es@;
            es.push((k, v));
            assert(entry_models(es@) =~= entry_models(before).push((k@, v@)));
            i = i + 1;
            assert(entry_models(es@) =~= entry_models(self.entries@).take(i as int));
        }
        assert(entry_models(self.entries@).take(i as int) =~= entry_models(self.entries@));
        Variables { entries: es }
    }

    /// Removes every variable.
    pub fn clear(&mut self)
        ensures
            final(self)@ == Seq::<(Seq<char>, Val)>::empty(),
    {
        self.entries = Vec::new();
        assert(self@ =~= Seq::<(Seq<char>, Val)>::empty());
    }
}

/// The element `i` of an array, or of the array of a pair.
pub open spec fn step_into(v: Val, i: usize) -> Option<Val> {
    match v {
        Val::Arr(a) => if i < a.len() {
            Some(a[i as int])
        } else {
            None
        },
        Val::Kv(_, b) => match *b {
            Val::Arr(a) => if i < a.len() {
                Some(a[i as int])
            } else {
                None
            },
            _ => None,
        },
        Val::Str(_) => None,
    }
}

/// The value reached from `v` by stepping into each index of `path` in turn.
pub open spec fn descend(v: Val, path: Seq<usize>) -> Option<Val>
    decreases path.len(),
{
    if path.len() == 0 {
        Some(v)
    } else {
        match step_into(v, path[0]) {
            Some(w) => descend(w, path.drop_first()),
            None => None,
        }
    }
}

/// The value at `path` in a document: the item `path[0]`, then nested
/// elements; none for an empty path.
pub open spec fn value_at(items: Seq<Val>, path: Seq<usize>) -> Option<Val> {
    if path.len() == 0 || path[0] >= items.len() {
        None
    } else {
        descend(items[path[0] as int], path.drop_first())
    }
}

/// The text of a document's values, separated by `; `.
pub open spec fn render_items(items: Seq<Val>) -> Seq<char>
    decreases items.len(),
{
    if items.len() == 0 {
        Seq::empty()
    } else if items.len() == 1 {
        render(items[0])
    } else {
        render_items(items.drop_last()) + seq![';', ' '] + render(items.last())
    }
}

/// The text form of a document: its values separated by `; ` and a final
/// `;`.
pub open spec fn render_document(items: Seq<Val>) -> Seq<char> {
    render_items(items) + seq![';']
}

/// The text forms of the values `a`.
pub open spec fn render_all(a: Seq<Val>) -> Seq<Seq<char>> {
    Seq::new(a.len(), |i: int| render(a[i]))
}

/// The characters of each string.
pub open spec fn string_views(v: Seq<String>) -> Seq<Seq<char>> {
    Seq::new(v.len(), |i: int| v[i]@)
}

/// The indices, below `n`, of the values whose text contains `pat`, in
/// ascending order.
pub open spec fn matching(a: Seq<Val>, pat: Seq<char>, n: int) -> Seq<usize>
    decreases n,
{
    if n <= 0 {
        Seq::empty()
    } else if contains(render(a[n - 1]), pat) {
        matching(a, pat, n - 1).push((n - 1) as usize)
    } else {
        matching(a, pat, n - 1)
    }
}

/// The end of a slice `[start, end)` of an array of `len` elements: an `end`
/// of 0 or past the array means its end.
pub open spec fn slice_end(len: nat, end: usize) -> int {
    if end == 0 || end > len {
        len as int
    } else {
        end as int
    }
}

/// The start of a slice, clamped to the array.
pub open spec fn slice_start(len: nat, start: usize) -> int {
    if start > len {
        len as int
    } else {
        start as int
    }
}

/// The elements of `a` that a slice `(start, end)` selects.
pub open spec fn slice_of(a: Seq<Val>, start: usize, end: usize) -> Seq<Val> {
    let s = slice_start(a.len(), start);
    let e = slice_end(a.len(), end);
    if s >= e {
        Seq::empty()
    } else {
        a.subrange(s, e)
    }
}

/// The error for an index whose value is not an array.
pub open spec fn msg_not_array(index: usize) -> Seq<char> {
    "索引 "@ + decimal(index as nat) + " 不是数组"@
}

/// The error for a position past the end of an array.
pub open spec fn msg_position_out_of_range(position: usize) -> Seq<char> {
    "位置 "@ + decimal(position as nat) + " 超出范围"@
}

/// The error for an index past the end of the document.
pub open spec fn msg_index_out_of_range(index: usize) -> Seq<char> {
    "索引 "@ + decimal(index as nat) + " 超出范围"@
}

/// The array a value is, if it is one.
pub open spec fn as_array(v: Val) -> Option<Seq<Val>> {
    match v {
        Val::Arr(a) => Some(a),
        _ => None,
    }
}

/// The help text of the command language.
pub const HELP_TEXT: &'static str = ".list 命令帮助
================

【读取操作】
  [n]           - 读取第 n 个元素
  [n][m]        - 读取第 n 个元素的第 m 个子元素
  [n]/          - 读取第 n 个元素的键
  [n]<          - 读取第 n 个元素的值

【修改操作】
  .+[n]         - 在第 n 个位置创建新数组
  .+[n]=值      - 将值追加到第 n 个数组
  .+[n]>[m]=值  - 将值插入到第 n 个数组的第 m 位置
  .+>[n]=[...]  - 替换第 n 个数组为新内容
  .->[n]        - 删除第 n 个元素

【移动/插入操作】
  .>[src]>[dest]       - 把 [src] 移动到 [dest] 的末尾
  .>[src]>[dest]<[pos] - 把 [src] 插入到 [dest][pos] 的前面
  .>[src]>[dest]>[pos] - 把 [src] 插入到 [dest][pos] 的后面

【查询操作】
  .?关键词              - 在根级别查询关键词
  .?关键词>[n]          - 在 [n] 中查询关键词
  .?关键词>[n]-[m]      - 在 [n] 到 [m] 中查询关键词

【打印操作】
  .print>[n]           - 打印 [n] 的内容
  .print>关键词        - 打印关键词
  .print>$变量         - 打印变量
  .print>[n]-[m]       - 打印 [n] 到 [m] 的内容

【变量操作】
  $var=值       - 设置变量
  $var          - 读取变量
  $vars         - 显示所有变量

【语言设置】
  .setlang=en   - 设置语言为英文
  .sl=zh        - 设置语言为中文

【其他命令】
  .h 或 .help   - 显示此帮助
  exit()        - 退出程序
";

/// A `.list` document.
#[derive(Debug)]
pub struct ListData {
    pub items: Vec<ListValue>,
    pub variables: Variables,
    pub language: String,
}

/// The text forms of `a[from..to]`.
pub(crate) fn render_range(a: &Vec<ListValue>, from: usize, to: usize) -> (r: Vec<String>)
    requires
        from <= to <= a.len(),
    ensures
        string_views(r@) == render_all(models(a@).subrange(from as int, to as int)),
{
    let mut r: Vec<String> = Vec::new();
    let mut k = from;
    while k < to
        invariant
            from <= k <= to <= a.len(),
            r@.len() == k - from,
            forall|j: int| 0 <= j < r@.len() ==> (#[trigger] r@[j])@ == render(a@[from + j]@),
        decreases to - k,
    {
        let s = value_to_string(&a[k]);
        r.push(s);
        k = k + 1;
    }
    assert(string_views(r@) =~= render_all(models(a@).subrange(from as int, to as int)));
    r
}

/// The indices of the values of `a` whose text contains `pattern`.
fn matching_indices(a: &Vec<ListValue>, pattern: &str) -> (r: Vec<usize>)
    ensures
        r@ == matching(models(a@), pattern@, a@.len() as int),
{
    let pat = str_chars(pattern);
    let mut r: Vec<usize> = Vec::new();
    let mut i: usize = 0;
    while i < a.len()
        invariant
            i <= a.len(),
            pat@ == pattern@,
            r@ == matching(models(a@), pattern@, i as int),
        decreases a.len() - i,
    {
        let s = value_to_string(&a[i]);
        let sc = str_chars(s.as_str());
        if chars_contain(sc.as_slice(), pat.as_slice()) {
            r.push(i);
        }
        i = i + 1;
    }
    r
}

pub(crate) fn message_with_number(prefix: &str, n: usize, suffix: &str) -> (r: String)
    ensures
        r@ == prefix@ + decimal(n as nat) + suffix@,
{
    let mut r = String::from_str(prefix);
    push_decimal(&mut r, n);
    r.append(suffix);
    r
}

impl View for ListData {
    type V = DocModel;

    open spec fn view(&self) -> DocModel {
        DocModel { items: models(self.items@), vars: self.variables@, lang: self.language@ }
    }
}

impl ListData {
    /// The models of the document's values.
    pub open spec fn item_models(&self) -> Seq<Val> {
        models(self.items@)
    }

    /// An empty document with no variables, in language `en`.
    pub fn new() -> (r: ListData)
        ensures
            r.items@.len() == 0,
            r.variables@.len() == 0,
            r.language@ == "en"@,
    {
        ListData { items: Vec::new(), variables: Variables::new(), language: String::from_str("en") }
    }

    /// Parses a document. On success it has the parsed values, no
    /// variables, and language `en`; otherwise the error is the first
    /// parse error.
    pub fn from_string(content: &str) -> (r: Result<ListData, String>)
        ensures
            match r {
                Ok(d) => {
                    &&& parse_document(content@) == Ok::<Seq<Val>, Seq<char>>(d.item_models())
                    &&& d.variables@.len() == 0
                    &&& d.language@ == "en"@
                },
                Err(e) => parse_document(content@) == Err::<Seq<Val>, Seq<char>>(e@),
            },
    {
        let chars = str_chars(content);
        match parse_items(chars.as_slice()) {
            Ok(items) => {
                let mut d = ListData::new();
                d.items = items;
                Ok(d)
            },
            Err(e) => Err(e),
        }
    }

    /// The text form of the document.
    pub fn to_string(&self) -> (r: String)
        ensures
            r@ == render_document(self.item_models()),
    {
        let ghost m = self.item_models();
        let mut r = String::new();
        let mut i: usize = 0;
        while i < self.items.len()
            invariant
                i <= self.items.len(),
                m == self.item_models(),
                r@ == render_items(m.take(i as int)),
            decreases self.items.len() - i,
        {
            if i > 0 {
                r.push(';');
                r.push(' ');
            }
            push_rendered(&mut r, &self.items[i]);
            proof {
                if i > 0 {
                    assert(m.take(i + 1).drop_last() =~= m.take(i as int));
                } else {
                    assert(m.take(1) =~= seq![m[0]]);
                }
            }
            i = i + 1;
            assert(r@ =~= render_items(m.take(i as int)));
        }
        assert(m.take(self.items.len() as int) =~= m);
        r.push(';');
        r
    }

    /// A copy of the document.
    pub fn copy(&self) -> (r: ListData)
        ensures
            r@ == self@,
    {
        let mut items: Vec<ListValue> = Vec::new();
        let mut i: usize = 0;
        while i < self.items.len()
            invariant
                i <= self.items@.len(),
                models(items@) == models(self.items@).take(i as int),
            decreases self.items.len() - i,
        {
            let v = copy_value(&self.items[i]);
            proof {
                crate::value::lemma_models_push(items@, v);
            }
            items.push(v);
            i = i + 1;
            assert(models(items@) =~= models(self.items@).take(i as int));
        }
        assert(models(self.items@).take(i as int) =~= models(self.items@));
        ListData { items, variables: self.variables.copy(), language: self.language.clone() }
    }

    /// The number of values.
    pub fn len(&self) -> (n: usize)
        ensures
            n == self.items@.len(),
    {
        self.items.len()
    }

    /// Whether the document has no values.
    pub fn is_empty(&self) -> (b: bool)
        ensures
            b == (self.items@.len() == 0),
    {
        self.items.len() == 0
    }

    /// The value at a path of indices.
    pub fn get(&self, indices: &[usize]) -> (r: Option<&ListValue>)
        ensures
            match r {
                Some(v) => value_at(self.item_models(), indices@) == Some(v@),
                None => value_at(self.item_models(), indices@) == None::<Val>,
            },
    {
        if indices.len() == 0 || indices[0] >= self.items.len() {
            return None;
        }
        let ghost target = value_at(self.item_models(), indices@);
        let mut cur: &ListValue = &self.items[indices[0]];
        let mut k: usize = 1;
        assert(indices@.drop_first() =~= indices@.skip(1));
        while k < indices.len()
            invariant
                1 <= k <= indices.len(),
                target == value_at(self.item_models(), indices@),
                descend(cur@, indices@.skip(k as int)) == target,
            decreases indices.len() - k,
        {
            let i = indices[k];
            assert(indices@.skip(k as int).drop_first() =~= indices@.skip(k + 1));
            match cur {
                ListValue::Array(arr) => {
                    proof {
                        lemma_array_model(*arr);
                    }
                    if i < arr.len() {
                        cur = &arr[i];
                    } else {
                        return None;
                    }
                },
                ListValue::KeyValue(_, b) => {
                    match &**b {
                        ListValue::Array(arr) => {
                            proof {
                                lemma_array_model(*arr);
                            }
                            if i < arr.len() {
                                cur = &arr[i];
                            } else {
                                return None;
                            }
                        },
                        _ => {
                            assert(!(b@ is Arr));
                            return None;
                        },
                    }
                },
                _ => {
                    return None;
                },
            }
            k = k + 1;
        }
        assert(indices@.skip(k as int).len() == 0);
        Some(cur)
    }

    /// The array at `index`, if the value there is one.
    pub open spec fn array_at(&self, index: usize) -> Option<Seq<Val>> {
        if index < self.items@.len() {
            as_array(self.item_models()[index as int])
        } else {
            None
        }
    }

    /// The text forms of the elements of the array at `index`.
    pub fn get_array(&self, index: usize) -> (r: Option<Vec<String>>)
        ensures
            r is Some <==> self.array_at(index) is Some,
            r matches Some(v) ==> string_views(v@) == render_all(self.array_at(index)->0),
    {
        if index < self.items.len() {
            match &self.items[index] {
                ListValue::Array(arr) => {
                    proof {
                        lemma_array_model(*arr);
                    }
                    let v = render_range(arr, 0, arr.len());
                    assert(models(arr@).subrange(0, arr@.len() as int) =~= models(arr@));
                    return Some(v);
                },
                _ => {},
            }
        }
        None
    }

    /// The text forms of the elements of a slice of the array at `index`:
    /// from `start` to `end` (0 or past the end meaning the end), clamped to
    /// the array.
    pub fn get_slice(&self, index: usize, start: usize, end: usize) -> (r: Option<Vec<String>>)
        ensures
            r is Some <==> self.array_at(index) is Some,
            r matches Some(v) ==> string_views(v@) == render_all(
                slice_of(self.array_at(index)->0, start, end),
            ),
    {
        if index < self.items.len() {
            match &self.items[index] {
                ListValue::Array(arr) => {
                    proof {
                        lemma_array_model(*arr);
                    }
                    let len = arr.len();
                    let actual_end = if end == 0 || end > len {
                        len
                    } else {
                        end
                    };
                    let actual_start = if start > len {
                        len
                    } else {
                        start
                    };
                    if actual_start >= actual_end {
                        let v: Vec<String> = Vec::new();
                        assert(string_views(v@) =~= render_all(Seq::empty()));
                        return Some(v);
                    }
                    return Some(render_range(arr, actual_start, actual_end));
                },
                _ => {},
            }
        }
        None
    }

    /// The indices of the values whose text contains `pattern`.
    pub fn find(&self, pattern: &str) -> (r: Vec<usize>)
        ensures
            r@ == matching(self.item_models(), pattern@, self.items@.len() as int),
    {
        matching_indices(&self.items, pattern)
    }

    /// The indices of the elements of the array at `index` whose text
    /// contains `pattern`.
    pub fn find_in_array(&self, index: usize, pattern: &str) -> (r: Option<Vec<usize>>)
        ensures
            r is Some <==> self.array_at(index) is Some,
            r matches Some(v) ==> v@ == matching(
                self.array_at(index)->0,
                pattern@,
                self.array_at(index)->0.len() as int,
            ),
    {
        if index < self.items.len() {
            match &self.items[index] {
                ListValue::Array(arr) => {
                    proof {
                        lemma_array_model(*arr);
                    }
                    return Some(matching_indices(arr, pattern));
                },
                _ => {},
            }
        }
        None
    }

    /// Appends `value` to the array at `index`.
    pub fn append(&mut self, index: usize, value: ListValue) -> (r: Result<(), String>)
        ensures
            match old(self).array_at(index) {
                Some(a) => r is Ok && final(self).item_models() == old(self).item_models().update(
                    index as int,
                    Val::Arr(a.push(value@)),
                ),
                None => r matches Err(e) && e@ == msg_not_array(index) && final(self).items@ == old(
                    self,
                ).items@,
            },
            final(self).variables == old(self).variables,
            final(self).language == old(self).language,
    {
        if index < self.items.len() {
            let mut slot = ListValue::String(String::new());
            self.items.set_and_swap(index, &mut slot);
            match slot {
                ListValue::Array(mut arr) => {
                    let ghost old_arr = arr@;
                    proof {
                        lemma_array_model(arr);
                    }
                    arr.push(value);
                    proof {
                        lemma_array_model(arr);
                        crate::value::lemma_models_push(old_arr, value);
                    }
                    self.items.set(index, ListValue::Array(arr));
                    assert(self.item_models() =~= old(self).item_models().update(
                        index as int,
                        Val::Arr(as_array(old(self).item_models()[index as int])->0.push(value@)),
                    ));
                    return Ok(());
                },
                other => {
                    self.items.set(index, other);
                    assert(self.items@ =~= old(self).items@);
                },
            }
        }
        Err(message_with_number("索引 ", index, " 不是数组"))
    }
}

impl ListData {
    /// Inserts `value` at `position` of the array at `index`.
    pub fn insert(&mut self, index: usize, position: usize, value: ListValue) -> (r: Result<
        (),
        String,
    >)
        ensures
            match old(self).array_at(index) {
                Some(a) => if position <= a.len() {
                    r is Ok && final(self).item_models() == old(self).item_models().update(
                        index as int,
                        Val::Arr(a.insert(position as int, value@)),
                    )
                } else {
                    r matches Err(e) && e@ == msg_position_out_of_range(position)
                        && final(self).items@ == old(self).items@
                },
                None => r matches Err(e) && e@ == msg_not_array(index) && final(self).items@ == old(
                    self,
                ).items@,
            },
            final(self).variables == old(self).variables,
            final(self).language == old(self).language,
    {
        if index < self.items.len() {
            let mut slot = ListValue::String(String::new());
            self.items.set_and_swap(index, &mut slot);
            match slot {
                ListValue::Array(mut arr) => {
                    if position <= arr.len() {
                        let ghost old_arr = arr@;
                        proof {
                            lemma_array_model(arr);
                        }
                        arr.insert(position, value);
                        proof {
                            lemma_array_model(arr);
                            assert(models(arr@) =~= models(old_arr).insert(position as int, value@));
                        }
                        self.items.set(index, ListValue::Array(arr));
                        assert(self.item_models() =~= old(self).item_models().update(
                            index as int,
                            Val::Arr(models(old_arr).insert(position as int, value@)),
                        ));
                        return Ok(());
                    } else {
                        proof {
                            lemma_array_model(arr);
                        }
                        self.items.set(index, ListValue::Array(arr));
                        assert(self.items@ =~= old(self).items@);
                        return Err(message_with_number("位置 ", position, " 超出范围"));
                    }
                },
                other => {
                    self.items.set(index, other);
                    assert(self.items@ =~= old(self).items@);
                },
            }
        }
        Err(message_with_number("索引 ", index, " 不是数组"))
    }

    /// Removes the value at `index`.
    pub fn delete(&mut self, index: usize) -> (r: Result<(), String>)
        ensures
            index < old(self).items@.len() ==> r is Ok && final(self).items@ == old(
                self,
            ).items@.remove(index as int),
            index >= old(self).items@.len() ==> (r matches Err(e) && e@ == msg_index_out_of_range(
                index,
            ) && final(self).items@ == old(self).items@),
            final(self).variables == old(self).variables,
            final(self).language == old(self).language,
    {
        if index < self.items.len() {
            self.items.remove(index);
            Ok(())
        } else {
            Err(message_with_number("索引 ", index, " 超出范围"))
        }
    }

    /// Replaces the value at `index`.
    pub fn replace(&mut self, index: usize, new_value: ListValue) -> (r: Result<(), String>)
        ensures
            index < old(self).items@.len() ==> r is Ok && final(self).items@ == old(
                self,
            ).items@.update(index as int, new_value),
            index >= old(self).items@.len() ==> (r matches Err(e) && e@ == msg_index_out_of_range(
                index,
            ) && final(self).items@ == old(self).items@),
            final(self).variables == old(self).variables,
            final(self).language == old(self).language,
    {
        if index < self.items.len() {
            self.items.set(index, new_value);
            Ok(())
        } else {
            Err(message_with_number("索引 ", index, " 超出范围"))
        }
    }

    /// The help text of the command language.
    pub fn get_help(&self) -> (r: String)
        ensures
            r@ == HELP_TEXT@,
    {
        String::from_str(HELP_TEXT)
    }
}

impl Clone for ListData {
    fn clone(&self) -> (r: Self)
        ensures
            r@ == self@,
    {
        self.copy()
    }
}

} // verus!
