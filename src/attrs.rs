//! The attribute list of an element, with the `id` and `class` values that
//! selector matching reads most, kept in caches that every change clears.

use vstd::prelude::*;
use crate::qualname::{QualName, QualNameView, qn_lt, lemma_qn_lt_irreflexive, lemma_qn_lt_transitive, lemma_qn_lt_total};
use crate::strings::{str_lt, str_less, ws_tokens, split_ascii_whitespace, lemma_str_lt_transitive, lemma_str_lt_total};

verus! {

/// A value that is set at most once until it is taken out again.
pub struct OnceLock<T> {
    value: Option<T>,
}

impl<T> OnceLock<T> {
    pub closed spec fn view(&self) -> Option<T> {
        self.value
    }

    /// An empty cell.
    pub fn new() -> (r: OnceLock<T>)
        ensures
            r@ is None,
    {
        OnceLock { value: None }
    }

    /// The value, if one was set.
    pub fn get(&self) -> (r: Option<&T>)
        ensures
            r matches Some(v) ==> self@ == Some(*v),
            r is None <==> self@ is None,
    {
        match &self.value {
            Some(v) => Some(v),
            None => None,
        }
    }

    /// Stores `value` if the cell is empty; otherwise hands `value` back.
    pub fn set(&mut self, value: T) -> (r: Result<(), T>)
        ensures
            old(self)@ is None ==> r is Ok && final(self)@ == Some(value),
            old(self)@ is Some ==> r == Err::<(), T>(value) && final(self)@ == old(self)@,
    {
        if self.value.is_some() {
            Err(value)
        } else {
            self.value = Some(value);
            Ok(())
        }
    }

    /// Empties the cell, handing back what it held.
    pub fn take(&mut self) -> (r: Option<T>)
        ensures
            r == old(self)@,
            final(self)@ is None,
    {
        let mut v = None;
        core::mem::swap(&mut self.value, &mut v);
        v
    }
}

/// An attribute as (name, value).
pub type AttrView = (QualNameView, Seq<char>);

/// Attribute storage: a `SmallVec` holding up to four attributes inline and
/// more on the heap. Its contents are named by `attr_list` and reached only
/// through the `list_*` functions below.
#[verifier::external_body]
pub struct AttrList {
    items: smallvec::SmallVec<[(QualName, String); 4]>,
}

/// What an attribute list holds, in order.
pub uninterp spec fn attr_list(v: AttrList) -> Seq<AttrView>;

/// Relies on `SmallVec::new`: an empty list.
#[verifier::external_body]
fn list_new() -> (r: AttrList)
    ensures
        attr_list(r) == Seq::<AttrView>::empty(),
{
    AttrList { items: smallvec::SmallVec::new() }
}

/// Relies on `SmallVec::len`: the number of items.
#[verifier::external_body]
fn list_len(v: &AttrList) -> (r: usize)
    ensures
        r == attr_list(*v).len(),
{
    v.items.len()
}

/// Relies on `SmallVec`'s `Index<usize>` (through its slice): the item at `i`.
#[verifier::external_body]
fn list_get(v: &AttrList, i: usize) -> (r: &(QualName, String))
    requires
        i < attr_list(*v).len(),
    ensures
        (r.0@, r.1@) == attr_list(*v)[i as int],
{
    &v.items[i]
}

/// Relies on `SmallVec::push`: `x` goes at the end.
#[verifier::external_body]
fn list_push(v: &mut AttrList, x: (QualName, String))
    ensures
        attr_list(*final(v)) == attr_list(*old(v)).push((x.0@, x.1@)),
{
    v.items.push(x)
}

/// Relies on `SmallVec::insert`: `x` goes at `i`, later items move up; it
/// panics where `i` exceeds the length.
#[verifier::external_body]
fn list_insert(v: &mut AttrList, i: usize, x: (QualName, String))
    requires
        i <= attr_list(*old(v)).len(),
    ensures
        attr_list(*final(v)) == attr_list(*old(v)).insert(i as int, (x.0@, x.1@)),
{
    v.items.insert(i, x)
}

/// Relies on `SmallVec::remove`: the item at `i` leaves, later items move
/// down; it panics where `i` is not below the length.
#[verifier::external_body]
fn list_remove(v: &mut AttrList, i: usize) -> (r: (QualName, String))
    requires
        i < attr_list(*old(v)).len(),
    ensures
        (r.0@, r.1@) == attr_list(*old(v))[i as int],
        attr_list(*final(v)) == attr_list(*old(v)).remove(i as int),
{
    v.items.remove(i)
}

/// Relies on `SmallVec::swap_remove`: the item at `i` leaves and the last
/// item takes its place; it panics where `i` is not below the length.
#[verifier::external_body]
fn list_swap_remove(v: &mut AttrList, i: usize) -> (r: (QualName, String))
    requires
        i < attr_list(*old(v)).len(),
    ensures
        (r.0@, r.1@) == attr_list(*old(v))[i as int],
        attr_list(*final(v)) == attr_list(*old(v)).update(i as int, attr_list(*old(v)).last()).drop_last(),
{
    v.items.swap_remove(i)
}

/// Relies on `SmallVec::pop`: the last item, if any, leaves.
#[verifier::external_body]
fn list_pop(v: &mut AttrList) -> (r: Option<(QualName, String)>)
    ensures
        attr_list(*old(v)).len() == 0 ==> r is None && attr_list(*final(v)) == attr_list(*old(v)),
        attr_list(*old(v)).len() > 0 ==> (r matches Some(a) && (a.0@, a.1@) == attr_list(*old(v)).last()
            && attr_list(*final(v)) == attr_list(*old(v)).drop_last()),
{
    v.items.pop()
}

/// Relies on `SmallVec::clear`: no item is left.
#[verifier::external_body]
fn list_clear(v: &mut AttrList)
    ensures
        attr_list(*final(v)) == Seq::<AttrView>::empty(),
{
    v.items.clear()
}

/// Relies on `SmallVec`'s `IndexMut<usize>`: the item at `i` is replaced by
/// `x`; it panics where `i` is not below the length.
#[verifier::external_body]
fn list_set(v: &mut AttrList, i: usize, x: (QualName, String))
    requires
        i < attr_list(*old(v)).len(),
    ensures
        attr_list(*final(v)) == attr_list(*old(v)).update(i as int, (x.0@, x.1@)),
{
    v.items[i] = x;
}

pub open spec fn attr_views(v: Seq<(QualName, String)>) -> Seq<AttrView> {
    v.map_values(|a: (QualName, String)| (a.0@, a.1@))
}

pub open spec fn str_views(v: Seq<String>) -> Seq<Seq<char>> {
    v.map_values(|s: String| s@)
}

pub open spec fn id_name() -> Seq<char> {
    seq!['i', 'd']
}

pub open spec fn class_name() -> Seq<char> {
    seq!['c', 'l', 'a', 's', 's']
}

/// The value of the first attribute whose local name is `id`.
pub open spec fn first_id(s: Seq<AttrView>) -> Option<Seq<char>>
    decreases s.len(),
{
    if s.len() == 0 {
        None
    } else if s[0].0.2 == id_name() {
        Some(s[0].1)
    } else {
        first_id(s.drop_first())
    }
}

/// The whitespace-separated tokens of every attribute whose local name is
/// `class`, in order.
pub open spec fn class_tokens(s: Seq<AttrView>) -> Seq<Seq<char>>
    decreases s.len(),
{
    if s.len() == 0 {
        seq![]
    } else {
        class_tokens(s.drop_last()) + (if s.last().0.2 == class_name() {
            ws_tokens(s.last().1)
        } else {
            seq![]
        })
    }
}

/// Strictly increasing, hence free of duplicates.
pub open spec fn sorted_strict(r: Seq<Seq<char>>) -> bool {
    forall|i: int, j: int| 0 <= i < j < r.len() ==> str_lt(#[trigger] r[i], #[trigger] r[j])
}

/// `r` is the sorted, de-duplicated set of class tokens of `s`.
pub open spec fn is_class_list(r: Seq<Seq<char>>, s: Seq<AttrView>) -> bool {
    sorted_strict(r) && r.to_set() == class_tokens(s).to_set()
}

/// Inserts `t` into the strictly sorted list `out` unless it is there.
fn insert_sorted(out: &mut Vec<String>, t: String)
    requires
        sorted_strict(str_views(old(out)@)),
    ensures
        sorted_strict(str_views(final(out)@)),
        str_views(final(out)@).to_set() == str_views(old(out)@).to_set().insert(t@),
{
    let ghost v = str_views(out@);
    let mut pos: usize = 0;
    while pos < out.len() && str_less(out[pos].as_str(), t.as_str())
        invariant
            v == str_views(out@),
            pos <= out.len(),
            forall|k: int| 0 <= k < pos ==> str_lt(#[trigger] v[k], t@),
        decreases out.len() - pos,
    {
        pos = pos + 1;
    }
    if pos < out.len() && out[pos] == t {
        proof {
            assert(v[pos as int] == t@);
            assert(v.to_set().insert(t@) =~= v.to_set());
        }
        return;
    }
    proof {
        if pos < v.len() {
            assert(!str_lt(v[pos as int], t@));
            lemma_str_lt_total(v[pos as int], t@);
            assert(str_lt(t@, v[pos as int]));
        }
    }
    let ghost tv = t@;
    out.insert(pos, t);
    proof {
        let w = str_views(out@);
        assert(w =~= v.insert(pos as int, tv));
        assert forall|i: int, j: int| 0 <= i < j < w.len() implies str_lt(#[trigger] w[i], #[trigger] w[j]) by {
            if j < pos {
            } else if i < pos && j == pos {
            } else if i < pos {
                assert(w[j] == v[j - 1]);
                assert(str_lt(v[i], v[j - 1]));
            } else if i == pos {
                assert(w[j] == v[j - 1]);
                if j - 1 > pos {
                    lemma_str_lt_transitive(tv, v[pos as int], v[j - 1]);
                }
            } else {
                assert(w[i] == v[i - 1]);
                assert(w[j] == v[j - 1]);
            }
        }
        assert forall|x: Seq<char>| w.to_set().contains(x) <==> v.to_set().insert(tv).contains(x) by {
            if w.to_set().contains(x) {
                let i = choose|i: int| 0 <= i < w.len() && w[i] == x;
                if i < pos {
                    assert(v[i] == x);
                } else if i > pos {
                    assert(v[i - 1] == x);
                }
            }
            if v.to_set().contains(x) {
                let i = choose|i: int| 0 <= i < v.len() && v[i] == x;
                if i < pos {
                    assert(w[i] == x);
                } else {
                    assert(w[i + 1] == x);
                }
            }
            if x == tv {
                assert(w[pos as int] == x);
            }
        }
        assert(w.to_set() =~= v.to_set().insert(tv));
    }
}

proof fn lemma_first_id_skip(s: Seq<AttrView>, i: int)
    requires
        0 <= i < s.len(),
        s[i].0.2 != id_name(),
    ensures
        first_id(s.skip(i)) == first_id(s.skip(i + 1)),
{
    assert(s.skip(i).drop_first() =~= s.skip(i + 1));
}

proof fn lemma_class_tokens_step(s: Seq<AttrView>, i: int)
    requires
        0 <= i < s.len(),
    ensures
        class_tokens(s.take(i + 1)) == class_tokens(s.take(i)) + (if s[i].0.2 == class_name() {
            ws_tokens(s[i].1)
        } else {
            seq![]
        }),
{
    assert(s.take(i + 1).drop_last() =~= s.take(i));
}

/// The value of the first attribute of `items` whose local name is `id`.
fn compute_id(items: &AttrList) -> (r: Option<String>)
    ensures
        match r {
            Some(v) => first_id(attr_list(*items)) == Some(v@),
            None => first_id(attr_list(*items)) is None,
        },
{
    let ghost s = attr_list(*items);
    let id = String::from_str("id");
    proof {
        reveal_strlit("id");
        assert(id@ =~= id_name());
        assert(s.skip(0) =~= s);
    }
    let mut i: usize = 0;
    while i < list_len(items)
        invariant
            s == attr_list(*items),
            i <= s.len(),
            id@ == id_name(),
            first_id(s) == first_id(s.skip(i as int)),
        decreases s.len() - i,
    {
        let a = list_get(items, i);
        if a.0.local == id {
            proof { assert(s.skip(i as int)[0] == s[i as int]); }
            return Some(a.1.clone());
        }
        proof { lemma_first_id_skip(s, i as int); }
        i = i + 1;
    }
    proof { assert(s.skip(i as int).len() == 0); }
    None
}

/// The sorted, de-duplicated class tokens of `items`.
fn compute_classes(items: &AttrList) -> (r: Vec<String>)
    ensures
        is_class_list(str_views(r@), attr_list(*items)),
{
    let ghost s = attr_list(*items);
    let class = String::from_str("class");
    proof {
        reveal_strlit("class");
        assert(class@ =~= class_name());
        assert(s.take(0) =~= Seq::<AttrView>::empty());
        assert(str_views(Seq::<String>::empty()).to_set() =~= class_tokens(s.take(0)).to_set());
    }
    let mut out: Vec<String> = Vec::new();
    let mut i: usize = 0;
    while i < list_len(items)
        invariant
            s == attr_list(*items),
            i <= s.len(),
            class@ == class_name(),
            sorted_strict(str_views(out@)),
            str_views(out@).to_set() == class_tokens(s.take(i as int)).to_set(),
        decreases s.len() - i,
    {
        proof { lemma_class_tokens_step(s, i as int); }
        let attr = list_get(items, i);
        if attr.0.local == class {
            let toks = split_ascii_whitespace(attr.1.as_str());
            let ghost tv = toks@.map_values(|t: String| t@);
            let ghost base = class_tokens(s.take(i as int)).to_set();
            let mut j: usize = 0;
            proof { assert(tv.take(0).to_set() =~= Set::<Seq<char>>::empty()); assert(base.union(Set::empty()) =~= base); }
            while j < toks.len()
                invariant
                    tv == toks@.map_values(|t: String| t@),
                    j <= toks.len(),
                    sorted_strict(str_views(out@)),
                    str_views(out@).to_set() == base.union(tv.take(j as int).to_set()),
                decreases toks.len() - j,
            {
                let t = toks[j].clone();
                insert_sorted(&mut out, t);
                proof {
                    assert(tv.take(j as int + 1) =~= tv.take(j as int).push(tv[j as int]));
                    tv.take(j as int).lemma_push_to_set_commute(tv[j as int]);
                    assert(base.union(tv.take(j as int + 1).to_set()) =~= base.union(tv.take(j as int).to_set()).insert(tv[j as int]));
                }
                j = j + 1;
            }
            proof {
                assert(tv.take(j as int) =~= tv);
                assert(s[i as int].1 == attr.1@);
                vstd::seq_lib::seq_to_set_distributes_over_add(class_tokens(s.take(i as int)), tv);
            }
        } else {
            proof {
                assert(class_tokens(s.take(i as int)) + Seq::<Seq<char>>::empty() =~= class_tokens(s.take(i as int)));
            }
        }
        i = i + 1;
    }
    proof { assert(s.take(i as int) =~= s); }
    out
}

/// Strictly increasing by name, hence no name twice.
pub open spec fn sorted_by_name(w: Seq<AttrView>) -> bool {
    forall|i: int, j: int| 0 <= i < j < w.len() ==> qn_lt(#[trigger] w[i].0, #[trigger] w[j].0)
}

/// `a` occurs in `s`, and no attribute before it has its name.
pub open spec fn first_of_name(s: Seq<AttrView>, a: AttrView) -> bool {
    exists|j: int| 0 <= j < s.len() && s[j] == a && forall|k: int| 0 <= k < j ==> (#[trigger] s[k]).0 != a.0
}

/// Some attribute of `w` has the name `n`.
pub open spec fn has_name(w: Seq<AttrView>, n: QualNameView) -> bool {
    exists|i: int| 0 <= i < w.len() && (#[trigger] w[i]).0 == n
}

/// `w` is `s` sorted by name, keeping for each name its first attribute.
pub open spec fn is_sorted_dedup(w: Seq<AttrView>, s: Seq<AttrView>) -> bool {
    &&& sorted_by_name(w)
    &&& forall|i: int| 0 <= i < w.len() ==> first_of_name(s, #[trigger] w[i])
    &&& forall|j: int| 0 <= j < s.len() ==> has_name(w, #[trigger] s[j].0)
}

fn copy_attr(a: &(QualName, String)) -> (r: (QualName, String))
    ensures
        (r.0@, r.1@) == (a.0@, a.1@),
{
    (a.0.copy(), a.1.clone())
}

/// `items` sorted by name, with only the first attribute of each name.
fn sorted_dedup(items: &AttrList) -> (r: AttrList)
    ensures
        is_sorted_dedup(attr_list(r), attr_list(*items)),
{
    let ghost s = attr_list(*items);
    let mut out = list_new();
    let mut j: usize = 0;
    while j < list_len(items)
        invariant
            s == attr_list(*items),
            j <= s.len(),
            sorted_by_name(attr_list(out)),
            forall|i: int| 0 <= i < attr_list(out).len() ==> first_of_name(s.take(j as int), #[trigger] attr_list(out)[i]),
            forall|m: int| 0 <= m < j ==> has_name(attr_list(out), #[trigger] s[m].0),
        decreases s.len() - j,
    {
        let ghost w = attr_list(out);
        let ghost a = s[j as int];
        let item = list_get(items, j);
        let mut pos: usize = 0;
        while pos < list_len(&out) && list_get(&out, pos).0.less(&item.0)
            invariant
                w == attr_list(out),
                j < s.len(),
                a == s[j as int],
                a == (item.0@, item.1@),
                pos <= w.len(),
                forall|k: int| 0 <= k < pos ==> qn_lt(#[trigger] w[k].0, a.0),
            decreases w.len() - pos,
        {
            pos = pos + 1;
        }
        proof {
            assert forall|i: int| 0 <= i < w.len() implies first_of_name(s.take(j as int + 1), #[trigger] w[i]) by {
                assert(first_of_name(s.take(j as int), w[i]));
                let jj = choose|jj: int| 0 <= jj < s.take(j as int).len() && s.take(j as int)[jj] == w[i]
                    && forall|k: int| 0 <= k < jj ==> (#[trigger] s.take(j as int)[k]).0 != w[i].0;
                assert(s.take(j as int + 1)[jj] == w[i]);
                assert forall|k: int| 0 <= k < jj implies (#[trigger] s.take(j as int + 1)[k]).0 != w[i].0 by {
                    assert(s.take(j as int)[k] == s.take(j as int + 1)[k]);
                }
            }
        }
        if pos < list_len(&out) && list_get(&out, pos).0.same(&item.0) {
            proof {
                assert(w[pos as int].0 == a.0);
                assert(has_name(w, s[j as int].0));
            }
        } else {
            proof {
                if pos < w.len() {
                    lemma_qn_lt_total(w[pos as int].0, a.0);
                    assert(qn_lt(a.0, w[pos as int].0));
                }
                assert(!has_name(w, a.0)) by {
                    if has_name(w, a.0) {
                        let m = choose|m: int| 0 <= m < w.len() && (#[trigger] w[m]).0 == a.0;
                        if m < pos {
                            lemma_qn_lt_irreflexive(a.0);
                        } else if m > pos {
                            assert(qn_lt(w[pos as int].0, w[m].0));
                            lemma_qn_lt_irreflexive(a.0);
                            lemma_qn_lt_transitive(a.0, w[pos as int].0, a.0);
                        }
                    }
                }
            }
            let na = copy_attr(item);
            list_insert(&mut out, pos, na);
            proof {
                let w2 = attr_list(out);
                assert(w2 =~= w.insert(pos as int, a));
                assert forall|x: int, y: int| 0 <= x < y < w2.len() implies qn_lt(#[trigger] w2[x].0, #[trigger] w2[y].0) by {
                    if y < pos {
                    } else if x < pos && y == pos {
                    } else if x < pos {
                        assert(w2[y] == w[y - 1]);
                        assert(qn_lt(w[x].0, w[y - 1].0));
                    } else if x == pos {
                        assert(w2[y] == w[y - 1]);
                        if y - 1 > pos {
                            lemma_qn_lt_transitive(a.0, w[pos as int].0, w[y - 1].0);
                        }
                    } else {
                        assert(w2[x] == w[x - 1]);
                        assert(w2[y] == w[y - 1]);
                    }
                }
                assert forall|i: int| 0 <= i < w2.len() implies first_of_name(s.take(j as int + 1), #[trigger] w2[i]) by {
                    if i < pos {
                        assert(w2[i] == w[i]);
                    } else if i > pos {
                        assert(w2[i] == w[i - 1]);
                    } else {
                        let t = s.take(j as int + 1);
                        assert(t[j as int] == a);
                        assert forall|k: int| 0 <= k < j implies (#[trigger] t[k]).0 != a.0 by {
                            assert(t[k] == s[k]);
                            assert(has_name(w, s[k].0));
                        }
                    }
                }
                assert forall|m: int| 0 <= m < j + 1 implies has_name(w2, #[trigger] s[m].0) by {
                    if m == j {
                        assert(w2[pos as int].0 == a.0);
                    } else {
                        assert(has_name(w, s[m].0));
                        let q = choose|q: int| 0 <= q < w.len() && (#[trigger] w[q]).0 == s[m].0;
                        if q < pos {
                            assert(w2[q] == w[q]);
                        } else {
                            assert(w2[q + 1] == w[q]);
                        }
                    }
                }
            }
        }
        j = j + 1;
    }
    proof { assert(s.take(j as int) =~= s); }
    out
}

fn copy_strings(v: &Vec<String>) -> (r: Vec<String>)
    ensures
        str_views(r@) == str_views(v@),
{
    let mut out: Vec<String> = Vec::new();
    let mut i: usize = 0;
    while i < v.len()
        invariant
            i <= v.len(),
            str_views(out@) == str_views(v@).take(i as int),
        decreases v.len() - i,
    {
        let s = v[i].clone();
        let ghost before = out@;
        out.push(s);
        proof {
            assert(s@ == str_views(v@)[i as int]);
            assert(str_views(out@) =~= str_views(before).push(s@));
            assert(str_views(out@) =~= str_views(v@).take(i as int + 1));
        }
        i = i + 1;
    }
    proof { assert(str_views(v@).take(i as int) =~= str_views(v@)); }
    out
}

pub open spec fn opt_str_view(o: Option<String>) -> Option<Seq<char>> {
    match o {
        Some(s) => Some(s@),
        None => None,
    }
}

/// The attributes of an element, in the order they are kept, with caches of
/// the `id` value and the class list that each change clears.
pub struct ElementAttributeTrigger {
    item: AttrList,
    id: OnceLock<Option<String>>,
    classes: OnceLock<Vec<String>>,
}

impl ElementAttributeTrigger {
    /// The attributes in order.
    pub closed spec fn view(&self) -> Seq<AttrView> {
        attr_list(self.item)
    }

    /// The caches, where filled, hold what the attributes give.
    pub closed spec fn wf(&self) -> bool {
        &&& (self.id@ matches Some(c) ==> opt_str_view(c) == first_id(self@))
        &&& (self.classes@ matches Some(c) ==> is_class_list(str_views(c@), self@))
    }

    /// Both caches are filled.
    pub closed spec fn is_cached(&self) -> bool {
        self.id@ is Some && self.classes@ is Some
    }

    /// Attributes `item`, in that order, with empty caches.
    pub fn new(item: Vec<(QualName, String)>) -> (r: ElementAttributeTrigger)
        ensures
            r.wf(),
            r@ == attr_views(item@),
    {
        let mut r = ElementAttributeTrigger { item: list_new(), id: OnceLock::new(), classes: OnceLock::new() };
        r.extend(&item);
        proof { assert(Seq::<AttrView>::empty() + attr_views(item@) =~= attr_views(item@)); }
        r
    }

    pub fn len(&self) -> (r: usize)
        ensures
            r == self@.len(),
    {
        list_len(&self.item)
    }

    pub fn is_empty(&self) -> (r: bool)
        ensures
            r == (self@.len() == 0),
    {
        list_len(&self.item) == 0
    }

    /// The attribute at `i`.
    pub fn get(&self, i: usize) -> (r: &(QualName, String))
        requires
            i < self@.len(),
        ensures
            (r.0@, r.1@) == self@[i as int],
    {
        list_get(&self.item, i)
    }

    /// The value of the first attribute whose local name is `id`.
    pub fn id(&self) -> (r: Option<String>)
        requires
            self.wf(),
        ensures
            opt_str_view(r) == first_id(self@),
    {
        match self.id.get() {
            Some(c) => match c {
                Some(v) => Some(v.clone()),
                None => None,
            },
            None => compute_id(&self.item),
        }
    }

    /// The sorted, de-duplicated tokens of all `class` attributes.
    pub fn classes(&self) -> (r: Vec<String>)
        requires
            self.wf(),
        ensures
            is_class_list(str_views(r@), self@),
    {
        match self.classes.get() {
            Some(c) => copy_strings(c),
            None => compute_classes(&self.item),
        }
    }

    /// Fills both caches.
    pub fn update_caches(&mut self)
        requires
            old(self).wf(),
        ensures
            final(self).wf(),
            final(self)@ == old(self)@,
            final(self).is_cached(),
    {
        if self.id.get().is_none() {
            let v = compute_id(&self.item);
            let _ = self.id.set(v);
        }
        if self.classes.get().is_none() {
            let c = compute_classes(&self.item);
            let _ = self.classes.set(c);
        }
    }

    fn reset(&mut self)
        ensures
            final(self).id@ is None,
            final(self).classes@ is None,
            final(self).item == old(self).item,
    {
        let _ = self.id.take();
        let _ = self.classes.take();
    }

    /// Adds an attribute at the end.
    pub fn push(&mut self, name: QualName, value: String)
        ensures
            final(self).wf(),
            final(self)@ == old(self)@.push((name@, value@)),
    {
        self.reset();
        list_push(&mut self.item, (name, value));
    }

    /// Adds copies of `items` at the end, in order.
    pub fn extend(&mut self, items: &Vec<(QualName, String)>)
        ensures
            final(self).wf(),
            final(self)@ == old(self)@ + attr_views(items@),
    {
        self.reset();
        let mut i: usize = 0;
        while i < items.len()
            invariant
                i <= items.len(),
                self.id@ is None,
                self.classes@ is None,
                attr_list(self.item) == old(self)@ + attr_views(items@).take(i as int),
            decreases items.len() - i,
        {
            let a = copy_attr(&items[i]);
            list_push(&mut self.item, a);
            proof {
                assert(attr_views(items@).take(i as int + 1) =~= attr_views(items@).take(i as int).push((a.0@, a.1@)));
                assert(attr_list(self.item) =~= old(self)@ + attr_views(items@).take(i as int + 1));
            }
            i = i + 1;
        }
        proof { assert(attr_views(items@).take(i as int) =~= attr_views(items@)); }
    }

    /// Inserts an attribute at position `i`.
    pub fn insert(&mut self, i: usize, name: QualName, value: String)
        requires
            i <= old(self)@.len(),
        ensures
            final(self).wf(),
            final(self)@ == old(self)@.insert(i as int, (name@, value@)),
    {
        self.reset();
        list_insert(&mut self.item, i, (name, value));
    }

    /// Removes and returns the attribute at position `i`.
    pub fn remove(&mut self, i: usize) -> (r: (QualName, String))
        requires
            i < old(self)@.len(),
        ensures
            final(self).wf(),
            (r.0@, r.1@) == old(self)@[i as int],
            final(self)@ == old(self)@.remove(i as int),
    {
        self.reset();
        list_remove(&mut self.item, i)
    }

    /// Removes the attribute at `i`, moving the last one into its place.
    pub fn swap_remove(&mut self, i: usize) -> (r: (QualName, String))
        requires
            i < old(self)@.len(),
        ensures
            final(self).wf(),
            (r.0@, r.1@) == old(self)@[i as int],
            final(self)@ == old(self)@.update(i as int, old(self)@.last()).drop_last(),
    {
        self.reset();
        list_swap_remove(&mut self.item, i)
    }

    /// Replaces the value of the attribute at `i`, keeping its name.
    pub fn set_value(&mut self, i: usize, value: String)
        requires
            i < old(self)@.len(),
        ensures
            final(self).wf(),
            final(self)@ == old(self)@.update(i as int, (old(self)@[i as int].0, value@)),
    {
        self.reset();
        let name = list_get(&self.item, i).0.copy();
        list_set(&mut self.item, i, (name, value));
    }

    /// Removes and returns the last attribute.
    pub fn pop(&mut self) -> (r: Option<(QualName, String)>)
        ensures
            final(self).wf(),
            old(self)@.len() == 0 ==> r is None && final(self)@ == old(self)@,
            old(self)@.len() > 0 ==> (r matches Some(a) && (a.0@, a.1@) == old(self)@.last()
                && final(self)@ == old(self)@.drop_last()),
    {
        self.reset();
        list_pop(&mut self.item)
    }

    /// Removes every attribute.
    pub fn clear(&mut self)
        ensures
            final(self).wf(),
            final(self)@ == Seq::<AttrView>::empty(),
    {
        self.reset();
        list_clear(&mut self.item);
    }

    /// Sorts the attributes by name and keeps only the first of each name.
    pub fn sort_dedup(&mut self)
        ensures
            final(self).wf(),
            is_sorted_dedup(final(self)@, old(self)@),
    {
        self.reset();
        let v = sorted_dedup(&self.item);
        self.item = v;
    }
}

/// How often `x` occurs in `s`.
fn count_attr(s: &ElementAttributeTrigger, x: &(QualName, String)) -> (r: usize)
    ensures
        r == s@.to_multiset().count((x.0@, x.1@)),
{
    let ghost v = s@;
    let ghost xv = (x.0@, x.1@);
    let mut n: usize = 0;
    let mut i: usize = 0;
    proof {
        assert(v.take(0) =~= Seq::<AttrView>::empty());
        assert(v.take(0).to_multiset().count(xv) == 0) by {
            broadcast use vstd::seq_lib::group_to_multiset_ensures;
        }
    }
    while i < s.len()
        invariant
            v == s@,
            xv == (x.0@, x.1@),
            i <= v.len(),
            n <= i,
            n == v.take(i as int).to_multiset().count(xv),
        decreases v.len() - i,
    {
        let a = s.get(i);
        let ghost before = v.take(i as int).to_multiset();
        proof {
            broadcast use vstd::seq_lib::group_to_multiset_ensures;
            assert(v.take(i as int + 1) =~= v.take(i as int).push(v[i as int]));
            assert(v.take(i as int + 1).to_multiset() =~= before.insert(v[i as int]));
        }
        let hit = a.0.same(&x.0) && a.1.eq(&x.1);
        proof {
            assert(hit == (v[i as int] == xv));
            assert(before.insert(v[i as int]).count(xv) == before.count(xv) + if v[i as int] == xv { 1nat } else { 0nat });
        }
        if hit {
            n = n + 1;
        }
        i = i + 1;
    }
    proof { assert(v.take(i as int) =~= v); }
    n
}

/// Every attribute of `a` occurs in `b` as often as in `a`.
fn counts_agree(a: &ElementAttributeTrigger, b: &ElementAttributeTrigger) -> (r: bool)
    ensures
        r == forall|i: int| 0 <= i < a@.len() ==> #[trigger] a@.to_multiset().count(a@[i]) == b@.to_multiset().count(a@[i]),
{
    let mut i: usize = 0;
    while i < a.len()
        invariant
            i <= a@.len(),
            forall|j: int| 0 <= j < i ==> #[trigger] a@.to_multiset().count(a@[j]) == b@.to_multiset().count(a@[j]),
        decreases a@.len() - i,
    {
        let x = a.get(i);
        if count_attr(a, x) != count_attr(b, x) {
            return false;
        }
        i = i + 1;
    }
    true
}

impl ElementAttributeTrigger {
    /// The two lists hold the same attributes, each as often, in any order.
    pub fn same_attrs(&self, other: &ElementAttributeTrigger) -> (r: bool)
        ensures
            r == (self@.to_multiset() == other@.to_multiset()),
    {
        let r = counts_agree(self, other) && counts_agree(other, self);
        proof {
            broadcast use vstd::seq_lib::group_to_multiset_ensures;
            let m1 = self@.to_multiset();
            let m2 = other@.to_multiset();
            if r {
                assert forall|x: AttrView| m1.count(x) == m2.count(x) by {
                    if self@.contains(x) {
                        let i = choose|i: int| 0 <= i < self@.len() && self@[i] == x;
                        assert(m1.count(self@[i]) == m2.count(self@[i]));
                    } else if other@.contains(x) {
                        let i = choose|i: int| 0 <= i < other@.len() && other@[i] == x;
                        assert(m2.count(other@[i]) == m1.count(other@[i]));
                    } else {
                        assert(m1.count(x) == 0);
                        assert(m2.count(x) == 0);
                    }
                }
                assert(m1 =~= m2);
            } else if m1 == m2 {
                assert(counts_agree_spec(self@, other@));
            }
        }
        r
    }
}

pub open spec fn counts_agree_spec(a: Seq<AttrView>, b: Seq<AttrView>) -> bool {
    (forall|i: int| 0 <= i < a.len() ==> #[trigger] a.to_multiset().count(a[i]) == b.to_multiset().count(a[i]))
        && (forall|i: int| 0 <= i < b.len() ==> #[trigger] b.to_multiset().count(b[i]) == a.to_multiset().count(b[i]))
}

} // verus!
