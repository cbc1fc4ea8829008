//! An ID-indexed tree: every node lives in one vector and is addressed by an
//! [`Index`]; parent, sibling and child links are indexes too.

use vstd::prelude::*;

verus! {

/// Position of a node in the tree's vector.
#[derive(Debug, Clone, Copy, PartialEq, Eq, Hash, Structural)]
pub struct Index {
    pos: usize,
}

impl Index {
    pub open spec fn view(&self) -> nat {
        self.spec_pos() as nat
    }

    pub closed spec fn spec_pos(&self) -> usize {
        self.pos
    }

    fn new(pos: usize) -> (r: Index)
        ensures
            r@ == pos,
    {
        Index { pos }
    }

    /// The identifier of the node: its position plus one, never zero.
    pub fn into_nonzero(self) -> (r: usize)
        requires
            self@ < usize::MAX,
        ensures
            r == self@ + 1,
            r != 0,
    {
        self.pos + 1
    }

    /// The position of the node in the tree's vector.
    pub fn into_usize(self) -> (r: usize)
        ensures
            r == self@,
    {
        self.pos
    }
}

impl Default for Index {
    /// The root's position.
    fn default() -> (r: Index)
        ensures
            r@ == 0,
    {
        Index { pos: 0 }
    }
}

/// One slot of the tree: the links of a node and the value it holds. Two
/// items are equal when their links and their values are.
#[derive(Debug, PartialEq, Eq)]
pub struct Item<T> {
    parent: Option<Index>,
    prev_sibling: Option<Index>,
    next_sibling: Option<Index>,
    children: Option<(Index, Index)>,
    value: T,
}

impl<T> Item<T> {
    pub closed spec fn spec_parent(&self) -> Option<Index> {
        self.parent
    }

    pub closed spec fn spec_prev(&self) -> Option<Index> {
        self.prev_sibling
    }

    pub closed spec fn spec_next(&self) -> Option<Index> {
        self.next_sibling
    }

    pub closed spec fn spec_children(&self) -> Option<(Index, Index)> {
        self.children
    }

    pub closed spec fn spec_value(&self) -> T {
        self.value
    }

    /// A node without links that holds `value`.
    pub fn new(value: T) -> (r: Item<T>)
        ensures
            r.spec_parent() is None,
            r.spec_prev() is None,
            r.spec_next() is None,
            r.spec_children() is None,
            r.spec_value() == value,
    {
        Item { parent: None, prev_sibling: None, next_sibling: None, children: None, value }
    }

    pub fn parent(&self) -> (r: Option<Index>)
        ensures
            r == self.spec_parent(),
    {
        self.parent
    }

    pub fn prev_sibling(&self) -> (r: Option<Index>)
        ensures
            r == self.spec_prev(),
    {
        self.prev_sibling
    }

    pub fn next_sibling(&self) -> (r: Option<Index>)
        ensures
            r == self.spec_next(),
    {
        self.next_sibling
    }

    pub fn children(&self) -> (r: Option<(Index, Index)>)
        ensures
            r == self.spec_children(),
    {
        self.children
    }

    /// The first child, if any.
    pub fn first_children(&self) -> (r: Option<Index>)
        ensures
            r == (match self.spec_children() {
                Some((f, _)) => Some(f),
                None => None::<Index>,
            }),
    {
        match self.children {
            Some((f, _)) => Some(f),
            None => None,
        }
    }

    /// The last child, if any.
    pub fn last_children(&self) -> (r: Option<Index>)
        ensures
            r == (match self.spec_children() {
                Some((_, l)) => Some(l),
                None => None::<Index>,
            }),
    {
        match self.children {
            Some((_, l)) => Some(l),
            None => None,
        }
    }

    pub fn value(&self) -> (r: &T)
        ensures
            *r == self.spec_value(),
    {
        &self.value
    }

    pub fn value_mut(&mut self) -> (r: &mut T)
        ensures
            *r == old(self).spec_value(),
            final(self).spec_value() == *final(r),
            final(self).spec_parent() == old(self).spec_parent(),
            final(self).spec_prev() == old(self).spec_prev(),
            final(self).spec_next() == old(self).spec_next(),
            final(self).spec_children() == old(self).spec_children(),
    {
        &mut self.value
    }
}

pub open spec fn opt_pos(o: Option<Index>) -> Option<nat> {
    match o {
        Some(i) => Some(i@),
        None => None,
    }
}

/// The child lists after `c` leaves its parent `parent`.
pub open spec fn model_detach(k: Seq<Seq<nat>>, parent: Option<nat>, c: nat) -> Seq<Seq<nat>> {
    match parent {
        Some(p) => k.update(p as int, k[p as int].remove(k[p as int].index_of(c))),
        None => k,
    }
}

/// The child lists after `c` leaves its parent and becomes the last child of `p`.
pub open spec fn model_append(k: Seq<Seq<nat>>, parent: Option<nat>, p: nat, c: nat) -> Seq<Seq<nat>> {
    let d = model_detach(k, parent, c);
    d.update(p as int, d[p as int].push(c))
}

/// The child lists after `c` leaves its parent and becomes the first child of `p`.
pub open spec fn model_prepend(k: Seq<Seq<nat>>, parent: Option<nat>, p: nat, c: nat) -> Seq<Seq<nat>> {
    let d = model_detach(k, parent, c);
    d.update(p as int, seq![c] + d[p as int])
}

/// The child lists after `x` leaves its parent and is placed in list `q` at
/// the position of `s` (`after` false) or just behind it (`after` true).
pub open spec fn model_insert(
    k: Seq<Seq<nat>>,
    parent: Option<nat>,
    q: nat,
    s: nat,
    x: nat,
    after: bool,
) -> Seq<Seq<nat>> {
    let d = model_detach(k, parent, x);
    let j = d[q as int].index_of(s);
    d.update(q as int, d[q as int].insert(if after { j + 1 } else { j }, x))
}

/// The child lists after all children of `n` move behind those of `p`.
pub open spec fn model_reparent_append(k: Seq<Seq<nat>>, p: nat, n: nat) -> Seq<Seq<nat>> {
    k.update(p as int, k[p as int] + k[n as int]).update(n as int, seq![])
}

/// The child lists after all children of `n` move before those of `p`.
pub open spec fn model_reparent_prepend(k: Seq<Seq<nat>>, p: nat, n: nat) -> Seq<Seq<nat>> {
    k.update(p as int, k[n as int] + k[p as int]).update(n as int, seq![])
}

proof fn lemma_insert_contains(b: Seq<nat>, k: int, c: nat, y: nat)
    requires
        0 <= k <= b.len(),
        y != c,
    ensures
        b.insert(k, c).contains(y) <==> b.contains(y),
{
    let a = b.insert(k, c);
    if a.contains(y) {
        let i = choose|i: int| 0 <= i < a.len() && a[i] == y;
        if i < k {
            assert(b[i] == y);
        } else {
            assert(b[i - 1] == y);
        }
    }
    if b.contains(y) {
        let i = choose|i: int| 0 <= i < b.len() && b[i] == y;
        if i < k {
            assert(a[i] == y);
        } else {
            assert(a[i + 1] == y);
        }
    }
}

proof fn lemma_index_of(s: Seq<nat>, c: nat, i: int)
    requires
        s.no_duplicates(),
        0 <= i < s.len(),
        s[i] == c,
    ensures
        s.index_of(c) == i,
{
    assert(s[i] == c);
    let j = s.index_of(c);
    assert(0 <= j < s.len() && s[j] == c);
}

/// A tree of values; the node at position 0 is the root.
pub struct UNITree<T> {
    vec: Vec<Item<T>>,
    kids: Ghost<Seq<Seq<nat>>>,
}

impl<T> UNITree<T> {
    /// Number of nodes, attached or not.
    pub closed spec fn spec_len(&self) -> nat {
        self.vec@.len()
    }

    /// The node at position `n`.
    pub closed spec fn item(&self, n: nat) -> Item<T> {
        self.vec@[n as int]
    }

    /// For each node, the positions of its children in order.
    pub closed spec fn kids(&self) -> Seq<Seq<nat>> {
        self.kids@
    }

    pub open spec fn parent_of(&self, n: nat) -> Option<nat> {
        opt_pos(self.item(n).spec_parent())
    }

    pub open spec fn prev_of(&self, n: nat) -> Option<nat> {
        opt_pos(self.item(n).spec_prev())
    }

    pub open spec fn next_of(&self, n: nat) -> Option<nat> {
        opt_pos(self.item(n).spec_next())
    }

    pub open spec fn value_of(&self, n: nat) -> T {
        self.item(n).spec_value()
    }

    /// The `(first, last)` child link of `n` agrees with its child list.
    pub open spec fn children_link_ok(&self, n: nat) -> bool {
        let s = self.kids()[n as int];
        &&& s.no_duplicates()
        &&& match self.item(n).spec_children() {
            None => s.len() == 0,
            Some((f, l)) => s.len() > 0 && f@ == s[0] && l@ == s.last(),
        }
    }

    /// The `i`-th child of `p` links back to `p` and to its neighbours in the list.
    pub open spec fn kid_ok(&self, p: nat, i: int) -> bool {
        let s = self.kids()[p as int];
        let c = s[i];
        &&& c < self.spec_len()
        &&& self.parent_of(c) == Some(p)
        &&& self.prev_of(c) == (if i == 0 { None::<nat> } else { Some(s[i - 1]) })
        &&& self.next_of(c) == (if i + 1 == s.len() { None::<nat> } else { Some(s[i + 1]) })
    }

    /// A node with a parent is listed among its children; one without has no siblings.
    pub open spec fn parent_link_ok(&self, c: nat) -> bool {
        match self.parent_of(c) {
            Some(p) => p < self.spec_len() && self.kids()[p as int].contains(c),
            None => self.prev_of(c) is None && self.next_of(c) is None,
        }
    }

    /// Well-formedness: the links stored in the nodes describe the child lists.
    pub open spec fn wf(&self) -> bool {
        &&& self.kids().len() == self.spec_len()
        &&& 0 < self.spec_len() < usize::MAX
        &&& self.parent_of(0) is None
        &&& forall|n: nat| n < self.spec_len() ==> #[trigger] self.children_link_ok(n)
        &&& forall|n: nat| n < self.spec_len() ==> #[trigger] self.parent_link_ok(n)
        &&& forall|p: nat, i: int|
            p < self.spec_len() && 0 <= i < self.kids()[p as int].len() ==> #[trigger] self.kid_ok(p, i)
    }

    /// The same number of nodes, holding the same values.
    pub open spec fn same_values(&self, other: &Self) -> bool {
        &&& self.spec_len() == other.spec_len()
        &&& forall|n: nat| n < self.spec_len() ==> #[trigger] self.value_of(n) == other.value_of(n)
    }

    /// A tree holding only the root `root`.
    pub fn new(root: T) -> (r: UNITree<T>)
        ensures
            r.wf(),
            r.spec_len() == 1,
            r.value_of(0) == root,
            r.kids() == seq![Seq::<nat>::empty()],
            r.acyclic(),
    {
        let mut vec: Vec<Item<T>> = Vec::new();
        vec.push(Item::new(root));
        let ghost k: Seq<Seq<nat>> = seq![Seq::<nat>::empty()];
        let r = UNITree { vec, kids: Ghost(k) };
        assert(r.children_link_ok(0));
        assert(r.parent_link_ok(0));
        assert forall|n: nat| n < r.spec_len() implies !#[trigger] r.is_ancestor(n, n) by {
            if r.is_ancestor(n, n) {
                let d = choose|d: nat| 1 <= d && #[trigger] ancestor_at(r, n, d) == Some(n);
                assert(n == 0);
            }
        }
        r
    }

    /// Number of nodes, attached or not.
    pub fn len(&self) -> (r: usize)
        ensures
            r == self.spec_len(),
    {
        self.vec.len()
    }

    /// Position of the root.
    pub fn root_index(&self) -> (r: Index)
        ensures
            r@ == 0,
    {
        Index::new(0)
    }

    /// The node at `index`, if there is one.
    pub fn get(&self, index: Index) -> (r: Option<&Item<T>>)
        ensures
            index@ < self.spec_len() <==> r is Some,
            r matches Some(it) ==> *it == self.item(index@),
    {
        if index.pos < self.vec.len() {
            Some(&self.vec[index.pos])
        } else {
            None
        }
    }

    /// Puts `value` at `index` and hands back the value that was there; the
    /// links stay as they are.
    pub fn replace_value(&mut self, index: Index, value: T) -> (r: T)
        requires
            old(self).wf(),
            index@ < old(self).spec_len(),
        ensures
            r == old(self).value_of(index@),
            final(self).wf(),
            final(self).spec_len() == old(self).spec_len(),
            final(self).kids() == old(self).kids(),
            final(self).value_of(index@) == value,
            forall|n: nat| n < old(self).spec_len() && n != index@ ==> #[trigger] final(self).value_of(n) == old(self).value_of(n),
            forall|n: nat| n < old(self).spec_len() ==> #[trigger] final(self).item(n).spec_parent() == old(self).item(n).spec_parent()
                && final(self).item(n).spec_prev() == old(self).item(n).spec_prev()
                && final(self).item(n).spec_next() == old(self).item(n).spec_next()
                && final(self).item(n).spec_children() == old(self).item(n).spec_children(),
            old(self).acyclic() ==> final(self).acyclic(),
    {
        let ghost old_self = *self;
        let mut v = value;
        core::mem::swap(&mut self.vec[index.pos].value, &mut v);
        proof {
            let len = self.spec_len();
            assert forall|n: nat| n < len implies #[trigger] self.children_link_ok(n) by {
                assert(old_self.children_link_ok(n));
            }
            assert forall|n: nat| n < len implies #[trigger] self.parent_link_ok(n) by {
                assert(old_self.parent_link_ok(n));
            }
            assert forall|p: nat, i: int| p < len && 0 <= i < self.kids()[p as int].len()
                implies #[trigger] self.kid_ok(p, i) by {
                assert(old_self.kid_ok(p, i));
            }
            if old_self.acyclic() {
                assert forall|n: nat| n < len implies !#[trigger] self.is_ancestor(n, n) by {
                    if self.is_ancestor(n, n) {
                        let d = choose|d: nat| 1 <= d && #[trigger] ancestor_at(*self, n, d) == Some(n);
                        assert forall|y: nat| y < len && y != len implies #[trigger] self.parent_of(y) == old_self.parent_of(y) by {
                            assert(self.item(y).spec_parent() == old_self.item(y).spec_parent());
                        }
                        assert forall|j: nat| j < d implies #[trigger] ancestor_at(old_self, n, j) != Some(len) by {
                            lemma_chain_in_range(old_self, n, j);
                        }
                        lemma_chain_agree(old_self, *self, len, n, d);
                        assert(old_self.is_ancestor(n, n));
                    }
                }
            }
        }
        v
    }

    /// Adds a node holding `value` that has no parent and no children.
    pub fn orphan(&mut self, value: T) -> (r: Index)
        requires
            old(self).wf(),
            old(self).spec_len() + 1 < usize::MAX,
        ensures
            final(self).wf(),
            r@ == old(self).spec_len(),
            final(self).spec_len() == old(self).spec_len() + 1,
            final(self).kids() == old(self).kids().push(Seq::<nat>::empty()),
            final(self).value_of(r@) == value,
            final(self).parent_of(r@) is None,
            forall|n: nat| n < old(self).spec_len() ==> #[trigger] final(self).item(n) == old(self).item(n),
            old(self).acyclic() ==> final(self).acyclic(),
    {
        let pos = self.vec.len();
        self.vec.push(Item::new(value));
        let ghost k = self.kids@.push(Seq::<nat>::empty());
        self.kids = Ghost(k);
        let r = Index::new(pos);
        assert forall|n: nat| n < self.spec_len() implies #[trigger] self.children_link_ok(n) by {
            if n < pos {
                assert(old(self).children_link_ok(n));
            }
        }
        assert forall|n: nat| n < self.spec_len() implies #[trigger] self.parent_link_ok(n) by {
            if n < pos {
                assert(old(self).parent_link_ok(n));
            }
        }
        assert forall|p: nat, i: int|
            p < self.spec_len() && 0 <= i < self.kids()[p as int].len() implies #[trigger] self.kid_ok(p, i) by {
            assert(old(self).kid_ok(p, i));
        }
        proof {
            if old(self).acyclic() {
                lemma_orphan_acyclic(*old(self), *self);
            }
        }
        r
    }

    proof fn lemma_detached_not_listed(&self, c: nat)
        requires
            self.wf(),
            c < self.spec_len(),
            self.parent_of(c) is None,
        ensures
            forall|q: nat| q < self.spec_len() ==> !(#[trigger] self.kids()[q as int]).contains(c),
    {
        assert forall|q: nat| q < self.spec_len() implies !(#[trigger] self.kids()[q as int]).contains(c) by {
            if self.kids()[q as int].contains(c) {
                let i = choose|i: int| 0 <= i < self.kids()[q as int].len() && self.kids()[q as int][i] == c;
                assert(self.kid_ok(q, i));
            }
        }
    }

    /// Unlinks the node at `c` from its parent and siblings.
    #[verifier::rlimit(40)]
    fn detach_at(&mut self, c: usize)
        requires
            old(self).wf(),
            c < old(self).spec_len(),
        ensures
            final(self).wf(),
            final(self).same_values(old(self)),
            final(self).parent_of(c as nat) is None,
            forall|n: nat| n < old(self).spec_len() && n != c ==> #[trigger] final(self).parent_of(n) == old(self).parent_of(n),
            final(self).kids() == model_detach(old(self).kids(), old(self).parent_of(c as nat), c as nat),
    {
        let parent = self.vec[c].parent;
        let pi = match parent {
            Some(pi) => pi,
            None => {
                return;
            },
        };
        let p = pi.pos;
        let prev = self.vec[c].prev_sibling;
        let next = self.vec[c].next_sibling;
        let ghost old_self = *self;
        let ghost s = self.kids@[p as int];
        let ghost i = s.index_of(c as nat);
        proof {
            assert(old_self.parent_link_ok(c as nat));
            assert(old_self.children_link_ok(p as nat));
            lemma_index_of(s, c as nat, i);
            assert(old_self.kid_ok(p as nat, i));
        }
        self.vec[c].parent = None;
        self.vec[c].prev_sibling = None;
        self.vec[c].next_sibling = None;
        match prev {
            Some(a) => {
                proof { assert(old_self.kid_ok(p as nat, i - 1)); }
                self.vec[a.pos].next_sibling = next;
            },
            None => {},
        }
        match next {
            Some(b) => {
                proof { assert(old_self.kid_ok(p as nat, i + 1)); }
                self.vec[b.pos].prev_sibling = prev;
            },
            None => {},
        }
        let (f, l) = match self.vec[p].children {
            Some(fl) => fl,
            None => {
                proof { assert(false); }
                return;
            },
        };
        if f.pos == l.pos {
            proof {
                if s.len() > 1 {
                    assert(s[0] != s[s.len() - 1]);
                }
            }
            self.vec[p].children = None;
        } else if f.pos == c {
            proof { assert(i == 0); assert(old_self.kid_ok(p as nat, 1)); }
            match next {
                Some(b) => {
                    self.vec[p].children = Some((b, l));
                },
                None => {
                    proof { assert(false); }
                },
            }
        } else if l.pos == c {
            proof { assert(i == s.len() - 1); }
            match prev {
                Some(a) => {
                    self.vec[p].children = Some((f, a));
                },
                None => {
                    proof { assert(false); }
                },
            }
        }
        let ghost ns = s.remove(i);
        let ghost k = self.kids@.update(p as int, ns);
        self.kids = Ghost(k);
        proof {
            let len = self.spec_len();
            assert forall|x: nat| x < len && x != c implies #[trigger] self.parent_of(x) == old_self.parent_of(x) by {}
            assert forall|q: nat, j: int| q < len && 0 <= j < self.kids()[q as int].len()
                implies #[trigger] self.kid_ok(q, j) by {
                if q == p {
                    if j < i {
                        assert(old_self.kid_ok(q, j));
                    } else {
                        assert(old_self.kid_ok(q, j + 1));
                    }
                } else {
                    assert(old_self.kid_ok(q, j));
                    let x = old_self.kids()[q as int][j];
                    assert(old_self.parent_of(x) == Some(q));
                }
            }
            assert forall|n: nat| n < len implies #[trigger] self.children_link_ok(n) by {
                assert(old_self.children_link_ok(n));
                if n == p {
                    assert forall|a: int, b: int| 0 <= a < ns.len() && 0 <= b < ns.len() && a != b
                        implies ns[a] != ns[b] by {
                        let a2 = if a < i { a } else { a + 1 };
                        let b2 = if b < i { b } else { b + 1 };
                        assert(s[a2] != s[b2]);
                    }
                }
            }
            assert forall|n: nat| n < len implies #[trigger] self.parent_link_ok(n) by {
                assert(old_self.parent_link_ok(n));
                if n != c {
                    if let Some(q) = old_self.parent_of(n) {
                        let j = choose|j: int| 0 <= j < old_self.kids()[q as int].len()
                            && old_self.kids()[q as int][j] == n;
                        assert(old_self.kid_ok(q, j));
                        if q == p {
                            if j < i {
                                assert(ns[j] == n);
                            } else {
                                assert(j != i);
                                assert(ns[j - 1] == n);
                            }
                        }
                    }
                }
            }
        }
    }

    /// Makes the detached node `c` the last child of `p`.
    fn link_last(&mut self, p: usize, c: usize)
        requires
            old(self).wf(),
            p < old(self).spec_len(),
            0 < c < old(self).spec_len(),
            p != c,
            old(self).parent_of(c as nat) is None,
        ensures
            final(self).wf(),
            final(self).same_values(old(self)),
            final(self).kids() == old(self).kids().update(p as int, old(self).kids()[p as int].push(c as nat)),
            final(self).parent_of(c as nat) == Some(p as nat),
            forall|y: nat| y < old(self).spec_len() && y != c ==> #[trigger] final(self).parent_of(y) == old(self).parent_of(y),
    {
        let ghost old_self = *self;
        let ghost s = self.kids@[p as int];
        proof {
            self.lemma_detached_not_listed(c as nat);
            assert(old_self.children_link_ok(p as nat));
            assert(old_self.parent_link_ok(c as nat));
        }
        let ci = Index::new(c);
        let last = match self.vec[p].children {
            Some((_, l)) => Some(l),
            None => None,
        };
        self.vec[c].parent = Some(Index::new(p));
        self.vec[c].prev_sibling = last;
        match last {
            Some(l) => {
                proof { assert(old_self.kid_ok(p as nat, s.len() - 1)); }
                self.vec[l.pos].next_sibling = Some(ci);
            },
            None => {},
        }
        let ch = match self.vec[p].children {
            Some((f, _)) => Some((f, ci)),
            None => Some((ci, ci)),
        };
        self.vec[p].children = ch;
        let ghost ns = s.push(c as nat);
        let ghost k = self.kids@.update(p as int, ns);
        self.kids = Ghost(k);
        proof {
            let len = self.spec_len();
            assert forall|q: nat, j: int| q < len && 0 <= j < self.kids()[q as int].len()
                implies #[trigger] self.kid_ok(q, j) by {
                if q == p {
                    if j < s.len() {
                        assert(old_self.kid_ok(q, j));
                    }
                } else {
                    assert(old_self.kid_ok(q, j));
                }
            }
            assert forall|n: nat| n < len implies #[trigger] self.children_link_ok(n) by {
                assert(old_self.children_link_ok(n));
            }
            assert forall|n: nat| n < len implies #[trigger] self.parent_link_ok(n) by {
                assert(old_self.parent_link_ok(n));
                if n == c {
                    assert(ns[ns.len() - 1] == c);
                } else if let Some(q) = old_self.parent_of(n) {
                    let j = choose|j: int| 0 <= j < old_self.kids()[q as int].len()
                        && old_self.kids()[q as int][j] == n;
                    assert(old_self.kid_ok(q, j));
                    if q == p {
                        assert(ns[j] == n);
                    }
                }
            }
        }
        proof {
            let len = self.spec_len();
            let b = old_self.kids()[p as int];
            assert(self.kids()[p as int] =~= b.insert(b.len() as int, c as nat));
            assert forall|q: nat, y: nat| q < len && y != c implies (#[trigger] self.kids()[q as int].contains(y)
                <==> old_self.kids()[q as int].contains(y)) by {
                if q == p {
                    lemma_insert_contains(b, b.len() as int, c as nat, y);
                }
            }
            lemma_same_parents(old_self, *self, c as nat);
            assert(self.kids()[p as int][b.len() as int] == c);
            self.lemma_listed(p as nat, c as nat);
        }
    }

    /// Makes the detached node `c` the first child of `p`.
    fn link_first(&mut self, p: usize, c: usize)
        requires
            old(self).wf(),
            p < old(self).spec_len(),
            0 < c < old(self).spec_len(),
            p != c,
            old(self).parent_of(c as nat) is None,
        ensures
            final(self).wf(),
            final(self).same_values(old(self)),
            final(self).kids() == old(self).kids().update(p as int, seq![c as nat] + old(self).kids()[p as int]),
            final(self).parent_of(c as nat) == Some(p as nat),
            forall|y: nat| y < old(self).spec_len() && y != c ==> #[trigger] final(self).parent_of(y) == old(self).parent_of(y),
    {
        let ghost old_self = *self;
        let ghost s = self.kids@[p as int];
        proof {
            self.lemma_detached_not_listed(c as nat);
            assert(old_self.children_link_ok(p as nat));
            assert(old_self.parent_link_ok(c as nat));
        }
        let ci = Index::new(c);
        let first = match self.vec[p].children {
            Some((f, _)) => Some(f),
            None => None,
        };
        self.vec[c].parent = Some(Index::new(p));
        self.vec[c].next_sibling = first;
        match first {
            Some(f) => {
                proof { assert(old_self.kid_ok(p as nat, 0)); }
                self.vec[f.pos].prev_sibling = Some(ci);
            },
            None => {},
        }
        let ch = match self.vec[p].children {
            Some((_, l)) => Some((ci, l)),
            None => Some((ci, ci)),
        };
        self.vec[p].children = ch;
        let ghost ns = seq![c as nat] + s;
        let ghost k = self.kids@.update(p as int, ns);
        self.kids = Ghost(k);
        proof {
            let len = self.spec_len();
            assert forall|q: nat, j: int| q < len && 0 <= j < self.kids()[q as int].len()
                implies #[trigger] self.kid_ok(q, j) by {
                if q == p {
                    if j > 0 {
                        assert(ns[j] == s[j - 1]);
                        assert(old_self.kid_ok(q, j - 1));
                    }
                } else {
                    assert(old_self.kid_ok(q, j));
                }
            }
            assert forall|n: nat| n < len implies #[trigger] self.children_link_ok(n) by {
                assert(old_self.children_link_ok(n));
                if n == p {
                    assert forall|a: int, b: int| 0 <= a < ns.len() && 0 <= b < ns.len() && a != b
                        implies ns[a] != ns[b] by {
                        if a > 0 && b > 0 {
                            assert(s[a - 1] != s[b - 1]);
                        } else if a == 0 {
                            assert(ns[b] == s[b - 1]);
                        } else {
                            assert(ns[a] == s[a - 1]);
                        }
                    }
                }
            }
            assert forall|n: nat| n < len implies #[trigger] self.parent_link_ok(n) by {
                assert(old_self.parent_link_ok(n));
                if n == c {
                    assert(ns[0] == c);
                } else if let Some(q) = old_self.parent_of(n) {
                    let j = choose|j: int| 0 <= j < old_self.kids()[q as int].len()
                        && old_self.kids()[q as int][j] == n;
                    assert(old_self.kid_ok(q, j));
                    if q == p {
                        assert(ns[j + 1] == n);
                    }
                }
            }
        }
        proof {
            let len = self.spec_len();
            let b = old_self.kids()[p as int];
            assert(self.kids()[p as int] =~= b.insert(0, c as nat));
            assert forall|q: nat, y: nat| q < len && y != c implies (#[trigger] self.kids()[q as int].contains(y)
                <==> old_self.kids()[q as int].contains(y)) by {
                if q == p {
                    lemma_insert_contains(b, 0, c as nat, y);
                }
            }
            lemma_same_parents(old_self, *self, c as nat);
            assert(self.kids()[p as int][0] == c);
            self.lemma_listed(p as nat, c as nat);
        }
    }

    /// Places the detached node `x` among the children of `s`'s parent, just
    /// before `s` (`after` false) or just after it (`after` true).
    #[verifier::rlimit(40)]
    fn link_beside(&mut self, s: usize, x: usize, after: bool)
        requires
            old(self).wf(),
            s < old(self).spec_len(),
            0 < x < old(self).spec_len(),
            s != x,
            old(self).parent_of(x as nat) is None,
            old(self).parent_of(s as nat) matches Some(q) && q != x,
        ensures
            final(self).wf(),
            final(self).same_values(old(self)),
            ({
                let q = old(self).parent_of(s as nat)->Some_0;
                let l = old(self).kids()[q as int];
                let j = l.index_of(s as nat);
                final(self).kids() == old(self).kids().update(q as int, l.insert(if after { j + 1 } else { j }, x as nat))
            }),
            final(self).parent_of(x as nat) == old(self).parent_of(s as nat),
            forall|y: nat| y < old(self).spec_len() && y != x ==> #[trigger] final(self).parent_of(y) == old(self).parent_of(y),
    {
        let ghost old_self = *self;
        let q = match self.vec[s].parent {
            Some(qi) => qi.pos,
            None => {
                proof { assert(false); }
                return;
            },
        };
        proof {
            assert(old_self.parent_link_ok(s as nat));
        }
        let ghost l = self.kids@[q as int];
        let ghost j = l.index_of(s as nat);
        proof {
            self.lemma_detached_not_listed(x as nat);
            assert(old_self.children_link_ok(q as nat));
            assert(old_self.parent_link_ok(x as nat));
            lemma_index_of(l, s as nat, j);
            assert(old_self.kid_ok(q as nat, j));
        }
        let ghost at: int = if after { j + 1 } else { j };
        let xi = Index::new(x);
        let si = Index::new(s);
        self.vec[x].parent = Some(Index::new(q));
        if after {
            let next = self.vec[s].next_sibling;
            self.vec[x].prev_sibling = Some(si);
            self.vec[x].next_sibling = next;
            self.vec[s].next_sibling = Some(xi);
            match next {
                Some(b) => {
                    proof { assert(old_self.kid_ok(q as nat, j + 1)); }
                    self.vec[b.pos].prev_sibling = Some(xi);
                },
                None => {
                    let f = match self.vec[q].children {
                        Some((f, _)) => f,
                        None => {
                            proof { assert(false); }
                            return;
                        },
                    };
                    self.vec[q].children = Some((f, xi));
                },
            }
        } else {
            let prev = self.vec[s].prev_sibling;
            self.vec[x].prev_sibling = prev;
            self.vec[x].next_sibling = Some(si);
            self.vec[s].prev_sibling = Some(xi);
            match prev {
                Some(a) => {
                    proof { assert(old_self.kid_ok(q as nat, j - 1)); }
                    self.vec[a.pos].next_sibling = Some(xi);
                },
                None => {
                    let last = match self.vec[q].children {
                        Some((_, last)) => last,
                        None => {
                            proof { assert(false); }
                            return;
                        },
                    };
                    self.vec[q].children = Some((xi, last));
                },
            }
        }
        let ghost ns = l.insert(at, x as nat);
        let ghost k = self.kids@.update(q as int, ns);
        self.kids = Ghost(k);
        proof {
            let len = self.spec_len();
            assert(ns.len() == l.len() + 1);
            assert forall|i: int| 0 <= i < ns.len() implies #[trigger] ns[i] == (if i < at { l[i] } else if i == at { x as nat } else { l[i - 1] }) by {}
            assert forall|p: nat, i: int| p < len && 0 <= i < self.kids()[p as int].len()
                implies #[trigger] self.kid_ok(p, i) by {
                if p == q {
                    if i < at {
                        assert(old_self.kid_ok(p, i));
                    } else if i > at {
                        assert(old_self.kid_ok(p, i - 1));
                    }
                } else {
                    assert(old_self.kid_ok(p, i));
                }
            }
            assert forall|n: nat| n < len implies #[trigger] self.children_link_ok(n) by {
                assert(old_self.children_link_ok(n));
                if n == q {
                    assert forall|a: int, b: int| 0 <= a < ns.len() && 0 <= b < ns.len() && a != b
                        implies ns[a] != ns[b] by {
                        if a != at && b != at {
                            let a2 = if a < at { a } else { a - 1 };
                            let b2 = if b < at { b } else { b - 1 };
                            assert(l[a2] != l[b2]);
                        } else if a == at {
                            let b2 = if b < at { b } else { b - 1 };
                            assert(l.contains(l[b2]));
                        } else {
                            let a2 = if a < at { a } else { a - 1 };
                            assert(l.contains(l[a2]));
                        }
                    }
                }
            }
            assert forall|n: nat| n < len implies #[trigger] self.parent_link_ok(n) by {
                assert(old_self.parent_link_ok(n));
                if n == x {
                    assert(ns[at] == x);
                } else if let Some(p) = old_self.parent_of(n) {
                    let i = choose|i: int| 0 <= i < old_self.kids()[p as int].len()
                        && old_self.kids()[p as int][i] == n;
                    assert(old_self.kid_ok(p, i));
                    if p == q {
                        if i < at {
                            assert(ns[i] == n);
                        } else {
                            assert(ns[i + 1] == n);
                        }
                    }
                }
            }
        }
        proof {
            let len = self.spec_len();
            let b = old_self.kids()[q as int];
            assert(self.kids()[q as int] =~= b.insert(at, x as nat));
            assert forall|q: nat, y: nat| q < len && y != x implies (#[trigger] self.kids()[q as int].contains(y)
                <==> old_self.kids()[q as int].contains(y)) by {
                if q == q {
                    lemma_insert_contains(b, at, x as nat, y);
                }
            }
            lemma_same_parents(old_self, *self, x as nat);
            assert(self.kids()[q as int][at] == x);
            self.lemma_listed(q as nat, x as nat);
        }
    }

    /// `a` is a proper ancestor of `n`: some number of parent links, at
    /// least one, lead from `n` to `a`.
    pub open spec fn is_ancestor(&self, a: nat, n: nat) -> bool {
        exists|d: nat| 1 <= d && #[trigger] ancestor_at(*self, n, d) == Some(a)
    }

    /// No node is its own proper ancestor.
    pub open spec fn acyclic(&self) -> bool {
        forall|n: nat| n < self.spec_len() ==> !#[trigger] self.is_ancestor(n, n)
    }

    /// Tells whether `a` is a proper ancestor of `n`, walking up parent links.
    pub fn is_ancestor_of(&self, a: Index, n: Index) -> (r: bool)
        requires
            self.wf(),
            self.acyclic(),
            n@ < self.spec_len(),
        ensures
            r == self.is_ancestor(a@, n@),
    {
        let mut cur = n.pos;
        let mut steps = self.vec.len();
        let ghost mut d: nat = 0;
        proof { lemma_chain_bounded(*self, n@); }
        while steps > 0
            invariant
                self.wf(),
                self.acyclic(),
                n@ < self.spec_len(),
                cur < self.spec_len(),
                d + steps == self.spec_len(),
                ancestor_at(*self, n@, d) == Some(cur as nat),
                forall|j: nat| 1 <= j <= d ==> #[trigger] ancestor_at(*self, n@, j) != Some(a@),
                ancestor_at(*self, n@, self.spec_len()) is None,
            decreases steps,
        {
            proof { assert(self.parent_link_ok(cur as nat)); }
            match self.vec[cur].parent {
                None => {
                    proof {
                        lemma_chain_ends(*self, n@, d, cur as nat);
                        assert forall|j: nat| 1 <= j implies #[trigger] ancestor_at(*self, n@, j) != Some(a@) by {
                            if j > d {
                                assert(ancestor_at(*self, n@, j) is None);
                            }
                        }
                    }
                    return false;
                },
                Some(m) => {
                    proof { lemma_ancestor_at_step(*self, n@, d, cur as nat, m@); }
                    if m.pos == a.pos {
                        proof { assert(ancestor_at(*self, n@, d + 1) == Some(a@)); }
                        return true;
                    }
                    cur = m.pos;
                    steps = steps - 1;
                    proof { d = d + 1; }
                },
            }
        }
        proof { assert(d == self.spec_len()); }
        false
    }

    /// Makes `index` an orphan: it leaves its parent's child list; its own
    /// children stay with it.
    pub fn detach(&mut self, index: Index)
        requires
            old(self).wf(),
            index@ < old(self).spec_len(),
        ensures
            final(self).wf(),
            final(self).same_values(old(self)),
            final(self).parent_of(index@) is None,
            final(self).kids() == model_detach(old(self).kids(), old(self).parent_of(index@), index@),
            old(self).acyclic() ==> final(self).acyclic(),
            old(self).acyclic() ==> final(self).kids()[index@ as int] == old(self).kids()[index@ as int]
                && final(self).item(index@).spec_children() == old(self).item(index@).spec_children(),
    {
        self.detach_at(index.pos);
        proof {
            if old(self).acyclic() {
                lemma_relink_acyclic(*old(self), *self, index@);
                if let Some(p) = old(self).parent_of(index@) {
                    lemma_parent_is_ancestor(*old(self), index@);
                    assert(p != index@);
                    assert(old(self).parent_link_ok(index@));
                    let k = old(self).kids();
                    assert(self.kids() == k.update(p as int, k[p as int].remove(k[p as int].index_of(index@))));
                    assert(self.kids()[index@ as int] == k[index@ as int]);
                }
                assert(self.kids()[index@ as int] == old(self).kids()[index@ as int]);
                assert(self.children_link_ok(index@));
                assert(old(self).children_link_ok(index@));
                match (self.item(index@).spec_children(), old(self).item(index@).spec_children()) {
                    (Some((f1, l1)), Some((f2, l2))) => {
                        assert(f1.pos == f2.pos);
                        assert(l1.pos == l2.pos);
                    },
                    _ => {},
                }
            }
        }
    }

    /// Makes `child_index` the last child of `parent_index`, taking it from
    /// where it was; nothing changes if it already is that last child.
    pub fn append(&mut self, parent_index: Index, child_index: Index)
        requires
            old(self).wf(),
            parent_index@ < old(self).spec_len(),
            0 < child_index@ < old(self).spec_len(),
            parent_index@ != child_index@,
            !old(self).is_ancestor(child_index@, parent_index@),
        ensures
            final(self).wf(),
            final(self).same_values(old(self)),
            final(self).parent_of(child_index@) == Some(parent_index@),
            final(self).kids() == (if old(self).kids()[parent_index@ as int].len() > 0
                && old(self).kids()[parent_index@ as int].last() == child_index@ {
                old(self).kids()
            } else {
                model_append(old(self).kids(), old(self).parent_of(child_index@), parent_index@, child_index@)
            }),
            old(self).acyclic() ==> final(self).acyclic(),
    {
        let p = parent_index.pos;
        let c = child_index.pos;
        proof { assert(self.children_link_ok(p as nat)); }
        match self.vec[p].children {
            Some((_, l)) => {
                if l.pos == c {
                    proof {
                        let s = self.kids()[p as int];
                        assert(self.kid_ok(p as nat, s.len() - 1));
                    }
                    return;
                }
            },
            None => {},
        }
        self.detach_at(c);
        let ghost mid = *self;
        self.link_last(p, c);
        proof {
            if old(self).acyclic() {
                lemma_move_keeps_acyclic(*old(self), mid, *self, c as nat, p as nat);
            }
        }
        proof {
            let s = self.kids()[p as int];
            assert(s[s.len() - 1] == c);
            assert(self.kid_ok(p as nat, s.len() - 1));
        }
    }

    /// Makes `child_index` the first child of `parent_index`, taking it from
    /// where it was; nothing changes if it already is that first child.
    pub fn prepend(&mut self, parent_index: Index, child_index: Index)
        requires
            old(self).wf(),
            parent_index@ < old(self).spec_len(),
            0 < child_index@ < old(self).spec_len(),
            parent_index@ != child_index@,
            !old(self).is_ancestor(child_index@, parent_index@),
        ensures
            final(self).wf(),
            final(self).same_values(old(self)),
            final(self).parent_of(child_index@) == Some(parent_index@),
            final(self).kids() == (if old(self).kids()[parent_index@ as int].len() > 0
                && old(self).kids()[parent_index@ as int][0] == child_index@ {
                old(self).kids()
            } else {
                model_prepend(old(self).kids(), old(self).parent_of(child_index@), parent_index@, child_index@)
            }),
            old(self).acyclic() ==> final(self).acyclic(),
    {
        let p = parent_index.pos;
        let c = child_index.pos;
        proof { assert(self.children_link_ok(p as nat)); }
        match self.vec[p].children {
            Some((f, _)) => {
                if f.pos == c {
                    proof { assert(self.kid_ok(p as nat, 0)); }
                    return;
                }
            },
            None => {},
        }
        self.detach_at(c);
        let ghost mid = *self;
        self.link_first(p, c);
        proof {
            if old(self).acyclic() {
                lemma_move_keeps_acyclic(*old(self), mid, *self, c as nat, p as nat);
            }
        }
        proof {
            let s = self.kids()[p as int];
            assert(s[0] == c);
            assert(self.kid_ok(p as nat, 0));
        }
    }

    /// Makes `x` the previous sibling of the attached node `index`.
    pub fn insert_before(&mut self, index: Index, x: Index)
        requires
            old(self).wf(),
            index@ < old(self).spec_len(),
            0 < x@ < old(self).spec_len(),
            index@ != x@,
            old(self).parent_of(index@) is Some,
            !old(self).is_ancestor(x@, index@),
        ensures
            final(self).wf(),
            final(self).same_values(old(self)),
            final(self).parent_of(x@) == old(self).parent_of(index@),
            final(self).kids() == model_insert(
                old(self).kids(),
                old(self).parent_of(x@),
                old(self).parent_of(index@)->Some_0,
                index@,
                x@,
                false,
            ),
            old(self).acyclic() ==> final(self).acyclic(),
    {
        let ghost q = self.parent_of(index@)->Some_0;
        proof {
            assert(self.parent_link_ok(index@));
            lemma_parent_is_ancestor(*self, index@);
        }
        self.detach_at(x.pos);
        let ghost mid_tree = *self;
        proof { assert(self.parent_link_ok(index@)); }
        let ghost mid = self.kids()[q as int];
        let ghost j = mid.index_of(index@);
        proof { assert(0 <= j < mid.len() && mid[j] == index@); }
        self.link_beside(index.pos, x.pos, false);
        proof {
            let s = self.kids()[q as int];
            let d = model_detach(old(self).kids(), old(self).parent_of(x@), x@)[q as int];
            let j = d.index_of(index@);
            let at = if false { j + 1 } else { j };
            assert(s[at] == x@);
            self.lemma_listed(q, x@);
            if old(self).acyclic() {
                if old(self).is_ancestor(x@, q) {
                    let d = choose|d: nat| 1 <= d && #[trigger] ancestor_at(*old(self), q, d) == Some(x@);
                    lemma_ancestor_at_compose(*old(self), index@, 1, d, q);
                    assert(1 + d == d + 1);
                    assert(old(self).is_ancestor(x@, index@));
                }
                lemma_move_keeps_acyclic(*old(self), mid_tree, *self, x@, q);
            }
        }
    }

    /// Makes `x` the next sibling of the attached node `index`.
    pub fn insert_after(&mut self, index: Index, x: Index)
        requires
            old(self).wf(),
            index@ < old(self).spec_len(),
            0 < x@ < old(self).spec_len(),
            index@ != x@,
            old(self).parent_of(index@) is Some,
            !old(self).is_ancestor(x@, index@),
        ensures
            final(self).wf(),
            final(self).same_values(old(self)),
            final(self).parent_of(x@) == old(self).parent_of(index@),
            final(self).kids() == model_insert(
                old(self).kids(),
                old(self).parent_of(x@),
                old(self).parent_of(index@)->Some_0,
                index@,
                x@,
                true,
            ),
            old(self).acyclic() ==> final(self).acyclic(),
    {
        let ghost q = self.parent_of(index@)->Some_0;
        proof {
            assert(self.parent_link_ok(index@));
            lemma_parent_is_ancestor(*self, index@);
        }
        self.detach_at(x.pos);
        let ghost mid_tree = *self;
        proof { assert(self.parent_link_ok(index@)); }
        let ghost mid = self.kids()[q as int];
        let ghost j = mid.index_of(index@);
        proof { assert(0 <= j < mid.len() && mid[j] == index@); }
        self.link_beside(index.pos, x.pos, true);
        proof {
            let s = self.kids()[q as int];
            let d = model_detach(old(self).kids(), old(self).parent_of(x@), x@)[q as int];
            let j = d.index_of(index@);
            let at = if true { j + 1 } else { j };
            assert(s[at] == x@);
            self.lemma_listed(q, x@);
            if old(self).acyclic() {
                if old(self).is_ancestor(x@, q) {
                    let d = choose|d: nat| 1 <= d && #[trigger] ancestor_at(*old(self), q, d) == Some(x@);
                    lemma_ancestor_at_compose(*old(self), index@, 1, d, q);
                    assert(1 + d == d + 1);
                    assert(old(self).is_ancestor(x@, index@));
                }
                lemma_move_keeps_acyclic(*old(self), mid_tree, *self, x@, q);
            }
        }
    }

    /// Moves every child of `index`, in order, behind the children of `new_parent`.
    pub fn reparent_append(&mut self, new_parent: Index, index: Index)
        requires
            old(self).wf(),
            new_parent@ < old(self).spec_len(),
            index@ < old(self).spec_len(),
            new_parent@ != index@,
            !old(self).is_ancestor(index@, new_parent@),
        ensures
            final(self).wf(),
            final(self).same_values(old(self)),
            final(self).kids() == model_reparent_append(old(self).kids(), new_parent@, index@),
            old(self).acyclic() ==> final(self).acyclic(),
    {
        let np = new_parent.pos;
        let n = index.pos;
        let ghost k0 = self.kids();
        let ghost m = k0[n as int].len();
        proof {
            if k0[n as int].contains(np as nat) {
                self.lemma_listed(n as nat, np as nat);
                lemma_parent_is_ancestor(*self, np as nat);
            }
        }
        let ghost mut j: int = 0;
        proof {
            assert(k0[np as int] + k0[n as int].take(0) =~= k0[np as int]);
            assert(k0[n as int].skip(0) =~= k0[n as int]);
            assert(k0.update(np as int, k0[np as int]).update(n as int, k0[n as int]) =~= k0);
        }
        loop
            invariant
                self.wf(),
                self.same_values(old(self)),
                0 <= j <= m,
                m == k0[n as int].len(),
                np < self.spec_len(),
                n < self.spec_len(),
                np != n,
                !k0[n as int].contains(np as nat),
                k0.len() == self.spec_len(),
                old(self).acyclic() ==> self.acyclic() && !self.is_ancestor(n as nat, np as nat),
                self.kids() == k0.update(np as int, k0[np as int] + k0[n as int].take(j)).update(
                    n as int,
                    k0[n as int].skip(j),
                ),
            ensures
                j == m,
                old(self).acyclic() ==> self.acyclic(),
                self.wf(),
                self.same_values(old(self)),
                self.kids() == k0.update(np as int, k0[np as int] + k0[n as int].take(j)).update(
                    n as int,
                    k0[n as int].skip(j),
                ),
            decreases m - j,
        {
            proof { assert(self.children_link_ok(n as nat)); }
            let f = match self.vec[n].children {
                Some((f, _)) => f.pos,
                None => {
                    proof {
                        assert(j == m);
                        assert(k0[n as int].take(j) =~= k0[n as int]);
                    }
                    break;
                },
            };
            let ghost cur = self.kids()[n as int];
            proof {
                assert(cur[0] == f);
                assert(self.kid_ok(n as nat, 0));
                lemma_index_of(cur, f as nat, 0);
                assert(f != np) by {
                    assert(k0[n as int][j] == f);
                }
            }
            let ghost cur_tree = *self;
            self.detach_at(f);
            let ghost mid_tree = *self;
            self.link_last(np, f);
            proof {
                if old(self).acyclic() {
                    lemma_move_child_keeps(cur_tree, mid_tree, *self, n as nat, np as nat, f as nat);
                }
            }
            proof {
                j = j + 1;
                assert(k0[n as int].take(j) =~= k0[n as int].take(j - 1).push(f as nat));
                assert(cur.remove(0) =~= k0[n as int].skip(j));
                assert(self.kids() =~= k0.update(np as int, k0[np as int] + k0[n as int].take(j)).update(
                    n as int,
                    k0[n as int].skip(j),
                ));
            }
        }
        proof {
            assert(k0[n as int].take(m as int) =~= k0[n as int]);
            assert(k0[n as int].skip(m as int) =~= Seq::<nat>::empty());
            assert(self.kids() =~= model_reparent_append(k0, np as nat, n as nat));
        }
    }

    /// Moves every child of `index`, in order, before the children of `new_parent`.
    pub fn reparent_prepend(&mut self, new_parent: Index, index: Index)
        requires
            old(self).wf(),
            new_parent@ < old(self).spec_len(),
            index@ < old(self).spec_len(),
            new_parent@ != index@,
            !old(self).is_ancestor(index@, new_parent@),
        ensures
            final(self).wf(),
            final(self).same_values(old(self)),
            final(self).kids() == model_reparent_prepend(old(self).kids(), new_parent@, index@),
            old(self).acyclic() ==> final(self).acyclic(),
    {
        let np = new_parent.pos;
        let n = index.pos;
        let ghost k0 = self.kids();
        let ghost m = k0[n as int].len();
        proof {
            if k0[n as int].contains(np as nat) {
                self.lemma_listed(n as nat, np as nat);
                lemma_parent_is_ancestor(*self, np as nat);
            }
        }
        let ghost mut r: int = m as int;
        proof {
            assert(k0[n as int].skip(m as int) + k0[np as int] =~= k0[np as int]);
            assert(k0[n as int].take(m as int) =~= k0[n as int]);
            assert(k0.update(np as int, k0[np as int]).update(n as int, k0[n as int]) =~= k0);
        }
        loop
            invariant
                self.wf(),
                self.same_values(old(self)),
                0 <= r <= m,
                m == k0[n as int].len(),
                np < self.spec_len(),
                n < self.spec_len(),
                np != n,
                !k0[n as int].contains(np as nat),
                k0.len() == self.spec_len(),
                old(self).acyclic() ==> self.acyclic() && !self.is_ancestor(n as nat, np as nat),
                self.kids() == k0.update(np as int, k0[n as int].skip(r) + k0[np as int]).update(
                    n as int,
                    k0[n as int].take(r),
                ),
            ensures
                r == 0,
                old(self).acyclic() ==> self.acyclic(),
                self.wf(),
                self.same_values(old(self)),
                self.kids() == k0.update(np as int, k0[n as int].skip(r) + k0[np as int]).update(
                    n as int,
                    k0[n as int].take(r),
                ),
            decreases r,
        {
            proof { assert(self.children_link_ok(n as nat)); }
            let l = match self.vec[n].children {
                Some((_, l)) => l.pos,
                None => {
                    proof {
                        assert(r == 0);
                        assert(k0[n as int].skip(0) =~= k0[n as int]);
                    }
                    break;
                },
            };
            let ghost cur = self.kids()[n as int];
            proof {
                assert(cur[r - 1] == l);
                assert(self.kid_ok(n as nat, r - 1));
                lemma_index_of(cur, l as nat, r - 1);
                assert(l != np) by {
                    assert(k0[n as int][r - 1] == l);
                }
            }
            let ghost cur_tree = *self;
            self.detach_at(l);
            let ghost mid_tree = *self;
            self.link_first(np, l);
            proof {
                if old(self).acyclic() {
                    lemma_move_child_keeps(cur_tree, mid_tree, *self, n as nat, np as nat, l as nat);
                }
            }
            proof {
                r = r - 1;
                assert(seq![l as nat] + (k0[n as int].skip(r + 1) + k0[np as int]) =~= k0[n as int].skip(r) + k0[np as int]);
                assert(cur.remove(r) =~= k0[n as int].take(r));
                assert(self.kids() =~= k0.update(np as int, k0[n as int].skip(r) + k0[np as int]).update(
                    n as int,
                    k0[n as int].take(r),
                ));
            }
        }
        proof {
            assert(k0[n as int].skip(0) =~= k0[n as int]);
            assert(k0[n as int].take(0) =~= Seq::<nat>::empty());
            assert(self.kids() =~= model_reparent_prepend(k0, np as nat, n as nat));
        }
    }

    /// A node that nobody names as parent is nobody's ancestor.
    pub proof fn lemma_childless_not_ancestor(&self, n: nat, x: nat)
        requires
            self.wf(),
            n < self.spec_len(),
            x < self.spec_len(),
            self.kids()[n as int].len() == 0,
        ensures
            !self.is_ancestor(n, x),
    {
        if self.is_ancestor(n, x) {
            let d = choose|d: nat| 1 <= d && #[trigger] ancestor_at(*self, x, d) == Some(n);
            lemma_ancestor_at_last_link(*self, x, d, n);
            let y = choose|y: nat| ancestor_at(*self, x, (d - 1) as nat) == Some(y) && self.parent_of(y) == Some(n);
            lemma_chain_in_range(*self, x, (d - 1) as nat);
            assert(self.parent_link_ok(y));
        }
    }

    proof fn lemma_listed(&self, q: nat, x: nat)
        requires
            self.wf(),
            q < self.spec_len(),
            self.kids()[q as int].contains(x),
        ensures
            self.parent_of(x) == Some(q),
    {
        let i = choose|i: int| 0 <= i < self.kids()[q as int].len() && self.kids()[q as int][i] == x;
        assert(self.kid_ok(q, i));
    }
}

/// The node `d` parent links above `x`, if the chain is that long.
pub open spec fn ancestor_at<T>(t: UNITree<T>, x: nat, d: nat) -> Option<nat>
    decreases d,
{
    if d == 0 {
        Some(x)
    } else {
        match t.parent_of(x) {
            None => None,
            Some(m) => ancestor_at(t, m, (d - 1) as nat),
        }
    }
}

/// A parent is an ancestor, one link up.
pub proof fn lemma_parent_is_ancestor<T>(t: UNITree<T>, n: nat)
    requires
        t.parent_of(n) is Some,
    ensures
        ancestor_at(t, n, 1) == t.parent_of(n),
        t.is_ancestor(t.parent_of(n)->Some_0, n),
{
    let p = t.parent_of(n)->Some_0;
    assert(ancestor_at(t, p, 0) == Some(p));
    assert(ancestor_at(t, n, 1) == ancestor_at(t, p, 0));
}

pub proof fn lemma_ancestor_at_step<T>(t: UNITree<T>, x: nat, d: nat, c: nat, n: nat)
    requires
        ancestor_at(t, x, d) == Some(c),
        t.parent_of(c) == Some(n),
    ensures
        ancestor_at(t, x, d + 1) == Some(n),
    decreases d,
{
    if d > 0 {
        let m = t.parent_of(x)->Some_0;
        lemma_ancestor_at_step(t, m, (d - 1) as nat, c, n);
        assert(ancestor_at(t, x, d + 1) == ancestor_at(t, m, d));
    } else {
        assert(c == x);
        assert(ancestor_at(t, n, 0) == Some(n));
        assert(ancestor_at(t, x, 1) == ancestor_at(t, n, 0));
    }
}

pub proof fn lemma_ancestor_at_compose<T>(t: UNITree<T>, x: nat, a: nat, b: nat, y: nat)
    requires
        ancestor_at(t, x, a) == Some(y),
    ensures
        ancestor_at(t, x, a + b) == ancestor_at(t, y, b),
    decreases a,
{
    if a > 0 {
        let m = t.parent_of(x)->Some_0;
        lemma_ancestor_at_compose(t, m, (a - 1) as nat, b, y);
        assert((a + b - 1) as nat == (a - 1) as nat + b);
    }
}

/// The last link of a chain of `d >= 1` links.
proof fn lemma_ancestor_at_last_link<T>(t: UNITree<T>, x: nat, d: nat, a: nat)
    requires
        1 <= d,
        ancestor_at(t, x, d) == Some(a),
    ensures
        exists|y: nat| ancestor_at(t, x, (d - 1) as nat) == Some(y) && t.parent_of(y) == Some(a),
    decreases d,
{
    let m = t.parent_of(x)->Some_0;
    if d > 1 {
        lemma_ancestor_at_last_link(t, m, (d - 1) as nat, a);
        let y = choose|y: nat| ancestor_at(t, m, (d - 2) as nat) == Some(y) && t.parent_of(y) == Some(a);
        assert(ancestor_at(t, x, (d - 1) as nat) == ancestor_at(t, m, (d - 2) as nat));
    } else {
        assert(ancestor_at(t, x, 0) == Some(x));
        assert(ancestor_at(t, m, 0) == Some(m));
    }
}

proof fn lemma_chain_ends<T>(t: UNITree<T>, x: nat, d: nat, y: nat)
    requires
        ancestor_at(t, x, d) == Some(y),
        t.parent_of(y) is None,
    ensures
        forall|j: nat| j > d ==> #[trigger] ancestor_at(t, x, j) is None,
{
    assert forall|j: nat| j > d implies #[trigger] ancestor_at(t, x, j) is None by {
        lemma_ancestor_at_compose(t, x, d, (j - d) as nat, y);
        assert(d + (j - d) as nat == j);
    }
}

proof fn lemma_chain_in_range<T>(t: UNITree<T>, x: nat, d: nat)
    requires
        t.wf(),
        x < t.spec_len(),
    ensures
        ancestor_at(t, x, d) matches Some(y) ==> y < t.spec_len(),
    decreases d,
{
    assert(t.parent_link_ok(x));
    if d > 0 {
        if let Some(m) = t.parent_of(x) {
            lemma_chain_in_range(t, m, (d - 1) as nat);
        }
    }
}

proof fn lemma_none_propagates<T>(t: UNITree<T>, x: nat, i: nat, j: nat)
    requires
        i <= j,
        ancestor_at(t, x, i) is None,
    ensures
        ancestor_at(t, x, j) is None,
    decreases i,
{
    if i > 0 {
        if let Some(m) = t.parent_of(x) {
            lemma_none_propagates(t, m, (i - 1) as nat, (j - 1) as nat);
        }
    }
}

/// In an acyclic tree no chain of parent links is as long as the tree.
proof fn lemma_chain_bounded<T>(t: UNITree<T>, x: nat)
    requires
        t.wf(),
        t.acyclic(),
        x < t.spec_len(),
    ensures
        ancestor_at(t, x, t.spec_len()) is None,
{
    let len = t.spec_len();
    if ancestor_at(t, x, len) is Some {
        assert forall|i: nat| i <= len implies #[trigger] ancestor_at(t, x, i) is Some by {
            if ancestor_at(t, x, i) is None {
                lemma_none_propagates(t, x, i, len);
            }
        }
        let s = Seq::new((len + 1) as nat, |i: int| ancestor_at(t, x, i as nat)->Some_0 as int);
        assert forall|i: int| 0 <= i < s.len() implies 0 <= #[trigger] s[i] < len by {
            assert(ancestor_at(t, x, i as nat) is Some);
            lemma_chain_in_range(t, x, i as nat);
        }
        assert forall|i: int, j: int| 0 <= i < s.len() && 0 <= j < s.len() && i != j implies s[i] != s[j] by {
            if s[i] == s[j] {
                let (lo, hi) = if i < j { (i, j) } else { (j, i) };
                assert(ancestor_at(t, x, lo as nat) is Some);
                assert(ancestor_at(t, x, hi as nat) is Some);
                let y = ancestor_at(t, x, lo as nat)->Some_0;
                assert(ancestor_at(t, x, hi as nat) == Some(y));
                lemma_ancestor_at_compose(t, x, lo as nat, (hi - lo) as nat, y);
                assert(lo as nat + (hi - lo) as nat == hi as nat);
                assert(ancestor_at(t, y, (hi - lo) as nat) == Some(y));
                lemma_chain_in_range(t, x, lo as nat);
                assert(t.is_ancestor(y, y));
            }
        }
        s.unique_seq_to_set();
        assert(s.to_set().subset_of(vstd::set_lib::set_int_range(0, len as int)));
        vstd::set_lib::lemma_int_range(0, len as int);
        vstd::set_lib::lemma_len_subset(s.to_set(), vstd::set_lib::set_int_range(0, len as int));
    }
}

/// Two trees whose parent links agree except at `c` have the same chain from
/// `x` as long as the chain in `t0` does not pass `c`.
proof fn lemma_chain_agree<T>(t0: UNITree<T>, t1: UNITree<T>, c: nat, x: nat, d: nat)
    requires
        t0.wf(),
        x < t0.spec_len(),
        forall|y: nat| y < t0.spec_len() && y != c ==> #[trigger] t1.parent_of(y) == t0.parent_of(y),
        forall|j: nat| j < d ==> #[trigger] ancestor_at(t0, x, j) != Some(c),
    ensures
        ancestor_at(t1, x, d) == ancestor_at(t0, x, d),
    decreases d,
{
    if d > 0 {
        assert(ancestor_at(t0, x, 0) == Some(x));
        assert(t0.parent_link_ok(x));
        assert(t1.parent_of(x) == t0.parent_of(x));
        if let Some(m) = t0.parent_of(x) {
            assert forall|j: nat| j < (d - 1) as nat implies #[trigger] ancestor_at(t0, m, j) != Some(c) by {
                assert(ancestor_at(t0, x, j + 1) == ancestor_at(t0, m, j));
            }
            lemma_chain_agree(t0, t1, c, m, (d - 1) as nat);
        }
    }
}

proof fn lemma_first_hit<T>(t: UNITree<T>, x: nat, d: nat, c: nat)
    requires
        ancestor_at(t, x, d) == Some(c),
    ensures
        exists|i: nat| i <= d && ancestor_at(t, x, i) == Some(c)
            && forall|j: nat| j < i ==> #[trigger] ancestor_at(t, x, j) != Some(c),
    decreases d,
{
    if exists|j: nat| j < d && #[trigger] ancestor_at(t, x, j) == Some(c) {
        let j = choose|j: nat| j < d && #[trigger] ancestor_at(t, x, j) == Some(c);
        lemma_first_hit(t, x, j, c);
    } else {
        assert(forall|j: nat| j < d ==> #[trigger] ancestor_at(t, x, j) != Some(c));
    }
}

/// Where two trees differ only in the parent of `c`, an ancestor of `x`
/// (other than `c`) in `t1` is one in `t0` too, or `c` is an ancestor of
/// `x` in `t0`.
proof fn lemma_ancestor_transfer<T>(t0: UNITree<T>, t1: UNITree<T>, c: nat, x: nat, a: nat)
    requires
        t0.wf(),
        t1.wf(),
        t0.spec_len() == t1.spec_len(),
        x < t0.spec_len(),
        x != c,
        forall|y: nat| y < t0.spec_len() && y != c ==> #[trigger] t1.parent_of(y) == t0.parent_of(y),
        t1.is_ancestor(a, x),
    ensures
        t0.is_ancestor(a, x) || t0.is_ancestor(c, x),
{
    let d = choose|d: nat| 1 <= d && #[trigger] ancestor_at(t1, x, d) == Some(a);
    assert forall|y: nat| y < t1.spec_len() && y != c implies #[trigger] t0.parent_of(y) == t1.parent_of(y) by {
        assert(t1.parent_of(y) == t0.parent_of(y));
    }
    if exists|j: nat| j < d && #[trigger] ancestor_at(t1, x, j) == Some(c) {
        let j = choose|j: nat| j < d && #[trigger] ancestor_at(t1, x, j) == Some(c);
        lemma_first_hit(t1, x, j, c);
        let i = choose|i: nat| i <= j && ancestor_at(t1, x, i) == Some(c)
            && forall|k: nat| k < i ==> #[trigger] ancestor_at(t1, x, k) != Some(c);
        assert(ancestor_at(t1, x, 0) == Some(x));
        lemma_chain_agree(t1, t0, c, x, i);
        assert(ancestor_at(t0, x, i) == Some(c));
    } else {
        lemma_chain_agree(t1, t0, c, x, d);
        assert(ancestor_at(t0, x, d) == Some(a));
    }
}

/// Adding a node without parent keeps a tree acyclic.
proof fn lemma_orphan_acyclic<T>(t0: UNITree<T>, t1: UNITree<T>)
    requires
        t0.wf(),
        t0.acyclic(),
        t1.spec_len() == t0.spec_len() + 1,
        forall|y: nat| y < t0.spec_len() ==> #[trigger] t1.item(y) == t0.item(y),
        t1.parent_of(t0.spec_len()) is None,
    ensures
        t1.acyclic(),
{
    let c = t0.spec_len();
    assert forall|n: nat| n < t1.spec_len() implies !#[trigger] t1.is_ancestor(n, n) by {
        if t1.is_ancestor(n, n) {
            let d = choose|d: nat| 1 <= d && #[trigger] ancestor_at(t1, n, d) == Some(n);
            if n == c {
                assert(ancestor_at(t1, n, d) is None);
            } else {
                assert forall|y: nat| y < t0.spec_len() && y != c implies #[trigger] t1.parent_of(y) == t0.parent_of(y) by {
                    assert(t1.item(y) == t0.item(y));
                }
                assert forall|j: nat| j < d implies #[trigger] ancestor_at(t0, n, j) != Some(c) by {
                    lemma_chain_in_range(t0, n, j);
                }
                lemma_chain_agree(t0, t1, c, n, d);
                assert(t0.is_ancestor(n, n));
            }
        }
    }
}

/// Taking `c` out and hanging it under `p` keeps a tree acyclic when `c` was
/// not above `p`.
proof fn lemma_move_keeps_acyclic<T>(t0: UNITree<T>, mid: UNITree<T>, t1: UNITree<T>, c: nat, p: nat)
    requires
        t0.wf(),
        mid.wf(),
        t1.wf(),
        t0.acyclic(),
        t0.spec_len() == mid.spec_len(),
        mid.spec_len() == t1.spec_len(),
        c < t0.spec_len(),
        p < t0.spec_len(),
        p != c,
        !t0.is_ancestor(c, p),
        mid.parent_of(c) is None,
        forall|y: nat| y < t0.spec_len() && y != c ==> #[trigger] mid.parent_of(y) == t0.parent_of(y),
        t1.parent_of(c) == Some(p),
        forall|y: nat| y < t0.spec_len() && y != c ==> #[trigger] t1.parent_of(y) == mid.parent_of(y),
    ensures
        t1.acyclic(),
        !mid.is_ancestor(c, p),
{
    lemma_relink_acyclic(t0, mid, c);
    if mid.is_ancestor(c, p) {
        lemma_ancestor_transfer(t0, mid, c, p, c);
    }
    lemma_relink_acyclic(mid, t1, c);
}

/// Moving the child `f` of `n` under `np` keeps the tree acyclic and `n`
/// away from the ancestors of `np`.
proof fn lemma_move_child_keeps<T>(cur: UNITree<T>, mid: UNITree<T>, new: UNITree<T>, n: nat, np: nat, f: nat)
    requires
        cur.wf(),
        mid.wf(),
        new.wf(),
        cur.acyclic(),
        cur.spec_len() == mid.spec_len(),
        mid.spec_len() == new.spec_len(),
        f < cur.spec_len(),
        np < cur.spec_len(),
        np != f,
        !cur.is_ancestor(n, np),
        cur.parent_of(f) == Some(n),
        mid.parent_of(f) is None,
        forall|y: nat| y < cur.spec_len() && y != f ==> #[trigger] mid.parent_of(y) == cur.parent_of(y),
        new.parent_of(f) == Some(np),
        forall|y: nat| y < cur.spec_len() && y != f ==> #[trigger] new.parent_of(y) == mid.parent_of(y),
    ensures
        new.acyclic(),
        !new.is_ancestor(n, np),
{
    if cur.is_ancestor(f, np) {
        let d = choose|d: nat| 1 <= d && #[trigger] ancestor_at(cur, np, d) == Some(f);
        lemma_ancestor_at_step(cur, np, d, f, n);
        assert(cur.is_ancestor(n, np));
    }
    lemma_move_keeps_acyclic(cur, mid, new, f, np);
    if new.is_ancestor(n, np) {
        lemma_ancestor_transfer(mid, new, f, np, n);
        if mid.is_ancestor(n, np) {
            lemma_ancestor_transfer(cur, mid, f, np, n);
        }
    }
}

/// Giving `c` a new parent `p` (or none) keeps a tree acyclic, provided
/// `c` was not an ancestor of `p`.
proof fn lemma_relink_acyclic<T>(t0: UNITree<T>, t1: UNITree<T>, c: nat)
    requires
        t0.wf(),
        t1.wf(),
        t0.acyclic(),
        t0.spec_len() == t1.spec_len(),
        c < t0.spec_len(),
        forall|y: nat| y < t0.spec_len() && y != c ==> #[trigger] t1.parent_of(y) == t0.parent_of(y),
        t1.parent_of(c) matches Some(p) ==> p != c && !t0.is_ancestor(c, p),
    ensures
        t1.acyclic(),
{
    assert forall|y: nat| y < t1.spec_len() && y != c implies #[trigger] t0.parent_of(y) == t1.parent_of(y) by {
        assert(t1.parent_of(y) == t0.parent_of(y));
    }
    assert forall|n: nat| n < t1.spec_len() implies !#[trigger] t1.is_ancestor(n, n) by {
        if t1.is_ancestor(n, n) {
            let d = choose|d: nat| 1 <= d && #[trigger] ancestor_at(t1, n, d) == Some(n);
            if exists|j: nat| j < d && #[trigger] ancestor_at(t1, n, j) == Some(c) {
                let j = choose|j: nat| j < d && #[trigger] ancestor_at(t1, n, j) == Some(c);
                lemma_first_hit(t1, n, j, c);
                let i = choose|i: nat| i <= j && ancestor_at(t1, n, i) == Some(c)
                    && forall|k: nat| k < i ==> #[trigger] ancestor_at(t1, n, k) != Some(c);
                lemma_ancestor_at_compose(t1, n, i, (d - i) as nat, c);
                assert(i + (d - i) as nat == d);
                assert(ancestor_at(t1, c, (d - i) as nat) == Some(n));
                let p = t1.parent_of(c)->Some_0;
                assert(ancestor_at(t1, c, (d - i) as nat) == ancestor_at(t1, p, (d - i - 1) as nat));
                lemma_ancestor_at_compose(t1, p, (d - i - 1) as nat, i, n);
                assert((d - i - 1) as nat + i == (d - 1) as nat);
                assert(ancestor_at(t1, p, (d - 1) as nat) == Some(c));
                assert(t1.parent_link_ok(c));
                if d == 1 {
                    assert(ancestor_at(t1, p, 0) == Some(p));
                }
                assert(t1.is_ancestor(c, p));
                lemma_ancestor_transfer(t0, t1, c, p, c);
            } else if n == c {
                assert(ancestor_at(t1, n, 0) == Some(n));
            } else {
                lemma_chain_agree(t1, t0, c, n, d);
                assert(ancestor_at(t0, n, d) == Some(n));
                assert(t0.is_ancestor(n, n));
            }
        }
    }
}

/// Where only the child lists of `c`'s old or new parent changed, and only by
/// `c`, every other node keeps its parent.
proof fn lemma_same_parents<T>(t0: UNITree<T>, t1: UNITree<T>, c: nat)
    requires
        t0.wf(),
        t1.wf(),
        t0.spec_len() == t1.spec_len(),
        forall|q: nat, y: nat| q < t0.spec_len() && y != c ==> (#[trigger] t1.kids()[q as int].contains(y)
            <==> t0.kids()[q as int].contains(y)),
    ensures
        forall|y: nat| y < t0.spec_len() && y != c ==> #[trigger] t1.parent_of(y) == t0.parent_of(y),
{
    assert forall|y: nat| y < t0.spec_len() && y != c implies #[trigger] t1.parent_of(y) == t0.parent_of(y) by {
        assert(t0.parent_link_ok(y));
        assert(t1.parent_link_ok(y));
        if let Some(q) = t0.parent_of(y) {
            assert(t1.kids()[q as int].contains(y));
            t1.lemma_listed(q, y);
        } else if let Some(q) = t1.parent_of(y) {
            assert(t0.kids()[q as int].contains(y));
            t0.lemma_listed(q, y);
        }
    }
}

/// A node with a parent appears exactly once among that parent's children.
pub proof fn lemma_child_listed_once<T>(t: &UNITree<T>, n: nat)
    requires
        t.wf(),
        n < t.spec_len(),
        t.parent_of(n) is Some,
    ensures
        ({
            let s = t.kids()[t.parent_of(n)->Some_0 as int];
            exists|i: int| 0 <= i < s.len() && s[i] == n && forall|j: int| 0 <= j < s.len() && s[j] == n ==> j == i
        }),
{
    let p = t.parent_of(n)->Some_0;
    assert(t.parent_link_ok(n));
    assert(t.children_link_ok(p));
    let s = t.kids()[p as int];
    let i = choose|i: int| 0 <= i < s.len() && s[i] == n;
    assert(forall|j: int| 0 <= j < s.len() && s[j] == n ==> j == i);
}

/// Sibling links are symmetric: the next sibling of a node's previous
/// sibling is the node itself, and the other way round.
pub proof fn lemma_siblings_symmetric<T>(t: &UNITree<T>, n: nat)
    requires
        t.wf(),
        n < t.spec_len(),
    ensures
        t.prev_of(n) matches Some(a) ==> a < t.spec_len() && t.next_of(a) == Some(n),
        t.next_of(n) matches Some(b) ==> b < t.spec_len() && t.prev_of(b) == Some(n),
{
    assert(t.parent_link_ok(n));
    if let Some(p) = t.parent_of(n) {
        let s = t.kids()[p as int];
        let i = choose|i: int| 0 <= i < s.len() && s[i] == n;
        assert(t.kid_ok(p, i));
        if i > 0 {
            assert(t.kid_ok(p, i - 1));
        }
        if i + 1 < s.len() {
            assert(t.kid_ok(p, i + 1));
        }
    }
}

/// Two well-formed trees with the same child lists have the same links.
pub proof fn lemma_links_follow_kids<T>(a: &UNITree<T>, b: &UNITree<T>)
    requires
        a.wf(),
        b.wf(),
        a.spec_len() == b.spec_len(),
        a.kids() == b.kids(),
    ensures
        forall|n: nat| n < a.spec_len() ==> {
            &&& #[trigger] a.parent_of(n) == b.parent_of(n)
            &&& a.prev_of(n) == b.prev_of(n)
            &&& a.next_of(n) == b.next_of(n)
            &&& a.item(n).spec_children() == b.item(n).spec_children()
        },
{
    assert forall|n: nat| n < a.spec_len() implies {
        &&& #[trigger] a.parent_of(n) == b.parent_of(n)
        &&& a.prev_of(n) == b.prev_of(n)
        &&& a.next_of(n) == b.next_of(n)
        &&& a.item(n).spec_children() == b.item(n).spec_children()
    } by {
        assert(a.parent_link_ok(n));
        assert(b.parent_link_ok(n));
        assert(a.children_link_ok(n));
        assert(b.children_link_ok(n));
        if let Some(p) = a.parent_of(n) {
            let s = a.kids()[p as int];
            let i = choose|i: int| 0 <= i < s.len() && s[i] == n;
            assert(a.kid_ok(p, i));
            assert(b.kid_ok(p, i));
        } else if let Some(q) = b.parent_of(n) {
            let s = b.kids()[q as int];
            let i = choose|i: int| 0 <= i < s.len() && s[i] == n;
            assert(a.kid_ok(q, i));
        }
        match (a.item(n).spec_children(), b.item(n).spec_children()) {
            (Some((f1, l1)), Some((f2, l2))) => {
                assert(f1.spec_pos() == f2.spec_pos());
                assert(l1.spec_pos() == l2.spec_pos());
            },
            _ => {},
        }
    }
}

/// Appending a detached node to a parent and then detaching it again leaves
/// the tree as it was: the same child lists, the same links, the same values.
pub proof fn lemma_append_then_detach<T>(t0: &UNITree<T>, t1: &UNITree<T>, t2: &UNITree<T>, p: nat, n: nat)
    requires
        t0.wf(),
        t1.wf(),
        t2.wf(),
        p < t0.spec_len(),
        n < t0.spec_len(),
        t0.parent_of(n) is None,
        t1.same_values(t0),
        t1.parent_of(n) == Some(p),
        t1.kids() == (if t0.kids()[p as int].len() > 0 && t0.kids()[p as int].last() == n {
            t0.kids()
        } else {
            model_append(t0.kids(), t0.parent_of(n), p, n)
        }),
        t2.same_values(t1),
        t2.kids() == model_detach(t1.kids(), t1.parent_of(n), n),
    ensures
        t2.kids() == t0.kids(),
        t2.same_values(t0),
        forall|x: nat| x < t0.spec_len() ==> {
            &&& #[trigger] t2.parent_of(x) == t0.parent_of(x)
            &&& t2.prev_of(x) == t0.prev_of(x)
            &&& t2.next_of(x) == t0.next_of(x)
            &&& t2.item(x).spec_children() == t0.item(x).spec_children()
        },
{
    t0.lemma_detached_not_listed(n);
    let s = t0.kids()[p as int];
    assert(!s.contains(n));
    if s.len() > 0 {
        assert(s.contains(s.last()));
    }
    let s1 = s.push(n);
    assert(s1[s.len() as int] == n);
    assert(t0.children_link_ok(p));
    assert(s1.no_duplicates());
    lemma_index_of(s1, n, s.len() as int);
    assert(s1.remove(s.len() as int) =~= s);
    assert(t2.kids() =~= t0.kids());
    lemma_links_follow_kids(t2, t0);
}

} // verus!
