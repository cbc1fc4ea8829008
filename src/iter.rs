//! Depth-first walks over a [`UNITree`]: the nodes in document order, and the
//! open/close edges that a serializer follows.

use vstd::prelude::*;
use crate::nodes::Interface;
use crate::tree::{Index, UNITree, ancestor_at, lemma_ancestor_at_compose, lemma_ancestor_at_step};

verus! {

/// Positions of a sequence of indexes.
pub open spec fn positions(v: Seq<Index>) -> Seq<nat> {
    v.map_values(|i: Index| i@)
}

/// Pre-order of the subtree at `n`, following the child lists `k` at most
/// `fuel` levels deep.
pub open spec fn preorder(k: Seq<Seq<nat>>, n: nat, fuel: nat) -> Seq<nat>
    decreases fuel, 0nat,
{
    if fuel == 0 {
        seq![]
    } else {
        seq![n] + preorder_list(k, k[n as int], (fuel - 1) as nat)
    }
}

/// Pre-orders of the subtrees at each node of `s`, one after another.
pub open spec fn preorder_list(k: Seq<Seq<nat>>, s: Seq<nat>, fuel: nat) -> Seq<nat>
    decreases fuel, s.len() + 1,
{
    if s.len() == 0 {
        seq![]
    } else {
        preorder_list(k, s.drop_last(), fuel) + preorder(k, s.last(), fuel)
    }
}

/// One step of a depth-first walk: entering a node or leaving it.
#[derive(Debug, Clone, Copy, PartialEq, Eq, Structural)]
pub enum Edge {
    Open(Index),
    Close(Index),
}

/// An edge as (is it an opening, position).
pub open spec fn edge_view(e: Edge) -> (bool, nat) {
    match e {
        Edge::Open(i) => (true, i@),
        Edge::Close(i) => (false, i@),
    }
}

/// The edges of a walk over the subtree at `n`: open `n`, the walks of its
/// children in order, close `n`.
pub open spec fn edges(k: Seq<Seq<nat>>, n: nat, fuel: nat) -> Seq<(bool, nat)>
    decreases fuel, 0nat,
{
    if fuel == 0 {
        seq![]
    } else {
        seq![(true, n)] + edges_list(k, k[n as int], (fuel - 1) as nat) + seq![(false, n)]
    }
}

pub open spec fn edges_list(k: Seq<Seq<nat>>, s: Seq<nat>, fuel: nat) -> Seq<(bool, nat)>
    decreases fuel, s.len() + 1,
{
    if s.len() == 0 {
        seq![]
    } else {
        edges_list(k, s.drop_last(), fuel) + edges(k, s.last(), fuel)
    }
}

/// Appends the pre-order of the subtree at `n` to `out`.
fn collect_preorder<T>(tree: &UNITree<T>, n: Index, fuel: usize, out: &mut Vec<Index>)
    requires
        tree.wf(),
        n@ < tree.spec_len(),
    ensures
        positions(final(out)@) == positions(old(out)@) + preorder(tree.kids(), n@, fuel as nat),
    decreases fuel,
{
    if fuel == 0 {
        proof { assert(positions(old(out)@) + preorder(tree.kids(), n@, 0) =~= positions(old(out)@)); }
        return;
    }
    let ghost base = positions(out@);
    out.push(n);
    proof {
        assert(positions(out@) =~= base + seq![n@]);
        assert(tree.children_link_ok(n@));
    }
    let ghost s = tree.kids()[n@ as int];
    let mut cur = match tree.get(n) {
        Some(it) => it.first_children(),
        None => None,
    };
    let ghost mut j: int = 0;
    proof {
        assert(s.take(0) =~= Seq::<nat>::empty());
        assert(positions(out@) =~= base + seq![n@] + preorder_list(tree.kids(), s.take(0), (fuel - 1) as nat));
    }
    while cur.is_some()
        invariant
            tree.wf(),
            n@ < tree.spec_len(),
            fuel > 0,
            s == tree.kids()[n@ as int],
            0 <= j <= s.len(),
            cur is Some <==> j < s.len(),
            cur matches Some(c) ==> c@ == s[j],
            positions(out@) == base + seq![n@] + preorder_list(tree.kids(), s.take(j), (fuel - 1) as nat),
        decreases s.len() - j,
    {
        let c = cur.unwrap();
        proof { assert(tree.kid_ok(n@, j)); }
        collect_preorder(tree, c, fuel - 1, out);
        cur = match tree.get(c) {
            Some(it) => it.next_sibling(),
            None => None,
        };
        proof {
            assert(s.take(j + 1).drop_last() =~= s.take(j));
            j = j + 1;
        }
    }
    proof {
        assert(s.take(j) =~= s);
    }
}

/// Every node of the subtree at `root`, `root` first, in document order.
pub fn descendants<T>(tree: &UNITree<T>, root: Index) -> (r: Vec<Index>)
    requires
        tree.wf(),
        root@ < tree.spec_len(),
    ensures
        positions(r@) == preorder(tree.kids(), root@, tree.spec_len()),
{
    let mut out: Vec<Index> = Vec::new();
    collect_preorder(tree, root, tree.len(), &mut out);
    proof { assert(positions(Seq::<Index>::empty()) =~= Seq::<nat>::empty()); }
    proof { assert(Seq::<nat>::empty() + preorder(tree.kids(), root@, tree.spec_len()) =~= preorder(tree.kids(), root@, tree.spec_len())); }
    out
}

pub open spec fn edge_views(v: Seq<Edge>) -> Seq<(bool, nat)> {
    v.map_values(|e: Edge| edge_view(e))
}

/// A walk over a node of the tree opens and closes it and visits only nodes
/// of the tree.
pub proof fn lemma_edges_in_range<T>(t: &UNITree<T>, n: nat, fuel: nat)
    requires
        t.wf(),
        n < t.spec_len(),
    ensures
        forall|i: int| 0 <= i < edges(t.kids(), n, fuel).len() ==> (#[trigger] edges(t.kids(), n, fuel)[i]).1 < t.spec_len(),
        fuel > 0 ==> edges(t.kids(), n, fuel).len() >= 2,
    decreases fuel, 0nat,
{
    if fuel > 0 {
        let s = t.kids()[n as int];
        assert forall|i: int| 0 <= i < s.len() implies #[trigger] s[i] < t.spec_len() by {
            assert(t.kid_ok(n, i));
        }
        lemma_edges_list_in_range(t, s, (fuel - 1) as nat);
        let es = edges(t.kids(), n, fuel);
        let inner = edges_list(t.kids(), s, (fuel - 1) as nat);
        assert(es == seq![(true, n)] + inner + seq![(false, n)]);
        assert forall|i: int| 0 <= i < es.len() implies (#[trigger] es[i]).1 < t.spec_len() by {
            if 0 < i < es.len() - 1 {
                assert(es[i] == inner[i - 1]);
            }
        }
    }
}

proof fn lemma_edges_list_in_range<T>(t: &UNITree<T>, s: Seq<nat>, fuel: nat)
    requires
        t.wf(),
        forall|i: int| 0 <= i < s.len() ==> #[trigger] s[i] < t.spec_len(),
    ensures
        forall|i: int| 0 <= i < edges_list(t.kids(), s, fuel).len() ==> (#[trigger] edges_list(t.kids(), s, fuel)[i]).1 < t.spec_len(),
    decreases fuel, s.len() + 1,
{
    if s.len() > 0 {
        lemma_edges_list_in_range(t, s.drop_last(), fuel);
        lemma_edges_in_range(t, s.last(), fuel);
        let a = edges_list(t.kids(), s.drop_last(), fuel);
        let b = edges(t.kids(), s.last(), fuel);
        assert forall|i: int| 0 <= i < (a + b).len() implies (#[trigger] (a + b)[i]).1 < t.spec_len() by {
            if i < a.len() {
                assert((a + b)[i] == a[i]);
            } else {
                assert((a + b)[i] == b[i - a.len()]);
            }
        }
    }
}

/// Appends the edges of a walk over the subtree at `n` to `out`.
fn collect_edges<T>(tree: &UNITree<T>, n: Index, fuel: usize, out: &mut Vec<Edge>)
    requires
        tree.wf(),
        n@ < tree.spec_len(),
    ensures
        edge_views(final(out)@) == edge_views(old(out)@) + edges(tree.kids(), n@, fuel as nat),
    decreases fuel,
{
    if fuel == 0 {
        proof { assert(edge_views(old(out)@) + edges(tree.kids(), n@, 0) =~= edge_views(old(out)@)); }
        return;
    }
    let ghost base = edge_views(out@);
    out.push(Edge::Open(n));
    proof {
        assert(edge_views(out@) =~= base + seq![(true, n@)]);
        assert(tree.children_link_ok(n@));
    }
    let ghost s = tree.kids()[n@ as int];
    let mut cur = match tree.get(n) {
        Some(it) => it.first_children(),
        None => None,
    };
    let ghost mut j: int = 0;
    proof {
        assert(s.take(0) =~= Seq::<nat>::empty());
        assert(edge_views(out@) =~= base + seq![(true, n@)] + edges_list(tree.kids(), s.take(0), (fuel - 1) as nat));
    }
    while cur.is_some()
        invariant
            tree.wf(),
            n@ < tree.spec_len(),
            fuel > 0,
            s == tree.kids()[n@ as int],
            0 <= j <= s.len(),
            cur is Some <==> j < s.len(),
            cur matches Some(c) ==> c@ == s[j],
            edge_views(out@) == base + seq![(true, n@)] + edges_list(tree.kids(), s.take(j), (fuel - 1) as nat),
        decreases s.len() - j,
    {
        let c = cur.unwrap();
        proof { assert(tree.kid_ok(n@, j)); }
        collect_edges(tree, c, fuel - 1, out);
        cur = match tree.get(c) {
            Some(it) => it.next_sibling(),
            None => None,
        };
        proof {
            assert(s.take(j + 1).drop_last() =~= s.take(j));
            j = j + 1;
        }
    }
    let ghost mid = edge_views(out@);
    out.push(Edge::Close(n));
    proof {
        assert(s.take(j) =~= s);
        assert(edge_views(out@) =~= mid + seq![(false, n@)]);
        assert(edge_views(out@) =~= base + edges(tree.kids(), n@, fuel as nat));
    }
}

/// A depth-first walk over a subtree, handing out one edge at a time.
pub struct Traverse {
    edges: Vec<Edge>,
    next: usize,
}

impl Traverse {
    /// The edges of the whole walk, in order.
    pub closed spec fn spec_edges(&self) -> Seq<Edge> {
        self.edges@
    }

    /// How many edges were handed out already.
    pub closed spec fn spec_done(&self) -> nat {
        self.next as nat
    }

    /// Number of edges in the whole walk.
    pub fn len(&self) -> (r: usize)
        ensures
            r == self.spec_edges().len(),
    {
        self.edges.len()
    }

    /// The `i`-th edge of the walk.
    pub fn edge_at(&self, i: usize) -> (r: Edge)
        requires
            i < self.spec_edges().len(),
        ensures
            r == self.spec_edges()[i as int],
    {
        self.edges[i]
    }

    /// A walk over the subtree at `index`.
    pub fn new<T>(tree: &UNITree<T>, index: Index) -> (r: Traverse)
        requires
            tree.wf(),
            index@ < tree.spec_len(),
        ensures
            edge_views(r.spec_edges()) == edges(tree.kids(), index@, tree.spec_len()),
            r.spec_done() == 0,
    {
        let mut out: Vec<Edge> = Vec::new();
        collect_edges(tree, index, tree.len(), &mut out);
        proof {
            assert(edge_views(Seq::<Edge>::empty()) =~= Seq::<(bool, nat)>::empty());
            assert(Seq::<(bool, nat)>::empty() + edges(tree.kids(), index@, tree.spec_len())
                =~= edges(tree.kids(), index@, tree.spec_len()));
        }
        Traverse { edges: out, next: 0 }
    }

    /// The next edge of the walk, or `None` once it is over.
    pub fn next_edge(&mut self) -> (r: Option<Edge>)
        ensures
            final(self).spec_edges() == old(self).spec_edges(),
            old(self).spec_done() < old(self).spec_edges().len() ==> r == Some(old(self).spec_edges()[old(self).spec_done() as int])
                && final(self).spec_done() == old(self).spec_done() + 1,
            old(self).spec_done() >= old(self).spec_edges().len() ==> r is None
                && final(self).spec_done() == old(self).spec_done(),
    {
        if self.next < self.edges.len() {
            let e = self.edges[self.next];
            self.next = self.next + 1;
            Some(e)
        } else {
            None
        }
    }
}

pub open spec fn elements_of(t: UNITree<Interface>, s: Seq<nat>) -> Seq<nat>
    decreases s.len(),
{
    if s.len() == 0 {
        seq![]
    } else if t.value_of(s.last()) is Element {
        elements_of(t, s.drop_last()).push(s.last())
    } else {
        elements_of(t, s.drop_last())
    }
}

/// The elements of the subtree at `root`, `root` included, in document
/// order: the candidates a selector is tested against.
pub fn element_descendants(tree: &UNITree<Interface>, root: Index) -> (r: Vec<Index>)
    requires
        tree.wf(),
        root@ < tree.spec_len(),
    ensures
        positions(r@) == elements_of(*tree, preorder(tree.kids(), root@, tree.spec_len())),
        tree.acyclic() ==> positions(r@).no_duplicates(),
{
    let all = descendants(tree, root);
    let ghost s = positions(all@);
    let mut out: Vec<Index> = Vec::new();
    let mut i: usize = 0;
    proof {
        assert(s.take(0) =~= Seq::<nat>::empty());
        assert(positions(out@) =~= Seq::<nat>::empty());
        lemma_preorder_in_range(tree, root@, tree.spec_len());
    }
    while i < all.len()
        invariant
            tree.wf(),
            s == positions(all@),
            s == preorder(tree.kids(), root@, tree.spec_len()),
            forall|j: int| 0 <= j < s.len() ==> #[trigger] s[j] < tree.spec_len(),
            i <= all.len(),
            positions(out@) == elements_of(*tree, s.take(i as int)),
        decreases all.len() - i,
    {
        let n = all[i];
        proof {
            assert(s.take(i as int + 1).drop_last() =~= s.take(i as int));
            assert(s.take(i as int + 1).last() == n@);
        }
        let is_elem = match tree.get(n) {
            Some(it) => it.value().is_element(),
            None => false,
        };
        proof { assert(s[i as int] == n@); }
        if is_elem {
            let ghost before = positions(out@);
            out.push(n);
            proof { assert(positions(out@) =~= before.push(n@)); }
        }
        i = i + 1;
    }
    proof {
        assert(s.take(i as int) =~= s);
        if tree.acyclic() {
            lemma_descendants_unique(tree, root@);
            lemma_elements_of_unique(*tree, s);
        }
    }
    out
}

/// Keeping the elements of a list keeps it free of duplicates, and every
/// kept node comes from the list.
pub proof fn lemma_elements_of_unique(t: UNITree<Interface>, s: Seq<nat>)
    ensures
        forall|x: nat| elements_of(t, s).contains(x) ==> s.contains(x),
        s.no_duplicates() ==> elements_of(t, s).no_duplicates(),
    decreases s.len(),
{
    if s.len() > 0 {
        let r = s.drop_last();
        lemma_elements_of_unique(t, r);
        let e = elements_of(t, r);
        assert forall|x: nat| elements_of(t, s).contains(x) implies s.contains(x) by {
            if e.contains(x) {
                assert(r.contains(x));
                let i = choose|i: int| 0 <= i < r.len() && r[i] == x;
                assert(s[i] == x);
            } else {
                assert(x == s.last());
                assert(s[s.len() - 1] == x);
            }
        }
        if s.no_duplicates() {
            assert(r.no_duplicates()) by {
                assert forall|i: int, j: int| 0 <= i < r.len() && 0 <= j < r.len() && i != j implies r[i] != r[j] by {
                    assert(r[i] == s[i] && r[j] == s[j]);
                }
            }
            if t.value_of(s.last()) is Element {
                assert(!e.contains(s.last())) by {
                    if e.contains(s.last()) {
                        assert(r.contains(s.last()));
                        let i = choose|i: int| 0 <= i < r.len() && r[i] == s.last();
                        assert(s[i] == s[s.len() - 1]);
                    }
                }
                let f = e.push(s.last());
                assert forall|i: int, j: int| 0 <= i < f.len() && 0 <= j < f.len() && i != j implies f[i] != f[j] by {
                    if i < e.len() && j < e.len() {
                    } else if i == e.len() {
                        assert(e.contains(e[j]));
                    } else {
                        assert(e.contains(e[i]));
                    }
                }
            }
        }
    }
}

/// A pre-order walk visits only nodes of the tree.
pub proof fn lemma_preorder_in_range<T>(t: &UNITree<T>, n: nat, fuel: nat)
    requires
        t.wf(),
        n < t.spec_len(),
    ensures
        forall|i: int| 0 <= i < preorder(t.kids(), n, fuel).len() ==> #[trigger] preorder(t.kids(), n, fuel)[i] < t.spec_len(),
    decreases fuel, 0nat,
{
    if fuel > 0 {
        let s = t.kids()[n as int];
        assert forall|i: int| 0 <= i < s.len() implies #[trigger] s[i] < t.spec_len() by {
            assert(t.kid_ok(n, i));
        }
        lemma_preorder_list_in_range(t, s, (fuel - 1) as nat);
        let inner = preorder_list(t.kids(), s, (fuel - 1) as nat);
        let ps = preorder(t.kids(), n, fuel);
        assert forall|i: int| 0 <= i < ps.len() implies #[trigger] ps[i] < t.spec_len() by {
            if i > 0 {
                assert(ps[i] == inner[i - 1]);
            }
        }
    }
}

proof fn lemma_preorder_list_in_range<T>(t: &UNITree<T>, s: Seq<nat>, fuel: nat)
    requires
        t.wf(),
        forall|i: int| 0 <= i < s.len() ==> #[trigger] s[i] < t.spec_len(),
    ensures
        forall|i: int| 0 <= i < preorder_list(t.kids(), s, fuel).len() ==> #[trigger] preorder_list(t.kids(), s, fuel)[i] < t.spec_len(),
    decreases fuel, s.len() + 1,
{
    if s.len() > 0 {
        lemma_preorder_list_in_range(t, s.drop_last(), fuel);
        lemma_preorder_in_range(t, s.last(), fuel);
        let a = preorder_list(t.kids(), s.drop_last(), fuel);
        let b = preorder(t.kids(), s.last(), fuel);
        assert forall|i: int| 0 <= i < (a + b).len() implies #[trigger] (a + b)[i] < t.spec_len() by {
            if i < a.len() {
                assert((a + b)[i] == a[i]);
            } else {
                assert((a + b)[i] == b[i - a.len()]);
            }
        }
    }
}

} // verus!

verus! {

/// Every node of a pre-order walk lies below its start, fewer than `fuel`
/// links down.
proof fn lemma_preorder_below<T>(t: &UNITree<T>, n: nat, fuel: nat, x: nat)
    requires
        t.wf(),
        n < t.spec_len(),
        preorder(t.kids(), n, fuel).contains(x),
    ensures
        exists|d: nat| d < fuel && ancestor_at(*t, x, d) == Some(n),
    decreases fuel, 0nat,
{
    let s = t.kids()[n as int];
    let inner = preorder_list(t.kids(), s, (fuel - 1) as nat);
    let ps = preorder(t.kids(), n, fuel);
    let i = choose|i: int| 0 <= i < ps.len() && ps[i] == x;
    if i == 0 {
        assert(ancestor_at(*t, x, 0) == Some(n));
    } else {
        assert(inner[i - 1] == x);
        assert(inner.contains(x));
        assert forall|j: int| 0 <= j < s.len() implies #[trigger] t.parent_of(s[j]) == Some(n) && s[j] < t.spec_len() by {
            assert(t.kid_ok(n, j));
        }
        lemma_preorder_list_below(t, n, s, (fuel - 1) as nat, x);
        let (j, d) = choose|j: int, d: nat| 0 <= j < s.len() && d < fuel - 1 && ancestor_at(*t, x, d) == Some(s[j]);
        lemma_ancestor_at_step(*t, x, d, s[j], n);
    }
}

proof fn lemma_preorder_list_below<T>(t: &UNITree<T>, p: nat, s: Seq<nat>, fuel: nat, x: nat)
    requires
        t.wf(),
        forall|j: int| 0 <= j < s.len() ==> #[trigger] t.parent_of(s[j]) == Some(p) && s[j] < t.spec_len(),
        preorder_list(t.kids(), s, fuel).contains(x),
    ensures
        exists|j: int, d: nat| 0 <= j < s.len() && d < fuel && ancestor_at(*t, x, d) == Some(s[j]),
    decreases fuel, s.len() + 1,
{
    let a = preorder_list(t.kids(), s.drop_last(), fuel);
    let b = preorder(t.kids(), s.last(), fuel);
    let k = choose|k: int| 0 <= k < (a + b).len() && (a + b)[k] == x;
    if k < a.len() {
        assert(a[k] == x);
        assert forall|j: int| 0 <= j < s.drop_last().len() implies #[trigger] t.parent_of(s.drop_last()[j]) == Some(p)
            && s.drop_last()[j] < t.spec_len() by {
            assert(s.drop_last()[j] == s[j]);
        }
        lemma_preorder_list_below(t, p, s.drop_last(), fuel, x);
        let (j, d) = choose|j: int, d: nat| 0 <= j < s.drop_last().len() && d < fuel && ancestor_at(*t, x, d) == Some(s.drop_last()[j]);
        assert(s.drop_last()[j] == s[j]);
    } else {
        assert(b[k - a.len()] == x);
        assert(t.parent_of(s[s.len() - 1]) == Some(p));
        lemma_preorder_below(t, s.last(), fuel, x);
        let d = choose|d: nat| d < fuel && ancestor_at(*t, x, d) == Some(s.last());
        assert(ancestor_at(*t, x, d) == Some(s[s.len() - 1]));
    }
}

/// Two children of `p` on one chain of parents put `p` above itself.
proof fn lemma_sibling_above<T>(t: &UNITree<T>, p: nat, c1: nat, c2: nat, x: nat, d1: nat, d2: nat)
    requires
        t.wf(),
        p < t.spec_len(),
        d1 < d2 < t.spec_len(),
        t.parent_of(c1) == Some(p),
        t.parent_of(c2) == Some(p),
        ancestor_at(*t, x, d1) == Some(c1),
        ancestor_at(*t, x, d2) == Some(c2),
    ensures
        t.is_ancestor(p, p),
{
    let k = (d2 - d1) as nat;
    lemma_ancestor_at_compose(*t, x, d1, k, c1);
    assert(d1 + k == d2);
    assert(ancestor_at(*t, c1, k) == Some(c2));
    lemma_ancestor_at_step(*t, c1, k, c2, p);
    assert(ancestor_at(*t, c1, 1) == Some(p)) by {
        assert(ancestor_at(*t, p, 0) == Some(p));
    }
    lemma_ancestor_at_compose(*t, c1, 1, k, p);
    assert(1 + k == k + 1);
    assert(ancestor_at(*t, p, k) == Some(p));
}

proof fn lemma_concat_no_dup(a: Seq<nat>, b: Seq<nat>)
    requires
        a.no_duplicates(),
        b.no_duplicates(),
        forall|x: nat| a.contains(x) ==> !b.contains(x),
    ensures
        (a + b).no_duplicates(),
{
    assert forall|i: int, j: int| 0 <= i < (a + b).len() && 0 <= j < (a + b).len() && i != j implies (a + b)[i] != (a + b)[j] by {
        if i < a.len() && j >= a.len() {
            assert(a.contains(a[i]));
            assert(b[j - a.len()] == (a + b)[j]);
        } else if j < a.len() && i >= a.len() {
            assert(a.contains(a[j]));
            assert(b[i - a.len()] == (a + b)[i]);
        } else if i < a.len() {
        } else {
            assert((a + b)[i] == b[i - a.len()]);
            assert((a + b)[j] == b[j - a.len()]);
        }
    }
}

proof fn lemma_preorder_no_dup<T>(t: &UNITree<T>, n: nat, fuel: nat)
    requires
        t.wf(),
        t.acyclic(),
        n < t.spec_len(),
        fuel <= t.spec_len(),
    ensures
        preorder(t.kids(), n, fuel).no_duplicates(),
    decreases fuel, 0nat,
{
    if fuel > 0 {
        let s = t.kids()[n as int];
        assert forall|j: int| 0 <= j < s.len() implies #[trigger] t.parent_of(s[j]) == Some(n) && s[j] < t.spec_len() by {
            assert(t.kid_ok(n, j));
        }
        assert(t.children_link_ok(n));
        lemma_preorder_list_no_dup(t, n, s, (fuel - 1) as nat);
        let inner = preorder_list(t.kids(), s, (fuel - 1) as nat);
        assert(!inner.contains(n)) by {
            if inner.contains(n) {
                lemma_preorder_list_below(t, n, s, (fuel - 1) as nat, n);
                let (j, d) = choose|j: int, d: nat| 0 <= j < s.len() && d < fuel - 1 && ancestor_at(*t, n, d) == Some(s[j]);
                lemma_ancestor_at_step(*t, n, d, s[j], n);
                assert(t.is_ancestor(n, n));
            }
        }
        assert forall|x: nat| seq![n].contains(x) implies !inner.contains(x) by {
            assert(seq![n][0] == n);
        }
        lemma_concat_no_dup(seq![n], inner);
    }
}

proof fn lemma_preorder_list_no_dup<T>(t: &UNITree<T>, p: nat, s: Seq<nat>, fuel: nat)
    requires
        t.wf(),
        t.acyclic(),
        p < t.spec_len(),
        fuel < t.spec_len(),
        s.no_duplicates(),
        forall|j: int| 0 <= j < s.len() ==> #[trigger] t.parent_of(s[j]) == Some(p) && s[j] < t.spec_len(),
    ensures
        preorder_list(t.kids(), s, fuel).no_duplicates(),
    decreases fuel, s.len() + 1,
{
    if s.len() > 0 {
        let r = s.drop_last();
        assert forall|j: int| 0 <= j < r.len() implies #[trigger] t.parent_of(r[j]) == Some(p) && r[j] < t.spec_len() by {
            assert(r[j] == s[j]);
        }
        assert(r.no_duplicates()) by {
            assert forall|i: int, j: int| 0 <= i < r.len() && 0 <= j < r.len() && i != j implies r[i] != r[j] by {
                assert(r[i] == s[i] && r[j] == s[j]);
            }
        }
        lemma_preorder_list_no_dup(t, p, r, fuel);
        let last = s[s.len() - 1];
        assert(t.parent_of(last) == Some(p));
        lemma_preorder_no_dup(t, last, fuel);
        let a = preorder_list(t.kids(), r, fuel);
        let b = preorder(t.kids(), last, fuel);
        assert forall|x: nat| a.contains(x) implies !b.contains(x) by {
            if b.contains(x) {
                lemma_preorder_list_below(t, p, r, fuel, x);
                let (j, d) = choose|j: int, d: nat| 0 <= j < r.len() && d < fuel && ancestor_at(*t, x, d) == Some(r[j]);
                assert(r[j] == s[j]);
                assert(s[j] != last);
                lemma_preorder_below(t, last, fuel, x);
                let d2 = choose|d: nat| d < fuel && ancestor_at(*t, x, d) == Some(last);
                if d == d2 {
                } else if d < d2 {
                    lemma_sibling_above(t, p, r[j], last, x, d, d2);
                } else {
                    lemma_sibling_above(t, p, last, r[j], x, d2, d);
                }
            }
        }
        lemma_concat_no_dup(a, b);
    }
}

/// In a tree where no node is its own ancestor, the document-order walk
/// visits every node at most once.
pub proof fn lemma_descendants_unique<T>(t: &UNITree<T>, root: nat)
    requires
        t.wf(),
        t.acyclic(),
        root < t.spec_len(),
    ensures
        preorder(t.kids(), root, t.spec_len()).no_duplicates(),
{
    lemma_preorder_no_dup(t, root, t.spec_len());
}

} // verus!
