//! What a selector matcher asks of an element: its element neighbours, its
//! name, attribute values, id and classes. Nodes other than elements never
//! match.

use vstd::prelude::*;
use crate::attrs::{AttrView, first_id, str_views};
use crate::nodes::Interface;
use crate::strings::{eq_ignore_ascii_case, str_eq, str_eq_case};
use crate::tree::{Index, UNITree};

verus! {

pub open spec fn is_elem(t: UNITree<Interface>, n: nat) -> bool {
    t.value_of(n) is Element
}

/// The nearest ancestor of `n` that is an element, within `steps` parent links.
pub open spec fn elem_ancestor(t: UNITree<Interface>, n: nat, steps: nat) -> Option<nat>
    decreases steps,
{
    if steps == 0 {
        None
    } else {
        match t.parent_of(n) {
            None => None,
            Some(m) => if is_elem(t, m) {
                Some(m)
            } else {
                elem_ancestor(t, m, (steps - 1) as nat)
            },
        }
    }
}

/// The nearest element among the siblings before (`forward` false) or after
/// (`forward` true) `n`, within `steps` sibling links.
pub open spec fn elem_sibling(t: UNITree<Interface>, n: nat, forward: bool, steps: nat) -> Option<nat>
    decreases steps,
{
    if steps == 0 {
        None
    } else {
        match (if forward { t.next_of(n) } else { t.prev_of(n) }) {
            None => None,
            Some(m) => if is_elem(t, m) {
                Some(m)
            } else {
                elem_sibling(t, m, forward, (steps - 1) as nat)
            },
        }
    }
}

/// The first element in the child list `s`.
pub open spec fn first_elem(t: UNITree<Interface>, s: Seq<nat>) -> Option<nat>
    decreases s.len(),
{
    if s.len() == 0 {
        None
    } else if is_elem(t, s[0]) {
        Some(s[0])
    } else {
        first_elem(t, s.drop_first())
    }
}

/// The values of the attributes named `local` whose namespace is `ns`
/// (any namespace where `ns` is `None`), in order.
pub open spec fn matching_values(s: Seq<AttrView>, ns: Option<Seq<char>>, local: Seq<char>) -> Seq<Seq<char>>
    decreases s.len(),
{
    if s.len() == 0 {
        seq![]
    } else {
        let a = s.last();
        let rest = matching_values(s.drop_last(), ns, local);
        if a.0.2 == local && (ns is None || ns == Some(a.0.1)) {
            rest.push(a.1)
        } else {
            rest
        }
    }
}

/// An element handle for selector matching.
#[derive(Debug, Clone, Copy, PartialEq, Eq, Structural)]
pub struct SelectableNode(pub Index);

impl SelectableNode {
    pub fn new(node: Index) -> (r: SelectableNode)
        ensures
            r.0 == node,
    {
        SelectableNode(node)
    }

    pub fn into_node(self) -> (r: Index)
        ensures
            r == self.0,
    {
        self.0
    }

    /// The nearest ancestor that is an element.
    pub fn parent_element(&self, t: &UNITree<Interface>) -> (r: Option<SelectableNode>)
        requires
            t.wf(),
            self.0@ < t.spec_len(),
        ensures
            r matches Some(p) ==> elem_ancestor(*t, self.0@, t.spec_len()) == Some(p.0@),
            r is None ==> elem_ancestor(*t, self.0@, t.spec_len()) is None,
    {
        let mut cur = self.0;
        let mut steps = t.len();
        while steps > 0
            invariant
                t.wf(),
                cur@ < t.spec_len(),
                elem_ancestor(*t, self.0@, t.spec_len()) == elem_ancestor(*t, cur@, steps as nat),
            decreases steps,
        {
            proof { assert(t.parent_link_ok(cur@)); }
            match t.get(cur).unwrap().parent() {
                None => {
                    return None;
                },
                Some(m) => {
                    if t.get(m).unwrap().value().is_element() {
                        return Some(SelectableNode(m));
                    }
                    cur = m;
                    steps = steps - 1;
                },
            }
        }
        None
    }

    fn sibling_element(&self, t: &UNITree<Interface>, forward: bool) -> (r: Option<SelectableNode>)
        requires
            t.wf(),
            self.0@ < t.spec_len(),
        ensures
            r matches Some(p) ==> elem_sibling(*t, self.0@, forward, t.spec_len()) == Some(p.0@),
            r is None ==> elem_sibling(*t, self.0@, forward, t.spec_len()) is None,
    {
        let mut cur = self.0;
        let mut steps = t.len();
        while steps > 0
            invariant
                t.wf(),
                cur@ < t.spec_len(),
                elem_sibling(*t, self.0@, forward, t.spec_len()) == elem_sibling(*t, cur@, forward, steps as nat),
            decreases steps,
        {
            proof { crate::tree::lemma_siblings_symmetric(t, cur@); }
            let it = t.get(cur).unwrap();
            let next = if forward { it.next_sibling() } else { it.prev_sibling() };
            match next {
                None => {
                    return None;
                },
                Some(m) => {
                    if t.get(m).unwrap().value().is_element() {
                        return Some(SelectableNode(m));
                    }
                    cur = m;
                    steps = steps - 1;
                },
            }
        }
        None
    }

    /// The nearest earlier sibling that is an element.
    pub fn prev_sibling_element(&self, t: &UNITree<Interface>) -> (r: Option<SelectableNode>)
        requires
            t.wf(),
            self.0@ < t.spec_len(),
        ensures
            r matches Some(p) ==> elem_sibling(*t, self.0@, false, t.spec_len()) == Some(p.0@),
            r is None ==> elem_sibling(*t, self.0@, false, t.spec_len()) is None,
    {
        self.sibling_element(t, false)
    }

    /// The nearest later sibling that is an element.
    pub fn next_sibling_element(&self, t: &UNITree<Interface>) -> (r: Option<SelectableNode>)
        requires
            t.wf(),
            self.0@ < t.spec_len(),
        ensures
            r matches Some(p) ==> elem_sibling(*t, self.0@, true, t.spec_len()) == Some(p.0@),
            r is None ==> elem_sibling(*t, self.0@, true, t.spec_len()) is None,
    {
        self.sibling_element(t, true)
    }

    /// The first child that is an element.
    pub fn first_element_child(&self, t: &UNITree<Interface>) -> (r: Option<SelectableNode>)
        requires
            t.wf(),
            self.0@ < t.spec_len(),
        ensures
            r matches Some(c) ==> first_elem(*t, t.kids()[self.0@ as int]) == Some(c.0@),
            r is None ==> first_elem(*t, t.kids()[self.0@ as int]) is None,
    {
        let ghost s = t.kids()[self.0@ as int];
        proof {
            assert(t.children_link_ok(self.0@));
            assert(s.skip(0) =~= s);
        }
        let mut cur = t.get(self.0).unwrap().first_children();
        let ghost mut j: int = 0;
        while cur.is_some()
            invariant
                t.wf(),
                self.0@ < t.spec_len(),
                s == t.kids()[self.0@ as int],
                0 <= j <= s.len(),
                cur is Some <==> j < s.len(),
                cur matches Some(c) ==> c@ == s[j],
                first_elem(*t, s) == first_elem(*t, s.skip(j)),
            decreases s.len() - j,
        {
            let c = cur.unwrap();
            proof {
                assert(t.kid_ok(self.0@, j));
                assert(s.skip(j)[0] == s[j]);
            }
            if t.get(c).unwrap().value().is_element() {
                return Some(SelectableNode(c));
            }
            proof { assert(s.skip(j).drop_first() =~= s.skip(j + 1)); }
            cur = t.get(c).unwrap().next_sibling();
            proof { j = j + 1; }
        }
        proof { assert(s.skip(j).len() == 0); }
        None
    }

    /// Both are elements with equal names.
    pub fn is_same_type(&self, t: &UNITree<Interface>, other: &SelectableNode) -> (r: bool)
        requires
            t.wf(),
            self.0@ < t.spec_len(),
            other.0@ < t.spec_len(),
        ensures
            r == (match (t.value_of(self.0@), t.value_of(other.0@)) {
                (Interface::Element(a), Interface::Element(b)) => a.name@ == b.name@,
                _ => false,
            }),
    {
        match (t.get(self.0).unwrap().value(), t.get(other.0).unwrap().value()) {
            (Interface::Element(a), Interface::Element(b)) => a.name.same(&b.name),
            _ => false,
        }
    }

    /// The element's namespace is the XHTML namespace.
    pub fn is_html_element_in_html_document(&self, t: &UNITree<Interface>) -> (r: bool)
        requires
            t.wf(),
            self.0@ < t.spec_len(),
        ensures
            r == (t.value_of(self.0@) matches Interface::Element(e) && e.name.ns@ == "http://www.w3.org/1999/xhtml"@),
    {
        self.has_namespace(t, "http://www.w3.org/1999/xhtml")
    }

    /// The element's local name is `local_name`.
    pub fn has_local_name(&self, t: &UNITree<Interface>, local_name: &str) -> (r: bool)
        requires
            t.wf(),
            self.0@ < t.spec_len(),
        ensures
            r == (t.value_of(self.0@) matches Interface::Element(e) && e.name.local@ == local_name@),
    {
        match t.get(self.0).unwrap().value() {
            Interface::Element(e) => str_eq(e.name.local.as_str(), local_name),
            _ => false,
        }
    }

    /// The element's namespace is `ns`.
    pub fn has_namespace(&self, t: &UNITree<Interface>, ns: &str) -> (r: bool)
        requires
            t.wf(),
            self.0@ < t.spec_len(),
        ensures
            r == (t.value_of(self.0@) matches Interface::Element(e) && e.name.ns@ == ns@),
    {
        match t.get(self.0).unwrap().value() {
            Interface::Element(e) => str_eq(e.name.ns.as_str(), ns),
            _ => false,
        }
    }

    /// The element is named `link`.
    pub fn is_link(&self, t: &UNITree<Interface>) -> (r: bool)
        requires
            t.wf(),
            self.0@ < t.spec_len(),
        ensures
            r == (t.value_of(self.0@) matches Interface::Element(e) && e.name.local@ == "link"@),
    {
        self.has_local_name(t, "link")
    }

    /// The node is the document itself.
    pub fn is_root(&self, t: &UNITree<Interface>) -> (r: bool)
        requires
            t.wf(),
            self.0@ < t.spec_len(),
        ensures
            r == (t.value_of(self.0@) is Document),
    {
        t.get(self.0).unwrap().value().is_document()
    }

    /// The element directly under the document: what CSS calls the root,
    /// for matchers that want that reading of `:root` instead of `is_root`'s.
    pub fn is_root_element(&self, t: &UNITree<Interface>) -> (r: bool)
        requires
            t.wf(),
            self.0@ < t.spec_len(),
        ensures
            r == (t.value_of(self.0@) is Element && (t.parent_of(self.0@) matches Some(p) && t.value_of(p) is Document)),
    {
        let it = t.get(self.0).unwrap();
        if !it.value().is_element() {
            return false;
        }
        proof { assert(t.parent_link_ok(self.0@)); }
        match it.parent() {
            Some(p) => t.get(p).unwrap().value().is_document(),
            None => false,
        }
    }

    /// No child is an element or a text node.
    pub fn is_empty(&self, t: &UNITree<Interface>) -> (r: bool)
        requires
            t.wf(),
            self.0@ < t.spec_len(),
        ensures
            r == (forall|i: int| 0 <= i < t.kids()[self.0@ as int].len() ==> !(#[trigger] t.value_of(t.kids()[self.0@ as int][i]) is Element)
                && !(t.value_of(t.kids()[self.0@ as int][i]) is Text)),
    {
        let ghost s = t.kids()[self.0@ as int];
        proof { assert(t.children_link_ok(self.0@)); }
        let mut cur = t.get(self.0).unwrap().first_children();
        let ghost mut j: int = 0;
        while cur.is_some()
            invariant
                t.wf(),
                self.0@ < t.spec_len(),
                s == t.kids()[self.0@ as int],
                0 <= j <= s.len(),
                cur is Some <==> j < s.len(),
                cur matches Some(c) ==> c@ == s[j],
                forall|i: int| 0 <= i < j ==> !(#[trigger] t.value_of(s[i]) is Element) && !(t.value_of(s[i]) is Text),
            decreases s.len() - j,
        {
            let c = cur.unwrap();
            proof { assert(t.kid_ok(self.0@, j)); }
            let v = t.get(c).unwrap().value();
            if v.is_element() || v.is_text() {
                proof { assert(t.value_of(s[j]) is Element || t.value_of(s[j]) is Text); }
                return false;
            }
            cur = t.get(c).unwrap().next_sibling();
            proof { j = j + 1; }
        }
        true
    }

    /// The values of the element's attributes named `local_name` whose
    /// namespace is `ns` (any namespace where `ns` is `None`), in order; a
    /// matcher then applies its value test to each.
    pub fn attr_values(&self, t: &UNITree<Interface>, ns: Option<&str>, local_name: &str) -> (r: Vec<String>)
        requires
            t.wf(),
            self.0@ < t.spec_len(),
        ensures
            str_views(r@) == (match t.value_of(self.0@) {
                Interface::Element(e) => matching_values(e.attrs@, match ns {
                    Some(x) => Some(x@),
                    None => None,
                }, local_name@),
                _ => seq![],
            }),
    {
        let mut out: Vec<String> = Vec::new();
        match t.get(self.0).unwrap().value() {
            Interface::Element(e) => {
                let ghost s = e.attrs@;
                let ghost nsv = match ns {
                    Some(x) => Some(x@),
                    None => None,
                };
                let mut i: usize = 0;
                proof { assert(s.take(0) =~= Seq::<AttrView>::empty()); assert(str_views(out@) =~= Seq::<Seq<char>>::empty()); }
                while i < e.attrs.len()
                    invariant
                        s == e.attrs@,
                        nsv == match ns {
                            Some(x) => Some(x@),
                            None => None,
                        },
                        i <= s.len(),
                        str_views(out@) == matching_values(s.take(i as int), nsv, local_name@),
                    decreases s.len() - i,
                {
                    let a = e.attrs.get(i);
                    let ns_ok = match ns {
                        None => true,
                        Some(x) => str_eq(a.0.ns.as_str(), x),
                    };
                    proof {
                        assert(s.take(i as int + 1).drop_last() =~= s.take(i as int));
                        assert(s.take(i as int + 1).last() == s[i as int]);
                        assert(s[i as int] == (a.0@, a.1@));
                        assert(ns_ok == (nsv is None || nsv == Some(a.0@.1)));
                    }
                    if ns_ok && str_eq(a.0.local.as_str(), local_name) {
                        let ghost before = out@;
                        out.push(a.1.clone());
                        proof { assert(str_views(out@) =~= str_views(before).push(a.1@)); }
                    }
                    i = i + 1;
                }
                proof { assert(s.take(i as int) =~= s); }
            },
            _ => {
                proof { assert(str_views(out@) =~= Seq::<Seq<char>>::empty()); }
            },
        }
        out
    }

    /// The element's `id` equals `id`, with or without regard to ASCII case.
    pub fn has_id(&self, t: &UNITree<Interface>, id: &str, case_sensitive: bool) -> (r: bool)
        requires
            t.wf(),
            self.0@ < t.spec_len(),
            t.value_of(self.0@).wf(),
        ensures
            r == (t.value_of(self.0@) matches Interface::Element(e) && first_id(e.attrs@) matches Some(v)
                && (if case_sensitive { v == id@ } else { eq_ignore_ascii_case(v, id@) })),
    {
        match t.get(self.0).unwrap().value() {
            Interface::Element(e) => match e.attrs.id() {
                Some(v) => str_eq_case(v.as_str(), id, case_sensitive),
                None => false,
            },
            _ => false,
        }
    }

    /// One of the element's classes equals `name`, with or without regard to
    /// ASCII case.
    pub fn has_class(&self, t: &UNITree<Interface>, name: &str, case_sensitive: bool) -> (r: bool)
        requires
            t.wf(),
            self.0@ < t.spec_len(),
            t.value_of(self.0@).wf(),
        ensures
            r == (t.value_of(self.0@) matches Interface::Element(e) && exists|c: Seq<char>|
                crate::attrs::class_tokens(e.attrs@).contains(c)
                && (if case_sensitive { c == name@ } else { eq_ignore_ascii_case(c, name@) })),
    {
        match t.get(self.0).unwrap().value() {
            Interface::Element(e) => {
                let classes = e.attrs.classes();
                let ghost cv = str_views(classes@);
                let ghost toks = crate::attrs::class_tokens(e.attrs@);
                proof {
                    assert(cv.to_set() == toks.to_set());
                }
                let mut i: usize = 0;
                while i < classes.len()
                    invariant
                        cv == str_views(classes@),
                        toks == crate::attrs::class_tokens(e.attrs@),
                        t.value_of(self.0@) == Interface::Element(*e),
                        cv.to_set() == toks.to_set(),
                        i <= classes.len(),
                        forall|k: int| 0 <= k < i ==> !(if case_sensitive { #[trigger] cv[k] == name@ } else { eq_ignore_ascii_case(cv[k], name@) }),
                    decreases classes.len() - i,
                {
                    if str_eq_case(classes[i].as_str(), name, case_sensitive) {
                        proof {
                            assert(cv[i as int] == classes@[i as int]@);
                            assert(cv.to_set().contains(cv[i as int]));
                            assert(toks.to_set().contains(cv[i as int]));
                            assert(toks.contains(cv[i as int]));
                            let c = cv[i as int];
                            assert(crate::attrs::class_tokens(e.attrs@).contains(c)
                                && (if case_sensitive { c == name@ } else { eq_ignore_ascii_case(c, name@) }));
                        }
                        return true;
                    }
                    proof { assert(cv[i as int] == classes@[i as int]@); }
                    i = i + 1;
                }
                proof {
                    assert forall|c: Seq<char>| toks.contains(c) implies !(if case_sensitive { c == name@ } else { eq_ignore_ascii_case(c, name@) }) by {
                        assert(toks.to_set().contains(c));
                        assert(cv.to_set().contains(c));
                        let k = choose|k: int| 0 <= k < cv.len() && cv[k] == c;
                    }
                }
                false
            },
            _ => false,
        }
    }
}

} // verus!
