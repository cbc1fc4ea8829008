//! The document under construction and the callbacks a markup tree builder
//! drives to fill it: node creation, appending with text coalescing,
//! insertion before a sibling, attribute merging and reparenting.

use vstd::prelude::*;
use crate::attrs::{attr_views, is_sorted_dedup};
use crate::iter::{elements_of, lemma_descendants_unique, lemma_elements_of_unique, preorder};
use crate::nodes::{
    CommentInterface, DoctypeInterface, DocumentInterface, ElementInterface, Interface,
    ProcessingInstructionInterface, TextInterface,
};
use crate::options::QuirksMode;
use crate::qualname::QualName;
use crate::tree::{Index, UNITree, model_append, model_insert, model_reparent_append};

verus! {

/// A parse error: its message and the line it was reported on.
pub struct ErrorWithLine(pub String, pub u64);

/// Why a structural change was refused.
#[derive(Debug, Clone, Copy, PartialEq, Eq, Structural)]
pub enum ErrorKind {
    /// The change would make a node its own ancestor, or move the root.
    ChildCycleDetected,
}

/// What a tree builder appends: a node it made, or characters.
pub enum NodeOrText {
    AppendNode(Index),
    AppendText(String),
}

/// The text of a Text payload.
pub open spec fn text_of(v: Interface) -> Option<Seq<char>> {
    match v {
        Interface::Text(t) => Some(t.contents@),
        _ => None,
    }
}

/// A move of `child` under `parent` (or next to it) that cannot close a cycle.
pub open spec fn can_move(t: UNITree<Interface>, child: nat, parent: nat) -> bool {
    child != parent && child != 0 && !t.is_ancestor(child, parent)
}

/// The whole of one append of `child` as the last child of `parent`.
pub open spec fn append_post(o: TreeDom, f: TreeDom, parent: nat, child: NodeOrText, r: Result<(), ErrorKind>) -> bool {
    let t0 = o.spec_tree();
    let t1 = f.spec_tree();
    let k = t0.kids()[parent as int];
    &&& f.same_state(o)
    &&& match child {
        NodeOrText::AppendNode(c) => {
            if can_move(t0, c@, parent) {
                &&& r is Ok
                &&& t1.same_values(&t0)
                &&& t1.kids() == (if k.len() > 0 && k.last() == c@ {
                    t0.kids()
                } else {
                    model_append(t0.kids(), t0.parent_of(c@), parent, c@)
                })
            } else {
                r == Err::<(), ErrorKind>(ErrorKind::ChildCycleDetected) && t1 == t0
            }
        },
        NodeOrText::AppendText(s) => {
            &&& r is Ok
            &&& if k.len() > 0 && text_of(t0.value_of(k.last())) is Some {
                &&& t1.spec_len() == t0.spec_len()
                &&& t1.kids() == t0.kids()
                &&& text_of(t1.value_of(k.last())) == Some(text_of(t0.value_of(k.last()))->Some_0 + s@)
                &&& forall|n: nat| n < t0.spec_len() && n != k.last() ==> #[trigger] t1.value_of(n) == t0.value_of(n)
            } else {
                &&& t1.spec_len() == t0.spec_len() + 1
                &&& t1.kids() == t0.kids().push(seq![]).update(parent as int, k.push(t0.spec_len()))
                &&& text_of(t1.value_of(t0.spec_len())) == Some(s@)
                &&& forall|n: nat| n < t0.spec_len() ==> #[trigger] t1.value_of(n) == t0.value_of(n)
            }
        },
    }
}

/// The whole of one insertion of `child` just before the attached `sibling`.
pub open spec fn append_before_post(o: TreeDom, f: TreeDom, sibling: nat, child: NodeOrText, r: Result<(), ErrorKind>) -> bool {
    let t0 = o.spec_tree();
    let t1 = f.spec_tree();
    let q = t0.parent_of(sibling)->Some_0;
    let k = t0.kids()[q as int];
    let j = k.index_of(sibling);
    &&& f.same_state(o)
    &&& match child {
        NodeOrText::AppendNode(c) => {
            if can_move(t0, c@, sibling) {
                &&& r is Ok
                &&& t1.same_values(&t0)
                &&& t1.kids() == model_insert(t0.kids(), t0.parent_of(c@), q, sibling, c@, false)
            } else {
                r == Err::<(), ErrorKind>(ErrorKind::ChildCycleDetected) && t1 == t0
            }
        },
        NodeOrText::AppendText(s) => {
            &&& r is Ok
            &&& if j > 0 && text_of(t0.value_of(k[j - 1])) is Some {
                &&& t1.spec_len() == t0.spec_len()
                &&& t1.kids() == t0.kids()
                &&& text_of(t1.value_of(k[j - 1])) == Some(text_of(t0.value_of(k[j - 1]))->Some_0 + s@)
                &&& forall|n: nat| n < t0.spec_len() && n != k[j - 1] ==> #[trigger] t1.value_of(n) == t0.value_of(n)
            } else {
                &&& t1.spec_len() == t0.spec_len() + 1
                &&& t1.kids() == t0.kids().push(seq![]).update(q as int, k.insert(j, t0.spec_len()))
                &&& text_of(t1.value_of(t0.spec_len())) == Some(s@)
                &&& forall|n: nat| n < t0.spec_len() ==> #[trigger] t1.value_of(n) == t0.value_of(n)
            }
        },
    }
}

/// A document tree together with what its parser reported.
pub struct TreeDom {
    tree: UNITree<Interface>,
    namespaces: NamespaceMap,
    errors: Vec<ErrorWithLine>,
    quirks_mode: QuirksMode,
    lineno: u64,
}

pub open spec fn error_views(v: Seq<ErrorWithLine>) -> Seq<(Seq<char>, u64)> {
    v.map_values(|e: ErrorWithLine| (e.0@, e.1))
}

/// Prefix-to-namespace bindings, kept in a hashbrown `HashMap`. Its contents
/// are named by `ns_map` and reached only through the `ns_*` functions below.
#[verifier::external_body]
pub struct NamespaceMap {
    map: hashbrown::HashMap<String, String>,
}

/// What a namespace map holds.
pub uninterp spec fn ns_map(m: NamespaceMap) -> Map<Seq<char>, Seq<char>>;

/// No bindings.
pub open spec fn no_bindings() -> Map<Seq<char>, Seq<char>> {
    Map::empty()
}

/// Relies on hashbrown's `HashMap::new`: an empty map.
#[verifier::external_body]
fn ns_new() -> (r: NamespaceMap)
    ensures
        ns_map(r) == no_bindings(),
{
    NamespaceMap { map: hashbrown::HashMap::new() }
}

/// Relies on hashbrown's `HashMap::insert`: `k` is bound to `v`, replacing
/// any earlier binding of `k`.
#[verifier::external_body]
fn ns_insert(m: &mut NamespaceMap, k: String, v: String)
    ensures
        ns_map(*final(m)) == ns_map(*old(m)).insert(k@, v@),
{
    m.map.insert(k, v);
}

/// Relies on hashbrown's `HashMap::get`: the binding of `k`, if any.
#[verifier::external_body]
fn ns_get<'a>(m: &'a NamespaceMap, k: &str) -> (r: Option<&'a String>)
    ensures
        r is Some <==> ns_map(*m).contains_key(k@),
        r matches Some(v) ==> v@ == ns_map(*m)[k@],
{
    m.map.get(k)
}

/// Relies on hashbrown's `HashMap::len`: the number of bindings.
#[verifier::external_body]
fn ns_len(m: &NamespaceMap) -> (r: usize)
    ensures
        r == ns_map(*m).dom().len(),
{
    m.map.len()
}

impl NamespaceMap {
    /// The namespace bound to `prefix`, if any.
    pub fn lookup(&self, prefix: &str) -> (r: Option<String>)
        ensures
            r is Some <==> ns_map(*self).contains_key(prefix@),
            r matches Some(v) ==> v@ == ns_map(*self)[prefix@],
    {
        match ns_get(self, prefix) {
            Some(v) => Some(v.clone()),
            None => None,
        }
    }

    /// The number of bound prefixes.
    pub fn len(&self) -> (r: usize)
        ensures
            r == ns_map(*self).dom().len(),
    {
        ns_len(self)
    }
}

impl TreeDom {
    pub closed spec fn spec_tree(&self) -> UNITree<Interface> {
        self.tree
    }

    /// Prefix bindings made while elements were created.
    pub closed spec fn spec_namespaces(&self) -> Map<Seq<char>, Seq<char>> {
        ns_map(self.namespaces)
    }

    /// Parse errors in the order they were reported.
    pub closed spec fn spec_errors(&self) -> Seq<(Seq<char>, u64)> {
        error_views(self.errors@)
    }

    pub closed spec fn spec_quirks(&self) -> QuirksMode {
        self.quirks_mode
    }

    pub closed spec fn spec_lineno(&self) -> u64 {
        self.lineno
    }

    /// The state other than the tree is as in `o`.
    pub open spec fn same_state(&self, o: TreeDom) -> bool {
        &&& self.spec_namespaces() == o.spec_namespaces()
        &&& self.spec_errors() == o.spec_errors()
        &&& self.spec_quirks() == o.spec_quirks()
        &&& self.spec_lineno() == o.spec_lineno()
    }

    /// The tree is well formed and acyclic, rooted at a Document, and every
    /// element keeps its caches in step.
    pub open spec fn wf(&self) -> bool {
        &&& self.spec_tree().wf()
        &&& self.spec_tree().acyclic()
        &&& self.spec_tree().value_of(0) is Document
        &&& forall|n: nat| n < self.spec_tree().spec_len() ==> (#[trigger] self.spec_tree().value_of(n)).wf()
    }

    /// An empty document: the root alone, no errors, no quirks, line 0.
    pub fn new() -> (r: TreeDom)
        ensures
            r.wf(),
            r.spec_tree().spec_len() == 1,
            r.spec_tree().kids() == seq![Seq::<nat>::empty()],
            r.spec_namespaces() == no_bindings(),
            r.spec_errors().len() == 0,
            r.spec_quirks() == QuirksMode::NoQuirks,
            r.spec_lineno() == 0,
    {
        let tree = UNITree::new(Interface::Document(DocumentInterface));
        let r = TreeDom {
            tree,
            namespaces: ns_new(),
            errors: Vec::new(),
            quirks_mode: QuirksMode::NoQuirks,
            lineno: 0,
        };
        proof {
            assert(error_views(r.errors@) =~= Seq::<(Seq<char>, u64)>::empty());
        }
        r
    }

    /// The tree.
    pub fn tree(&self) -> (r: &UNITree<Interface>)
        ensures
            *r == self.spec_tree(),
    {
        &self.tree
    }

    pub fn errors(&self) -> (r: &Vec<ErrorWithLine>)
        ensures
            error_views(r@) == self.spec_errors(),
    {
        &self.errors
    }

    pub fn namespaces(&self) -> (r: &NamespaceMap)
        ensures
            ns_map(*r) == self.spec_namespaces(),
    {
        &self.namespaces
    }

    pub fn quirks_mode(&self) -> (r: QuirksMode)
        ensures
            r == self.spec_quirks(),
    {
        self.quirks_mode
    }

    pub fn lineno(&self) -> (r: u64)
        ensures
            r == self.spec_lineno(),
    {
        self.lineno
    }

    /// Records `msg` at the current line.
    pub fn parse_error(&mut self, msg: String)
        ensures
            final(self).spec_tree() == old(self).spec_tree(),
            final(self).spec_errors() == old(self).spec_errors().push((msg@, old(self).spec_lineno())),
            final(self).spec_namespaces() == old(self).spec_namespaces(),
            final(self).spec_quirks() == old(self).spec_quirks(),
            final(self).spec_lineno() == old(self).spec_lineno(),
    {
        let ghost m = msg@;
        let line = self.lineno;
        self.errors.push(ErrorWithLine(msg, line));
        proof { assert(error_views(self.errors@) =~= old(self).spec_errors().push((m, line))); }
    }

    pub fn set_current_line(&mut self, line: u64)
        ensures
            final(self).spec_tree() == old(self).spec_tree(),
            final(self).spec_errors() == old(self).spec_errors(),
            final(self).spec_namespaces() == old(self).spec_namespaces(),
            final(self).spec_quirks() == old(self).spec_quirks(),
            final(self).spec_lineno() == line,
    {
        self.lineno = line;
    }

    pub fn set_quirks_mode(&mut self, mode: QuirksMode)
        ensures
            final(self).spec_tree() == old(self).spec_tree(),
            final(self).spec_errors() == old(self).spec_errors(),
            final(self).spec_namespaces() == old(self).spec_namespaces(),
            final(self).spec_quirks() == mode,
            final(self).spec_lineno() == old(self).spec_lineno(),
    {
        self.quirks_mode = mode;
    }

    /// The root.
    pub fn get_document(&self) -> (r: Index)
        ensures
            r@ == 0,
    {
        self.tree.root_index()
    }

    /// Template contents are the template element's own children.
    pub fn get_template_contents(&self, target: Index) -> (r: Index)
        requires
            target@ < self.spec_tree().spec_len(),
            self.spec_tree().value_of(target@) matches Interface::Element(e) && e.template,
        ensures
            r == target,
    {
        target
    }

    pub fn same_node(&self, x: Index, y: Index) -> (r: bool)
        ensures
            r == (x@ == y@),
    {
        x.into_usize() == y.into_usize()
    }

    /// The name of the element `target`.
    pub fn elem_name(&self, target: Index) -> (r: QualName)
        requires
            self.wf(),
            target@ < self.spec_tree().spec_len(),
            self.spec_tree().value_of(target@) is Element,
        ensures
            self.spec_tree().value_of(target@) matches Interface::Element(e) && r@ == e.name@,
    {
        let it = self.tree.get(target).unwrap();
        match it.value() {
            Interface::Element(e) => e.name.copy(),
            _ => {
                proof { assert(false); }
                QualName::new(None, String::new(), String::new())
            },
        }
    }

    proof fn lemma_values_wf(&self, old_self: TreeDom, changed: nat)
        requires
            old_self.wf(),
            self.spec_tree().wf(),
            self.spec_tree().acyclic(),
            self.spec_tree().spec_len() >= old_self.spec_tree().spec_len(),
            forall|n: nat| n < old_self.spec_tree().spec_len() && n != changed
                ==> #[trigger] self.spec_tree().value_of(n) == old_self.spec_tree().value_of(n),
            forall|n: nat| old_self.spec_tree().spec_len() <= n < self.spec_tree().spec_len() || n == changed
                ==> (#[trigger] self.spec_tree().value_of(n)).wf(),
            changed != 0 || self.spec_tree().value_of(0) is Document,
            self.spec_namespaces() == old_self.spec_namespaces(),
        ensures
            self.wf(),
    {
        assert forall|n: nat| n < self.spec_tree().spec_len() implies (#[trigger] self.spec_tree().value_of(n)).wf() by {
            if n < old_self.spec_tree().spec_len() && n != changed {
                assert(old_self.spec_tree().value_of(n).wf());
            }
        }
        if changed != 0 {
            assert(self.spec_tree().value_of(0) == old_self.spec_tree().value_of(0));
        }
    }

    /// Adds a detached node holding `v`.
    fn new_node(&mut self, v: Interface) -> (r: Index)
        requires
            old(self).wf(),
            v.wf(),
            old(self).spec_tree().spec_len() + 1 < usize::MAX,
        ensures
            final(self).wf(),
            final(self).same_state(*old(self)),
            r@ == old(self).spec_tree().spec_len(),
            final(self).spec_tree().spec_len() == old(self).spec_tree().spec_len() + 1,
            final(self).spec_tree().kids() == old(self).spec_tree().kids().push(seq![]),
            final(self).spec_tree().value_of(r@) == v,
            final(self).spec_tree().parent_of(r@) is None,
            forall|n: nat| n < old(self).spec_tree().spec_len() ==> #[trigger] final(self).spec_tree().item(n) == old(self).spec_tree().item(n),
    {
        let r = self.tree.orphan(v);
        proof {
            assert forall|n: nat| n < old(self).spec_tree().spec_len() implies #[trigger] self.spec_tree().value_of(n) == old(self).spec_tree().value_of(n) by {
                assert(self.spec_tree().item(n) == old(self).spec_tree().item(n));
            }
            self.lemma_values_wf(*old(self), r@);
        }
        r
    }

    /// Appends `s` to the contents of the Text node `n`.
    fn extend_text(&mut self, n: Index, s: &str)
        requires
            old(self).wf(),
            n@ < old(self).spec_tree().spec_len(),
            text_of(old(self).spec_tree().value_of(n@)) is Some,
        ensures
            final(self).wf(),
            final(self).same_state(*old(self)),
            final(self).spec_tree().spec_len() == old(self).spec_tree().spec_len(),
            final(self).spec_tree().kids() == old(self).spec_tree().kids(),
            text_of(final(self).spec_tree().value_of(n@)) == Some(text_of(old(self).spec_tree().value_of(n@))->Some_0 + s@),
            forall|m: nat| m < old(self).spec_tree().spec_len() && m != n@ ==> #[trigger] final(self).spec_tree().value_of(m) == old(self).spec_tree().value_of(m),
    {
        let v = self.tree.replace_value(n, Interface::Document(DocumentInterface));
        match v {
            Interface::Text(mut t) => {
                t.push_str(s);
                let _ = self.tree.replace_value(n, Interface::Text(t));
            },
            other => {
                proof { assert(false); }
                let _ = self.tree.replace_value(n, other);
            },
        }
        proof {
            assert(n@ != 0);
            self.lemma_values_wf(*old(self), n@);
        }
    }

    /// A detached element named `name` with `attrs` sorted by name and only
    /// the first attribute of each name kept; a prefixed name binds its
    /// prefix to its namespace.
    pub fn create_element(
        &mut self,
        name: QualName,
        attrs: Vec<(QualName, String)>,
        template: bool,
        mathml_annotation_xml_integration_point: bool,
    ) -> (r: Index)
        requires
            old(self).wf(),
            old(self).spec_tree().spec_len() + 1 < usize::MAX,
        ensures
            final(self).wf(),
            r@ == old(self).spec_tree().spec_len(),
            final(self).spec_tree().spec_len() == old(self).spec_tree().spec_len() + 1,
            final(self).spec_tree().kids() == old(self).spec_tree().kids().push(seq![]),
            forall|n: nat| n < old(self).spec_tree().spec_len() ==> #[trigger] final(self).spec_tree().item(n) == old(self).spec_tree().item(n),
            final(self).spec_tree().value_of(r@) matches Interface::Element(e) && e.name@ == name@
                && is_sorted_dedup(e.attrs@, attr_views(attrs@)) && e.template == template
                && e.mathml_annotation_xml_integration_point == mathml_annotation_xml_integration_point,
            final(self).spec_namespaces() == (match name@.0 {
                Some(p) => old(self).spec_namespaces().insert(p, name@.1),
                None => old(self).spec_namespaces(),
            }),
            final(self).spec_errors() == old(self).spec_errors(),
            final(self).spec_quirks() == old(self).spec_quirks(),
            final(self).spec_lineno() == old(self).spec_lineno(),
    {
        match &name.prefix {
            Some(p) => {
                ns_insert(&mut self.namespaces, p.clone(), name.ns.clone());
            },
            None => {},
        }
        let mut e = ElementInterface::new(name, attrs, template, mathml_annotation_xml_integration_point);
        e.attrs.sort_dedup();
        self.new_node(Interface::Element(e))
    }

    /// A detached comment.
    pub fn create_comment(&mut self, text: String) -> (r: Index)
        requires
            old(self).wf(),
            old(self).spec_tree().spec_len() + 1 < usize::MAX,
        ensures
            final(self).wf(),
            final(self).same_state(*old(self)),
            r@ == old(self).spec_tree().spec_len(),
            final(self).spec_tree().kids() == old(self).spec_tree().kids().push(seq![]),
            forall|n: nat| n < old(self).spec_tree().spec_len() ==> #[trigger] final(self).spec_tree().item(n) == old(self).spec_tree().item(n),
            final(self).spec_tree().value_of(r@) matches Interface::Comment(c) && c.contents@ == text@,
    {
        self.new_node(Interface::Comment(CommentInterface::new(text)))
    }

    /// A detached processing instruction.
    pub fn create_pi(&mut self, target: String, data: String) -> (r: Index)
        requires
            old(self).wf(),
            old(self).spec_tree().spec_len() + 1 < usize::MAX,
        ensures
            final(self).wf(),
            final(self).same_state(*old(self)),
            r@ == old(self).spec_tree().spec_len(),
            final(self).spec_tree().kids() == old(self).spec_tree().kids().push(seq![]),
            forall|n: nat| n < old(self).spec_tree().spec_len() ==> #[trigger] final(self).spec_tree().item(n) == old(self).spec_tree().item(n),
            final(self).spec_tree().value_of(r@) matches Interface::ProcessingInstruction(p)
                && p.target@ == target@ && p.data@ == data@,
    {
        self.new_node(Interface::ProcessingInstruction(ProcessingInstructionInterface::new(data, target)))
    }

    /// A doctype, appended as the last child of the root.
    pub fn append_doctype_to_document(&mut self, name: String, public_id: String, system_id: String)
        requires
            old(self).wf(),
            old(self).spec_tree().spec_len() + 1 < usize::MAX,
        ensures
            final(self).wf(),
            final(self).same_state(*old(self)),
            final(self).spec_tree().spec_len() == old(self).spec_tree().spec_len() + 1,
            final(self).spec_tree().kids() == old(self).spec_tree().kids().push(seq![]).update(
                0,
                old(self).spec_tree().kids()[0].push(old(self).spec_tree().spec_len()),
            ),
            final(self).spec_tree().value_of(old(self).spec_tree().spec_len()) matches Interface::Doctype(d)
                && d.name@ == name@ && d.public_id@ == public_id@ && d.system_id@ == system_id@,
            forall|n: nat| n < old(self).spec_tree().spec_len() ==> #[trigger] final(self).spec_tree().value_of(n) == old(self).spec_tree().value_of(n),
    {
        let d = self.new_node(Interface::Doctype(DoctypeInterface::new(name, public_id, system_id)));
        let root = self.tree.root_index();
        proof {
            let t = self.spec_tree();
            assert(t.parent_link_ok(d@));
            assert(!t.is_ancestor(d@, 0));
            assert(t.kids()[0].len() == 0 || t.kids()[0].last() != d@) by {
                if t.kids()[0].len() > 0 {
                    assert(t.children_link_ok(0));
                    assert(t.kid_ok(0, t.kids()[0].len() - 1));
                }
            }
        }
        self.tree.append(root, d);
        proof {
            assert(forall|n: nat| n < self.spec_tree().spec_len() ==> #[trigger] self.spec_tree().value_of(n) == old(self).spec_tree().value_of(n) || n == d@);
            self.lemma_values_wf(*old(self), d@);
        }
    }

    proof fn lemma_fresh_not_ancestor(&self, n: nat, x: nat)
        requires
            self.wf(),
            n < self.spec_tree().spec_len(),
            x < self.spec_tree().spec_len(),
            self.spec_tree().kids()[n as int].len() == 0,
        ensures
            !self.spec_tree().is_ancestor(n, x),
    {
        self.spec_tree().lemma_childless_not_ancestor(n, x);
    }

    proof fn lemma_same_values_wf(&self, old_self: TreeDom)
        requires
            old_self.wf(),
            self.spec_tree().wf(),
            self.spec_tree().acyclic(),
            self.spec_tree().same_values(&old_self.spec_tree()),
            self.spec_namespaces() == old_self.spec_namespaces(),
        ensures
            self.wf(),
    {
        self.lemma_values_wf(old_self, 0);
    }

    /// Moves `c` under `parent` as its last child, refusing a cycle.
    fn append_node(&mut self, parent: Index, c: Index) -> (r: Result<(), ErrorKind>)
        requires
            old(self).wf(),
            parent@ < old(self).spec_tree().spec_len(),
            c@ < old(self).spec_tree().spec_len(),
        ensures
            final(self).wf(),
            append_post(*old(self), *final(self), parent@, NodeOrText::AppendNode(c), r),
    {
        if c.into_usize() == parent.into_usize() || c.into_usize() == 0 || self.tree.is_ancestor_of(c, parent) {
            return Err(ErrorKind::ChildCycleDetected);
        }
        self.tree.append(parent, c);
        proof { self.lemma_same_values_wf(*old(self)); }
        Ok(())
    }

    /// Appends `child` as the last child of `parent`. Text that follows a
    /// Text child is added to that child instead; a node is first taken from
    /// where it was, and refused where it would close a cycle.
    pub fn append(&mut self, parent: Index, child: NodeOrText) -> (r: Result<(), ErrorKind>)
        requires
            old(self).wf(),
            parent@ < old(self).spec_tree().spec_len(),
            old(self).spec_tree().spec_len() + 1 < usize::MAX,
            child matches NodeOrText::AppendNode(c) ==> c@ < old(self).spec_tree().spec_len(),
        ensures
            final(self).wf(),
            append_post(*old(self), *final(self), parent@, child, r),
    {
        match child {
            NodeOrText::AppendNode(c) => self.append_node(parent, c),
            NodeOrText::AppendText(s) => {
                let ghost sv = s@;
                proof { assert(self.spec_tree().children_link_ok(parent@)); }
                let last = self.tree.get(parent).unwrap().last_children();
                match last {
                    Some(l) => {
                        proof {
                            let k = self.spec_tree().kids()[parent@ as int];
                            assert(self.spec_tree().kid_ok(parent@, k.len() - 1));
                        }
                        if self.tree.get(l).unwrap().value().is_text() {
                            self.extend_text(l, s.as_str());
                            return Ok(());
                        }
                    },
                    None => {},
                }
                let n = self.new_node(Interface::Text(TextInterface::new(s)));
                proof {
                    self.lemma_fresh_not_ancestor(n@, parent@);
                }
                self.tree.append(parent, n);
                proof {
                    let t = self.spec_tree();
                    let t0 = old(self).spec_tree();
                    assert(t.kids() =~= t0.kids().push(seq![]).update(parent@ as int, t0.kids()[parent@ as int].push(t0.spec_len())));
                    self.lemma_values_wf(*old(self), n@);
                }
                Ok(())
            },
        }
    }

    /// Places `child` just before the attached node `sibling`. Text that
    /// follows a Text sibling is added to that sibling instead; a node is
    /// first taken from where it was, and refused where it would close a cycle.
    pub fn append_before_sibling(&mut self, sibling: Index, child: NodeOrText) -> (r: Result<(), ErrorKind>)
        requires
            old(self).wf(),
            sibling@ < old(self).spec_tree().spec_len(),
            old(self).spec_tree().parent_of(sibling@) is Some,
            old(self).spec_tree().spec_len() + 1 < usize::MAX,
            child matches NodeOrText::AppendNode(c) ==> c@ < old(self).spec_tree().spec_len(),
        ensures
            final(self).wf(),
            append_before_post(*old(self), *final(self), sibling@, child, r),
    {
        let ghost t0 = self.spec_tree();
        let ghost q = t0.parent_of(sibling@)->Some_0;
        let ghost k = t0.kids()[q as int];
        let ghost j = k.index_of(sibling@);
        proof {
            assert(t0.parent_link_ok(sibling@));
            assert(t0.children_link_ok(q));
            assert(0 <= j < k.len() && k[j] == sibling@);
            assert(t0.kid_ok(q, j));
        }
        match child {
            NodeOrText::AppendNode(c) => {
                if c.into_usize() == sibling.into_usize() || c.into_usize() == 0 || self.tree.is_ancestor_of(c, sibling) {
                    return Err(ErrorKind::ChildCycleDetected);
                }
                self.tree.insert_before(sibling, c);
                proof { self.lemma_same_values_wf(*old(self)); }
                Ok(())
            },
            NodeOrText::AppendText(s) => {
                let prev = self.tree.get(sibling).unwrap().prev_sibling();
                match prev {
                    Some(a) => {
                        proof { assert(t0.kid_ok(q, j - 1)); }
                        if self.tree.get(a).unwrap().value().is_text() {
                            self.extend_text(a, s.as_str());
                            return Ok(());
                        }
                    },
                    None => {},
                }
                let n = self.new_node(Interface::Text(TextInterface::new(s)));
                proof {
                    self.lemma_fresh_not_ancestor(n@, sibling@);
                    assert(self.spec_tree().item(sibling@) == t0.item(sibling@));
                }
                self.tree.insert_before(sibling, n);
                proof {
                    let t = self.spec_tree();
                    let kp = t0.kids().push(seq![]);
                    assert(kp[q as int] == k);
                    assert(t.kids() =~= t0.kids().push(seq![]).update(q as int, k.insert(j, t0.spec_len())));
                    self.lemma_values_wf(*old(self), n@);
                }
                Ok(())
            },
        }
    }

    /// Places `child` before `element` if `element` has a parent, and
    /// otherwise appends it to `prev_element`.
    pub fn append_based_on_parent_node(&mut self, element: Index, prev_element: Index, child: NodeOrText) -> (r: Result<(), ErrorKind>)
        requires
            old(self).wf(),
            element@ < old(self).spec_tree().spec_len(),
            prev_element@ < old(self).spec_tree().spec_len(),
            old(self).spec_tree().spec_len() + 1 < usize::MAX,
            child matches NodeOrText::AppendNode(c) ==> c@ < old(self).spec_tree().spec_len(),
        ensures
            final(self).wf(),
            old(self).spec_tree().parent_of(element@) is Some ==> append_before_post(*old(self), *final(self), element@, child, r),
            old(self).spec_tree().parent_of(element@) is None ==> append_post(*old(self), *final(self), prev_element@, child, r),
    {
        if self.tree.get(element).unwrap().parent().is_some() {
            self.append_before_sibling(element, child)
        } else {
            self.append(prev_element, child)
        }
    }

    /// Adds to the element `target` each attribute of `attrs` whose name it
    /// lacks, then keeps the list sorted by name with one attribute per name.
    pub fn add_attrs_if_missing(&mut self, target: Index, attrs: Vec<(QualName, String)>)
        requires
            old(self).wf(),
            target@ < old(self).spec_tree().spec_len(),
            old(self).spec_tree().value_of(target@) is Element,
        ensures
            final(self).wf(),
            final(self).same_state(*old(self)),
            final(self).spec_tree().spec_len() == old(self).spec_tree().spec_len(),
            final(self).spec_tree().kids() == old(self).spec_tree().kids(),
            forall|n: nat| n < old(self).spec_tree().spec_len() && n != target@ ==> #[trigger] final(self).spec_tree().value_of(n) == old(self).spec_tree().value_of(n),
            old(self).spec_tree().value_of(target@) matches Interface::Element(e0)
                && final(self).spec_tree().value_of(target@) matches Interface::Element(e1)
                && e1.name == e0.name && e1.template == e0.template
                && e1.mathml_annotation_xml_integration_point == e0.mathml_annotation_xml_integration_point
                && is_sorted_dedup(e1.attrs@, e0.attrs@ + attr_views(attrs@)),
    {
        let v = self.tree.replace_value(target, Interface::Document(DocumentInterface));
        match v {
            Interface::Element(mut e) => {
                e.attrs.extend(&attrs);
                e.attrs.sort_dedup();
                let _ = self.tree.replace_value(target, Interface::Element(e));
            },
            other => {
                proof { assert(false); }
                let _ = self.tree.replace_value(target, other);
            },
        }
        proof {
            assert(target@ != 0);
            self.lemma_values_wf(*old(self), target@);
        }
    }

    /// Detaches `target` from its parent.
    pub fn remove_from_parent(&mut self, target: Index)
        requires
            old(self).wf(),
            target@ < old(self).spec_tree().spec_len(),
        ensures
            final(self).wf(),
            final(self).same_state(*old(self)),
            final(self).spec_tree().same_values(&old(self).spec_tree()),
            final(self).spec_tree().parent_of(target@) is None,
            final(self).spec_tree().kids() == crate::tree::model_detach(
                old(self).spec_tree().kids(),
                old(self).spec_tree().parent_of(target@),
                target@,
            ),
    {
        self.tree.detach(target);
        proof { self.lemma_same_values_wf(*old(self)); }
    }

    /// Moves all children of `node`, in order, behind those of `new_parent`;
    /// refused where it would close a cycle.
    pub fn reparent_children(&mut self, node: Index, new_parent: Index) -> (r: Result<(), ErrorKind>)
        requires
            old(self).wf(),
            node@ < old(self).spec_tree().spec_len(),
            new_parent@ < old(self).spec_tree().spec_len(),
        ensures
            final(self).wf(),
            final(self).same_state(*old(self)),
            (new_parent@ == node@ || old(self).spec_tree().is_ancestor(node@, new_parent@))
                <==> r == Err::<(), ErrorKind>(ErrorKind::ChildCycleDetected),
            r is Err ==> final(self).spec_tree() == old(self).spec_tree(),
            r is Ok ==> final(self).spec_tree().same_values(&old(self).spec_tree())
                && final(self).spec_tree().kids() == model_reparent_append(old(self).spec_tree().kids(), new_parent@, node@),
    {
        if new_parent.into_usize() == node.into_usize() || self.tree.is_ancestor_of(node, new_parent) {
            return Err(ErrorKind::ChildCycleDetected);
        }
        self.tree.reparent_append(new_parent, node);
        proof { self.lemma_same_values_wf(*old(self)); }
        Ok(())
    }

    /// The flag the tree builder set on the element `target`.
    pub fn is_mathml_annotation_xml_integration_point(&self, target: Index) -> (r: bool)
        requires
            target@ < self.spec_tree().spec_len(),
            self.spec_tree().value_of(target@) is Element,
        ensures
            self.spec_tree().value_of(target@) matches Interface::Element(e) && r == e.mathml_annotation_xml_integration_point,
    {
        match self.tree.get(target).unwrap().value() {
            Interface::Element(e) => e.mathml_annotation_xml_integration_point,
            _ => {
                proof { assert(false); }
                false
            },
        }
    }
}

/// On a document built through these callbacks, the elements under `root`
/// in document order (the candidates a selector is tried on) hold each node
/// at most once.
pub proof fn lemma_candidates_unique(dom: &TreeDom, root: nat)
    requires
        dom.wf(),
        root < dom.spec_tree().spec_len(),
    ensures
        elements_of(dom.spec_tree(), preorder(dom.spec_tree().kids(), root, dom.spec_tree().spec_len())).no_duplicates(),
{
    lemma_descendants_unique(&dom.spec_tree(), root);
    lemma_elements_of_unique(dom.spec_tree(), preorder(dom.spec_tree().kids(), root, dom.spec_tree().spec_len()));
}

} // verus!
