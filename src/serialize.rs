//! The event stream a serializer writes out for a subtree: start and end of
//! each element and the leaf nodes in between, in document order.

use vstd::prelude::*;
use crate::iter::{Edge, Traverse, edges, edge_view, edge_views};
use crate::nodes::{DoctypeInterface, Interface};
use crate::tree::{Index, UNITree};

verus! {

/// What a serializer is asked to write.
#[derive(Debug, Clone, Copy, PartialEq, Eq, Structural)]
pub enum EventKind {
    StartElem,
    EndElem,
    Text,
    Comment,
    Doctype,
    ProcessingInstruction,
}

/// One event and the node it is about.
#[derive(Debug, Clone, Copy, PartialEq, Eq, Structural)]
pub struct SerializeEvent {
    pub kind: EventKind,
    pub node: Index,
}

/// The events of one edge: elements open and close, leaves are written when
/// entered, the document itself writes nothing.
pub open spec fn edge_events(t: UNITree<Interface>, e: (bool, nat)) -> Seq<(EventKind, nat)> {
    let n = e.1;
    if e.0 {
        match t.value_of(n) {
            Interface::Element(_) => seq![(EventKind::StartElem, n)],
            Interface::Text(_) => seq![(EventKind::Text, n)],
            Interface::Comment(_) => seq![(EventKind::Comment, n)],
            Interface::Doctype(_) => seq![(EventKind::Doctype, n)],
            Interface::ProcessingInstruction(_) => seq![(EventKind::ProcessingInstruction, n)],
            Interface::Document(_) => seq![],
        }
    } else {
        match t.value_of(n) {
            Interface::Element(_) => seq![(EventKind::EndElem, n)],
            _ => seq![],
        }
    }
}

pub open spec fn events_of(t: UNITree<Interface>, es: Seq<(bool, nat)>) -> Seq<(EventKind, nat)>
    decreases es.len(),
{
    if es.len() == 0 {
        seq![]
    } else {
        events_of(t, es.drop_last()) + edge_events(t, es.last())
    }
}

pub open spec fn event_views(v: Seq<SerializeEvent>) -> Seq<(EventKind, nat)> {
    v.map_values(|e: SerializeEvent| (e.kind, e.node@))
}

/// The edges a serialization covers: the whole walk over `node`, or, for
/// its children only, that walk without its first and last edge.
pub open spec fn covered_edges(t: UNITree<Interface>, node: nat, include_node: bool) -> Seq<(bool, nat)> {
    let es = edges(t.kids(), node, t.spec_len());
    if include_node {
        es
    } else {
        es.subrange(1, es.len() - 1)
    }
}

/// The events that serialize `node` and its subtree (`include_node`) or
/// only its children.
pub fn serialize_events(t: &UNITree<Interface>, node: Index, include_node: bool) -> (r: Vec<SerializeEvent>)
    requires
        t.wf(),
        node@ < t.spec_len(),
    ensures
        event_views(r@) == events_of(*t, covered_edges(*t, node@, include_node)),
{
    let mut walk = Traverse::new(t, node);
    let ghost all = edge_views(walk.spec_edges());
    proof {
        crate::iter::lemma_edges_in_range(t, node@, t.spec_len());
    }
    let total = walk.len();
    let (start, end) = if include_node { (0usize, total) } else { (1usize, total - 1) };
    let ghost cov = all.subrange(start as int, end as int);
    proof {
        if include_node {
            assert(cov =~= all);
        }
    }
    let mut out: Vec<SerializeEvent> = Vec::new();
    let mut i: usize = start;
    proof { assert(cov.take(0) =~= Seq::<(bool, nat)>::empty()); }
    while i < end
        invariant
            all == edge_views(walk.spec_edges()),
            total == all.len(),
            start <= i <= end <= total,
            cov == all.subrange(start as int, end as int),
            forall|j: int| 0 <= j < all.len() ==> (#[trigger] all[j]).1 < t.spec_len(),
            event_views(out@) == events_of(*t, cov.take(i - start)),
        decreases end - i,
    {
        let e = walk.edge_at(i);
        let ghost before = event_views(out@);
        let (open, n) = match e {
            Edge::Open(n) => (true, n),
            Edge::Close(n) => (false, n),
        };
        proof {
            assert(all[i as int] == edge_view(e));
            assert(cov.take(i - start + 1).drop_last() =~= cov.take(i - start));
            assert(cov.take(i - start + 1).last() == (open, n@));
        }
        let kind = match t.get(n) {
            Some(it) => match (open, it.value()) {
                (true, Interface::Element(_)) => Some(EventKind::StartElem),
                (true, Interface::Text(_)) => Some(EventKind::Text),
                (true, Interface::Comment(_)) => Some(EventKind::Comment),
                (true, Interface::Doctype(_)) => Some(EventKind::Doctype),
                (true, Interface::ProcessingInstruction(_)) => Some(EventKind::ProcessingInstruction),
                (false, Interface::Element(_)) => Some(EventKind::EndElem),
                _ => None,
            },
            None => None,
        };
        match kind {
            Some(k) => {
                out.push(SerializeEvent { kind: k, node: n });
                proof { assert(event_views(out@) =~= before.push((k, n@))); }
            },
            None => {},
        }
        i = i + 1;
    }
    proof { assert(cov.take(end - start) =~= cov); }
    out
}

pub open spec fn quoted(label: Seq<char>, v: Seq<char>) -> Seq<char> {
    if v.len() == 0 {
        seq![]
    } else {
        label + v + seq!['"']
    }
}

/// The text a doctype is written as: its name, then ` PUBLIC "id"` and
/// ` SYSTEM "id"` for the identifiers that are not empty.
pub open spec fn doctype_text(d: DoctypeInterface) -> Seq<char> {
    d.name@ + quoted(" PUBLIC \""@, d.public_id@) + quoted(" SYSTEM \""@, d.system_id@)
}

pub fn doctype_display(d: &DoctypeInterface) -> (r: String)
    ensures
        r@ == doctype_text(*d),
{
    let mut s = d.name.clone();
    if d.public_id.unicode_len() > 0 {
        s.append(" PUBLIC \"");
        s.append(d.public_id.as_str());
        s.append("\"");
    }
    if d.system_id.unicode_len() > 0 {
        s.append(" SYSTEM \"");
        s.append(d.system_id.as_str());
        s.append("\"");
    }
    proof {
        reveal_strlit("\"");
        assert("\""@ =~= seq!['"']);
        assert(s@ =~= doctype_text(*d));
    }
    s
}

} // verus!
