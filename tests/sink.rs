use markupever::iter::{descendants, element_descendants};
use markupever::matching::SelectableNode;
use markupever::nodes::Interface;
use markupever::options::{
    convert_quirks_mode_to_u8, convert_u8_to_quirks_mode, OptionsError, PyHtmlOptions, PyXmlOptions, QuirksMode,
};
use markupever::qualname::QualName;
use markupever::serialize::{doctype_display, serialize_events, EventKind};
use markupever::stream::{ParserState, StreamError};
use markupever::tree::Index;
use markupever::treedom::{ErrorKind, NodeOrText, TreeDom};

const XHTML: &str = "http://www.w3.org/1999/xhtml";

fn html(local: &str) -> QualName {
    QualName::new(None, String::from(XHTML), String::from(local))
}

fn attr(local: &str, value: &str) -> (QualName, String) {
    (QualName::new(None, String::new(), String::from(local)), String::from(value))
}

fn text_of(dom: &TreeDom, i: Index) -> String {
    dom.tree().get(i).unwrap().value().text().unwrap().contents.clone()
}

fn children(dom: &TreeDom, i: Index) -> Vec<Index> {
    let mut out = Vec::new();
    let mut cur = dom.tree().get(i).unwrap().first_children();
    while let Some(c) = cur {
        out.push(c);
        cur = dom.tree().get(c).unwrap().next_sibling();
    }
    out
}

#[test]
fn test() {
    let mut dom = TreeDom::new();
    let root = dom.get_document();
    let e = dom.create_element(html("div"), vec![], false, false);
    dom.append(root, NodeOrText::AppendNode(e)).unwrap();
    dom.append(e, NodeOrText::AppendText(String::from("Hello Man 1"))).unwrap();
    assert_eq!(children(&dom, root), vec![e]);
    assert_eq!(dom.tree().get(e).unwrap().parent(), Some(root));
}

#[test]
fn test_cycle() {
    let mut dom = TreeDom::new();
    let root = dom.get_document();
    assert_eq!(dom.append(root, NodeOrText::AppendNode(root)), Err(ErrorKind::ChildCycleDetected));
    let a = dom.create_element(html("a"), vec![], false, false);
    let b = dom.create_element(html("b"), vec![], false, false);
    dom.append(root, NodeOrText::AppendNode(a)).unwrap();
    dom.append(a, NodeOrText::AppendNode(b)).unwrap();
    assert_eq!(dom.append(b, NodeOrText::AppendNode(a)), Err(ErrorKind::ChildCycleDetected));
    assert_eq!(dom.reparent_children(root, b), Err(ErrorKind::ChildCycleDetected));
}

#[test]
fn test_node_children() {
    let mut dom = TreeDom::new();
    let node = dom.create_element(html("div"), vec![], false, false);
    let mut kids = Vec::new();
    for (name, text) in [("h1", "Come here 1"), ("h2", "Come here 2"), ("p", "Come here 3")] {
        let child = dom.create_element(html(name), vec![], false, false);
        dom.append(child, NodeOrText::AppendText(String::from(text))).unwrap();
        dom.append(node, NodeOrText::AppendNode(child)).unwrap();
        kids.push(child);
    }
    assert_eq!(children(&dom, node).len(), 3);
    assert_eq!(descendants(dom.tree(), node).len() - 1, 6);

    assert_eq!(children(&dom, node).iter().position(|x| *x == kids[2]), Some(2));
    dom.remove_from_parent(kids[2]);
    assert_eq!(children(&dom, node).len(), 2);

    let v = descendants(dom.tree(), node);
    assert_eq!(v.len() - 1, 4);
    let have_to = vec![kids[0], children(&dom, kids[0])[0], kids[1], children(&dom, kids[1])[0]];
    assert_eq!(v[1..].to_vec(), have_to);
}

#[test]
fn adjacent_text_runs_coalesce() {
    let mut dom = TreeDom::new();
    let root = dom.get_document();
    let p = dom.create_element(html("p"), vec![], false, false);
    dom.append(root, NodeOrText::AppendNode(p)).unwrap();
    dom.append(p, NodeOrText::AppendText(String::from("Hel"))).unwrap();
    dom.append(p, NodeOrText::AppendText(String::from("lo"))).unwrap();
    let kids = children(&dom, p);
    assert_eq!(kids.len(), 1);
    assert_eq!(text_of(&dom, kids[0]), "Hello");
}

#[test]
fn text_before_sibling_joins_previous_text() {
    let mut dom = TreeDom::new();
    let root = dom.get_document();
    let p = dom.create_element(html("p"), vec![], false, false);
    dom.append(root, NodeOrText::AppendNode(p)).unwrap();
    dom.append(p, NodeOrText::AppendText(String::from("a"))).unwrap();
    let b = dom.create_element(html("b"), vec![], false, false);
    dom.append(p, NodeOrText::AppendNode(b)).unwrap();
    dom.append_before_sibling(b, NodeOrText::AppendText(String::from("c"))).unwrap();
    let kids = children(&dom, p);
    assert_eq!(kids.len(), 2);
    assert_eq!(text_of(&dom, kids[0]), "ac");

    let first = kids[0];
    let i = dom.create_element(html("i"), vec![], false, false);
    dom.append_before_sibling(first, NodeOrText::AppendNode(i)).unwrap();
    dom.append_before_sibling(first, NodeOrText::AppendText(String::from("z"))).unwrap();
    let kids = children(&dom, p);
    assert_eq!(kids.len(), 4);
    assert_eq!(kids[0], i);
    assert_eq!(text_of(&dom, kids[1]), "z");
    assert_eq!(text_of(&dom, kids[2]), "ac");
}

#[test]
fn based_on_parent_node() {
    let mut dom = TreeDom::new();
    let root = dom.get_document();
    let table = dom.create_element(html("table"), vec![], false, false);
    let prev = dom.create_element(html("div"), vec![], false, false);
    dom.append_based_on_parent_node(table, prev, NodeOrText::AppendText(String::from("x"))).unwrap();
    assert_eq!(children(&dom, prev).len(), 1);
    dom.append(root, NodeOrText::AppendNode(table)).unwrap();
    dom.append_based_on_parent_node(table, prev, NodeOrText::AppendText(String::from("y"))).unwrap();
    let kids = children(&dom, root);
    assert_eq!(kids.len(), 2);
    assert_eq!(text_of(&dom, kids[0]), "y");
}

#[test]
fn create_element_sorts_attributes_and_binds_prefix() {
    let mut dom = TreeDom::new();
    let name = QualName::new(Some(String::from("svg")), String::from("http://www.w3.org/2000/svg"), String::from("rect"));
    let e = dom.create_element(name, vec![attr("y", "1"), attr("x", "2"), attr("y", "3")], false, false);
    let el = dom.tree().get(e).unwrap().value().element().unwrap();
    assert_eq!(el.attrs.len(), 2);
    assert_eq!(el.attrs.get(0).1, "2");
    assert_eq!(el.attrs.get(1).1, "1");
    assert_eq!(dom.namespaces().len(), 1);
    assert_eq!(dom.namespaces().lookup("svg").as_deref(), Some("http://www.w3.org/2000/svg"));
    assert_eq!(dom.namespaces().lookup("math"), None);

    dom.add_attrs_if_missing(e, vec![attr("x", "9"), attr("w", "4")]);
    let el = dom.tree().get(e).unwrap().value().element().unwrap();
    let got: Vec<(String, String)> = (0..el.attrs.len())
        .map(|i| (el.attrs.get(i).0.local.clone(), el.attrs.get(i).1.clone()))
        .collect();
    assert_eq!(
        got,
        vec![
            (String::from("w"), String::from("4")),
            (String::from("x"), String::from("2")),
            (String::from("y"), String::from("1")),
        ]
    );
}

#[test]
fn reparent_children_moves_in_order() {
    let mut dom = TreeDom::new();
    let root = dom.get_document();
    let from = dom.create_element(html("div"), vec![], false, false);
    let to = dom.create_element(html("span"), vec![], false, false);
    dom.append(root, NodeOrText::AppendNode(from)).unwrap();
    dom.append(root, NodeOrText::AppendNode(to)).unwrap();
    dom.append(from, NodeOrText::AppendText(String::from("t"))).unwrap();
    let b = dom.create_element(html("b"), vec![], false, false);
    dom.append(from, NodeOrText::AppendNode(b)).unwrap();
    dom.reparent_children(from, to).unwrap();
    assert_eq!(children(&dom, from).len(), 0);
    let kids = children(&dom, to);
    assert_eq!(kids.len(), 2);
    assert_eq!(kids[1], b);
}

#[test]
fn errors_lines_and_quirks() {
    let mut dom = TreeDom::new();
    dom.parse_error(String::from("first"));
    dom.set_current_line(7);
    dom.parse_error(String::from("second"));
    dom.set_quirks_mode(QuirksMode::LimitedQuirks);
    assert_eq!(dom.errors().len(), 2);
    assert_eq!(dom.errors()[0].0, "first");
    assert_eq!(dom.errors()[0].1, 0);
    assert_eq!(dom.errors()[1].1, 7);
    assert_eq!(dom.lineno(), 7);
    assert_eq!(dom.quirks_mode(), QuirksMode::LimitedQuirks);
}

#[test]
fn doctype_and_template() {
    let mut dom = TreeDom::new();
    let root = dom.get_document();
    dom.append_doctype_to_document(String::from("html"), String::from("-//W3C"), String::new());
    let kids = children(&dom, root);
    assert_eq!(kids.len(), 1);
    let d = dom.tree().get(kids[0]).unwrap().value().doctype().unwrap();
    assert_eq!(doctype_display(d), "html PUBLIC \"-//W3C\"");
    let t = dom.create_element(html("template"), vec![], true, true);
    assert_eq!(dom.get_template_contents(t), t);
    assert!(dom.is_mathml_annotation_xml_integration_point(t));
    assert_eq!(dom.elem_name(t).local, "template");
    assert!(dom.same_node(t, t));
    assert!(!dom.same_node(t, root));
}

/// <div class="title"><nav class="navbar"><p id="title">Hello World</p><p id="text">Hello World</p></nav>
/// <nav class="nav2"><p>World</p></nav></div>
fn fixture() -> (TreeDom, Vec<Index>) {
    let mut dom = TreeDom::new();
    let root = dom.get_document();
    let div = dom.create_element(html("div"), vec![attr("class", "title")], false, false);
    dom.append(root, NodeOrText::AppendNode(div)).unwrap();
    let nav1 = dom.create_element(html("nav"), vec![attr("class", "navbar")], false, false);
    dom.append(div, NodeOrText::AppendNode(nav1)).unwrap();
    let p1 = dom.create_element(html("p"), vec![attr("id", "title")], false, false);
    dom.append(nav1, NodeOrText::AppendNode(p1)).unwrap();
    dom.append(p1, NodeOrText::AppendText(String::from("Hello World"))).unwrap();
    let p2 = dom.create_element(html("p"), vec![attr("id", "text")], false, false);
    dom.append(nav1, NodeOrText::AppendNode(p2)).unwrap();
    dom.append(p2, NodeOrText::AppendText(String::from("Hello World"))).unwrap();
    let nav2 = dom.create_element(html("nav"), vec![attr("class", "nav2")], false, false);
    dom.append(div, NodeOrText::AppendNode(nav2)).unwrap();
    let p3 = dom.create_element(html("p"), vec![], false, false);
    dom.append(nav2, NodeOrText::AppendNode(p3)).unwrap();
    dom.append(p3, NodeOrText::AppendText(String::from("World"))).unwrap();
    (dom, vec![root, div, nav1, p1, p2, nav2, p3])
}

#[test]
fn element_predicates() {
    let (dom, n) = fixture();
    let t = dom.tree();
    let (root, div, nav1, p1, p2, nav2, p3) = (n[0], n[1], n[2], n[3], n[4], n[5], n[6]);
    let p1s = SelectableNode::new(p1);
    assert_eq!(p1s.parent_element(t), Some(SelectableNode::new(nav1)));
    assert_eq!(SelectableNode::new(div).parent_element(t), None);
    assert_eq!(p1s.next_sibling_element(t), Some(SelectableNode::new(p2)));
    assert_eq!(p1s.prev_sibling_element(t), None);
    assert_eq!(SelectableNode::new(nav2).prev_sibling_element(t), Some(SelectableNode::new(nav1)));
    assert_eq!(SelectableNode::new(div).first_element_child(t), Some(SelectableNode::new(nav1)));
    assert_eq!(SelectableNode::new(p3).first_element_child(t), None);
    assert!(p1s.is_same_type(t, &SelectableNode::new(p3)));
    assert!(!p1s.is_same_type(t, &SelectableNode::new(nav1)));
    assert!(p1s.is_html_element_in_html_document(t));
    assert!(p1s.has_local_name(t, "p"));
    assert!(p1s.has_namespace(t, XHTML));
    assert!(p1s.has_id(t, "title", true));
    assert!(p1s.has_id(t, "TITLE", false));
    assert!(!p1s.has_id(t, "TITLE", true));
    assert!(!SelectableNode::new(p3).has_id(t, "title", true));
    assert!(SelectableNode::new(nav1).has_class(t, "navbar", true));
    assert!(!SelectableNode::new(nav1).has_class(t, "nav2", true));
    assert!(SelectableNode::new(root).is_root(t));
    assert!(!SelectableNode::new(div).is_root(t));
    assert!(SelectableNode::new(div).is_root_element(t));
    assert!(!SelectableNode::new(root).is_root_element(t));
    assert!(!p1s.is_root_element(t));
    assert!(!p1s.is_empty(t));
    assert!(!p1s.is_link(t));
    assert_eq!(p1s.attr_values(t, None, "id"), vec!["title"]);
    assert_eq!(p1s.attr_values(t, Some(XHTML), "id"), Vec::<String>::new());
    assert_eq!(p1s.into_node(), p1);
}

#[test]
fn element_candidates_in_document_order() {
    let (dom, n) = fixture();
    let got = element_descendants(dom.tree(), n[0]);
    assert_eq!(got, n[1..].to_vec());
    let under_nav1 = element_descendants(dom.tree(), n[2]);
    assert_eq!(under_nav1, vec![n[2], n[3], n[4]]);
}

#[test]
fn empty_and_root_predicates() {
    let mut dom = TreeDom::new();
    let root = dom.get_document();
    let ul = dom.create_element(html("ul"), vec![], false, false);
    dom.append(root, NodeOrText::AppendNode(ul)).unwrap();
    let c = dom.create_comment(String::from("note"));
    dom.append(ul, NodeOrText::AppendNode(c)).unwrap();
    assert!(SelectableNode::new(ul).is_empty(dom.tree()));
    let li = dom.create_element(html("li"), vec![], false, false);
    dom.append(ul, NodeOrText::AppendNode(li)).unwrap();
    assert!(!SelectableNode::new(ul).is_empty(dom.tree()));
    assert_eq!(SelectableNode::new(li).prev_sibling_element(dom.tree()), None);
    let link = dom.create_element(html("link"), vec![], false, false);
    assert!(SelectableNode::new(link).is_link(dom.tree()));
}

#[test]
fn serialization_events() {
    let mut dom = TreeDom::new();
    let root = dom.get_document();
    let div = dom.create_element(html("div"), vec![], false, false);
    dom.append(root, NodeOrText::AppendNode(div)).unwrap();
    dom.append(div, NodeOrText::AppendText(String::from("x"))).unwrap();
    let c = dom.create_comment(String::from("c"));
    dom.append(div, NodeOrText::AppendNode(c)).unwrap();
    let pi = dom.create_pi(String::from("t"), String::from("d"));
    dom.append(root, NodeOrText::AppendNode(pi)).unwrap();

    let kinds = |v: Vec<markupever::serialize::SerializeEvent>| v.iter().map(|e| e.kind).collect::<Vec<_>>();
    assert_eq!(
        kinds(serialize_events(dom.tree(), root, true)),
        vec![EventKind::StartElem, EventKind::Text, EventKind::Comment, EventKind::EndElem, EventKind::ProcessingInstruction]
    );
    assert_eq!(
        kinds(serialize_events(dom.tree(), div, true)),
        vec![EventKind::StartElem, EventKind::Text, EventKind::Comment, EventKind::EndElem]
    );
    assert_eq!(kinds(serialize_events(dom.tree(), div, false)), vec![EventKind::Text, EventKind::Comment]);
}

#[test]
fn quirks_codes() {
    assert_eq!(convert_u8_to_quirks_mode(0), Some(QuirksMode::Quirks));
    assert_eq!(convert_u8_to_quirks_mode(1), Some(QuirksMode::LimitedQuirks));
    assert_eq!(convert_u8_to_quirks_mode(2), Some(QuirksMode::NoQuirks));
    assert_eq!(convert_u8_to_quirks_mode(3), None);
    assert_eq!(convert_quirks_mode_to_u8(QuirksMode::LimitedQuirks), 1);
    for q in [QuirksMode::Quirks, QuirksMode::LimitedQuirks, QuirksMode::NoQuirks] {
        assert_eq!(convert_u8_to_quirks_mode(convert_quirks_mode_to_u8(q)), Some(q));
    }
}

#[test]
fn option_records() {
    assert!(matches!(
        PyHtmlOptions::new(true, false, true, false, false, false, 3),
        Err(OptionsError::InvalidQuirksMode(3))
    ));
    let o = PyHtmlOptions::new(false, true, false, true, true, true, 1).ok().unwrap();
    assert!(!o.full_document());
    assert!(o.exact_errors());
    assert!(!o.discard_bom());
    assert!(o.profile());
    assert!(o.iframe_srcdoc());
    assert!(o.drop_doctype());
    assert_eq!(o.quirks_mode(), 1);
    let d = PyHtmlOptions::default_options();
    assert!(d.full_document() && d.discard_bom());
    assert_eq!(d.quirks(), QuirksMode::NoQuirks);
    let x = PyXmlOptions::new(true, false, true);
    assert!(x.exact_errors() && !x.discard_bom() && x.profile());
}

#[test]
fn stream_is_single_shot() {
    let mut s = ParserState::new();
    assert_eq!(s.feed(), Ok(()));
    assert_eq!(s.take(), Err(StreamError::StateExhausted));
    assert_eq!(s.finish(), Ok(()));
    assert_eq!(s.feed(), Err(StreamError::StateExhausted));
    assert_eq!(s.finish(), Err(StreamError::StateExhausted));
    assert_eq!(s.take(), Ok(()));
    assert_eq!(s.take(), Err(StreamError::StateExhausted));
    assert_eq!(s, ParserState::Dropped);
}

#[test]
fn text_nodes_hold_interface() {
    let mut dom = TreeDom::new();
    let root = dom.get_document();
    dom.append(root, NodeOrText::AppendText(String::from("a"))).unwrap();
    let kids = children(&dom, root);
    assert!(matches!(dom.tree().get(kids[0]).unwrap().value(), Interface::Text(_)));
}
