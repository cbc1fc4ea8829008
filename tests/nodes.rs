use markupever::attrs::{ElementAttributeTrigger, OnceLock};
use markupever::nodes::{ElementInterface, Interface, TextInterface};
use markupever::qualname::QualName;
use markupever::strings::{split_ascii_whitespace, str_eq_case, str_less};

fn qn(prefix: Option<&str>, local: &str) -> QualName {
    QualName::new(prefix.map(String::from), String::new(), String::from(local))
}

#[test]
fn test_data() {
    let elem = ElementInterface::new(qn(None, "div"), vec![], false, false);
    assert_eq!(elem.name.local, "div");

    let mut elem = ElementInterface::new(
        qn(None, "div"),
        vec![
            (qn(None, "id"), String::from("example_id")),
            (qn(None, "class"), String::from("cls1 cls2")),
            (qn(None, "class"), String::from("cls2 cls3")),
            (qn(Some("data-test"), ""), String::from("test")),
        ],
        false,
        false,
    );
    assert_eq!(elem.attrs.id().as_deref(), Some("example_id"));
    assert_eq!(elem.attrs.classes().len(), 3);

    elem.attrs.clear();

    assert_eq!(elem.attrs.id(), None);
    assert_eq!(elem.attrs.classes().len(), 0);
}

#[test]
fn classes_are_sorted_and_unique() {
    let attrs = ElementAttributeTrigger::new(vec![
        (qn(None, "class"), String::from("  b a\tc ")),
        (qn(None, "title"), String::from("x y")),
        (qn(None, "class"), String::from("a\nd")),
    ]);
    assert_eq!(attrs.classes(), vec!["a", "b", "c", "d"]);
}

#[test]
fn id_is_first_id_attribute() {
    let attrs = ElementAttributeTrigger::new(vec![
        (qn(None, "title"), String::from("t")),
        (qn(None, "id"), String::from("first")),
        (qn(None, "id"), String::from("second")),
    ]);
    assert_eq!(attrs.id().as_deref(), Some("first"));
    let none = ElementAttributeTrigger::new(vec![(qn(None, "class"), String::from("id"))]);
    assert_eq!(none.id(), None);
}

#[test]
fn caches_follow_mutation() {
    let mut attrs = ElementAttributeTrigger::new(vec![
        (qn(None, "id"), String::from("one")),
        (qn(None, "class"), String::from("x")),
    ]);
    attrs.update_caches();
    assert_eq!(attrs.id().as_deref(), Some("one"));
    assert_eq!(attrs.classes(), vec!["x"]);
    attrs.insert(0, qn(None, "id"), String::from("zero"));
    attrs.push(qn(None, "class"), String::from("w x"));
    assert_eq!(attrs.id().as_deref(), Some("zero"));
    assert_eq!(attrs.classes(), vec!["w", "x"]);
    attrs.update_caches();
    let (name, value) = attrs.remove(0);
    assert_eq!(name.local, "id");
    assert_eq!(value, "zero");
    assert_eq!(attrs.id().as_deref(), Some("one"));
    let last = attrs.pop().unwrap();
    assert_eq!(last.1, "w x");
    assert_eq!(attrs.classes(), vec!["x"]);
}

#[test]
fn sort_dedup_keeps_first_of_each_name() {
    let mut attrs = ElementAttributeTrigger::new(vec![
        (qn(None, "src"), String::from("1")),
        (qn(None, "alt"), String::from("2")),
        (qn(None, "src"), String::from("3")),
        (qn(Some("x"), "alt"), String::from("4")),
        (qn(None, "alt"), String::from("5")),
    ]);
    attrs.sort_dedup();
    let got: Vec<(Option<String>, String, String)> = (0..attrs.len())
        .map(|i| {
            let a = attrs.get(i);
            (a.0.prefix.clone(), a.0.local.clone(), a.1.clone())
        })
        .collect();
    assert_eq!(
        got,
        vec![
            (None, String::from("alt"), String::from("2")),
            (None, String::from("src"), String::from("1")),
            (Some(String::from("x")), String::from("alt"), String::from("4")),
        ]
    );
}

#[test]
fn qualname_order() {
    assert!(qn(None, "b").less(&qn(Some("a"), "a")));
    assert!(qn(None, "a").less(&qn(None, "b")));
    assert!(!qn(None, "b").less(&qn(None, "b")));
    assert!(qn(Some("a"), "z").less(&qn(Some("b"), "a")));
    assert!(qn(None, "b").same(&qn(None, "b")));
    assert!(!qn(None, "b").same(&qn(Some("p"), "b")));
}

#[test]
fn string_order_and_case() {
    assert!(str_less("ab", "abc"));
    assert!(str_less("abc", "abd"));
    assert!(!str_less("abd", "abc"));
    assert!(!str_less("abc", "abc"));
    assert!(str_less("", "a"));
    assert!(str_eq_case("Title", "tITLE", false));
    assert!(!str_eq_case("Title", "tITLE", true));
    assert!(!str_eq_case("Title", "Titles", false));
}

#[test]
fn split_on_ascii_whitespace() {
    assert_eq!(split_ascii_whitespace("  a bc\t\td\n"), vec!["a", "bc", "d"]);
    assert_eq!(split_ascii_whitespace(""), Vec::<String>::new());
    assert_eq!(split_ascii_whitespace(" \x0C\r "), Vec::<String>::new());
    assert_eq!(split_ascii_whitespace("x\u{a0}y"), vec!["x\u{a0}y"]);
}

#[test]
fn once_lock_sets_once() {
    let mut cell: OnceLock<u8> = OnceLock::new();
    assert_eq!(cell.get(), None);
    assert_eq!(cell.set(1), Ok(()));
    assert_eq!(cell.set(2), Err(2));
    assert_eq!(cell.get(), Some(&1));
    assert_eq!(cell.take(), Some(1));
    assert_eq!(cell.get(), None);
}

#[test]
fn interface_kinds() {
    let t = Interface::Text(TextInterface::new(String::from("a")));
    assert!(t.is_text());
    assert!(!t.is_element());
    assert_eq!(t.text().unwrap().contents, "a");
    let mut text = TextInterface::new(String::from("Hel"));
    text.push_str("lo");
    assert_eq!(text.contents, "Hello");
}

#[test]
fn test_nodedata() {
    let data = Interface::Document(markupever::nodes::DocumentInterface);
    assert!(matches!(data, Interface::Document(..)));
    assert!(data.is_document());
}

#[test]
fn payload_equality() {
    let a = Interface::Element(ElementInterface::new(
        qn(None, "div"),
        vec![(qn(None, "id"), String::from("x")), (qn(None, "class"), String::from("c"))],
        false,
        false,
    ));
    let b = Interface::Element(ElementInterface::new(
        qn(None, "div"),
        vec![(qn(None, "class"), String::from("c")), (qn(None, "id"), String::from("x"))],
        false,
        false,
    ));
    let c = Interface::Element(ElementInterface::new(
        qn(None, "div"),
        vec![(qn(None, "class"), String::from("c")), (qn(None, "class"), String::from("c"))],
        false,
        false,
    ));
    assert!(a == b);
    assert!(a != c);
    assert!(Interface::Text(TextInterface::new(String::from("t"))) == Interface::Text(TextInterface::new(String::from("t"))));
    assert!(Interface::Text(TextInterface::new(String::from("t"))) != Interface::Text(TextInterface::new(String::from("u"))));
    assert!(a != Interface::Text(TextInterface::new(String::from("t"))));
}
