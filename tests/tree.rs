use markupever::iter::{descendants, Edge, Traverse};
use markupever::tree::{Index, Item, UNITree};

#[test]
fn test_index() {
    let i = UNITree::new('a').root_index();
    assert_eq!(i, Index::default());
    assert_eq!(i.into_usize(), 0);
    assert_eq!(i.into_nonzero(), 1);
}

#[test]
fn test_item() {
    let item = Item::new("test");
    assert_eq!(*item.value(), "test");
    assert_ne!(item, Item::new("test2"));
    assert_eq!(item, Item::new("test"));
    assert_eq!(item.parent(), None);
    assert_eq!(item.children(), None);

    let mut item = Item::new(String::from("x"));
    item.value_mut().push('y');
    assert_eq!(item.value(), "xy");
}

#[test]
fn new() {
    let tree = UNITree::new('a');
    assert_eq!(tree.len(), 1);
    assert_eq!(tree.root_index(), Index::default());

    let root = tree.get(tree.root_index()).unwrap();
    assert_eq!(root.parent(), None);
    assert_eq!(root.prev_sibling(), None);
    assert_eq!(root.next_sibling(), None);
    assert_eq!(root.first_children(), None);
    assert_eq!(root.last_children(), None);
    assert_eq!(root.children(), None);
    assert_eq!(*root.value(), 'a');
}

#[test]
fn orphan() {
    let mut tree = UNITree::new('a');
    let index = tree.orphan('b');

    let item = tree.get(index).unwrap();
    assert_eq!(*item.value(), 'b');
    assert_eq!(item.parent(), None);
}

#[test]
fn append() {
    let mut tree = UNITree::new('a');
    let first_child_index = tree.orphan('b');

    tree.append(tree.root_index(), first_child_index);

    let item = tree.get(first_child_index).unwrap();
    assert_eq!(*item.value(), 'b');
    assert_eq!(item.parent(), Some(tree.root_index()));
    assert_eq!(item.prev_sibling(), None);
    assert_eq!(item.next_sibling(), None);
    assert_eq!(item.children(), None);

    let root = tree.get(tree.root_index()).unwrap();
    assert_eq!(*root.value(), 'a');
    assert_eq!(root.parent(), None);
    assert_eq!(root.prev_sibling(), None);
    assert_eq!(root.next_sibling(), None);
    assert_eq!(root.children(), Some((first_child_index, first_child_index)));

    let last_child_index = tree.orphan('c');
    tree.append(tree.root_index(), last_child_index);

    let item = tree.get(last_child_index).unwrap();
    assert_eq!(*item.value(), 'c');
    assert_eq!(item.parent(), Some(tree.root_index()));
    assert_eq!(item.prev_sibling(), Some(first_child_index));
    assert_eq!(item.next_sibling(), None);
    assert_eq!(item.children(), None);

    let root = tree.get(tree.root_index()).unwrap();
    assert_eq!(*root.value(), 'a');
    assert_eq!(root.parent(), None);
    assert_eq!(root.prev_sibling(), None);
    assert_eq!(root.next_sibling(), None);
    assert_eq!(root.children(), Some((first_child_index, last_child_index)));

    let item = tree.get(first_child_index).unwrap();
    assert_eq!(*item.value(), 'b');
    assert_eq!(item.prev_sibling(), None);
    assert_eq!(item.next_sibling(), Some(last_child_index));
    assert_eq!(item.children(), None);
}

#[test]
fn prepend() {
    let mut tree = UNITree::new('a');
    let child_1 = tree.orphan('b');

    tree.prepend(tree.root_index(), child_1);

    let item = tree.get(child_1).unwrap();
    assert_eq!(*item.value(), 'b');
    assert_eq!(item.parent(), Some(tree.root_index()));
    assert_eq!(item.prev_sibling(), None);
    assert_eq!(item.next_sibling(), None);
    assert_eq!(item.children(), None);

    let root = tree.get(tree.root_index()).unwrap();
    assert_eq!(*root.value(), 'a');
    assert_eq!(root.parent(), None);
    assert_eq!(root.prev_sibling(), None);
    assert_eq!(root.next_sibling(), None);
    assert_eq!(root.children(), Some((child_1, child_1)));

    let child_2 = tree.orphan('c');
    tree.prepend(tree.root_index(), child_2);

    let item = tree.get(child_2).unwrap();
    assert_eq!(*item.value(), 'c');
    assert_eq!(item.parent(), Some(tree.root_index()));
    assert_eq!(item.prev_sibling(), None);
    assert_eq!(item.next_sibling(), Some(child_1));
    assert_eq!(item.children(), None);

    let root = tree.get(tree.root_index()).unwrap();
    assert_eq!(*root.value(), 'a');
    assert_eq!(root.parent(), None);
    assert_eq!(root.prev_sibling(), None);
    assert_eq!(root.next_sibling(), None);
    assert_eq!(root.children(), Some((child_2, child_1)));

    let item = tree.get(child_1).unwrap();
    assert_eq!(*item.value(), 'b');
    assert_eq!(item.prev_sibling(), Some(child_2));
    assert_eq!(item.next_sibling(), None);
    assert_eq!(item.children(), None);
}

#[test]
fn insert_after() {
    let mut tree = UNITree::new('a');
    let first_child_index = tree.orphan('b');

    tree.append(tree.root_index(), first_child_index);

    let item = tree.get(first_child_index).unwrap();
    assert_eq!(*item.value(), 'b');
    assert_eq!(item.parent(), Some(tree.root_index()));
    assert_eq!(item.prev_sibling(), None);
    assert_eq!(item.next_sibling(), None);
    assert_eq!(item.children(), None);

    let root = tree.get(tree.root_index()).unwrap();
    assert_eq!(*root.value(), 'a');
    assert_eq!(root.parent(), None);
    assert_eq!(root.prev_sibling(), None);
    assert_eq!(root.next_sibling(), None);
    assert_eq!(root.children(), Some((first_child_index, first_child_index)));

    let last_child_index = tree.orphan('c');
    tree.insert_after(first_child_index, last_child_index);

    let item = tree.get(last_child_index).unwrap();
    assert_eq!(*item.value(), 'c');
    assert_eq!(item.parent(), Some(tree.root_index()));
    assert_eq!(item.prev_sibling(), Some(first_child_index));
    assert_eq!(item.next_sibling(), None);
    assert_eq!(item.children(), None);

    let root = tree.get(tree.root_index()).unwrap();
    assert_eq!(*root.value(), 'a');
    assert_eq!(root.parent(), None);
    assert_eq!(root.prev_sibling(), None);
    assert_eq!(root.next_sibling(), None);
    assert_eq!(root.children(), Some((first_child_index, last_child_index)));

    let item = tree.get(first_child_index).unwrap();
    assert_eq!(*item.value(), 'b');
    assert_eq!(item.prev_sibling(), None);
    assert_eq!(item.next_sibling(), Some(last_child_index));
    assert_eq!(item.children(), None);
}

#[test]
fn insert_before() {
    let mut tree = UNITree::new('a');
    let child_1 = tree.orphan('b');

    tree.append(tree.root_index(), child_1);

    let item = tree.get(child_1).unwrap();
    assert_eq!(*item.value(), 'b');
    assert_eq!(item.parent(), Some(tree.root_index()));
    assert_eq!(item.prev_sibling(), None);
    assert_eq!(item.next_sibling(), None);
    assert_eq!(item.children(), None);

    let root = tree.get(tree.root_index()).unwrap();
    assert_eq!(*root.value(), 'a');
    assert_eq!(root.parent(), None);
    assert_eq!(root.prev_sibling(), None);
    assert_eq!(root.next_sibling(), None);
    assert_eq!(root.children(), Some((child_1, child_1)));

    let child_2 = tree.orphan('c');
    tree.insert_before(child_1, child_2);

    let item = tree.get(child_2).unwrap();
    assert_eq!(*item.value(), 'c');
    assert_eq!(item.parent(), Some(tree.root_index()));
    assert_eq!(item.prev_sibling(), None);
    assert_eq!(item.next_sibling(), Some(child_1));
    assert_eq!(item.children(), None);

    let root = tree.get(tree.root_index()).unwrap();
    assert_eq!(*root.value(), 'a');
    assert_eq!(root.parent(), None);
    assert_eq!(root.prev_sibling(), None);
    assert_eq!(root.next_sibling(), None);
    assert_eq!(root.children(), Some((child_2, child_1)));

    let item = tree.get(child_1).unwrap();
    assert_eq!(*item.value(), 'b');
    assert_eq!(item.prev_sibling(), Some(child_2));
    assert_eq!(item.next_sibling(), None);
    assert_eq!(item.children(), None);
}

#[test]
fn reparent_append() {
    let mut tree = UNITree::new('a');
    let item_1 = tree.orphan('b');
    let item_2 = tree.orphan('c');

    tree.append(tree.root_index(), item_1);
    tree.append(tree.root_index(), item_2);

    let item_1_1 = tree.orphan('d');
    let item_1_2 = tree.orphan('e');

    tree.append(item_1, item_1_1);
    tree.append(item_1, item_1_2);

    assert_eq!(tree.get(item_1).unwrap().children(), Some((item_1_1, item_1_2)));

    tree.reparent_append(item_2, item_1);

    assert_eq!(tree.get(item_1).unwrap().children(), None);
    assert_eq!(tree.get(item_2).unwrap().children(), Some((item_1_1, item_1_2)));
    assert_eq!(tree.get(item_1_1).unwrap().parent(), Some(item_2));
    assert_eq!(tree.get(item_1_2).unwrap().parent(), Some(item_2));
}

fn sample() -> (UNITree<char>, [Index; 5]) {
    // a ( b ( d e ) c )
    let mut tree = UNITree::new('a');
    let b = tree.orphan('b');
    let c = tree.orphan('c');
    let d = tree.orphan('d');
    let e = tree.orphan('e');
    tree.append(tree.root_index(), b);
    tree.append(tree.root_index(), c);
    tree.append(b, d);
    tree.append(b, e);
    (tree, [tree_root(), b, c, d, e])
}

fn tree_root() -> Index {
    Index::default()
}

fn values(tree: &UNITree<char>, v: &[Index]) -> String {
    v.iter().map(|i| *tree.get(*i).unwrap().value()).collect()
}

#[test]
fn reparent_prepend_keeps_order() {
    let (mut tree, [root, b, c, d, e]) = sample();
    let f = tree.orphan('f');
    tree.append(c, f);
    tree.reparent_prepend(c, b);
    assert_eq!(tree.get(b).unwrap().children(), None);
    assert_eq!(tree.get(c).unwrap().children(), Some((d, f)));
    assert_eq!(tree.get(d).unwrap().next_sibling(), Some(e));
    assert_eq!(tree.get(e).unwrap().next_sibling(), Some(f));
    assert_eq!(tree.get(f).unwrap().prev_sibling(), Some(e));
    assert_eq!(values(&tree, &descendants(&tree, root)), "abcdef");
}

#[test]
fn descendants_in_document_order() {
    let (tree, [root, b, ..]) = sample();
    assert_eq!(values(&tree, &descendants(&tree, root)), "abdec");
    assert_eq!(values(&tree, &descendants(&tree, b)), "bde");
}

#[test]
fn traverse_edges() {
    let (tree, [root, b, c, d, e]) = sample();
    let mut walk = Traverse::new(&tree, root);
    let mut got = Vec::new();
    while let Some(edge) = walk.next_edge() {
        got.push(edge);
    }
    assert_eq!(
        got,
        vec![
            Edge::Open(root),
            Edge::Open(b),
            Edge::Open(d),
            Edge::Close(d),
            Edge::Open(e),
            Edge::Close(e),
            Edge::Close(b),
            Edge::Open(c),
            Edge::Close(c),
            Edge::Close(root),
        ]
    );
    assert_eq!(walk.next_edge(), None);
}

#[test]
fn siblings_are_symmetric() {
    let (tree, [_, b, c, d, e]) = sample();
    assert_eq!(tree.get(b).unwrap().next_sibling(), Some(c));
    assert_eq!(tree.get(c).unwrap().prev_sibling(), Some(b));
    assert_eq!(tree.get(d).unwrap().next_sibling(), Some(e));
    assert_eq!(tree.get(e).unwrap().prev_sibling(), Some(d));
}

#[test]
fn append_then_detach_restores() {
    let (mut tree, [root, b, c, d, e]) = sample();
    let f = tree.orphan('f');
    let before: Vec<_> = [root, b, c, d, e, f]
        .iter()
        .map(|i| {
            let it = tree.get(*i).unwrap();
            (it.parent(), it.prev_sibling(), it.next_sibling(), it.children())
        })
        .collect();
    tree.append(b, f);
    assert_eq!(tree.get(b).unwrap().children(), Some((d, f)));
    tree.detach(f);
    let after: Vec<_> = [root, b, c, d, e, f]
        .iter()
        .map(|i| {
            let it = tree.get(*i).unwrap();
            (it.parent(), it.prev_sibling(), it.next_sibling(), it.children())
        })
        .collect();
    assert_eq!(before, after);
}

#[test]
fn detach_middle_child() {
    let (mut tree, [root, b, c, ..]) = sample();
    tree.detach(b);
    assert_eq!(tree.get(root).unwrap().children(), Some((c, c)));
    assert_eq!(tree.get(c).unwrap().prev_sibling(), None);
    assert_eq!(tree.get(b).unwrap().parent(), None);
    assert_eq!(values(&tree, &descendants(&tree, b)), "bde");
}

#[test]
fn append_existing_last_child_is_noop() {
    let (mut tree, [root, b, c, ..]) = sample();
    tree.append(root, c);
    assert_eq!(tree.get(root).unwrap().children(), Some((b, c)));
    tree.append(root, b);
    assert_eq!(tree.get(root).unwrap().children(), Some((c, b)));
}

#[test]
fn ancestors_are_found() {
    let (tree, [root, b, c, d, _]) = sample();
    assert!(tree.is_ancestor_of(root, d));
    assert!(tree.is_ancestor_of(b, d));
    assert!(!tree.is_ancestor_of(c, d));
    assert!(!tree.is_ancestor_of(d, d));
    assert!(!tree.is_ancestor_of(d, root));
}

#[test]
fn replace_value_keeps_links() {
    let (mut tree, [root, b, ..]) = sample();
    let old = tree.replace_value(b, 'z');
    assert_eq!(old, 'b');
    assert_eq!(values(&tree, &descendants(&tree, root)), "azdec");
}
