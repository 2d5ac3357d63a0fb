use polyhorn::compositor::{Command, Op};
use polyhorn::element::{assign_keys, has_unique_keys, Draft, Element, ElementKind, Key};
use polyhorn::reconciler::diff_children;
use polyhorn::topology::{RenderError, Topology};
use polyhorn::tree::{diff_trees, tree_keys_are_unique, Node, ScopedCommand};

fn item(key: u64) -> Element {
    Element::new(ElementKind::Builtin(1), key, key * 10)
}

fn list(keys: &[u64]) -> Vec<Element> {
    keys.iter().map(|&k| item(k)).collect()
}

fn leaf(key: u64) -> Node {
    Node { element: item(key), children: Vec::new() }
}

fn list_node(keys: &[u64]) -> Node {
    Node {
        element: Element::new(ElementKind::Component(7), 0, 0),
        children: keys.iter().map(|&k| leaf(k)).collect(),
    }
}

fn count(cmds: &[ScopedCommand], pick: fn(&Command) -> bool) -> usize {
    cmds.iter().filter(|c| pick(&c.command)).count()
}

#[test]
fn list_reorder_gives_three_moves() {
    let mut t = Topology::new();
    let first = t.render(vec![list_node(&[1, 2, 3])]).unwrap();
    assert_eq!(count(&first, |c| matches!(c, Command::Create { .. })), 4);
    let second = t.render(vec![list_node(&[3, 1, 2])]).unwrap();
    assert_eq!(second.len(), 3);
    assert_eq!(count(&second, |c| matches!(c, Command::Move { .. })), 3);
    assert_eq!(count(&second, |c| matches!(c, Command::Create { .. })), 0);
    assert_eq!(count(&second, |c| matches!(c, Command::Remove { .. })), 0);
    for c in &second {
        assert_eq!(c.scope, vec![Key::explicit(0)]);
    }
    assert_eq!(second[0].command, Command::Move { key: Key::explicit(3), index: 0 });
    assert_eq!(second[1].command, Command::Move { key: Key::explicit(1), index: 1 });
    assert_eq!(second[2].command, Command::Move { key: Key::explicit(2), index: 2 });
    assert_eq!(t.roots().len(), 1);
    assert_eq!(t.roots()[0].children.len(), 3);
}

#[test]
fn list_reorder_flat_counts() {
    let prev = list(&[1, 2, 3]);
    let next = list(&[3, 1, 2]);
    let c = diff_children(&prev, &next);
    assert_eq!(c.count(Op::Move), 3);
    assert_eq!(c.count(Op::Create), 0);
    assert_eq!(c.count(Op::Remove), 0);
}

#[test]
fn tree_diff_against_itself_is_empty() {
    let tree = || {
        vec![
            Node { element: item(1), children: vec![list_node(&[4, 5]), leaf(6)] },
            list_node(&[7, 8, 9]),
        ]
    };
    assert!(diff_trees(&tree(), &tree()).is_empty());
    let mut t = Topology::new();
    t.render(tree()).unwrap();
    assert!(t.render(tree()).unwrap().is_empty());
}

#[test]
fn new_subtree_is_created_level_by_level() {
    let prev: Vec<Node> = Vec::new();
    let next = vec![Node { element: item(1), children: vec![list_node(&[4, 5])] }];
    let c = diff_trees(&prev, &next);
    assert_eq!(c.len(), 4);
    assert!(c[0].scope.is_empty());
    assert_eq!(c[0].command, Command::Create { key: Key::explicit(1), kind: ElementKind::Builtin(1), props: 10, index: 0 });
    assert_eq!(c[1].scope, vec![Key::explicit(1)]);
    assert_eq!(c[1].command, Command::Create { key: Key::explicit(0), kind: ElementKind::Component(7), props: 0, index: 0 });
    assert_eq!(c[2].scope, vec![Key::explicit(1), Key::explicit(0)]);
    assert_eq!(c[2].command, Command::Create { key: Key::explicit(4), kind: ElementKind::Builtin(1), props: 40, index: 0 });
    assert_eq!(c[3].command, Command::Create { key: Key::explicit(5), kind: ElementKind::Builtin(1), props: 50, index: 1 });
}

#[test]
fn nested_kind_change_recreates_subtree() {
    let prev = vec![Node { element: item(1), children: vec![list_node(&[4])] }];
    let mut inner = list_node(&[4]);
    inner.element = Element::new(ElementKind::Builtin(2), 0, 0);
    let next = vec![Node { element: item(1), children: vec![inner] }];
    let c = diff_trees(&prev, &next);
    assert_eq!(c.len(), 3);
    assert_eq!(c[0].command, Command::Remove { key: Key::explicit(0) });
    assert_eq!(c[1].command, Command::Create { key: Key::explicit(0), kind: ElementKind::Builtin(2), props: 0, index: 0 });
    assert_eq!(c[2].scope, vec![Key::explicit(1), Key::explicit(0)]);
    assert_eq!(c[2].command, Command::Create { key: Key::explicit(4), kind: ElementKind::Builtin(1), props: 40, index: 0 });
}

#[test]
fn diff_against_itself_is_empty() {
    let s = list(&[4, 8, 15, 16, 23, 42]);
    assert!(diff_children(&s, &s).is_empty());
    let empty: Vec<Element> = Vec::new();
    assert!(diff_children(&empty, &empty).is_empty());
}

#[test]
fn reorder_keeps_instances() {
    let prev = list(&[1, 2, 3, 4]);
    let next = list(&[2, 4, 1, 3]);
    let c = diff_children(&prev, &next);
    assert_eq!(c.count(Op::Move), c.len());
    assert_eq!(c.count(Op::Create), 0);
    assert_eq!(c.count(Op::Remove), 0);
}

#[test]
fn key_change_destroys_then_creates() {
    let prev = list(&[1, 2, 3]);
    let next = list(&[1, 9, 3]);
    let c = diff_children(&prev, &next);
    assert_eq!(c.len(), 2);
    assert_eq!(c.get(0), Command::Remove { key: Key::explicit(2) });
    assert_eq!(
        c.get(1),
        Command::Create { key: Key::explicit(9), kind: ElementKind::Builtin(1), props: 90, index: 1 }
    );
}

#[test]
fn kind_change_destroys_then_creates() {
    let prev = list(&[1, 2]);
    let mut next = list(&[1, 2]);
    next[1] = Element::new(ElementKind::Component(5), 2, 20);
    let c = diff_children(&prev, &next);
    assert_eq!(c.len(), 2);
    assert_eq!(c.get(0), Command::Remove { key: Key::explicit(2) });
    assert_eq!(
        c.get(1),
        Command::Create { key: Key::explicit(2), kind: ElementKind::Component(5), props: 20, index: 1 }
    );
}

#[test]
fn changed_props_give_update_only() {
    let prev = list(&[1, 2]);
    let mut next = list(&[1, 2]);
    next[0] = Element::new(ElementKind::Builtin(1), 1, 77);
    let c = diff_children(&prev, &next);
    assert_eq!(c.len(), 1);
    assert_eq!(c.get(0), Command::Update { key: Key::explicit(1), props: 77 });
}

#[test]
fn removed_and_added_children() {
    let prev = list(&[1, 2, 3]);
    let next = list(&[2, 5]);
    let c = diff_children(&prev, &next);
    assert_eq!(c.len(), 4);
    assert_eq!(c.get(0), Command::Remove { key: Key::explicit(1) });
    assert_eq!(c.get(1), Command::Remove { key: Key::explicit(3) });
    assert_eq!(c.get(2), Command::Move { key: Key::explicit(2), index: 0 });
    assert_eq!(
        c.get(3),
        Command::Create { key: Key::explicit(5), kind: ElementKind::Builtin(1), props: 50, index: 1 }
    );
}

#[test]
fn duplicate_keys_are_refused() {
    assert!(!has_unique_keys(&list(&[1, 2, 1])));
    assert!(has_unique_keys(&list(&[1, 2, 3])));
    assert!(!tree_keys_are_unique(&vec![list_node(&[2, 2])]));
    assert!(tree_keys_are_unique(&vec![list_node(&[2, 3])]));
    let mut t = Topology::new();
    t.render(vec![leaf(1)]).unwrap();
    assert_eq!(t.render(vec![leaf(7), leaf(7)]).err(), Some(RenderError::DuplicateKey));
    assert_eq!(t.render(vec![list_node(&[3, 3])]).err(), Some(RenderError::DuplicateKey));
    assert_eq!(t.roots().len(), 1);
    assert_eq!(t.roots()[0].element, item(1));
}

#[test]
fn colliding_keys_match_the_first_child() {
    let prev = list(&[1, 1]);
    let next = list(&[1]);
    let c = diff_children(&prev, &next);
    assert_eq!(c.len(), 1);
    assert_eq!(c.get(0), Command::Remove { key: Key::explicit(1) });
}

#[test]
fn abandoned_flush_rebuilds_everything() {
    let mut t = Topology::new();
    t.render(vec![list_node(&[1, 2])]).unwrap();
    assert!(!t.needs_resync());
    t.mark_resync();
    assert!(t.needs_resync());
    assert!(t.roots().is_empty());
    let again = t.render(vec![list_node(&[1, 2])]).unwrap();
    assert_eq!(count(&again, |c| matches!(c, Command::Create { .. })), 3);
    assert!(!t.needs_resync());
}

#[test]
fn drafts_without_keys_get_positions() {
    let drafts = vec![
        Draft { kind: ElementKind::Builtin(1), key: None, props: 0 },
        Draft { kind: ElementKind::Builtin(1), key: Some(0), props: 0 },
        Draft { kind: ElementKind::Builtin(1), key: None, props: 0 },
    ];
    let e = assign_keys(&drafts);
    assert_eq!(e[0].key, Key { value: 0, positional: true });
    assert_eq!(e[1].key, Key::explicit(0));
    assert_eq!(e[2].key, Key { value: 2, positional: true });
    assert!(has_unique_keys(&e));
}
