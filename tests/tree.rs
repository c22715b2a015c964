use brigadier::arguments::{
    ArgumentKind, BoolArgumentType, NumericArgumentBounds, NumericArgumentType, ParsedValue,
    StringArgumentType,
};
use brigadier::builder::{argument, literal, Build};
use brigadier::tree::{CommandId, LiteralCommandNode, RequirementId, TaggedCommandNode, TreeGraph};
use brigadier::Unrestricted;

#[test]
fn merging_a_literal_keeps_one_node_with_all_children() {
    let mut tree = TreeGraph::new();
    let root = tree.root_id();

    let mut foo = literal("foo");
    foo.inner().executes(CommandId(1));
    let foo_id = foo.build(&mut tree);
    tree.add_child(root, foo_id);

    let mut bar = literal("bar");
    bar.inner().executes(CommandId(2));
    let mut foo2 = literal("foo");
    foo2.inner().then_build(&mut tree, bar);
    let foo2_id = foo2.build(&mut tree);
    tree.add_child(root, foo2_id);

    let root_node = tree.get(root).unwrap();
    assert_eq!(root_node.children(), vec![foo_id]);
    assert_eq!(root_node.literals(), vec![foo_id]);
    assert!(root_node.arguments().is_empty());
    assert!(!tree.contains_node(foo2_id));

    let foo_node = tree.get(foo_id).unwrap();
    assert_eq!(foo_node.command(), Some(CommandId(1)));
    let bar_id = foo_node.child("bar").unwrap();
    let bar_node = tree.get(bar_id).unwrap();
    assert_eq!(bar_node.name(), "bar");
    assert_eq!(bar_node.command(), Some(CommandId(2)));
}

#[test]
fn merging_overwrites_the_command() {
    let mut tree = TreeGraph::new();
    let root = tree.root_id();
    let mut a = literal("run");
    a.inner().executes(CommandId(1));
    let a_id = a.build(&mut tree);
    tree.add_child(root, a_id);
    let mut b = literal("run");
    b.inner().executes(CommandId(9));
    let b_id = b.build(&mut tree);
    tree.add_child(root, b_id);
    assert_eq!(tree.get(a_id).unwrap().command(), Some(CommandId(9)));
    assert_eq!(tree.len(), 2);
}

#[test]
fn children_keep_insertion_order_and_indices() {
    let mut tree = TreeGraph::new();
    let root = tree.root_id();
    let x = literal("x").build(&mut tree);
    let n = argument("n", ArgumentKind::Integer(NumericArgumentType::<i32>::new(NumericArgumentBounds::Full)))
        .build(&mut tree);
    let a = literal("a").build(&mut tree);
    tree.add_child(root, x);
    tree.add_child(root, n);
    tree.add_child(root, a);
    let r = tree.get(root).unwrap();
    assert_eq!(r.children(), vec![x, n, a]);
    assert_eq!(r.literals(), vec![x, a]);
    assert_eq!(r.arguments(), vec![n]);
    assert_eq!(r.child("n"), Some(n));
    assert_eq!(r.child("y"), None);
}

#[test]
fn merging_recurses_into_grandchildren() {
    let mut tree = TreeGraph::new();
    let root = tree.root_id();

    let mut first = literal("a");
    first.inner().then_build(&mut tree, literal("b"));
    let first_id = first.build(&mut tree);
    tree.add_child(root, first_id);

    let mut inner = literal("b");
    inner.inner().then_build(&mut tree, literal("c"));
    let mut second = literal("a");
    second.inner().then_build(&mut tree, inner);
    let second_id = second.build(&mut tree);
    tree.add_child(root, second_id);

    let a = tree.get(first_id).unwrap();
    assert_eq!(a.children().len(), 1);
    let b = tree.get(a.child("b").unwrap()).unwrap();
    let c = tree.get(b.child("c").unwrap()).unwrap();
    assert_eq!(c.name(), "c");
    assert_eq!(tree.len(), 4);
}

#[test]
fn node_names_and_usage() {
    let mut tree = TreeGraph::new();
    let root = tree.root_id();
    let lit = literal("Go").build(&mut tree);
    let arg = argument("target", ArgumentKind::Text(StringArgumentType::SingleWord))
        .suggests(brigadier::tree::ProviderId(5))
        .build(&mut tree);
    assert_eq!(tree.get(root).unwrap().name(), "");
    assert_eq!(tree.get(root).unwrap().usage_text(), "");
    assert_eq!(tree.get(lit).unwrap().usage_text(), "Go");
    assert_eq!(tree.get(arg).unwrap().usage_text(), "<target>");
    assert_eq!(tree.get(arg).unwrap().id(), arg);
    match tree.get(lit).unwrap().tagged() {
        TaggedCommandNode::Literal(l) => assert_eq!(l.literal_lower_case(), Some("go")),
        _ => panic!("not a literal"),
    }
    match tree.get(arg).unwrap().tagged() {
        TaggedCommandNode::Argument(a) => {
            assert_eq!(a.name(), "target");
            assert_eq!(a.custom_suggestions(), Some(brigadier::tree::ProviderId(5)));
        }
        _ => panic!("not an argument"),
    }
}

#[test]
fn literal_lowercase_cache() {
    assert_eq!(LiteralCommandNode::new(String::from("foo")).literal_lower_case(), None);
    assert_eq!(LiteralCommandNode::new(String::from("FoO")).literal_lower_case(), Some("foo"));
    assert_eq!(LiteralCommandNode::new(String::from("a1")).literal_lower_case(), Some("a1"));
    assert_eq!(LiteralCommandNode::new(String::from("a1")).literal(), "a1");
}

#[test]
fn redirects_and_requirements() {
    let mut tree = TreeGraph::new();
    let root = tree.root_id();
    let mut b = literal("again");
    b.inner().fork(&tree, root, None);
    b.inner().set_requirement(RequirementId(3));
    assert_eq!(b.inner().redirect_id(), Some(root));
    assert!(b.inner().forks());
    let id = b.build(&mut tree);
    let node = tree.get(id).unwrap();
    assert_eq!(node.redirect(), Some(root));
    assert!(node.forks());
    assert_eq!(node.modifier(), None);
    assert_eq!(node.requirement(), Some(RequirementId(3)));
    assert!(node.can_use(&Unrestricted, &()));
    assert!(tree.get(root).unwrap().can_use(&Unrestricted, &()));
}

#[test]
fn ambiguous_siblings_are_reported() {
    let mut tree = TreeGraph::new();
    let root = tree.root_id();
    let lit = literal("true").build(&mut tree);
    let flag = argument("flag", ArgumentKind::Bool(BoolArgumentType)).build(&mut tree);
    tree.add_child(root, lit);
    tree.add_child(root, flag);
    let found = tree.ambiguities_at(root);
    assert_eq!(found.len(), 2);
    assert_eq!((found[0].parent, found[0].first, found[0].second), (root, lit, flag));
    assert_eq!(found[0].overlap, vec![String::from("true")]);
    assert_eq!((found[1].first, found[1].second), (flag, lit));
    assert_eq!(found[1].overlap, vec![String::from("true")]);
    assert_eq!(tree.find_ambiguities().len(), 2);
}

#[test]
fn numbers_read_as_words() {
    let mut tree = TreeGraph::new();
    let root = tree.root_id();
    let n = argument("n", ArgumentKind::Integer(NumericArgumentType::<i32>::new(NumericArgumentBounds::Full)))
        .build(&mut tree);
    let w = argument("w", ArgumentKind::Text(StringArgumentType::SingleWord)).build(&mut tree);
    tree.add_child(root, n);
    tree.add_child(root, w);
    let found = tree.ambiguities_at(root);
    assert_eq!(found.len(), 1);
    assert_eq!((found[0].first, found[0].second), (n, w));
    assert_eq!(found[0].overlap, vec!["0", "123", "-123"]);
}

#[test]
fn valid_input_of_nodes() {
    let mut tree = TreeGraph::new();
    let root = tree.root_id();
    let lit = literal("go").build(&mut tree);
    let node = tree.get(lit).unwrap();
    assert!(node.is_valid_input("go"));
    assert!(node.is_valid_input("go on"));
    assert!(!node.is_valid_input("gone"));
    assert!(!tree.get(root).unwrap().is_valid_input(""));
    assert_eq!(node.examples(), vec![String::from("go")]);
    assert_eq!(tree.node_ids().len(), 2);
}

#[test]
fn built_nodes_hold_their_pending_children() {
    let mut tree = TreeGraph::new();
    let x = literal("x").build(&mut tree);
    let y = literal("y").build(&mut tree);
    let mut b = literal("top");
    b.inner().then(&tree, x);
    b.inner().then(&tree, y);
    b.inner().executes(CommandId(7));
    let top = b.build(&mut tree);
    let node = tree.get(top).unwrap();
    assert_eq!(node.children(), vec![x, y]);
    assert_eq!(node.command(), Some(CommandId(7)));
    assert!(tree.has_parent(x));
    assert!(!tree.has_parent(top));
    tree.set_command(top, None);
    assert_eq!(tree.get(top).unwrap().command(), None);
}

#[test]
fn merging_under_a_parent_below_the_child_can_remove_the_parent() {
    // c("a") -> x("b") -> y("a") -> z("b"); attaching c under x merges c into
    // y, then x (c's child) into z: x, the parent, leaves the tree.
    let mut tree = TreeGraph::new();
    let z = literal("b").build(&mut tree);
    let mut yb = literal("a");
    yb.inner().then(&tree, z);
    let y = yb.build(&mut tree);
    let mut xb = literal("b");
    xb.inner().then(&tree, y);
    let x = xb.build(&mut tree);
    let mut cb = literal("a");
    cb.inner().then(&tree, x);
    let c = cb.build(&mut tree);
    tree.add_child(x, c);
    assert!(!tree.contains_node(c));
    assert!(!tree.contains_node(x));
    assert!(tree.contains_node(y));
}

#[test]
fn narrow_argument_kinds_parse() {

    let t = ArgumentKind::UnsignedByte(NumericArgumentType::<u8>::new(NumericArgumentBounds::Full));
    let mut reader = brigadier::string_reader::StringReader::new("200");
    assert_eq!(t.parse(&mut reader), Ok(ParsedValue::UnsignedByte(200)));
    let t = ArgumentKind::Short(NumericArgumentType::<i16>::new(NumericArgumentBounds::Full));
    let mut reader = brigadier::string_reader::StringReader::new("40000");
    assert!(t.parse(&mut reader).is_err());
    assert_eq!(reader.cursor(), 0);
}
