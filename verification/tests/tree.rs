use incparse::grammar::GrammarError;
use incparse::tree::hash_content;
use incparse::tree::RedNode;
use incparse::tree::Tag;
use incparse::tree::TreeAlloc;

#[test]
fn identical_content_gets_the_identical_id() {
    let mut arena = TreeAlloc::new();
    let leaf = arena.allocate(Tag::Rule(1), vec![], 3);
    let first = arena.allocate(Tag::Rule(2), vec![leaf, leaf], 6);
    let second = arena.allocate(Tag::Rule(2), vec![leaf, leaf], 6);
    assert_eq!(first, second);
    assert_eq!(arena.len(), 2);
    assert_eq!(arena.get_node(first).children, vec![leaf, leaf]);
    assert_eq!(arena.get_node(first).width, 6);
    assert_eq!(arena.get_node(first).tag, Tag::Rule(2));
}

#[test]
fn children_in_another_order_or_number_get_distinct_ids() {
    let mut arena = TreeAlloc::new();
    let a = arena.allocate(Tag::Rule(1), vec![], 1);
    let b = arena.allocate(Tag::Rule(1), vec![], 2);
    let ab = arena.allocate(Tag::Rule(3), vec![a, b], 3);
    let ba = arena.allocate(Tag::Rule(3), vec![b, a], 3);
    let aba = arena.allocate(Tag::Rule(3), vec![a, b, a], 3);
    assert_ne!(ab, ba);
    assert_ne!(ab, aba);
    assert_ne!(ba, aba);
    assert_eq!(arena.len(), 5);
}

#[test]
fn tags_and_widths_tell_nodes_apart() {
    let mut arena = TreeAlloc::new();
    let a = arena.allocate(Tag::Rule(1), vec![], 1);
    let b = arena.allocate(Tag::Rule(2), vec![], 1);
    let c = arena.allocate(Tag::Rule(1), vec![], 2);
    let d = arena.allocate(Tag::Error(GrammarError::RuleMismatch { expected: 1 }), vec![], 1);
    let e = arena.allocate(
        Tag::Error(GrammarError::TokenMismatch { expected: String::from("x") }),
        vec![],
        1,
    );
    let f = arena.allocate(
        Tag::Error(GrammarError::TokenMismatch { expected: String::from("y") }),
        vec![],
        1,
    );
    let again = arena.allocate(
        Tag::Error(GrammarError::TokenMismatch { expected: String::from("x") }),
        vec![],
        1,
    );
    let ids = [a, b, c, d, e, f];
    for i in 0..ids.len() {
        for j in 0..i {
            assert_ne!(ids[i], ids[j]);
        }
    }
    assert_eq!(again, e);
}

#[test]
fn a_forced_collision_still_gives_distinct_ids() {
    let mut arena = TreeAlloc::new();
    let a = arena.allocate_with_hash(7, Tag::Rule(1), vec![], 1);
    let b = arena.allocate_with_hash(7, Tag::Rule(2), vec![], 1);
    let c = arena.allocate_with_hash(7, Tag::Rule(1), vec![0], 1);
    assert_ne!(a, b);
    assert_ne!(a, c);
    assert_ne!(b, c);
    assert_eq!(arena.allocate_with_hash(7, Tag::Rule(2), vec![], 1), b);
    assert_eq!(arena.allocate_with_hash(7, Tag::Rule(1), vec![], 1), a);
    assert_eq!(arena.allocate_with_hash(7, Tag::Rule(1), vec![0], 1), c);
    assert_eq!(arena.len(), 3);
}

#[test]
fn the_hash_is_a_function_of_the_content() {
    let one = hash_content(&Tag::Rule(1), &vec![1, 2], 3);
    let same = hash_content(&Tag::Rule(1), &vec![1, 2], 3);
    let other = hash_content(&Tag::Rule(1), &vec![2, 1], 3);
    assert_eq!(one, same);
    assert_ne!(one, other);
}

#[test]
fn placeholders_are_nodes_without_children() {
    let mut arena = TreeAlloc::new();
    let p = arena.new_placeholder(0);
    let q = arena.new_placeholder(4);
    assert_ne!(p, q);
    assert_eq!(arena.new_placeholder(0), p);
    assert_eq!(arena.get_node(p).tag, Tag::Error(GrammarError::Placeholder));
    assert!(arena.get_node(p).children.is_empty());
    assert_eq!(arena.get_node(q).width, 4);
}

#[test]
fn the_third_child_begins_behind_the_first_two() {
    let mut arena = TreeAlloc::new();
    let a = arena.allocate(Tag::Rule(1), vec![], 3);
    let b = arena.allocate(Tag::Rule(2), vec![], 5);
    let c = arena.allocate(Tag::Rule(3), vec![], 2);
    let top = arena.allocate(Tag::Rule(0), vec![a, b, c], 10);
    let root = RedNode::root(top);
    assert_eq!(root.offset, 0);
    assert!(root.parent.is_none());
    let third = RedNode::root(top).child(&arena, 2).unwrap();
    assert_eq!(third.offset, 3 + 5);
    assert_eq!(third.green, c);
    assert_eq!(third.parent.as_ref().unwrap().green, top);
    let second = RedNode::root(top).child(&arena, 1).unwrap();
    assert_eq!(second.offset, 3);
    let first = RedNode::root(top).child(&arena, 0).unwrap();
    assert_eq!(first.offset, 0);
    assert!(RedNode::root(top).child(&arena, 3).is_none());
    assert!(RedNode::root(99).child(&arena, 0).is_none());
}

#[test]
fn offsets_add_up_along_a_path() {
    let mut arena = TreeAlloc::new();
    let leaf = arena.allocate(Tag::Rule(1), vec![], 2);
    let inner = arena.allocate(Tag::Rule(2), vec![leaf, leaf], 4);
    let top = arena.allocate(Tag::Rule(3), vec![leaf, inner], 6);
    let node = RedNode::root(top).child(&arena, 1).unwrap().child(&arena, 1).unwrap();
    assert_eq!(node.offset, 2 + 2);
    assert_eq!(node.green, leaf);
    assert_eq!(node.parent.as_ref().unwrap().offset, 2);
}
