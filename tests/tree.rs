use node_tree::{AttachTarget, InvalidState, Iter, Node, Parents, Tree};

use std::cell::Cell;
use std::rc::Rc;

fn abc() -> (Tree<&'static str>, usize, usize, usize, usize) {
    let mut t = Tree::new();
    let r = t.new_node("root");
    let a = t.new_node("a");
    let b = t.new_node("b");
    let c = t.new_node("c");
    t.add_child_last(r, a).unwrap();
    t.add_child_last(r, b).unwrap();
    t.add_child_last(r, c).unwrap();
    (t, r, a, b, c)
}

#[test]
fn three_children_then_detach_middle() {
    let (mut t, r, a, b, c) = abc();
    assert_eq!(t.children(r), vec![a, b, c]);
    t.detach(b);
    assert_eq!(t.children(r), vec![a, c]);
    assert_eq!(t.node(a).next_sibling(), Some(c));
    assert_eq!(t.node(c).prev_sibling(), Some(a));
    assert!(t.node(b).is_root());
}

#[test]
fn add_child_last_links_both_ways() {
    let (mut t, r, _a, _b, c) = abc();
    let d = t.new_node("d");
    assert_eq!(t.add_child_last(r, d), Ok(()));
    let kids = t.children(r);
    assert_eq!(kids.iter().filter(|&&k| k == d).count(), 1);
    assert_eq!(t.node(d).parent(), Some(r));
    assert_eq!(t.node(r).last_child(), Some(d));
    assert_eq!(t.node(c).next_sibling(), Some(d));
    assert_eq!(t.node(d).prev_sibling(), Some(c));
}

#[test]
fn detach_makes_root_and_leaves_children() {
    let (mut t, r, a, _b, _c) = abc();
    t.detach(a);
    assert!(t.node(a).is_root());
    assert!(!t.children(r).contains(&a));
    assert_eq!(t.node(a).prev_sibling(), None);
    assert_eq!(t.node(a).next_sibling(), None);
    assert_eq!(t.node(r).first_child(), Some(t.children(r)[0]));
}

#[test]
fn sibling_chain_is_consistent() {
    let mut t = Tree::new();
    let p = t.new_node(0u32);
    let mut ids = Vec::new();
    for i in 1..=5u32 {
        let n = t.new_node(i);
        t.add_child_last(p, n).unwrap();
        ids.push(n);
    }
    let kids = t.children(p);
    assert_eq!(kids, ids);
    for w in kids.windows(2) {
        assert_eq!(t.node(w[0]).next_sibling(), Some(w[1]));
        assert_eq!(t.node(w[1]).prev_sibling(), Some(w[0]));
    }
    assert_eq!(t.node(kids[0]).prev_sibling(), None);
    assert_eq!(t.node(kids[4]).next_sibling(), None);
    assert_eq!(t.node(p).first_child(), Some(kids[0]));
    assert_eq!(t.node(p).last_child(), Some(kids[4]));
}

struct Counted(Rc<Cell<usize>>);

impl Drop for Counted {
    fn drop(&mut self) {
        self.0.set(self.0.get() + 1);
    }
}

fn grow(t: &mut Tree<Counted>, p: usize, depth: u32, fan: u32, drops: &Rc<Cell<usize>>) {
    if depth == 0 {
        return;
    }
    for _ in 0..fan {
        let n = t.new_node(Counted(drops.clone()));
        t.add_child_last(p, n).unwrap();
        grow(t, n, depth - 1, fan, drops);
    }
}

#[test]
fn releasing_root_frees_whole_subtree_once() {
    let drops = Rc::new(Cell::new(0));
    let mut t = Tree::new();
    let root = t.new_node(Counted(drops.clone()));
    grow(&mut t, root, 3, 3, &drops);
    let freed = t.release(root);
    assert_eq!(freed.len(), 1 + 3 + 9 + 27);
    let mut ids: Vec<usize> = freed.iter().map(|e| e.0).collect();
    ids.sort();
    ids.dedup();
    assert_eq!(ids.len(), 40);
    for i in 0..40 {
        assert!(!t.contains(i));
    }
    assert_eq!(drops.get(), 0);
    drop(freed);
    assert_eq!(drops.get(), 40);
}

#[test]
fn release_keeps_nodes_detached_before() {
    let (mut t, r, a, b, c) = abc();
    let d = t.new_node("d");
    t.add_child_last(b, d).unwrap();
    t.detach(b);
    let freed = t.release(r);
    let mut ids: Vec<usize> = freed.iter().map(|e| e.0).collect();
    ids.sort();
    assert_eq!(ids, {
        let mut v = vec![r, a, c];
        v.sort();
        v
    });
    assert!(t.contains(b));
    assert!(t.contains(d));
    assert_eq!(t.children(b), vec![d]);
    assert_eq!(*t.node(d).value(), "d");
}

#[test]
fn reattach_after_detach() {
    let (mut t, r, a, b, _c) = abc();
    t.detach(b);
    assert!(t.node(b).is_root());
    assert_eq!(t.add_child_last(a, b), Ok(()));
    assert_eq!(t.node(b).parent(), Some(a));
    assert_eq!(t.children(a), vec![b]);
    assert!(!t.children(r).contains(&b));
}

#[test]
fn detach_twice_is_harmless() {
    let (mut t, r, a, b, c) = abc();
    t.detach(b);
    t.detach(b);
    assert!(t.node(b).is_root());
    assert_eq!(t.children(r), vec![a, c]);
    assert_eq!(t.node(a).next_sibling(), Some(c));
}

#[test]
fn attach_targets_place_nodes() {
    let (mut t, r, a, b, c) = abc();
    let f = t.new_node("first");
    let bb = t.new_node("before b");
    let ab = t.new_node("after b");
    let l = t.new_node("last");
    t.attach(r, AttachTarget::FirstChild, f).unwrap();
    t.attach(b, AttachTarget::Before, bb).unwrap();
    t.attach(b, AttachTarget::After, ab).unwrap();
    t.attach(r, AttachTarget::LastChild, l).unwrap();
    assert_eq!(t.children(r), vec![f, a, bb, b, ab, c, l]);
    assert_eq!(t.node(bb).prev_sibling(), Some(a));
    assert_eq!(t.node(ab).next_sibling(), Some(c));
    assert_eq!(t.node(ab).parent(), Some(r));
}

#[test]
fn attach_refuses_attached_node() {
    let (mut t, _r, a, b, _c) = abc();
    assert_eq!(t.attach(a, AttachTarget::LastChild, b), Err(InvalidState::AlreadyAttached));
    assert!(t.children(a).is_empty());
}

#[test]
fn attach_refuses_sibling_of_root() {
    let (mut t, r, a, b, c) = abc();
    let n = t.new_node("n");
    assert_eq!(t.attach(r, AttachTarget::Before, n), Err(InvalidState::NoSiblingPosition));
    assert_eq!(t.attach(r, AttachTarget::After, n), Err(InvalidState::NoSiblingPosition));
    assert!(t.node(n).is_root());
    assert_eq!(t.children(r), vec![a, b, c]);
}

#[test]
fn attach_refuses_cycles() {
    let (mut t, r, a, _b, _c) = abc();
    assert_eq!(t.add_child_last(r, r), Err(InvalidState::WouldCycle));
    assert_eq!(t.add_child_last(a, r), Err(InvalidState::WouldCycle));
    assert!(t.node(r).is_root());
    assert!(t.children(a).is_empty());
}

#[test]
fn remove_last_child_detaches_it() {
    let (mut t, r, a, b, c) = abc();
    assert_eq!(t.remove_last_child(r), Some(c));
    assert!(t.node(c).is_root());
    assert_eq!(t.children(r), vec![a, b]);
    assert_eq!(t.node(r).last_child(), Some(b));
    assert_eq!(t.node(b).next_sibling(), None);
    assert_eq!(t.remove_last_child(c), None);
}

#[test]
fn parents_walks_up_to_root() {
    let (mut t, r, a, _b, _c) = abc();
    let d = t.new_node("d");
    t.add_child_last(a, d).unwrap();
    assert_eq!(t.parents(d), vec![a, r]);
    assert_eq!(t.parents(r), Vec::<usize>::new());
    assert!(t.children(d).is_empty());
}

#[test]
fn cursors_step_through_links() {
    let (mut t, r, a, b, c) = abc();
    let d = t.new_node("d");
    t.add_child_last(c, d).unwrap();
    let mut it = Iter::new(t.node(r).first_child());
    assert_eq!(it.next(&t), Some(a));
    assert_eq!(it.next(&t), Some(b));
    assert_eq!(it.next(&t), Some(c));
    assert_eq!(it.next(&t), None);
    let mut up = Parents::new(t.node(d).parent());
    assert_eq!(up.next(&t), Some(c));
    assert_eq!(up.next(&t), Some(r));
    assert_eq!(up.next(&t), None);
}

#[test]
fn values_are_read_and_replaced() {
    let (mut t, r, a, _b, _c) = abc();
    assert_eq!(*t.node(a).value(), "a");
    t.set_value(a, "A");
    assert_eq!(*t.node(a).value(), "A");
    assert_eq!(t.node(a).parent(), Some(r));
    let n = Node::new(5u8);
    assert!(n.is_root());
    assert_eq!(n.first_child(), None);
    assert_eq!(*n.value(), 5);
}

#[test]
fn release_hands_back_each_payload_with_its_index() {
    let (mut t, r, a, b, c) = abc();
    let d = t.new_node("d");
    t.add_child_last(a, d).unwrap();
    let mut freed = t.release(r);
    freed.sort();
    let mut want = vec![(r, "root"), (a, "a"), (b, "b"), (c, "c"), (d, "d")];
    want.sort();
    assert_eq!(freed, want);
    assert!(!t.contains(r));
    let e = t.new_node("e");
    assert!(t.contains(e));
    assert!(e > d);
}

#[test]
fn lone_root_release_frees_only_itself() {
    let mut t = Tree::new();
    let x = t.new_node(7i32);
    let y = t.new_node(8i32);
    assert_eq!(t.release(x), vec![(x, 7)]);
    assert!(t.contains(y));
    assert!(t.node(y).is_root());
}
