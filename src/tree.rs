use vstd::prelude::*;
use vstd::set_lib::{lemma_int_range, lemma_len_subset, set_int_range};

use crate::node::{AttachTarget, InvalidState};

verus! {

/// One node of a `Tree`: its links, each the index of another node of the same
/// tree, and its payload.
pub struct Node<T> {
    parent: Option<usize>,
    first_child: Option<usize>,
    last_child: Option<usize>,
    prev_sibling: Option<usize>,
    next_sibling: Option<usize>,
    value: T,
}

impl<T> Node<T> {
    pub closed spec fn spec_parent(&self) -> Option<usize> {
        self.parent
    }

    pub closed spec fn spec_first_child(&self) -> Option<usize> {
        self.first_child
    }

    pub closed spec fn spec_last_child(&self) -> Option<usize> {
        self.last_child
    }

    pub closed spec fn spec_prev_sibling(&self) -> Option<usize> {
        self.prev_sibling
    }

    pub closed spec fn spec_next_sibling(&self) -> Option<usize> {
        self.next_sibling
    }

    pub closed spec fn spec_value(&self) -> T {
        self.value
    }

    /// A detached node: no parent, no children, no siblings.
    pub fn new(value: T) -> (r: Node<T>)
        ensures
            r.spec_parent() is None,
            r.spec_first_child() is None,
            r.spec_last_child() is None,
            r.spec_prev_sibling() is None,
            r.spec_next_sibling() is None,
            r.spec_value() == value,
    {
        Node {
            parent: None,
            first_child: None,
            last_child: None,
            prev_sibling: None,
            next_sibling: None,
            value,
        }
    }

    pub fn parent(&self) -> (r: Option<usize>)
        ensures
            r == self.spec_parent(),
    {
        self.parent
    }

    pub fn first_child(&self) -> (r: Option<usize>)
        ensures
            r == self.spec_first_child(),
    {
        self.first_child
    }

    pub fn last_child(&self) -> (r: Option<usize>)
        ensures
            r == self.spec_last_child(),
    {
        self.last_child
    }

    pub fn prev_sibling(&self) -> (r: Option<usize>)
        ensures
            r == self.spec_prev_sibling(),
    {
        self.prev_sibling
    }

    pub fn next_sibling(&self) -> (r: Option<usize>)
        ensures
            r == self.spec_next_sibling(),
    {
        self.next_sibling
    }

    /// A node is a root exactly when it has no parent.
    pub fn is_root(&self) -> (r: bool)
        ensures
            r == (self.spec_parent() is None),
    {
        self.parent.is_none()
    }

    pub fn value(&self) -> (r: &T)
        ensures
            *r == self.spec_value(),
    {
        &self.value
    }
}

/// A cursor over the children of a node, from first to last.
pub struct Iter {
    node: Option<usize>,
}

impl Iter {
    pub closed spec fn spec_node(&self) -> Option<usize> {
        self.node
    }

    /// A cursor that starts at `start`, usually the first child of a node.
    pub fn new(start: Option<usize>) -> (r: Iter)
        ensures
            r.spec_node() == start,
    {
        Iter { node: start }
    }

    /// Hands out the current child and moves to its next sibling.
    pub fn next<T>(&mut self, tree: &Tree<T>) -> (r: Option<usize>)
        requires
            tree.wf(),
            old(self).spec_node() matches Some(c) ==> tree.live(c),
        ensures
            r == old(self).spec_node(),
            final(self).spec_node() == (match r {
                Some(c) => tree.node_at(c).spec_next_sibling(),
                None => None,
            }),
    {
        match self.node {
            Some(c) => {
                self.node = tree.node(c).next_sibling;
                Some(c)
            },
            None => None,
        }
    }
}

/// A cursor over the strict ancestors of a node, from its parent up to the root.
pub struct Parents {
    node: Option<usize>,
}

impl Parents {
    pub closed spec fn spec_node(&self) -> Option<usize> {
        self.node
    }

    /// A cursor that starts at `start`, usually the parent of a node.
    pub fn new(start: Option<usize>) -> (r: Parents)
        ensures
            r.spec_node() == start,
    {
        Parents { node: start }
    }

    /// Hands out the current ancestor and moves to its parent.
    pub fn next<T>(&mut self, tree: &Tree<T>) -> (r: Option<usize>)
        requires
            tree.wf(),
            old(self).spec_node() matches Some(c) ==> tree.live(c),
        ensures
            r == old(self).spec_node(),
            final(self).spec_node() == (match r {
                Some(c) => tree.parent_of(c),
                None => None,
            }),
    {
        match self.node {
            Some(c) => {
                self.node = tree.node(c).parent;
                Some(c)
            },
            None => None,
        }
    }
}

/// An arena of nodes linked into trees.
///
/// A node is named by its index, which stays valid until the node is freed and
/// is never given to another node. The ghost state records, for each node, the
/// sequence of its children and a rank that grows from child to parent, which
/// rules out cycles.
pub struct Tree<T> {
    nodes: Vec<Option<Node<T>>>,
    kids: Ghost<Map<usize, Seq<usize>>>,
    rank: Ghost<Map<usize, nat>>,
    bound: Ghost<nat>,
}

impl<T> Tree<T> {
    /// The node at `x` has not been freed.
    pub closed spec fn live(&self, x: usize) -> bool {
        x < self.nodes@.len() && self.nodes@[x as int] is Some
    }

    pub closed spec fn node_at(&self, x: usize) -> Node<T> {
        self.nodes@[x as int]->Some_0
    }

    pub open spec fn parent_of(&self, x: usize) -> Option<usize> {
        self.node_at(x).spec_parent()
    }

    pub open spec fn value_of(&self, x: usize) -> T {
        self.node_at(x).spec_value()
    }

    /// The children of `x`, from first to last.
    pub closed spec fn children_of(&self, x: usize) -> Seq<usize> {
        self.kids@[x]
    }

    /// `s` lists the strict ancestors of `x`, from its parent up to a root:
    /// each entry is the parent of the one before it (of `x` for the first),
    /// and the last one (or `x` itself, when `s` is empty) has no parent.
    pub open spec fn is_ancestry(&self, x: usize, s: Seq<usize>) -> bool {
        &&& if s.len() == 0 {
            self.parent_of(x) is None
        } else {
            self.parent_of(x) == Some(s[0]) && self.parent_of(s.last()) is None
        }
        &&& forall|i: int| 0 <= i < s.len() - 1 ==> #[trigger] self.parent_of(s[i]) == Some(s[i + 1])
    }

    /// `a` is `x` itself or one of its ancestors.
    pub open spec fn is_at_or_above(&self, a: usize, x: usize) -> bool {
        a == x || exists|s: Seq<usize>| self.is_ancestry(x, s) && s.contains(a)
    }

    /// The node under which `attach` puts a new node: `at` itself for the child
    /// targets, the parent of `at` for the sibling targets.
    pub open spec fn attach_parent(&self, at: usize, target: AttachTarget) -> Option<usize> {
        match target {
            AttachTarget::FirstChild | AttachTarget::LastChild => Some(at),
            AttachTarget::Before | AttachTarget::After => self.parent_of(at),
        }
    }

    /// The position among the children of `attach_parent(at, target)` that the
    /// new node takes.
    pub open spec fn attach_index(&self, at: usize, target: AttachTarget) -> int {
        match target {
            AttachTarget::FirstChild => 0,
            AttachTarget::LastChild => self.children_of(at).len() as int,
            AttachTarget::Before => self.children_of(self.parent_of(at)->Some_0).index_of(at),
            AttachTarget::After => self.children_of(self.parent_of(at)->Some_0).index_of(at) + 1,
        }
    }

    /// The two trees hold the same nodes with the same payloads.
    pub open spec fn same_nodes(&self, other: &Tree<T>) -> bool {
        &&& forall|x: usize| #[trigger] self.live(x) == other.live(x)
        &&& forall|x: usize| self.live(x) ==> #[trigger] self.value_of(x) == other.value_of(x)
    }

    /// Between the two trees only the parent of `n` and the children of `p`
    /// differ.
    pub open spec fn same_links_except(&self, other: &Tree<T>, n: usize, p: usize) -> bool {
        &&& forall|x: usize| self.live(x) && x != n ==> #[trigger] self.parent_of(x) == other.parent_of(x)
        &&& forall|x: usize| self.live(x) && x != p ==> #[trigger] self.children_of(x) == other.children_of(x)
    }

    /// `after` is `before` with the root `n` added as the last child of `p`.
    pub open spec fn added_last(before: &Tree<T>, after: &Tree<T>, p: usize, n: usize) -> bool {
        &&& after.same_nodes(before)
        &&& after.same_links_except(before, n, p)
        &&& after.parent_of(n) == Some(p)
        &&& after.children_of(p) == before.children_of(p).push(n)
    }

    /// `after` is `before` with `n` taken out of the children of its parent, if
    /// it had one; otherwise the two are the same.
    pub open spec fn detached(before: &Tree<T>, after: &Tree<T>, n: usize) -> bool {
        &&& after.parent_of(n) is None
        &&& match before.parent_of(n) {
            None => *after == *before,
            Some(p) => {
                &&& after.same_nodes(before)
                &&& after.same_links_except(before, n, p)
                &&& after.children_of(p) == before.children_of(p).remove(
                    before.children_of(p).index_of(n),
                )
            },
        }
    }

    /// The indices of the nodes that `release` handed back.
    pub open spec fn ids_of(r: Seq<(usize, T)>) -> Seq<usize> {
        r.map_values(|e: (usize, T)| e.0)
    }

    /// `after` is `before` with the root `root` and the nodes below it freed,
    /// each exactly once, and handed back in `r` with their payloads.
    pub open spec fn released(before: &Tree<T>, after: &Tree<T>, root: usize, r: Seq<(usize, T)>) -> bool {
        let ids = Self::ids_of(r);
        &&& ids.no_duplicates()
        &&& ids.contains(root)
        &&& forall|i: int|
            0 <= i < r.len() ==> before.live(#[trigger] ids[i]) && r[i].1 == before.value_of(ids[i])
        &&& forall|i: int, j: int|
            0 <= i < ids.len() && 0 <= j < before.children_of(ids[i]).len() ==> ids.contains(
                #[trigger] before.children_of(ids[i])[j],
            )
        &&& forall|i: int|
            0 <= i < ids.len() && #[trigger] ids[i] != root ==> (before.parent_of(ids[i]) is Some
                && ids.contains(before.parent_of(ids[i])->Some_0))
        &&& forall|x: usize| #[trigger] after.live(x) == (before.live(x) && !ids.contains(x))
        &&& forall|x: usize|
            #[trigger] after.live(x) ==> after.parent_of(x) == before.parent_of(x)
                && after.children_of(x) == before.children_of(x) && after.value_of(x)
                == before.value_of(x)
    }

    /// The links of the `i`-th child of `p` agree with its place in the sequence.
    closed spec fn kid_ok(&self, p: usize, i: int) -> bool {
        let ks = self.kids@[p];
        let c = ks[i];
        &&& self.live(c)
        &&& self.parent_of(c) == Some(p)
        &&& self.node_at(c).prev_sibling == (if i == 0 {
            None::<usize>
        } else {
            Some(ks[i - 1])
        })
        &&& self.node_at(c).next_sibling == (if i + 1 == ks.len() {
            None::<usize>
        } else {
            Some(ks[i + 1])
        })
    }

    /// The links of a live node `x` agree with the ghost state.
    closed spec fn node_ok(&self, x: usize) -> bool {
        let ks = self.kids@[x];
        let n = self.node_at(x);
        &&& self.kids@.contains_key(x)
        &&& self.rank@.contains_key(x)
        &&& self.rank@[x] <= self.bound@
        &&& ks.no_duplicates()
        &&& forall|i: int| 0 <= i < ks.len() ==> #[trigger] self.kid_ok(x, i)
        &&& n.first_child == (if ks.len() == 0 {
            None::<usize>
        } else {
            Some(ks[0])
        })
        &&& n.last_child == (if ks.len() == 0 {
            None::<usize>
        } else {
            Some(ks[ks.len() - 1])
        })
        &&& match n.parent {
            Some(p) => {
                &&& self.live(p)
                &&& self.kids@[p].contains(x)
                &&& self.rank@.contains_key(p)
                &&& self.rank@[p] > self.rank@[x]
            },
            None => n.prev_sibling is None && n.next_sibling is None,
        }
    }

    /// The tree is well formed: every live node's links agree with the ghost
    /// children sequences, and every parent outranks its children.
    pub closed spec fn wf(&self) -> bool {
        forall|x: usize| self.live(x) ==> #[trigger] self.node_ok(x)
    }

    /// An empty arena.
    pub fn new() -> (r: Tree<T>)
        ensures
            r.wf(),
            forall|x: usize| !r.live(x),
    {
        Tree { nodes: Vec::new(), kids: Ghost(Map::empty()), rank: Ghost(Map::empty()), bound: Ghost(0) }
    }

    /// Whether `x` names a node that has not been freed.
    pub fn contains(&self, x: usize) -> (r: bool)
        ensures
            r == self.live(x),
    {
        x < self.nodes.len() && self.nodes[x].is_some()
    }

    /// Creates a detached root holding `value` and returns its index.
    pub fn new_node(&mut self, value: T) -> (r: usize)
        requires
            old(self).wf(),
        ensures
            final(self).wf(),
            !old(self).live(r),
            final(self).live(r),
            final(self).parent_of(r) is None,
            final(self).children_of(r) == Seq::<usize>::empty(),
            final(self).value_of(r) == value,
            forall|x: usize| x != r ==> final(self).live(x) == old(self).live(x),
            forall|x: usize|
                #![trigger final(self).node_at(x)]
                old(self).live(x) ==> final(self).node_at(x) == old(self).node_at(x)
                    && final(self).children_of(x) == old(self).children_of(x),
    {
        let r = self.nodes.len();
        self.nodes.push(Some(Node::new(value)));
        proof {
            self.kids@ = self.kids@.insert(r, Seq::empty());
            self.rank@ = self.rank@.insert(r, 0);
            assert forall|x: usize| self.live(x) implies #[trigger] self.node_ok(x) by {
                if x != r {
                    assert(old(self).node_ok(x));
                    assert forall|i: int| 0 <= i < self.kids@[x].len() implies #[trigger] self.kid_ok(x, i) by {
                        assert(old(self).kid_ok(x, i));
                    }
                }
            }
        }
        r
    }

    /// Mutable access to the record of live node `x`; the ghost state is kept.
    fn node_mut(&mut self, x: usize) -> (r: &mut Node<T>)
        requires
            old(self).live(x),
        ensures
            *r == old(self).node_at(x),
            final(self).nodes@ == old(self).nodes@.update(x as int, Some(*final(r))),
            final(self).kids == old(self).kids,
            final(self).rank == old(self).rank,
            final(self).bound == old(self).bound,
    {
        self.nodes[x].as_mut().unwrap()
    }

    /// Puts root `n` into the children of `p` at position `k`, between `prev`
    /// and `next`, its neighbours there.
    #[verifier::rlimit(40)]
    fn link(&mut self, p: usize, prev: Option<usize>, next: Option<usize>, n: usize, k: Ghost<int>)
        requires
            old(self).wf(),
            old(self).live(p),
            old(self).live(n),
            old(self).parent_of(n) is None,
            n != p,
            old(self).rank@[p] > old(self).rank@[n],
            0 <= k@ <= old(self).kids@[p].len(),
            prev == (if k@ == 0 {
                None::<usize>
            } else {
                Some(old(self).kids@[p][k@ - 1])
            }),
            next == (if k@ == old(self).kids@[p].len() {
                None::<usize>
            } else {
                Some(old(self).kids@[p][k@])
            }),
        ensures
            final(self).wf(),
            final(self).kids@ == old(self).kids@.insert(p, old(self).kids@[p].insert(k@, n)),
            final(self).rank == old(self).rank,
            final(self).bound == old(self).bound,
            final(self).nodes@.len() == old(self).nodes@.len(),
            forall|x: usize| #[trigger] final(self).live(x) == old(self).live(x),
            forall|x: usize|
                #![trigger final(self).node_at(x)]
                old(self).live(x) ==> final(self).value_of(x) == old(self).value_of(x)
                    && (x != n ==> final(self).parent_of(x) == old(self).parent_of(x)),
            final(self).parent_of(n) == Some(p),
    {
        let ghost ks = self.kids@[p];
        proof {
            assert(old(self).node_ok(p));
            assert(old(self).node_ok(n));
            if k@ > 0 {
                assert(old(self).kid_ok(p, k@ - 1));
            }
            if k@ < ks.len() {
                assert(old(self).kid_ok(p, k@));
            }
            assert forall|j: int| 0 <= j < ks.len() implies ks[j] != n by {
                assert(old(self).kid_ok(p, j));
            }
        }
        match prev {
            Some(q) => {
                self.node_mut(q).next_sibling = Some(n);
            },
            None => {
                self.node_mut(p).first_child = Some(n);
            },
        }
        match next {
            Some(q) => {
                self.node_mut(q).prev_sibling = Some(n);
            },
            None => {
                self.node_mut(p).last_child = Some(n);
            },
        }
        let m = self.node_mut(n);
        m.parent = Some(p);
        m.prev_sibling = prev;
        m.next_sibling = next;
        proof {
            let ks2 = ks.insert(k@, n);
            ks.insert_ensures(k@, n);
            self.kids@ = self.kids@.insert(p, ks2);
            assert forall|x: usize| self.live(x) implies #[trigger] self.node_ok(x) by {
                assert(old(self).node_ok(x));
                if x == p {
                    assert forall|i: int| 0 <= i < ks2.len() implies #[trigger] self.kid_ok(p, i) by {
                        if i < k@ {
                            assert(old(self).kid_ok(p, i));
                        } else if i > k@ {
                            assert(old(self).kid_ok(p, i - 1));
                        }
                    }
                    assert(ks2.no_duplicates());
                } else {
                    assert forall|i: int| 0 <= i < self.kids@[x].len() implies #[trigger] self.kid_ok(x, i) by {
                        assert(old(self).kid_ok(x, i));
                    }
                }
                if x != n {
                    match old(self).parent_of(x) {
                        Some(q) => {
                            if q == p {
                                let j = choose|j: int| 0 <= j < ks.len() && ks[j] == x;
                                if j < k@ {
                                    assert(ks2[j] == x);
                                } else {
                                    assert(ks2[j + 1] == x);
                                }
                            }
                        },
                        None => {},
                    }
                }
            }
        }
    }

    /// Takes `n` out of the children of its parent `p`, joining its neighbours.
    #[verifier::rlimit(40)]
    fn unlink(&mut self, n: usize, p: usize)
        requires
            old(self).wf(),
            old(self).live(n),
            old(self).parent_of(n) == Some(p),
        ensures
            final(self).wf(),
            final(self).kids@ == old(self).kids@.insert(
                p,
                old(self).kids@[p].remove(old(self).kids@[p].index_of(n)),
            ),
            final(self).rank == old(self).rank,
            final(self).bound == old(self).bound,
            final(self).nodes@.len() == old(self).nodes@.len(),
            forall|x: usize| #[trigger] final(self).live(x) == old(self).live(x),
            forall|x: usize|
                #![trigger final(self).node_at(x)]
                old(self).live(x) ==> final(self).value_of(x) == old(self).value_of(x)
                    && (x != n ==> final(self).parent_of(x) == old(self).parent_of(x)),
            final(self).parent_of(n) is None,
    {
        let ghost ks = self.kids@[p];
        let ghost k = ks.index_of(n);
        proof {
            assert(old(self).node_ok(n));
            assert(old(self).node_ok(p));
            assert(old(self).kid_ok(p, k));
            if k > 0 {
                assert(old(self).kid_ok(p, k - 1));
            }
            if k + 1 < ks.len() {
                assert(old(self).kid_ok(p, k + 1));
            }
        }
        let prev = self.node(n).prev_sibling;
        let next = self.node(n).next_sibling;
        let m = self.node_mut(n);
        m.parent = None;
        m.prev_sibling = None;
        m.next_sibling = None;
        match prev {
            Some(q) => {
                self.node_mut(q).next_sibling = next;
            },
            None => {
                self.node_mut(p).first_child = next;
            },
        }
        match next {
            Some(q) => {
                self.node_mut(q).prev_sibling = prev;
            },
            None => {
                self.node_mut(p).last_child = prev;
            },
        }
        proof {
            let ks2 = ks.remove(k);
            ks.remove_ensures(k);
            self.kids@ = self.kids@.insert(p, ks2);
            assert forall|x: usize| self.live(x) implies #[trigger] self.node_ok(x) by {
                assert(old(self).node_ok(x));
                if x == p {
                    assert forall|i: int| 0 <= i < ks2.len() implies #[trigger] self.kid_ok(p, i) by {
                        if i < k {
                            assert(old(self).kid_ok(p, i));
                        } else {
                            assert(old(self).kid_ok(p, i + 1));
                        }
                    }
                    assert forall|i: int, j: int| 0 <= i < ks2.len() && 0 <= j < ks2.len() && i != j
                        implies ks2[i] != ks2[j] by {
                        let oi = if i < k { i } else { i + 1 };
                        let oj = if j < k { j } else { j + 1 };
                        assert(ks[oi] == ks2[i] && ks[oj] == ks2[j]);
                    }
                } else {
                    assert forall|i: int| 0 <= i < self.kids@[x].len() implies #[trigger] self.kid_ok(x, i) by {
                        assert(old(self).kid_ok(x, i));
                    }
                }
                if x != n {
                    match old(self).parent_of(x) {
                        Some(q) => {
                            if q == p {
                                let j = choose|j: int| 0 <= j < ks.len() && ks[j] == x;
                                if j < k {
                                    assert(ks2[j] == x);
                                } else {
                                    assert(ks2[j - 1] == x);
                                }
                            }
                        },
                        None => {},
                    }
                }
            }
        }
    }

    /// The children of `x`, from first to last.
    pub fn children(&self, x: usize) -> (r: Vec<usize>)
        requires
            self.wf(),
            self.live(x),
        ensures
            r@ == self.children_of(x),
    {
        let ghost ks = self.kids@[x];
        proof {
            assert(self.node_ok(x));
            if ks.len() > 0 {
                assert(self.kid_ok(x, 0));
            }
        }
        let mut it = Iter::new(self.node(x).first_child);
        let mut v: Vec<usize> = Vec::new();
        loop
            invariant
                self.wf(),
                self.node_ok(x),
                ks == self.kids@[x],
                v@.len() <= ks.len(),
                v@ == ks.subrange(0, v@.len() as int),
                it.node == (if v@.len() < ks.len() {
                    Some(ks[v@.len() as int])
                } else {
                    None::<usize>
                }),
            decreases ks.len() - v@.len(),
        {
            let ghost i = v@.len() as int;
            proof {
                if i < ks.len() {
                    assert(self.kid_ok(x, i));
                }
            }
            match it.next(self) {
                Some(c) => {
                    v.push(c);
                    assert(v@ == ks.subrange(0, i + 1));
                },
                None => {
                    assert(v@ == ks);
                    return v;
                },
            }
        }
    }

    /// The strict ancestors of `x`, from its parent up to its root.
    pub fn parents(&self, x: usize) -> (r: Vec<usize>)
        requires
            self.wf(),
            self.live(x),
        ensures
            self.is_ancestry(x, r@),
            forall|i: int| 0 <= i < r@.len() ==> self.live(#[trigger] r@[i]),
    {
        proof {
            assert(self.node_ok(x));
        }
        let mut it = Parents::new(self.node(x).parent);
        let mut v: Vec<usize> = Vec::new();
        loop
            invariant
                self.wf(),
                self.live(x),
                forall|i: int| 0 <= i < v@.len() ==> self.live(#[trigger] v@[i]),
                v@.len() > 0 ==> self.parent_of(x) == Some(v@[0]),
                forall|i: int| 0 <= i < v@.len() - 1 ==> #[trigger] self.parent_of(v@[i]) == Some(v@[i + 1]),
                it.node == self.parent_of(if v@.len() == 0 {
                    x
                } else {
                    v@.last()
                }),
                it.node matches Some(a) ==> self.live(a),
            decreases (match it.node {
                Some(a) => self.bound@ + 1 - self.rank@[a],
                None => 0,
            }),
        {
            let ghost last = if v@.len() == 0 {
                x
            } else {
                v@.last()
            };
            proof {
                assert(self.node_ok(last));
                if let Some(a) = it.node {
                    assert(self.node_ok(a));
                    if let Some(b) = self.parent_of(a) {
                        assert(self.node_ok(b));
                    }
                }
            }
            match it.next(self) {
                Some(a) => {
                    let ghost old_v = v@;
                    v.push(a);
                    proof {
                        assert forall|i: int| 0 <= i < v@.len() - 1 implies #[trigger] self.parent_of(v@[i])
                            == Some(v@[i + 1]) by {
                            assert(v@[i] == old_v[i]);
                            if i + 1 < old_v.len() {
                                assert(v@[i + 1] == old_v[i + 1]);
                            }
                        }
                    }
                },
                None => {
                    return v;
                },
            }
        }
    }

    /// The chain from `p` up to its root, when that root is not `node`, is a
    /// chain of live nodes without `node`, and `node` is not above `p`.
    proof fn lemma_chain_above(&self, p: usize, node: usize, up: Seq<usize>)
        requires
            self.live(p),
            self.parent_of(node) is None,
            self.is_ancestry(p, up),
            forall|i: int| 0 <= i < up.len() ==> self.live(#[trigger] up[i]),
            (if up.len() == 0 { p } else { up.last() }) != node,
        ensures
            ({
                let c = seq![p] + up;
                &&& forall|i: int| 0 <= i < c.len() ==> c[i] != node && self.live(#[trigger] c[i])
                &&& forall|i: int| 0 <= i < c.len() - 1 ==> #[trigger] self.parent_of(c[i]) == Some(c[i + 1])
                &&& self.parent_of(c.last()) is None
            }),
            !self.is_at_or_above(node, p),
    {
        let c = seq![p] + up;
        assert forall|i: int| 0 <= i < c.len() - 1 implies #[trigger] self.parent_of(c[i]) == Some(c[i + 1]) by {
            assert(c[i + 1] == up[i]);
            if i > 0 {
                assert(c[i] == up[i - 1]);
                assert(self.parent_of(up[i - 1]) == Some(up[i]));
            }
        }
        assert forall|i: int| 0 <= i < c.len() implies c[i] != node && self.live(#[trigger] c[i]) by {
            if i > 0 {
                assert(c[i] == up[i - 1]);
            }
            if i < c.len() - 1 {
                assert(self.parent_of(c[i]) == Some(c[i + 1]));
            }
        }
        if up.len() > 0 {
            assert(c.last() == up.last());
        }
        if self.is_at_or_above(node, p) {
            if node != p {
                let s = choose|s: Seq<usize>| self.is_ancestry(p, s) && s.contains(node);
                self.lemma_ancestry_unique(p, s, up);
                let j = choose|j: int| 0 <= j < s.len() && s[j] == node;
                assert(c[j + 1] == node);
            }
        }
    }

    /// `rank` with each node of `c` lifted by `a`.
    spec fn raised(rank: Map<usize, nat>, c: Seq<usize>, a: nat) -> Map<usize, nat> {
        Map::new(
            |x: usize| rank.contains_key(x),
            |x: usize| if c.contains(x) { rank[x] + a } else { rank[x] },
        )
    }

    /// Lifting the ranks of a node and all its ancestors by the same amount
    /// keeps the tree well formed.
    proof fn lemma_raise(&self, c: Seq<usize>, a: nat)
        requires
            self.wf(),
            c.len() > 0,
            forall|i: int| 0 <= i < c.len() ==> self.live(#[trigger] c[i]),
            forall|i: int| 0 <= i < c.len() - 1 ==> self.parent_of(#[trigger] c[i]) == Some(c[i + 1]),
            self.parent_of(c.last()) is None,
        ensures
            (Tree {
                nodes: self.nodes,
                kids: self.kids,
                rank: Ghost(Self::raised(self.rank@, c, a)),
                bound: Ghost(self.bound@ + a),
            }).wf(),
    {
        let t = Tree {
            nodes: self.nodes,
            kids: self.kids,
            rank: Ghost(Self::raised(self.rank@, c, a)),
            bound: Ghost(self.bound@ + a),
        };
        assert forall|x: usize| t.live(x) implies #[trigger] t.node_ok(x) by {
            assert(self.node_ok(x));
            assert forall|i: int| 0 <= i < t.kids@[x].len() implies #[trigger] t.kid_ok(x, i) by {
                assert(self.kid_ok(x, i));
            }
            if let Some(q) = self.parent_of(x) {
                if c.contains(x) {
                    let i = choose|i: int| 0 <= i < c.len() && c[i] == x;
                    assert(i != c.len() - 1);
                    assert(c[i + 1] == q);
                    assert(c.contains(q));
                }
            }
        }
    }

    /// A node has one ancestry only.
    proof fn lemma_ancestry_unique(&self, x: usize, s1: Seq<usize>, s2: Seq<usize>)
        requires
            self.is_ancestry(x, s1),
            self.is_ancestry(x, s2),
        ensures
            s1 == s2,
    {
        let m = if s1.len() < s2.len() { s1.len() } else { s2.len() };
        assert forall|i: int| 0 <= i < m implies s1[i] == s2[i] by {
            self.lemma_ancestry_agree(x, s1, s2, i);
        }
        if s1.len() != s2.len() {
            if m > 0 {
                self.lemma_ancestry_agree(x, s1, s2, m - 1);
            }
            if m > 0 {
                assert(self.parent_of(s1[m - 1]) == self.parent_of(s2[m - 1]));
            }
        }
        assert(s1 =~= s2);
    }

    proof fn lemma_ancestry_agree(&self, x: usize, s1: Seq<usize>, s2: Seq<usize>, i: int)
        requires
            self.is_ancestry(x, s1),
            self.is_ancestry(x, s2),
            0 <= i < s1.len(),
            i < s2.len(),
        ensures
            s1[i] == s2[i],
        decreases i,
    {
        if i > 0 {
            self.lemma_ancestry_agree(x, s1, s2, i - 1);
        }
        if i > 0 {
            assert(self.parent_of(s1[i - 1]) == Some(s1[i]));
            assert(self.parent_of(s2[i - 1]) == Some(s2[i]));
        }
    }

    /// The parent and the two neighbours between which `attach` puts a new
    /// node, or `None` when a sibling position is asked of a root.
    fn place(&self, at: usize, target: AttachTarget) -> (r: Option<(usize, Option<usize>, Option<usize>)>)
        requires
            self.wf(),
            self.live(at),
        ensures
            r is None <==> self.attach_parent(at, target) is None,
            r matches Some((p, prev, next)) ==> ({
                let ks = self.children_of(p);
                let k = self.attach_index(at, target);
                &&& Some(p) == self.attach_parent(at, target)
                &&& self.live(p)
                &&& 0 <= k <= ks.len()
                &&& prev == (if k == 0 {
                    None::<usize>
                } else {
                    Some(ks[k - 1])
                })
                &&& next == (if k == ks.len() {
                    None::<usize>
                } else {
                    Some(ks[k])
                })
            }),
    {
        proof {
            assert(self.node_ok(at));
        }
        match target {
            AttachTarget::FirstChild => {
                proof {
                    if self.kids@[at].len() > 0 {
                        assert(self.kid_ok(at, 0));
                    }
                }
                Some((at, None, self.node(at).first_child))
            },
            AttachTarget::LastChild => Some((at, self.node(at).last_child, None)),
            AttachTarget::Before => match self.node(at).parent {
                None => None,
                Some(p) => {
                    proof {
                        assert(self.node_ok(p));
                        assert(self.kid_ok(p, self.kids@[p].index_of(at)));
                    }
                    Some((p, self.node(at).prev_sibling, Some(at)))
                },
            },
            AttachTarget::After => match self.node(at).parent {
                None => None,
                Some(p) => {
                    proof {
                        let k = self.kids@[p].index_of(at) + 1;
                        assert(self.node_ok(p));
                        assert(self.kid_ok(p, k - 1));
                        if k < self.kids@[p].len() {
                            assert(self.kid_ok(p, k));
                        }
                    }
                    Some((p, Some(at), self.node(at).next_sibling))
                },
            },
        }
    }

    /// Tells whether root `node` is `p` or an ancestor of `p`; when it is not,
    /// lifts the ghost ranks so that `p` outranks `node`.
    fn lift_above(&mut self, p: usize, node: usize) -> (r: bool)
        requires
            old(self).wf(),
            old(self).live(p),
            old(self).live(node),
            old(self).parent_of(node) is None,
        ensures
            final(self).wf(),
            r == old(self).is_at_or_above(node, p),
            final(self).nodes == old(self).nodes,
            final(self).kids == old(self).kids,
            r ==> *final(self) == *old(self),
            !r ==> final(self).rank@[p] > final(self).rank@[node],
    {
        let up = self.parents(p);
        let root = if up.len() == 0 {
            p
        } else {
            up[up.len() - 1]
        };
        if root == node {
            proof {
                if up@.len() > 0 {
                    assert(up@.contains(node));
                }
                assert(self.is_ancestry(p, up@));
            }
            return true;
        }
        proof {
            let c = seq![p] + up@;
            self.lemma_chain_above(p, node, up@);
            assert(self.node_ok(node));
            assert(self.node_ok(p));
            let a: nat = self.rank@[node] + 1;
            self.lemma_raise(c, a);
            assert(c[0] == p);
            assert(!c.contains(node));
            self.rank@ = Self::raised(self.rank@, c, a);
            self.bound@ = self.bound@ + a;
        }
        false
    }

    /// Attaches the root `node` at `target` relative to `at`: as its first or
    /// last child, or as its previous or next sibling.
    ///
    /// Fails, changing nothing, when `node` already has a parent, when a
    /// sibling position is asked of a root, or when the new parent is `node`
    /// itself or lies below it.
    pub fn attach(&mut self, at: usize, target: AttachTarget, node: usize) -> (r: Result<(), InvalidState>)
        requires
            old(self).wf(),
            old(self).live(at),
            old(self).live(node),
        ensures
            final(self).wf(),
            (r == Err::<(), InvalidState>(InvalidState::AlreadyAttached)) <==> old(self).parent_of(node) is Some,
            (r == Err::<(), InvalidState>(InvalidState::NoSiblingPosition)) <==> (old(self).parent_of(node) is None
                && old(self).attach_parent(at, target) is None),
            (r == Err::<(), InvalidState>(InvalidState::WouldCycle)) <==> (old(self).parent_of(node) is None
                && old(self).attach_parent(at, target) is Some
                && old(self).is_at_or_above(node, old(self).attach_parent(at, target)->Some_0)),
            r is Ok <==> (old(self).parent_of(node) is None && old(self).attach_parent(at, target) is Some
                && !old(self).is_at_or_above(node, old(self).attach_parent(at, target)->Some_0)),
            r is Err ==> *final(self) == *old(self),
            r is Ok ==> ({
                let p = old(self).attach_parent(at, target)->Some_0;
                &&& final(self).same_nodes(old(self))
                &&& final(self).same_links_except(old(self), node, p)
                &&& final(self).parent_of(node) == Some(p)
                &&& final(self).children_of(p) == old(self).children_of(p).insert(
                    old(self).attach_index(at, target),
                    node,
                )
            }),
    {
        if !self.node(node).is_root() {
            return Err(InvalidState::AlreadyAttached);
        }
        let (p, prev, next) = match self.place(at, target) {
            None => {
                return Err(InvalidState::NoSiblingPosition);
            },
            Some(t) => t,
        };
        let ghost k = self.attach_index(at, target);
        let ghost before = *self;
        if self.lift_above(p, node) {
            return Err(InvalidState::WouldCycle);
        }
        proof {
            assert(p != node);
            assert(self.children_of(p) == before.children_of(p));
        }
        self.link(p, prev, next, node, Ghost(k));
        Ok(())
    }

    /// Frees `x`, a root without children, and hands back its payload.
    fn free(&mut self, x: usize) -> (r: T)
        requires
            old(self).wf(),
            old(self).live(x),
            old(self).parent_of(x) is None,
            old(self).children_of(x).len() == 0,
        ensures
            final(self).wf(),
            r == old(self).value_of(x),
            final(self).nodes@ == old(self).nodes@.update(x as int, None),
            final(self).kids == old(self).kids,
            final(self).rank == old(self).rank,
            final(self).bound == old(self).bound,
    {
        let slot = self.nodes[x].take();
        proof {
            assert forall|y: usize| self.live(y) implies #[trigger] self.node_ok(y) by {
                assert(old(self).node_ok(y));
                assert forall|i: int| 0 <= i < self.kids@[y].len() implies #[trigger] self.kid_ok(y, i) by {
                    assert(old(self).kid_ok(y, i));
                }
                if let Some(q) = self.parent_of(y) {
                    assert(q != x);
                }
            }
        }
        slot.unwrap().value
    }

    /// Detaches `node` from its parent, if it has one; it becomes a root and
    /// keeps its own children. On a root this changes nothing.
    pub fn detach(&mut self, node: usize)
        requires
            old(self).wf(),
            old(self).live(node),
        ensures
            final(self).wf(),
            Self::detached(old(self), final(self), node),
    {
        match self.node(node).parent {
            None => {},
            Some(p) => {
                self.unlink(node, p);
            },
        }
    }

    /// Attaches the root `node` as the last child of `p`; see `attach`.
    pub fn add_child_last(&mut self, p: usize, node: usize) -> (r: Result<(), InvalidState>)
        requires
            old(self).wf(),
            old(self).live(p),
            old(self).live(node),
        ensures
            final(self).wf(),
            r != Err::<(), InvalidState>(InvalidState::NoSiblingPosition),
            (r == Err::<(), InvalidState>(InvalidState::AlreadyAttached)) <==> old(self).parent_of(node) is Some,
            (r == Err::<(), InvalidState>(InvalidState::WouldCycle)) <==> (old(self).parent_of(node) is None
                && old(self).is_at_or_above(node, p)),
            r is Ok <==> (old(self).parent_of(node) is None && !old(self).is_at_or_above(node, p)),
            r is Err ==> *final(self) == *old(self),
            r is Ok ==> Self::added_last(old(self), final(self), p, node),
    {
        let r = self.attach(p, AttachTarget::LastChild, node);
        proof {
            let ks = old(self).children_of(p);
            assert(ks.insert(ks.len() as int, node) =~= ks.push(node));
        }
        r
    }

    /// Detaches the last child of `p` and returns it, or `None` when `p` has
    /// no children.
    pub fn remove_last_child(&mut self, p: usize) -> (r: Option<usize>)
        requires
            old(self).wf(),
            old(self).live(p),
        ensures
            final(self).wf(),
            old(self).children_of(p).len() == 0 ==> r is None && *final(self) == *old(self),
            old(self).children_of(p).len() > 0 ==> {
                let c = old(self).children_of(p).last();
                &&& r == Some(c)
                &&& final(self).parent_of(c) is None
                &&& final(self).same_nodes(old(self))
                &&& final(self).same_links_except(old(self), c, p)
                &&& final(self).children_of(p) == old(self).children_of(p).drop_last()
            },
    {
        proof {
            assert(self.node_ok(p));
        }
        match self.node(p).last_child {
            None => None,
            Some(c) => {
                proof {
                    let ks = self.kids@[p];
                    assert(self.kid_ok(p, ks.len() - 1));
                    assert(ks.index_of(c) == ks.len() - 1) by {
                        let j = ks.index_of(c);
                        assert(ks.contains(c));
                    }
                    assert(ks.remove(ks.len() - 1) =~= ks.drop_last());
                }
                self.unlink(c, p);
                Some(c)
            },
        }
    }

    /// Detaches every child of `x`, first to last, and appends them to `work`.
    fn detach_children(&mut self, x: usize, work: &mut Vec<usize>)
        requires
            old(self).wf(),
            old(self).live(x),
        ensures
            final(self).wf(),
            final(work)@ == old(work)@ + old(self).children_of(x),
            final(self).children_of(x).len() == 0,
            final(self).nodes@.len() == old(self).nodes@.len(),
            final(self).parent_of(x) == old(self).parent_of(x),
            forall|y: usize| #[trigger] final(self).live(y) == old(self).live(y),
            forall|y: usize|
                #[trigger] final(self).live(y) ==> final(self).value_of(y) == old(self).value_of(y)
                    && (y != x ==> final(self).children_of(y) == old(self).children_of(y))
                    && (if old(self).children_of(x).contains(y) {
                    final(self).parent_of(y) is None
                } else {
                    final(self).parent_of(y) == old(self).parent_of(y)
                }),
    {
        let ghost ox = self.children_of(x);
        let ghost w0 = work@;
        proof {
            assert(self.node_ok(x));
        }
        loop
            invariant
                self.wf(),
                self.live(x),
                self.nodes@.len() == old(self).nodes@.len(),
                ox == old(self).children_of(x),
                ox.no_duplicates(),
                w0 == old(work)@,
                0 <= work@.len() - w0.len() <= ox.len(),
                self.children_of(x) == ox.subrange(work@.len() - w0.len(), ox.len() as int),
                work@ == w0 + ox.subrange(0, work@.len() - w0.len()),
                forall|y: usize| #[trigger] self.live(y) == old(self).live(y),
                forall|y: usize|
                    #[trigger] self.live(y) ==> self.value_of(y) == old(self).value_of(y)
                        && (y != x ==> self.children_of(y) == old(self).children_of(y))
                        && (if ox.subrange(0, work@.len() - w0.len()).contains(y) {
                        self.parent_of(y) is None
                    } else {
                        self.parent_of(y) == old(self).parent_of(y)
                    }),
            ensures
                self.children_of(x).len() == 0,
                work@.len() - w0.len() == ox.len(),
            decreases self.children_of(x).len(),
        {
            let ghost j = work@.len() - w0.len();
            proof {
                assert(self.node_ok(x));
            }
            match self.node(x).first_child {
                None => {
                    break;
                },
                Some(k) => {
                    proof {
                        assert(self.kid_ok(x, 0));
                        assert(self.children_of(x)[0] == ox[j]);
                        assert(self.kids@[x].index_of(k) == 0) by {
                            assert(self.kids@[x].contains(k));
                        }
                        assert(self.kids@[x].remove(0) =~= ox.subrange(j + 1, ox.len() as int));
                    }
                    self.unlink(k, x);
                    work.push(k);
                    proof {
                        assert(ox.subrange(0, j + 1) =~= ox.subrange(0, j).push(k));
                        assert(work@ =~= w0 + ox.subrange(0, j + 1));
                        assert forall|y: usize| #[trigger] self.live(y) implies (ox.subrange(0, j + 1).contains(y)
                            <==> (ox.subrange(0, j).contains(y) || y == k)) by {
                            if ox.subrange(0, j + 1).contains(y) && y != k {
                                let i = choose|i: int| 0 <= i < j + 1 && #[trigger] ox.subrange(0, j + 1)[i] == y;
                                assert(ox.subrange(0, j)[i] == y);
                            }
                            if y == k {
                                assert(ox.subrange(0, j + 1)[j] == y);
                            }
                            if ox.subrange(0, j).contains(y) {
                                let i = choose|i: int| 0 <= i < j && #[trigger] ox.subrange(0, j)[i] == y;
                                assert(ox.subrange(0, j + 1)[i] == y);
                            }
                        }
                    }
                },
            }
        }
        proof {
            assert(ox.subrange(0, ox.len() as int) =~= ox);
            assert(!ox.contains(x)) by {
                if ox.contains(x) {
                    let i = choose|i: int| 0 <= i < ox.len() && ox[i] == x;
                    assert(old(self).node_ok(x));
                    assert(old(self).kid_ok(x, i));
                }
            }
        }
    }

    /// Frees the root `root` and every node below it, and hands back each freed
    /// node's index with its payload. Each node is freed once; the nodes below
    /// are reached through an explicit work-list, not by recursion.
    #[verifier::rlimit(60)]
    pub fn release(&mut self, root: usize) -> (r: Vec<(usize, T)>)
        requires
            old(self).wf(),
            old(self).live(root),
            old(self).parent_of(root) is None,
        ensures
            final(self).wf(),
            Self::released(old(self), final(self), root, r@),
    {
        let ghost n0 = self.nodes@.len();
        let mut work: Vec<usize> = Vec::new();
        work.push(root);
        let mut out: Vec<(usize, T)> = Vec::new();
        let ghost mut fs: Set<int> = Set::empty();
        assert(work@[0] == root);
        while work.len() > 0
            invariant
                self.wf(),
                self.nodes@.len() == n0,
                work@.no_duplicates(),
                Self::ids_of(out@).no_duplicates(),
                fs.finite(),
                fs.len() == out@.len(),
                forall|i: int| fs.contains(i) ==> 0 <= i < n0,
                forall|x: usize| #[trigger] fs.contains(x as int) == Self::ids_of(out@).contains(x),
                Self::ids_of(out@).contains(root) || work@.contains(root),
                forall|i: int|
                    0 <= i < work@.len() ==> {
                        let w = #[trigger] work@[i];
                        &&& self.live(w)
                        &&& self.parent_of(w) is None
                        &&& self.children_of(w) == old(self).children_of(w)
                        &&& !Self::ids_of(out@).contains(w)
                        &&& old(self).live(w)
                        &&& (w != root ==> old(self).parent_of(w) is Some && Self::ids_of(out@).contains(old(self).parent_of(w)->Some_0))
                    },
                forall|i: int|
                    0 <= i < out@.len() ==> {
                        let x = #[trigger] Self::ids_of(out@)[i];
                        &&& old(self).live(x)
                        &&& out@[i].1 == old(self).value_of(x)
                        &&& (x != root ==> old(self).parent_of(x) is Some && Self::ids_of(out@).contains(old(self).parent_of(x)->Some_0))
                    },
                forall|i: int, j: int|
                    0 <= i < out@.len() && 0 <= j < old(self).children_of(Self::ids_of(out@)[i]).len() ==> {
                        let c = #[trigger] old(self).children_of(Self::ids_of(out@)[i])[j];
                        Self::ids_of(out@).contains(c) || work@.contains(c)
                    },
                forall|x: usize| #[trigger] self.live(x) == (old(self).live(x) && !Self::ids_of(out@).contains(x)),
                forall|x: usize|
                    #[trigger] self.live(x) ==> self.value_of(x) == old(self).value_of(x) && (!work@.contains(x)
                        ==> self.parent_of(x) == old(self).parent_of(x) && self.children_of(x) == old(
                        self,
                    ).children_of(x)),
            decreases n0 - out@.len(),
        {
            let ghost before = *self;
            let ghost f = Self::ids_of(out@);
            let ghost wa = work@;
            let x = work.pop().unwrap();
            let ghost w0 = work@;
            let ghost ox = self.children_of(x);
            proof {
                assert(wa[wa.len() - 1] == x);
                assert(w0 =~= wa.drop_last());
                assert forall|i: int| 0 <= i < w0.len() implies #[trigger] w0[i] != x && before.parent_of(w0[i]) is None by {
                    assert(wa[i] == w0[i]);
                }
                assert(self.node_ok(x));
                assert forall|i: int| 0 <= i < ox.len() implies #[trigger] self.parent_of(ox[i]) == Some(x) by {
                    assert(self.kid_ok(x, i));
                }
            }
            self.detach_children(x, &mut work);
            let ghost mid = *self;
            let ghost out0 = out@;
            let v = self.free(x);
            out.push((x, v));
            proof {
                fs = fs.insert(x as int);
                let f2 = Self::ids_of(out@);
                assert(f2 =~= f.push(x));
                lemma_int_range(0, n0 as int);
                lemma_len_subset(fs, set_int_range(0, n0 as int));
                assert(work@ =~= w0 + ox);
                assert forall|i: int, j: int| 0 <= i < j < work@.len() implies work@[i] != work@[j] by {
                    if j < w0.len() {
                        assert(wa[i] == w0[i] && wa[j] == w0[j]);
                    } else if i >= w0.len() {
                    } else {
                        assert(before.parent_of(w0[i]) is None);
                        assert(before.parent_of(ox[j - w0.len()]) == Some(x));
                    }
                }
                assert forall|y: usize| f2.contains(y) <==> (f.contains(y) || y == x) by {
                    if f.contains(y) {
                        let i = choose|i: int| 0 <= i < f.len() && f[i] == y;
                        assert(f2[i] == y);
                    }
                    if f2.contains(y) && y != x {
                        let i = choose|i: int| 0 <= i < f2.len() && f2[i] == y;
                        assert(f[i] == y);
                    }
                    if y == x {
                        assert(f2[f.len() as int] == x);
                    }
                }
                assert forall|i: int| 0 <= i < work@.len() implies {
                    let w = #[trigger] work@[i];
                    &&& self.live(w)
                    &&& self.parent_of(w) is None
                    &&& self.children_of(w) == old(self).children_of(w)
                    &&& !f2.contains(w)
                    &&& old(self).live(w)
                    &&& (w != root ==> old(self).parent_of(w) is Some && f2.contains(old(self).parent_of(w)->Some_0))
                } by {
                    let w = work@[i];
                    if i < w0.len() {
                        assert(wa[i] == w);
                        assert(mid.live(w));
                    } else {
                        let k = i - w0.len();
                        assert(ox[k] == w);
                        assert(before.kid_ok(x, k));
                        assert(!wa.contains(w)) by {
                            if wa.contains(w) {
                                let m = choose|m: int| 0 <= m < wa.len() && wa[m] == w;
                                assert(before.parent_of(wa[m]) is None);
                            }
                        }
                        assert(before.live(w));
                        assert(mid.live(w));
                    }
                }
                assert(before.live(x) && mid.live(x));
                assert forall|y: usize| #[trigger] self.live(y) == (old(self).live(y) && !f2.contains(y)) by {
                    assert(mid.live(y) == before.live(y));
                    assert(before.live(y) == (old(self).live(y) && !f.contains(y)));
                }
                assert(before.children_of(x) == old(self).children_of(x));
                assert forall|y: usize| #[trigger] self.live(y) implies self.value_of(y) == old(self).value_of(y)
                    && (!work@.contains(y) ==> self.parent_of(y) == old(self).parent_of(y)
                    && self.children_of(y) == old(self).children_of(y)) by {
                    assert(mid.live(y) && before.live(y));
                    if !work@.contains(y) {
                        assert(!ox.contains(y)) by {
                            if ox.contains(y) {
                                let m = choose|m: int| 0 <= m < ox.len() && ox[m] == y;
                                assert(work@[w0.len() + m] == y);
                            }
                        }
                        assert(!wa.contains(y)) by {
                            if wa.contains(y) {
                                let m = choose|m: int| 0 <= m < wa.len() && wa[m] == y;
                                if m < w0.len() {
                                    assert(work@[m] == y);
                                }
                            }
                        }
                    }
                }
                assert forall|i: int, j: int|
                    0 <= i < out@.len() && 0 <= j < old(self).children_of(f2[i]).len() implies {
                        let c = #[trigger] old(self).children_of(f2[i])[j];
                        f2.contains(c) || work@.contains(c)
                    } by {
                    let c = old(self).children_of(f2[i])[j];
                    if i < f.len() {
                        assert(f2[i] == f[i]);
                        assert(Self::ids_of(out0)[i] == f[i]);
                        assert(f.contains(c) || wa.contains(c));
                        if wa.contains(c) && c != x {
                            let m = choose|m: int| 0 <= m < wa.len() && wa[m] == c;
                            assert(w0[m] == c);
                            assert(work@[m] == c);
                        }
                        if c == x {
                            assert(f2[f.len() as int] == x);
                        }
                    } else {
                        assert(work@[w0.len() + j] == c);
                    }
                }
                assert forall|i: int| 0 <= i < out@.len() implies {
                    let y = #[trigger] Self::ids_of(out@)[i];
                    &&& old(self).live(y)
                    &&& out@[i].1 == old(self).value_of(y)
                    &&& (y != root ==> old(self).parent_of(y) is Some && f2.contains(old(self).parent_of(y)->Some_0))
                } by {
                    if i < f.len() {
                        assert(Self::ids_of(out0)[i] == f[i]);
                        assert(out@[i] == out0[i]);
                    }
                }
                if !f.contains(root) {
                    if root != x {
                        let i = choose|i: int| 0 <= i < wa.len() && wa[i] == root;
                        assert(work@[i] == root);
                    } else {
                        assert(f2[f.len() as int] == root);
                    }
                }
                assert(f2[f.len() as int] == x);
            }
        }
        out
    }

    /// Replaces the payload of `x`; the links stay as they are.
    pub fn set_value(&mut self, x: usize, value: T)
        requires
            old(self).wf(),
            old(self).live(x),
        ensures
            final(self).wf(),
            final(self).value_of(x) == value,
            forall|y: usize| #[trigger] final(self).live(y) == old(self).live(y),
            forall|y: usize|
                #[trigger] final(self).live(y) ==> final(self).parent_of(y) == old(self).parent_of(y)
                    && final(self).children_of(y) == old(self).children_of(y)
                    && (y != x ==> final(self).value_of(y) == old(self).value_of(y)),
    {
        self.node_mut(x).value = value;
        proof {
            assert forall|y: usize| self.live(y) implies #[trigger] self.node_ok(y) by {
                assert(old(self).node_ok(y));
                assert forall|i: int| 0 <= i < self.kids@[y].len() implies #[trigger] self.kid_ok(y, i) by {
                    assert(old(self).kid_ok(y, i));
                }
            }
        }
    }

    /// The record of node `x`, through which its links and payload are read.
    pub fn node(&self, x: usize) -> (r: &Node<T>)
        requires
            self.live(x),
        ensures
            *r == self.node_at(x),
    {
        self.nodes[x].as_ref().unwrap()
    }
}


/// Laws that tie the operations together.
impl<T> Tree<T> {
    /// Along the children of `p`, each child's next sibling is the child after
    /// it and that child's previous sibling is it; the first has no previous
    /// sibling, the last no next one, and they are the first and last child
    /// of `p`. Each child has `p` as parent and appears once.
    pub proof fn lemma_sibling_chain(&self, p: usize)
        requires
            self.wf(),
            self.live(p),
        ensures
            ({
                let ks = self.children_of(p);
                &&& ks.no_duplicates()
                &&& forall|i: int|
                    0 <= i < ks.len() ==> self.live(#[trigger] ks[i]) && self.node_at(ks[i]).spec_parent()
                        == Some(p)
                &&& forall|i: int|
                    0 <= i < ks.len() - 1 ==> self.node_at(#[trigger] ks[i]).spec_next_sibling() == Some(
                        ks[i + 1],
                    ) && self.node_at(ks[i + 1]).spec_prev_sibling() == Some(ks[i])
                &&& ks.len() == 0 ==> self.node_at(p).spec_first_child() is None
                    && self.node_at(p).spec_last_child() is None
                &&& ks.len() > 0 ==> {
                    &&& self.node_at(p).spec_first_child() == Some(ks[0])
                    &&& self.node_at(p).spec_last_child() == Some(ks.last())
                    &&& self.node_at(ks[0]).spec_prev_sibling() is None
                    &&& self.node_at(ks.last()).spec_next_sibling() is None
                }
            }),
    {
        let ks = self.children_of(p);
        assert(self.node_ok(p));
        assert forall|i: int| 0 <= i < ks.len() implies self.live(#[trigger] ks[i])
            && self.node_at(ks[i]).spec_parent() == Some(p) by {
            assert(self.kid_ok(p, i));
        }
        assert forall|i: int| 0 <= i < ks.len() - 1 implies self.node_at(#[trigger] ks[i]).spec_next_sibling()
            == Some(ks[i + 1]) && self.node_at(ks[i + 1]).spec_prev_sibling() == Some(ks[i]) by {
            assert(self.kid_ok(p, i));
            assert(self.kid_ok(p, i + 1));
        }
        if ks.len() > 0 {
            assert(self.kid_ok(p, 0));
            assert(self.kid_ok(p, ks.len() - 1));
        }
    }

    /// Right after the root `n` is added as the last child of `p`, `n`
    /// appears once among the children of `p`, its parent is `p`, and it is
    /// the last child of `p`.
    pub proof fn lemma_add_child_last_links(before: &Tree<T>, after: &Tree<T>, p: usize, n: usize)
        requires
            before.wf(),
            after.wf(),
            before.live(p),
            before.live(n),
            before.parent_of(n) is None,
            Self::added_last(before, after, p, n),
        ensures
            after.children_of(p).contains(n),
            forall|i: int|
                0 <= i < after.children_of(p).len() && #[trigger] after.children_of(p)[i] == n ==> i
                    == after.children_of(p).len() - 1,
            after.node_at(n).spec_parent() == Some(p),
            after.node_at(p).spec_last_child() == Some(n),
    {
        let ks = after.children_of(p);
        assert(ks[ks.len() - 1] == n);
        after.lemma_sibling_chain(p);
    }

    /// After a detach, `n` is a root and no longer among the children of its
    /// former parent.
    pub proof fn lemma_detach_makes_root(before: &Tree<T>, after: &Tree<T>, n: usize)
        requires
            before.wf(),
            after.wf(),
            before.live(n),
            Self::detached(before, after, n),
        ensures
            after.node_at(n).spec_parent() is None,
            before.parent_of(n) matches Some(p) ==> !after.children_of(p).contains(n),
    {
        if let Some(p) = before.parent_of(n) {
            if after.children_of(p).contains(n) {
                let j = choose|j: int| 0 <= j < after.children_of(p).len() && after.children_of(p)[j] == n;
                assert(before.node_ok(n));
                assert(after.live(p));
                assert(after.node_ok(p));
                assert(after.kid_ok(p, j));
            }
        }
    }

    /// A detached node can be attached again: it is a root, so only a cycle
    /// can refuse it; once added under `q`, its parent is `q`, it is the last
    /// child of `q`, and no other node lists it as a child.
    pub proof fn lemma_reattach(t0: &Tree<T>, t1: &Tree<T>, t2: &Tree<T>, n: usize, q: usize)
        requires
            t0.wf(),
            t1.wf(),
            t2.wf(),
            t0.live(n),
            Self::detached(t0, t1, n),
            Self::added_last(t1, t2, q, n),
        ensures
            t1.parent_of(n) is None,
            t2.parent_of(n) == Some(q),
            t2.children_of(q).last() == n,
            forall|p: usize| #[trigger] t2.live(p) && p != q ==> !t2.children_of(p).contains(n),
    {
        assert forall|p: usize| #[trigger] t2.live(p) && p != q implies !t2.children_of(p).contains(n) by {
            if t2.children_of(p).contains(n) {
                let j = choose|j: int| 0 <= j < t2.children_of(p).len() && t2.children_of(p)[j] == n;
                assert(t2.node_ok(p));
                assert(t2.kid_ok(p, j));
            }
        }
    }

    /// Detaching twice in a row changes nothing the second time.
    pub proof fn lemma_detach_idempotent(t0: &Tree<T>, t1: &Tree<T>, t2: &Tree<T>, n: usize)
        requires
            Self::detached(t0, t1, n),
            Self::detached(t1, t2, n),
        ensures
            *t2 == *t1,
    {
    }

    /// Releasing a root frees every node below it.
    pub proof fn lemma_release_frees_all_below(
        before: &Tree<T>,
        after: &Tree<T>,
        root: usize,
        r: Seq<(usize, T)>,
        x: usize,
    )
        requires
            before.wf(),
            Self::released(before, after, root, r),
            before.live(x),
            before.is_at_or_above(root, x),
        ensures
            Self::ids_of(r).contains(x),
            !after.live(x),
    {
        if x != root {
            let s = choose|s: Seq<usize>| before.is_ancestry(x, s) && s.contains(root);
            let k = choose|k: int| 0 <= k < s.len() && s[k] == root;
            Self::lemma_freed_down(before, after, root, r, x, s, k);
        }
    }

    /// Walking down the ancestry of `x` from `root`, each node is freed.
    proof fn lemma_freed_down(
        before: &Tree<T>,
        after: &Tree<T>,
        root: usize,
        r: Seq<(usize, T)>,
        x: usize,
        s: Seq<usize>,
        m: int,
    )
        requires
            before.wf(),
            Self::released(before, after, root, r),
            before.live(x),
            before.is_ancestry(x, s),
            0 <= m < s.len(),
            Self::ids_of(r).contains(s[m]),
        ensures
            Self::ids_of(r).contains(x),
        decreases m,
    {
        let ids = Self::ids_of(r);
        let c = if m == 0 { x } else { s[m - 1] };
        if m > 0 {
            assert(before.parent_of(s[m - 1]) == Some(s[m]));
        }
        assert(before.parent_of(c) == Some(s[m]));
        let i = choose|i: int| 0 <= i < ids.len() && ids[i] == s[m];
        assert(before.live(ids[i]));
        assert(before.live(c)) by {
            if m > 0 {
                Self::lemma_ancestry_live(before, x, s, m - 1);
            }
        }
        assert(before.node_ok(c));
        let ks = before.children_of(s[m]);
        let j = choose|j: int| 0 <= j < ks.len() && ks[j] == c;
        assert(ids.contains(before.children_of(ids[i])[j]));
        if m > 0 {
            Self::lemma_freed_down(before, after, root, r, x, s, m - 1);
        }
    }

    /// Every ancestor of a live node is live.
    proof fn lemma_ancestry_live(t: &Tree<T>, x: usize, s: Seq<usize>, m: int)
        requires
            t.wf(),
            t.live(x),
            t.is_ancestry(x, s),
            0 <= m < s.len(),
        ensures
            t.live(s[m]),
        decreases m,
    {
        if m == 0 {
            assert(t.node_ok(x));
        } else {
            Self::lemma_ancestry_live(t, x, s, m - 1);
            assert(t.parent_of(s[m - 1]) == Some(s[m]));
            assert(t.node_ok(s[m - 1]));
        }
    }
}

} // verus!
