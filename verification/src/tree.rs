//! A companion ordered tree: an unbalanced binary search tree over a
//! totally ordered value type, with insert, remove (by in-order splice),
//! containment and LCA queries, and an indented text rendering.

use vstd::prelude::*;

use crate::order::Rel;
use crate::order::TotalOrder;
use crate::text::push_char;
use crate::text::ToText;

verus! {

struct BNode<T: TotalOrder> {
    value: T,
    left_child: Option<Box<BNode<T>>>,
    right_child: Option<Box<BNode<T>>>,
}

/// An unbalanced binary search tree holding a set of values.
pub struct BTree<T: TotalOrder> {
    root: Option<Box<BNode<T>>>,
}

impl<T: TotalOrder> BNode<T> {
    spec fn as_set(self) -> Set<T>
        decreases self,
    {
        (match self.left_child {
            None => Set::empty(),
            Some(node) => node.as_set(),
        }).union(
            match self.right_child {
                None => Set::empty(),
                Some(node) => node.as_set(),
            },
        ).insert(self.value)
    }

    spec fn opt_set(o: Option<Box<BNode<T>>>) -> Set<T> {
        match o {
            None => Set::empty(),
            Some(node) => node.as_set(),
        }
    }

    spec fn wf(self) -> bool
        decreases self,
    {
        &&& forall|x: T|
            #[trigger] BNode::opt_set(self.left_child).contains(x) ==> x.before(self.value)
        &&& forall|x: T|
            #[trigger] BNode::opt_set(self.right_child).contains(x) ==> self.value.before(x)
        &&& match self.left_child {
            None => true,
            Some(node) => node.wf(),
        }
        &&& match self.right_child {
            None => true,
            Some(node) => node.wf(),
        }
    }

    spec fn opt_wf(o: Option<Box<BNode<T>>>) -> bool {
        match o {
            None => true,
            Some(node) => node.wf(),
        }
    }

    spec fn size(self) -> nat
        decreases self,
    {
        1 + (match self.left_child {
            None => 0nat,
            Some(node) => node.size(),
        }) + (match self.right_child {
            None => 0nat,
            Some(node) => node.size(),
        })
    }

    spec fn opt_size(o: Option<Box<BNode<T>>>) -> nat {
        match o {
            None => 0,
            Some(node) => node.size(),
        }
    }

    /// The comparison-driven descent: go left while both values come
    /// before the node's, right while both come after, stop otherwise.
    spec fn lca_spec(self, a: T, b: T) -> Option<T>
        decreases self,
    {
        if a.before(self.value) && b.before(self.value) {
            match self.left_child {
                None => None,
                Some(node) => node.lca_spec(a, b),
            }
        } else if self.value.before(a) && self.value.before(b) {
            match self.right_child {
                None => None,
                Some(node) => node.lca_spec(a, b),
            }
        } else {
            Some(self.value)
        }
    }

    spec fn opt_lca(o: Option<Box<BNode<T>>>, a: T, b: T) -> Option<T> {
        match o {
            None => None,
            Some(node) => node.lca_spec(a, b),
        }
    }

    /// A node's set is its children's sets with its own value added.
    proof fn lemma_set_parts(self)
        ensures
            self.as_set() == BNode::opt_set(self.left_child).union(
                BNode::opt_set(self.right_child),
            ).insert(self.value),
    {
    }

    /// The value of this subtree's rightmost node: its largest value.
    spec fn rightmost(self) -> T
        decreases self,
    {
        match self.right_child {
            None => self.value,
            Some(r) => r.rightmost(),
        }
    }

    /// Whether `post` is `pre` with the value of its rightmost node
    /// replaced by `w` and nothing else touched.
    spec fn is_rightmost_swap(pre: Self, post: Self, w: T) -> bool
        decreases pre,
    {
        match pre.right_child {
            None => post.value == w && post.left_child == pre.left_child
                && post.right_child is None,
            Some(r) => {
                &&& post.value == pre.value
                &&& post.left_child == pre.left_child
                &&& match post.right_child {
                    None => false,
                    Some(pr) => Self::is_rightmost_swap(*r, *pr, w),
                }
            },
        }
    }

    /// Whether `post` is `pre` with its rightmost node spliced out, that
    /// node's left child taking its place.
    spec fn is_rightmost_dropped(pre: Self, post: Option<Box<Self>>) -> bool
        decreases pre,
    {
        match pre.right_child {
            None => post == pre.left_child,
            Some(r) => match post {
                None => false,
                Some(p) => p.value == pre.value && p.left_child == pre.left_child
                    && Self::is_rightmost_dropped(*r, p.right_child),
            },
        }
    }

    /// Whether `post` is `pre` with `value` inserted by the comparison
    /// descent: a new leaf hangs where the search fell off, everything
    /// on the way is untouched, and a subtree rooted at `value` itself
    /// stays as it was.
    spec fn is_inserted(pre: Self, post: Self, value: T) -> bool
        decreases pre,
    {
        if value == pre.value {
            post == pre
        } else if value.before(pre.value) {
            &&& post.value == pre.value
            &&& post.right_child == pre.right_child
            &&& match (pre.left_child, post.left_child) {
                (None, Some(nl)) => nl.value == value && nl.left_child is None
                    && nl.right_child is None,
                (Some(ol), Some(nl)) => Self::is_inserted(*ol, *nl, value),
                _ => false,
            }
        } else {
            &&& post.value == pre.value
            &&& post.left_child == pre.left_child
            &&& match (pre.right_child, post.right_child) {
                (None, Some(nr)) => nr.value == value && nr.left_child is None
                    && nr.right_child is None,
                (Some(og), Some(nr)) => Self::is_inserted(*og, *nr, value),
                _ => false,
            }
        }
    }

    /// Whether `post` is `pre` with `value` removed by the comparison
    /// descent: a missing value leaves the subtree untouched, a node
    /// with one child is replaced by it, and a node with two children
    /// takes the value of its in-order neighbour from the left, whose
    /// node is spliced out.
    spec fn is_removed(pre: Self, post: Option<Box<Self>>, value: T) -> bool
        decreases pre,
    {
        if value == pre.value {
            match (pre.left_child, pre.right_child) {
                (None, None) => post is None,
                (Some(l), None) => post == Some(l),
                (None, Some(r)) => post == Some(r),
                (Some(l), Some(r)) => match post {
                    None => false,
                    Some(p) => p.value == l.rightmost() && p.right_child == Some(r)
                        && Self::is_rightmost_dropped(*l, p.left_child),
                },
            }
        } else if value.before(pre.value) {
            match pre.left_child {
                None => match post {
                    None => false,
                    Some(p) => *p == pre,
                },
                Some(ol) => match post {
                    None => false,
                    Some(p) => p.value == pre.value && p.right_child == pre.right_child
                        && Self::is_removed(*ol, p.left_child, value),
                },
            }
        } else {
            match pre.right_child {
                None => match post {
                    None => false,
                    Some(p) => *p == pre,
                },
                Some(og) => match post {
                    None => false,
                    Some(p) => p.value == pre.value && p.left_child == pre.left_child
                        && Self::is_removed(*og, p.right_child, value),
                },
            }
        }
    }

    /// Removing, from a subtree whose rightmost value was swapped for a
    /// value above everything in it, that swapped-in value splices the
    /// rightmost node out.
    proof fn lemma_swap_then_remove(pre: Self, mid: Self, post: Option<Box<Self>>, w: T)
        requires
            pre.wf(),
            forall|x: T| #[trigger] pre.as_set().contains(x) ==> x.before(w),
            Self::is_rightmost_swap(pre, mid, w),
            Self::is_removed(mid, post, w),
        ensures
            Self::is_rightmost_dropped(pre, post),
        decreases pre,
    {
        pre.lemma_set_parts();
        assert(pre.as_set().contains(pre.value));
        match pre.right_child {
            None => {
            },
            Some(r) => {
                T::asymmetry(pre.value, w);
                let pr = mid.right_child.unwrap();
                let p = post.unwrap();
                assert forall|x: T| #[trigger] r.as_set().contains(x) implies x.before(w) by {
                    assert(pre.as_set().contains(x));
                }
                Self::lemma_swap_then_remove(*r, *pr, p.right_child, w);
            },
        }
    }
}

impl<T: TotalOrder> BTree<T> {
    /// The set of values the tree holds.
    pub closed spec fn as_set(self) -> Set<T> {
        BNode::opt_set(self.root)
    }

    /// The search-tree invariant: at every node, the left subtree's
    /// values come before the node's value and the right subtree's after.
    pub closed spec fn wf(self) -> bool {
        BNode::opt_wf(self.root)
    }

    /// Where the comparison-driven descent for `(a, b)` stops, if it
    /// stops inside the tree.
    pub closed spec fn lca_spec(self, a: T, b: T) -> Option<T> {
        BNode::opt_lca(self.root, a, b)
    }

    /// Whether `post` is `pre` with `value` inserted by the search
    /// descent: an empty tree gains `value` as its root; otherwise a new
    /// leaf hangs where the comparison path fell off, every node on the
    /// way is untouched, and a tree already holding `value` is exactly
    /// the tree it was.
    pub closed spec fn insert_shape(pre: Self, post: Self, value: T) -> bool {
        match (pre.root, post.root) {
            (None, Some(n)) => n.value == value && n.left_child is None
                && n.right_child is None,
            (Some(o), Some(n)) => BNode::is_inserted(*o, *n, value),
            _ => false,
        }
    }

    /// Whether `post` is `pre` with `value` removed by the search
    /// descent: a tree without `value` is exactly the tree it was, a
    /// node with one child is replaced by it, and a node with two
    /// children takes the value of its in-order neighbour from the left
    /// subtree, whose node is spliced out; the right subtree of the
    /// spliced node is untouched.
    pub closed spec fn remove_shape(pre: Self, post: Self, value: T) -> bool {
        match pre.root {
            None => post == pre,
            Some(o) => BNode::is_removed(*o, post.root, value),
        }
    }
}

impl<T: TotalOrder> View for BTree<T> {
    type V = Set<T>;

    open spec fn view(&self) -> Set<T> {
        self.as_set()
    }
}

impl<T: TotalOrder> BNode<T> {
    fn insert(&mut self, value: T)
        requires
            old(self).wf(),
        ensures
            final(self).wf(),
            final(self).as_set() =~= old(self).as_set().insert(value),
            final(self).value == old(self).value,
            Self::is_inserted(*old(self), *final(self), value),
            old(self).as_set().contains(value) ==> *final(self) == *old(self),
        decreases *old(self),
    {
        let r = value.compare(&self.value);
        match r {
            Rel::Equal => {
                proof {
                    assert(self.as_set().contains(value));
                    assert(self.as_set().insert(value) =~= self.as_set());
                    assert(Self::is_inserted(*old(self), *self, value));
                }
            },
            Rel::Less => {
                let child = self.left_child.take();
                match child {
                    Some(mut n) => {
                        (&mut *n).insert(value);
                        self.left_child = Some(n);
                    },
                    None => {
                        self.left_child = Some(
                            Box::new(BNode { value, left_child: None, right_child: None }),
                        );
                        proof {
                            assert(BNode::opt_set(self.left_child)
                                =~= Set::<T>::empty().insert(value));
                            assert(BNode::opt_wf(self.left_child));
                        }
                    },
                }
                proof {
                    assert(self.as_set() =~= old(self).as_set().insert(value));
                    assert forall|x: T|
                        #[trigger] BNode::opt_set(self.left_child).contains(x) implies x.before(
                        self.value,
                    ) by {
                        if x != value {
                            assert(BNode::opt_set(old(self).left_child).contains(x));
                        }
                    }
                    assert(self.wf());
                    T::asymmetry(value, old(self).value);
                    assert(Self::is_inserted(*old(self), *self, value));
                    if old(self).as_set().contains(value) {
                        old(self).lemma_set_parts();
                        if BNode::opt_set(old(self).right_child).contains(value) {
                            assert(old(self).value.before(value));
                        }
                        assert(BNode::opt_set(old(self).left_child).contains(value));
                        assert(*self == *old(self));
                    }
                }
            },
            Rel::Greater => {
                let child = self.right_child.take();
                match child {
                    Some(mut n) => {
                        (&mut *n).insert(value);
                        self.right_child = Some(n);
                    },
                    None => {
                        self.right_child = Some(
                            Box::new(BNode { value, left_child: None, right_child: None }),
                        );
                        proof {
                            assert(BNode::opt_set(self.right_child)
                                =~= Set::<T>::empty().insert(value));
                            assert(BNode::opt_wf(self.right_child));
                        }
                    },
                }
                proof {
                    assert(self.as_set() =~= old(self).as_set().insert(value));
                    assert forall|x: T|
                        #[trigger] BNode::opt_set(self.right_child).contains(x) implies (
                        self.value).before(x) by {
                        if x != value {
                            assert(BNode::opt_set(old(self).right_child).contains(x));
                        }
                    }
                    assert(self.wf());
                    T::asymmetry(old(self).value, value);
                    assert(Self::is_inserted(*old(self), *self, value));
                    if old(self).as_set().contains(value) {
                        old(self).lemma_set_parts();
                        if BNode::opt_set(old(self).left_child).contains(value) {
                            assert(value.before(old(self).value));
                        }
                        assert(BNode::opt_set(old(self).right_child).contains(value));
                        assert(*self == *old(self));
                    }
                }
            },
        }
    }

    fn contains(&self, value: &T) -> (r: bool)
        requires
            self.wf(),
        ensures
            r == self.as_set().contains(*value),
        decreases self,
    {
        let c = value.compare(&self.value);
        match c {
            Rel::Equal => true,
            Rel::Less => {
                proof {
                    T::asymmetry(*value, self.value);
                    if BNode::opt_set(self.right_child).contains(*value) {
                        assert(self.value.before(*value));
                    }
                }
                match &self.left_child {
                    None => false,
                    Some(x) => x.contains(value),
                }
            },
            Rel::Greater => {
                proof {
                    T::asymmetry(self.value, *value);
                    if BNode::opt_set(self.left_child).contains(*value) {
                        assert((*value).before(self.value));
                    }
                }
                match &self.right_child {
                    None => false,
                    Some(x) => x.contains(value),
                }
            },
        }
    }

    fn lca(&self, val1: &T, val2: &T) -> (r: Option<&T>)
        requires
            self.wf(),
            self.as_set().contains(*val1),
            self.as_set().contains(*val2),
        ensures
            match r {
                Some(v) => self.lca_spec(*val1, *val2) == Some(*v),
                None => false,
            },
        decreases self,
    {
        let c1 = self.value.compare(val1);
        let c2 = self.value.compare(val2);
        if c1 == Rel::Greater && c2 == Rel::Greater {
            proof {
                T::asymmetry(*val1, self.value);
                T::asymmetry(*val2, self.value);
                if BNode::opt_set(self.right_child).contains(*val1) {
                    assert(self.value.before(*val1));
                }
                if BNode::opt_set(self.right_child).contains(*val2) {
                    assert(self.value.before(*val2));
                }
            }
            match &self.left_child {
                None => {
                    proof {
                        assert(BNode::opt_set(self.left_child).contains(*val1));
                        assert(false);
                    }
                    None
                },
                Some(x) => x.lca(val1, val2),
            }
        } else if c1 == Rel::Less && c2 == Rel::Less {
            proof {
                T::asymmetry(self.value, *val1);
                T::asymmetry(self.value, *val2);
                if BNode::opt_set(self.left_child).contains(*val1) {
                    assert((*val1).before(self.value));
                }
                if BNode::opt_set(self.left_child).contains(*val2) {
                    assert((*val2).before(self.value));
                }
                assert(!((*val1).before(self.value) && (*val2).before(self.value)));
            }
            match &self.right_child {
                None => {
                    proof {
                        assert(BNode::opt_set(self.right_child).contains(*val1));
                        assert(false);
                    }
                    None
                },
                Some(x) => x.lca(val1, val2),
            }
        } else {
            proof {
                match c1 {
                    Rel::Less => {
                        T::asymmetry(self.value, *val1);
                    },
                    Rel::Equal => {
                        if (*val1).before(self.value) {
                            T::asymmetry(*val1, self.value);
                        }
                        if self.value.before(*val1) {
                            T::asymmetry(self.value, *val1);
                        }
                    },
                    Rel::Greater => {
                        T::asymmetry(*val1, self.value);
                    },
                }
                match c2 {
                    Rel::Less => {
                        T::asymmetry(self.value, *val2);
                    },
                    Rel::Equal => {
                        if (*val2).before(self.value) {
                            T::asymmetry(*val2, self.value);
                        }
                        if self.value.before(*val2) {
                            T::asymmetry(self.value, *val2);
                        }
                    },
                    Rel::Greater => {
                        T::asymmetry(*val2, self.value);
                    },
                }
                assert(!((*val1).before(self.value) && (*val2).before(self.value)));
                assert(!(self.value.before(*val1) && self.value.before(*val2)));
            }
            Some(&self.value)
        }
    }
}

impl<T: TotalOrder> BNode<T> {
    /// Walks to the rightmost node of this subtree and swaps its value
    /// (the largest one here) with the value behind `value`, which must
    /// come after everything in this subtree.
    fn replace_with_successor(&mut self, value: &mut T)
        requires
            old(self).wf(),
            forall|x: T|
                #[trigger] old(self).as_set().contains(x) ==> x.before(*old(value)),
        ensures
            final(self).wf(),
            final(self).size() == old(self).size(),
            old(self).as_set().contains(*final(value)),
            forall|x: T|
                #[trigger] old(self).as_set().contains(x) ==> x == *final(value) || x.before(
                    *final(value),
                ),
            final(self).as_set() =~= old(self).as_set().remove(*final(value)).insert(
                *old(value),
            ),
            *final(value) == old(self).rightmost(),
            Self::is_rightmost_swap(*old(self), *final(self), *old(value)),
        decreases *old(self),
    {
        let r = self.right_child.take();
        match r {
            None => {
                core::mem::swap(&mut self.value, value);
                proof {
                    assert(Self::is_rightmost_swap(*old(self), *self, *old(value)));
                    let v0 = old(self).value;
                    let w = *old(value);
                    old(self).lemma_set_parts();
                    self.lemma_set_parts();
                    assert(old(self).as_set().contains(v0));
                    assert forall|x: T| #[trigger] old(self).as_set().contains(x) implies x == v0
                        || x.before(v0) by {
                        if x != v0 {
                            assert(BNode::opt_set(old(self).left_child).contains(x));
                        }
                    }
                    assert forall|x: T|
                        #[trigger] BNode::opt_set(old(self).left_child).contains(x) implies x
                        != v0 by {
                        T::asymmetry(x, v0);
                    }
                    assert(self.as_set() =~= old(self).as_set().remove(v0).insert(w));
                    assert forall|x: T|
                        #[trigger] BNode::opt_set(self.left_child).contains(x) implies x.before(
                        self.value,
                    ) by {
                        assert(old(self).as_set().contains(x));
                    }
                    assert(self.wf());
                }
            },
            Some(mut node) => {
                proof {
                    assert forall|x: T| #[trigger] node.as_set().contains(x) implies x.before(
                        *value,
                    ) by {
                        assert(old(self).as_set().contains(x));
                    }
                }
                let ghost node_orig = *node;
                (&mut *node).replace_with_successor(value);
                self.right_child = Some(node);
                proof {
                    assert(old(self).rightmost() == node_orig.rightmost());
                    assert(Self::is_rightmost_swap(*old(self), *self, *old(value)));
                    let v0 = old(self).value;
                    let w = *old(value);
                    let m = *value;
                    old(self).lemma_set_parts();
                    self.lemma_set_parts();
                    let r0 = BNode::opt_set(old(self).right_child);
                    assert(r0.contains(m));
                    assert(old(self).as_set().contains(m));
                    assert(v0.before(m));
                    assert forall|x: T| #[trigger] old(self).as_set().contains(x) implies x == m
                        || x.before(m) by {
                        if BNode::opt_set(old(self).left_child).contains(x) {
                            assert(x.before(v0));
                            T::transitivity(x, v0, m);
                        } else if x == v0 {
                        } else {
                            assert(r0.contains(x));
                        }
                    }
                    assert forall|x: T|
                        #[trigger] BNode::opt_set(old(self).left_child).contains(x) implies x
                        != m && x != v0 by {
                        assert(x.before(v0));
                        T::asymmetry(x, v0);
                        T::transitivity(x, v0, m);
                        T::asymmetry(x, m);
                    }
                    assert(m != v0) by {
                        T::asymmetry(v0, m);
                    }
                    assert(v0.before(w)) by {
                        assert(old(self).as_set().contains(v0));
                    }
                    assert forall|x: T|
                        #[trigger] BNode::opt_set(self.right_child).contains(x) implies
                        v0.before(x) by {
                        if x != w {
                            assert(r0.contains(x));
                        }
                    }
                    assert(self.as_set() =~= old(self).as_set().remove(m).insert(w));
                    assert(self.wf());
                }
            },
        }
    }

    /// Removes a value from this subtree, handing back what remains.
    /// A node with two children is spliced out by replacing its value
    /// with the in-order neighbour from the left subtree.
    fn remove(self, value: T) -> (r: Option<Box<BNode<T>>>)
        requires
            self.wf(),
        ensures
            BNode::opt_wf(r),
            BNode::opt_set(r) =~= self.as_set().remove(value),
            Self::is_removed(self, r, value),
            !self.as_set().contains(value) ==> (match r {
                Some(p) => *p == self,
                None => false,
            }),
        decreases self.size(),
    {
        let BNode { value: node_value, left_child, right_child } = self;
        let ghost l0 = BNode::opt_set(left_child);
        let ghost r0 = BNode::opt_set(right_child);
        proof {
            assert forall|x: T| #[trigger] l0.contains(x) implies x != node_value by {
                T::asymmetry(x, node_value);
            }
            assert forall|x: T| #[trigger] r0.contains(x) implies x != node_value by {
                T::asymmetry(node_value, x);
            }
        }
        let c = value.compare(&node_value);
        match c {
            Rel::Less => {
                proof {
                    T::asymmetry(value, node_value);
                    if r0.contains(value) {
                        assert(node_value.before(value));
                    }
                }
                match left_child {
                    None => {
                        let out = Some(
                            Box::new(
                                BNode { value: node_value, left_child: None, right_child },
                            ),
                        );
                        proof {
                            assert(BNode::opt_set(out) =~= self.as_set().remove(value));
                            assert(Self::is_removed(self, out, value));
                        }
                        out
                    },
                    Some(x) => {
                        let new_left = (*x).remove(value);
                        let out = Some(
                            Box::new(
                                BNode {
                                    value: node_value,
                                    left_child: new_left,
                                    right_child,
                                },
                            ),
                        );
                        proof {
                            assert forall|y: T|
                                #[trigger] BNode::opt_set(new_left).contains(y) implies y.before(
                                node_value,
                            ) by {
                                assert(l0.contains(y));
                            }
                            assert(BNode::opt_set(out) =~= self.as_set().remove(value));
                            self.lemma_set_parts();
                            assert(Self::is_removed(self, out, value));
                            if !self.as_set().contains(value) {
                                assert(!(*x).as_set().contains(value));
                            }
                        }
                        out
                    },
                }
            },
            Rel::Greater => {
                proof {
                    T::asymmetry(node_value, value);
                    if l0.contains(value) {
                        assert(value.before(node_value));
                    }
                }
                match right_child {
                    None => {
                        let out = Some(
                            Box::new(
                                BNode { value: node_value, left_child, right_child: None },
                            ),
                        );
                        proof {
                            assert(BNode::opt_set(out) =~= self.as_set().remove(value));
                            assert(Self::is_removed(self, out, value));
                        }
                        out
                    },
                    Some(x) => {
                        let new_right = (*x).remove(value);
                        let out = Some(
                            Box::new(
                                BNode {
                                    value: node_value,
                                    left_child,
                                    right_child: new_right,
                                },
                            ),
                        );
                        proof {
                            assert forall|y: T|
                                #[trigger] BNode::opt_set(new_right).contains(y) implies (
                            node_value).before(y) by {
                                assert(r0.contains(y));
                            }
                            assert(BNode::opt_set(out) =~= self.as_set().remove(value));
                            self.lemma_set_parts();
                            assert(Self::is_removed(self, out, value));
                            if !self.as_set().contains(value) {
                                assert(!(*x).as_set().contains(value));
                            }
                        }
                        out
                    },
                }
            },
            Rel::Equal => {
                match (left_child, right_child) {
                    (None, None) => {
                        proof {
                            assert(BNode::opt_set(None::<Box<BNode<T>>>) =~= self.as_set()
                                .remove(value));
                            assert(self.as_set().contains(value));
                            assert(Self::is_removed(self, None::<Box<BNode<T>>>, value));
                        }
                        None
                    },
                    (Some(l), None) => {
                        proof {
                            assert(l.as_set() =~= self.as_set().remove(value));
                            assert(self.as_set().contains(value));
                            assert(Self::is_removed(self, Some(l), value));
                        }
                        Some(l)
                    },
                    (None, Some(r)) => {
                        proof {
                            assert(r.as_set() =~= self.as_set().remove(value));
                            assert(self.as_set().contains(value));
                            assert(Self::is_removed(self, Some(r), value));
                        }
                        Some(r)
                    },
                    (Some(mut l), Some(r)) => {
                        let mut slot = node_value;
                        proof {
                            assert forall|x: T| #[trigger] l.as_set().contains(x) implies
                                x.before(slot) by {
                                assert(l0.contains(x));
                            }
                        }
                        let ghost l_orig = *l;
                        (&mut *l).replace_with_successor(&mut slot);
                        let ghost l_mid = *l;
                        let ghost m = slot;
                        proof {
                            assert(l0.contains(m));
                            assert(l.as_set() =~= l0.remove(m).insert(value));
                            assert(!l0.contains(value));
                        }
                        let new_left = (*l).remove(value);
                        proof {
                            assert(BNode::opt_set(new_left) =~= l0.remove(m));
                        }
                        let out = Some(
                            Box::new(
                                BNode { value: slot, left_child: new_left, right_child: Some(r) },
                            ),
                        );
                        proof {
                            assert forall|y: T|
                                #[trigger] BNode::opt_set(new_left).contains(y) implies y.before(
                                m,
                            ) by {
                                assert(l0.contains(y));
                                assert(y == m || y.before(m));
                                assert(y != m);
                            }
                            assert(m.before(node_value)) by {
                                assert(l0.contains(m));
                            }
                            assert forall|y: T| #[trigger] r0.contains(y) implies m.before(y) by {
                                T::transitivity(m, node_value, y);
                            }
                            assert(BNode::opt_set(out) =~= self.as_set().remove(value));
                            Self::lemma_swap_then_remove(l_orig, l_mid, new_left, value);
                            assert(self.as_set().contains(value));
                            assert(Self::is_removed(self, out, value));
                        }
                        out
                    },
                }
            },
        }
    }
}

impl<T: TotalOrder> BTree<T> {
    /// Creates a tree holding the given value, or an empty tree.
    pub fn new(initial: Option<T>) -> (t: BTree<T>)
        ensures
            t.wf(),
            t@ == match initial {
                None => Set::<T>::empty(),
                Some(v) => Set::<T>::empty().insert(v),
            },
    {
        match initial {
            None => BTree { root: None },
            Some(value) => {
                let t = BTree {
                    root: Some(Box::new(BNode { value, left_child: None, right_child: None })),
                };
                proof {
                    assert(t@ =~= Set::<T>::empty().insert(value));
                }
                t
            },
        }
    }

    /// Removes a value; a value not present leaves the tree unchanged.
    pub fn remove(&mut self, value: T)
        requires
            old(self).wf(),
        ensures
            final(self).wf(),
            final(self)@ == old(self)@.remove(value),
            Self::remove_shape(*old(self), *final(self), value),
            !old(self)@.contains(value) ==> *final(self) == *old(self),
    {
        let root = self.root.take();
        match root {
            None => {
                proof {
                    assert(self@ =~= old(self)@.remove(value));
                    assert(*self == *old(self));
                }
            },
            Some(x) => {
                self.root = (*x).remove(value);
                proof {
                    assert(self@ =~= old(self)@.remove(value));
                    assert(Self::remove_shape(*old(self), *self, value));
                    if !old(self)@.contains(value) {
                        assert(*self == *old(self));
                    }
                }
            },
        }
    }

    /// Inserts a value; a value already present is ignored.
    pub fn insert(&mut self, value: T)
        requires
            old(self).wf(),
        ensures
            final(self).wf(),
            final(self)@ == old(self)@.insert(value),
            Self::insert_shape(*old(self), *final(self), value),
            old(self)@.contains(value) ==> *final(self) == *old(self),
    {
        let root = self.root.take();
        match root {
            None => {
                self.root = Some(
                    Box::new(BNode { value, left_child: None, right_child: None }),
                );
                proof {
                    assert(self@ =~= old(self)@.insert(value));
                    assert(Self::insert_shape(*old(self), *self, value));
                }
            },
            Some(mut x) => {
                (&mut *x).insert(value);
                self.root = Some(x);
                proof {
                    assert(self@ =~= old(self)@.insert(value));
                    assert(Self::insert_shape(*old(self), *self, value));
                    if old(self)@.contains(value) {
                        assert(*self == *old(self));
                    }
                }
            },
        }
    }

    /// Whether the tree holds the given value.
    pub fn contains(&self, value: &T) -> (r: bool)
        requires
            self.wf(),
        ensures
            r == self@.contains(*value),
    {
        match &self.root {
            None => false,
            Some(x) => x.contains(value),
        }
    }

    /// The lowest common ancestor of two values: the node where the
    /// comparison-driven descent from the root first fails to put both
    /// values on the same side. Absent values give an absent result.
    pub fn lca(&self, val1: &T, val2: &T) -> (r: Option<&T>)
        requires
            self.wf(),
        ensures
            !(self@.contains(*val1) && self@.contains(*val2)) ==> r is None,
            self@.contains(*val1) && self@.contains(*val2) ==> match r {
                Some(v) => {
                    &&& self.lca_spec(*val1, *val2) == Some(*v)
                    &&& self@.contains(*v)
                    &&& (*v == *val1 || *v == *val2 || ((*val1).before(*v) && (*v).before(
                        *val2,
                    )) || ((*val2).before(*v) && (*v).before(*val1)))
                },
                None => false,
            },
    {
        match &self.root {
            None => None,
            Some(x) => {
                if x.contains(val1) && x.contains(val2) {
                    proof {
                        self.lemma_lca_between(*val1, *val2);
                    }
                    x.lca(val1, val2)
                } else {
                    None
                }
            },
        }
    }
}

impl<T: TotalOrder> BNode<T> {
    /// The descent for a contained pair stops at a contained value lying
    /// between the two in the order.
    proof fn lemma_between(self, a: T, b: T)
        requires
            self.wf(),
            self.as_set().contains(a),
            self.as_set().contains(b),
        ensures
            ({
                let r = self.lca_spec(a, b);
                match r {
                    Some(m) => self.as_set().contains(m) && (m == a || m == b || (a.before(m)
                        && m.before(b)) || (b.before(m) && m.before(a))),
                    None => false,
                }
            }),
        decreases self,
    {
        if a.before(self.value) && b.before(self.value) {
            T::asymmetry(a, self.value);
            T::asymmetry(b, self.value);
            if BNode::opt_set(self.right_child).contains(a) {
                assert(self.value.before(a));
            }
            if BNode::opt_set(self.right_child).contains(b) {
                assert(self.value.before(b));
            }
            let left = self.left_child.unwrap();
            left.lemma_between(a, b);
        } else if self.value.before(a) && self.value.before(b) {
            T::asymmetry(self.value, a);
            T::asymmetry(self.value, b);
            if BNode::opt_set(self.left_child).contains(a) {
                assert(a.before(self.value));
            }
            if BNode::opt_set(self.left_child).contains(b) {
                assert(b.before(self.value));
            }
            let right = self.right_child.unwrap();
            right.lemma_between(a, b);
        } else {
            let m = self.value;
            T::totality(a, m);
            T::totality(b, m);
        }
    }

    /// The descent for an equal pair ends at that value.
    proof fn lemma_self_lca(self, x: T)
        requires
            self.wf(),
            self.as_set().contains(x),
        ensures
            self.lca_spec(x, x) == Some(x),
        decreases self,
    {
        if x.before(self.value) {
            T::asymmetry(x, self.value);
            if BNode::opt_set(self.right_child).contains(x) {
                assert(self.value.before(x));
            }
            let left = self.left_child.unwrap();
            left.lemma_self_lca(x);
        } else if self.value.before(x) {
            T::asymmetry(self.value, x);
            if BNode::opt_set(self.left_child).contains(x) {
                assert(x.before(self.value));
            }
            let right = self.right_child.unwrap();
            right.lemma_self_lca(x);
        } else {
            T::totality(x, self.value);
        }
    }
}

impl<T: TotalOrder> BTree<T> {
    /// The descent result for a contained pair is itself contained and
    /// lies between the two values in the order.
    pub proof fn lemma_lca_between(self, a: T, b: T)
        requires
            self.wf(),
            self@.contains(a),
            self@.contains(b),
        ensures
            ({
                let r = self.lca_spec(a, b);
                match r {
                    Some(m) => self@.contains(m) && (m == a || m == b || (a.before(m)
                        && m.before(b)) || (b.before(m) && m.before(a))),
                    None => false,
                }
            }),
    {
        let root = self.root.unwrap();
        root.lemma_between(a, b);
    }

    /// A value the tree holds is its own lowest common ancestor.
    pub proof fn lemma_lca_self(self, x: T)
        requires
            self.wf(),
            self@.contains(x),
        ensures
            self.lca_spec(x, x) == Some(x),
    {
        let root = self.root.unwrap();
        root.lemma_self_lca(x);
    }
}


/// The prefix transformation applied when descending one level: a branch
/// tee continues as a bar, a final corner as blank space.
pub open spec fn continue_cell(c: char) -> char {
    if c == '\u{251c}' {
        '\u{2502}'
    } else if c == '\u{2514}' {
        ' '
    } else {
        c
    }
}

/// The prefix handed to a node's children, before the branch cell.
pub open spec fn descend_prefix(p: Seq<char>) -> Seq<char> {
    p.map_values(|c: char| continue_cell(c))
}

impl<T: TotalOrder + ToText> BNode<T> {
    /// One line for this node, then the renderings of its children under
    /// prefixes extended by a branch cell.
    spec fn render_spec(self, prefix: Seq<char>) -> Seq<char>
        decreases self,
    {
        let line = prefix + seq!['\u{2500}'] + self.value.text_spec() + seq!['\n'];
        let base = descend_prefix(prefix);
        match (self.left_child, self.right_child) {
            (None, None) => line,
            (Some(l), None) => line + l.render_spec(base + seq![' ', '\u{2514}']),
            (None, Some(r)) => line + r.render_spec(base + seq![' ', '\u{2514}']),
            (Some(l), Some(r)) => line + l.render_spec(base + seq![' ', '\u{251c}'])
                + r.render_spec(base + seq![' ', '\u{2514}']),
        }
    }

    fn construct_disp(&self, prefix: &Vec<char>) -> (out: String)
        ensures
            out@ == self.render_spec(prefix@),
        decreases self,
    {
        let mut holder = String::new();
        let mut i: usize = 0;
        while i < prefix.len()
            invariant
                i <= prefix@.len(),
                holder@ == prefix@.subrange(0, i as int),
            decreases prefix@.len() - i,
        {
            proof {
                assert(prefix@.subrange(0, i + 1) =~= prefix@.subrange(0, i as int).push(
                    prefix@[i as int],
                ));
            }
            push_char(&mut holder, prefix[i]);
            i += 1;
        }
        proof {
            assert(prefix@.subrange(0, prefix@.len() as int) =~= prefix@);
        }
        push_char(&mut holder, '\u{2500}');
        let vt = self.value.to_text();
        holder.append(vt.as_str());
        push_char(&mut holder, '\n');
        let ghost line = prefix@ + seq!['\u{2500}'] + self.value.text_spec() + seq!['\n'];
        proof {
            assert(holder@ =~= line);
        }
        let mut new_prefix: Vec<char> = Vec::new();
        let mut k: usize = 0;
        while k < prefix.len()
            invariant
                k <= prefix@.len(),
                new_prefix@.len() == k,
                forall|j: int| 0 <= j < k ==> new_prefix@[j] == continue_cell(prefix@[j]),
            decreases prefix@.len() - k,
        {
            let c = prefix[k];
            if c == '\u{251c}' {
                new_prefix.push('\u{2502}');
            } else if c == '\u{2514}' {
                new_prefix.push(' ');
            } else {
                new_prefix.push(c);
            }
            k += 1;
        }
        proof {
            assert(new_prefix@ =~= descend_prefix(prefix@));
        }
        let ghost base = descend_prefix(prefix@);
        match (&self.left_child, &self.right_child) {
            (None, None) => holder,
            (Some(l), None) => {
                new_prefix.push(' ');
                new_prefix.push('\u{2514}');
                proof {
                    assert(new_prefix@ =~= base + seq![' ', '\u{2514}']);
                }
                let sub = l.construct_disp(&new_prefix);
                holder.append(sub.as_str());
                holder
            },
            (None, Some(r)) => {
                new_prefix.push(' ');
                new_prefix.push('\u{2514}');
                proof {
                    assert(new_prefix@ =~= base + seq![' ', '\u{2514}']);
                }
                let sub = r.construct_disp(&new_prefix);
                holder.append(sub.as_str());
                holder
            },
            (Some(l), Some(r)) => {
                new_prefix.push(' ');
                new_prefix.push('\u{251c}');
                proof {
                    assert(new_prefix@ =~= base + seq![' ', '\u{251c}']);
                }
                let sub = l.construct_disp(&new_prefix);
                holder.append(sub.as_str());
                let newlen = new_prefix.len() - 2;
                new_prefix.truncate(newlen);
                new_prefix.push(' ');
                new_prefix.push('\u{2514}');
                proof {
                    assert(new_prefix@ =~= base + seq![' ', '\u{2514}']);
                }
                let sub2 = r.construct_disp(&new_prefix);
                holder.append(sub2.as_str());
                holder
            },
        }
    }
}

impl<T: TotalOrder + ToText> BTree<T> {
    /// The rendering of the whole tree: a pair of parentheses for an
    /// empty tree, else the root's rendering under an empty prefix.
    pub closed spec fn render(self) -> Seq<char> {
        match self.root {
            None => seq!['(', ')'],
            Some(node) => node.render_spec(Seq::empty()),
        }
    }

    /// An empty tree renders as a bare pair of parentheses.
    pub proof fn lemma_render_empty(self)
        requires
            self@ == Set::<T>::empty(),
        ensures
            self.render() == seq!['(', ')'],
    {
        match self.root {
            None => {
            },
            Some(n) => {
                n.lemma_set_parts();
                assert(self@.contains(n.value));
            },
        }
    }

    /// A tree holding exactly one value renders as a single line: a
    /// dash, the value's text, and a newline.
    pub proof fn lemma_render_single(self, v: T)
        requires
            self.wf(),
            self@ == Set::<T>::empty().insert(v),
        ensures
            self.render() == seq!['\u{2500}'] + v.text_spec() + seq!['\n'],
    {
        match self.root {
            None => {
                assert(self@.contains(v));
            },
            Some(n) => {
                n.lemma_set_parts();
                assert(self@.contains(n.value));
                assert(n.value == v);
                match n.left_child {
                    None => {
                    },
                    Some(l) => {
                        l.lemma_set_parts();
                        assert(BNode::opt_set(n.left_child).contains(l.value));
                        assert(self@.contains(l.value));
                        assert(l.value.before(n.value));
                        T::asymmetry(l.value, n.value);
                    },
                }
                match n.right_child {
                    None => {
                    },
                    Some(r) => {
                        r.lemma_set_parts();
                        assert(BNode::opt_set(n.right_child).contains(r.value));
                        assert(self@.contains(r.value));
                        assert(n.value.before(r.value));
                        T::asymmetry(n.value, r.value);
                    },
                }
                assert(self.render() =~= Seq::<char>::empty() + seq!['\u{2500}']
                    + v.text_spec() + seq!['\n']);
                assert(Seq::<char>::empty() + seq!['\u{2500}'] + v.text_spec() + seq!['\n']
                    =~= seq!['\u{2500}'] + v.text_spec() + seq!['\n']);
            },
        }
    }

    /// Produces the indented box-drawing text for the tree.
    pub fn to_string(&self) -> (s: String)
        ensures
            s@ == self.render(),
    {
        match &self.root {
            None => {
                let mut s = String::new();
                push_char(&mut s, '(');
                push_char(&mut s, ')');
                proof {
                    assert(s@ =~= seq!['(', ')']);
                }
                s
            },
            Some(node) => {
                let empty_prefix: Vec<char> = Vec::new();
                proof {
                    assert(empty_prefix@ =~= Seq::<char>::empty());
                }
                node.construct_disp(&empty_prefix)
            },
        }
    }
}

} // verus!
