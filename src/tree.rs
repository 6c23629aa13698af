//! The map: an AVL tree that owns its root and counts its entries.
use vstd::prelude::*;
use core::cmp::Ordering;
use crate::order::{key_lt, total_order};
use crate::balance::{lemma_avl_height_bound, rebalanced};
use vstd::std_specs::cmp::OrdSpec;
use crate::iter::{
    AvlTreeIterator, AvlTreeKeyIterator, AvlTreeKeyValueIterator, AvlTreeNodeIterator,
    AvlTreeOwnedIterator, AvlTreeValueIterator, KeyProjection, KeyValueProjection, NodeItself,
    ValueProjection,
};
use crate::node::{
    AVLTreeNode, keys_ascending, lemma_count_is_len, lemma_inorder_sorted,
    lemma_nodes_carry_entries, lemma_same_shape_refl, lemma_sorted_listing_unique, link_avl, link_balanced, link_count,
    link_height, link_heights_ok, link_inorder, link_map, link_nodes, link_ordered, lists_entries,
    same_shape,
};

verus! {

/// The map that inserting the pairs of `s` one after another into an empty
/// map gives.
pub open spec fn map_of_pairs<K, V>(s: Seq<(K, V)>) -> Map<K, V>
    decreases s.len(),
{
    if s.len() == 0 {
        Map::empty()
    } else {
        map_of_pairs(s.drop_last()).insert(s.last().0, s.last().1)
    }
}

/// The subtree that inserting `key` with `value` into `t` leaves: a new
/// leaf where the search ends; on an equal key only the value is replaced.
/// On the way back up, a node whose child kept its height is left as it is
/// (and so is everything above it); otherwise it is rebalanced.
pub open spec fn link_inserted<K: Ord, V>(t: Option<Box<AVLTreeNode<K, V>>>, key: K, value: V) -> Option<
    Box<AVLTreeNode<K, V>>,
>
    decreases t,
{
    match t {
        None => Some(Box::new(AVLTreeNode { key, value, left: None, right: None, height: 1 })),
        Some(n) => match key.cmp_spec(&n.key) {
            Ordering::Less => {
                let l = link_inserted(n.left, key, value);
                let m = Some(
                    Box::new(
                        AVLTreeNode {
                            key: n.key,
                            value: n.value,
                            left: l,
                            right: n.right,
                            height: n.height,
                        },
                    ),
                );
                if link_height(l) == link_height(n.left) {
                    m
                } else {
                    rebalanced(m)
                }
            },
            Ordering::Greater => {
                let r = link_inserted(n.right, key, value);
                let m = Some(
                    Box::new(
                        AVLTreeNode {
                            key: n.key,
                            value: n.value,
                            left: n.left,
                            right: r,
                            height: n.height,
                        },
                    ),
                );
                if link_height(r) == link_height(n.right) {
                    m
                } else {
                    rebalanced(m)
                }
            },
            Ordering::Equal => Some(
                Box::new(
                    AVLTreeNode {
                        key: n.key,
                        value: value,
                        left: n.left,
                        right: n.right,
                        height: n.height,
                    },
                ),
            ),
        },
    }
}

/// The leftmost node of the subtree rooted at `n`: the first in order.
pub open spec fn leftmost_node<K, V>(n: Box<AVLTreeNode<K, V>>) -> AVLTreeNode<K, V>
    decreases n,
{
    match n.left {
        None => *n,
        Some(l) => leftmost_node(l),
    }
}

/// The subtree rooted at `n` once its leftmost node is spliced out: that
/// node's slot takes the node's right child, and every node on the way back
/// up is rebalanced.
pub open spec fn without_leftmost<K, V>(n: Box<AVLTreeNode<K, V>>) -> Option<Box<AVLTreeNode<K, V>>>
    decreases n,
{
    match n.left {
        None => n.right,
        Some(l) => rebalanced(
            Some(
                Box::new(
                    AVLTreeNode {
                        key: n.key,
                        value: n.value,
                        left: without_leftmost(l),
                        right: n.right,
                        height: n.height,
                    },
                ),
            ),
        ),
    }
}

/// What takes the slot of node `n` when `n` itself is removed: nothing for a
/// leaf; its only child, promoted, for a node with one child; for a node
/// with two children, its in-order successor (the leftmost node of its
/// right subtree), spliced out of its place and carrying `n`'s left subtree
/// and the rest of the right one, rebalanced.
pub open spec fn removed_root<K, V>(n: Box<AVLTreeNode<K, V>>) -> Option<Box<AVLTreeNode<K, V>>> {
    if n.left is None && n.right is None {
        None
    } else if n.left is Some && n.right is Some {
        let s = leftmost_node(n.right.unwrap());
        rebalanced(
            Some(
                Box::new(
                    AVLTreeNode {
                        key: s.key,
                        value: s.value,
                        left: n.left,
                        right: without_leftmost(n.right.unwrap()),
                        height: s.height,
                    },
                ),
            ),
        )
    } else if n.left is Some {
        n.left
    } else {
        n.right
    }
}

/// The subtree that removing `key` from `t` leaves: the node holding it is
/// replaced as `removed_root` says, and every node on the way back up is
/// rebalanced. Unchanged (but for rebalancing, which then does nothing)
/// when `key` is absent.
pub open spec fn link_removed<K: Ord, V>(t: Option<Box<AVLTreeNode<K, V>>>, key: K) -> Option<
    Box<AVLTreeNode<K, V>>,
>
    decreases t,
{
    match t {
        None => None,
        Some(n) => match key.cmp_spec(&n.key) {
            Ordering::Less => rebalanced(
                Some(
                    Box::new(
                        AVLTreeNode {
                            key: n.key,
                            value: n.value,
                            left: link_removed(n.left, key),
                            right: n.right,
                            height: n.height,
                        },
                    ),
                ),
            ),
            Ordering::Greater => rebalanced(
                Some(
                    Box::new(
                        AVLTreeNode {
                            key: n.key,
                            value: n.value,
                            left: n.left,
                            right: link_removed(n.right, key),
                            height: n.height,
                        },
                    ),
                ),
            ),
            Ordering::Equal => removed_root(n),
        },
    }
}

/// Every child's key lies on its side of its parent's key, at every node.
pub open spec fn children_placed<K: Ord, V>(t: Option<Box<AVLTreeNode<K, V>>>) -> bool
    decreases t,
{
    match t {
        None => true,
        Some(n) => {
            &&& (n.left is Some ==> key_lt(n.left.unwrap().key, n.key))
            &&& (n.right is Some ==> key_lt(n.key, n.right.unwrap().key))
            &&& children_placed(n.left)
            &&& children_placed(n.right)
        },
    }
}

/// In an ordered subtree every child is placed on its side.
pub proof fn lemma_ordered_children_placed<K: Ord, V>(t: Option<Box<AVLTreeNode<K, V>>>)
    requires
        link_ordered(t),
    ensures
        children_placed(t),
    decreases t,
{
    if let Some(n) = t {
        lemma_ordered_children_placed(n.left);
        lemma_ordered_children_placed(n.right);
        if let Some(l) = n.left {
            assert(link_map(n.left).dom().contains(l.key));
        }
        if let Some(r) = n.right {
            assert(link_map(n.right).dom().contains(r.key));
        }
    }
}

/// An ordered map from `K` to `V`, kept as a height-balanced binary search tree.
pub struct AvlTree<K, V> {
    root: Option<Box<AVLTreeNode<K, V>>>,
    size: usize,
}

impl<K: Ord, V> View for AvlTree<K, V> {
    type V = Map<K, V>;

    open spec fn view(&self) -> Map<K, V> {
        self.as_map()
    }
}

impl<K: Ord, V> AvlTree<K, V> {
    /// The entries of the tree, as a map from key to value.
    pub closed spec fn as_map(&self) -> Map<K, V> {
        link_map(self.root)
    }

    /// The entries of the tree in in-order (ascending key) sequence.
    pub closed spec fn entries(&self) -> Seq<(K, V)> {
        link_inorder(self.root)
    }

    /// The root slot.
    pub closed spec fn root_link(&self) -> Option<Box<AVLTreeNode<K, V>>> {
        self.root
    }

    /// The tree's invariant: keys are totally ordered, the root slot holds an
    /// AVL subtree (ordered, correct heights, balanced), and the counter
    /// equals the number of nodes.
    pub closed spec fn well_formed(&self) -> bool {
        &&& total_order::<K>()
        &&& link_avl(self.root)
        &&& self.size == link_count(self.root)
    }

    /// An empty tree.
    pub fn new() -> (r: Self)
        requires
            total_order::<K>(),
        ensures
            r.well_formed(),
            r@ == Map::<K, V>::empty(),
            r.root_link() is None,
    {
        AvlTree { root: None, size: 0 }
    }

    /// Number of entries.
    pub fn size(&self) -> (r: usize)
        requires
            self.well_formed(),
        ensures
            r == self@.len(),
    {
        proof {
            lemma_count_is_len(self.root);
        }
        self.size
    }

    /// Whether the tree holds no entry.
    pub fn is_empty(&self) -> (r: bool)
        requires
            self.well_formed(),
        ensures
            r == (self@.len() == 0),
    {
        proof {
            lemma_count_is_len(self.root);
        }
        self.size == 0
    }

    /// Inserts `key` with `value` into the subtree in `node`, keeping it AVL.
    /// On an existing key only the value is replaced, and the old one is
    /// returned. Rebalancing stops as soon as a subtree's height is found
    /// unchanged, since nothing above it can then be out of balance.
    fn insert_into(node: &mut Option<Box<AVLTreeNode<K, V>>>, key: K, value: V) -> (r: Option<V>)
        requires
            total_order::<K>(),
            link_avl(*old(node)),
            link_count(*old(node)) < usize::MAX,
        ensures
            link_avl(*final(node)),
            link_map(*final(node)) == link_map(*old(node)).insert(key, value),
            r == (if link_map(*old(node)).dom().contains(key) {
                Some(link_map(*old(node))[key])
            } else {
                None
            }),
            link_count(*final(node)) == link_count(*old(node)) + (if r is None {
                1int
            } else {
                0int
            }),
            link_height(*old(node)) <= link_height(*final(node)) <= link_height(*old(node)) + 1,
            r is Some ==> same_shape(*final(node), *old(node)),
            *final(node) == link_inserted(*old(node), key, value),
        decreases *old(node),
    {
        proof {
            lemma_avl_height_bound(*node);
        }
        match node.take() {
            None => {
                *node = Some(Box::new(AVLTreeNode::new(key, value)));
                None
            },
            Some(mut n) => {
                let ghost n0 = *n;
                match key.cmp(&n.key) {
                    Ordering::Less => {
                        let before = n.left_height();
                        let r = Self::insert_into(&mut n.left, key, value);
                        let after = n.left_height();
                        proof {
                            Self::lemma_insert_left(n0, *n, key, value);
                            lemma_same_shape_refl(n0.right);
                        }
                        *node = Some(n);
                        if after != before {
                            AVLTreeNode::rebalance(node);
                        }
                        r
                    },
                    Ordering::Greater => {
                        let before = n.right_height();
                        let r = Self::insert_into(&mut n.right, key, value);
                        let after = n.right_height();
                        proof {
                            Self::lemma_insert_right(n0, *n, key, value);
                            lemma_same_shape_refl(n0.left);
                        }
                        *node = Some(n);
                        if after != before {
                            AVLTreeNode::rebalance(node);
                        }
                        r
                    },
                    Ordering::Equal => {
                        let mut old_value = value;
                        std::mem::swap(&mut n.value, &mut old_value);
                        *node = Some(n);
                        proof {
                            lemma_same_shape_refl(n0.left);
                            lemma_same_shape_refl(n0.right);
                            assert(link_map(*node) =~= link_map(Some(Box::new(n0))).insert(key, value));
                        }
                        Some(old_value)
                    },
                }
            },
        }
    }

    /// After inserting `key` (smaller than `n0`'s key) into `n0`'s left
    /// subtree, the node's entries are `n0`'s plus the new one, its order
    /// holds, and the lookup of `key` in the left subtree is the lookup in
    /// the whole.
    proof fn lemma_insert_left(n0: AVLTreeNode<K, V>, n1: AVLTreeNode<K, V>, key: K, value: V)
        requires
            total_order::<K>(),
            link_ordered(Some(Box::new(n0))),
            key_lt(key, n0.key),
            n1.key == n0.key,
            n1.value == n0.value,
            n1.right == n0.right,
            link_map(n1.left) == link_map(n0.left).insert(key, value),
        ensures
            link_ordered(Some(Box::new(n1))) <== link_ordered(n1.left),
            link_map(Some(Box::new(n1))) == link_map(Some(Box::new(n0))).insert(key, value),
            link_map(Some(Box::new(n0))).dom().contains(key) == link_map(n0.left).dom().contains(
                key,
            ),
            link_map(Some(Box::new(n0))).dom().contains(key) ==> link_map(Some(Box::new(n0)))[key]
                == link_map(n0.left)[key],
    {
        let rm = link_map(n0.right);
        assert(!rm.dom().contains(key)) by {
            if rm.dom().contains(key) {
                assert(key_lt(n0.key, key));
            }
        }
        assert(key != n0.key);
        assert(link_map(Some(Box::new(n1))) =~= link_map(Some(Box::new(n0))).insert(key, value));
    }

    /// The mirror image of `lemma_insert_left`.
    proof fn lemma_insert_right(n0: AVLTreeNode<K, V>, n1: AVLTreeNode<K, V>, key: K, value: V)
        requires
            total_order::<K>(),
            link_ordered(Some(Box::new(n0))),
            key_lt(n0.key, key),
            n1.key == n0.key,
            n1.value == n0.value,
            n1.left == n0.left,
            link_map(n1.right) == link_map(n0.right).insert(key, value),
        ensures
            link_ordered(Some(Box::new(n1))) <== link_ordered(n1.right),
            link_map(Some(Box::new(n1))) == link_map(Some(Box::new(n0))).insert(key, value),
            link_map(Some(Box::new(n0))).dom().contains(key) == link_map(n0.right).dom().contains(
                key,
            ),
            link_map(Some(Box::new(n0))).dom().contains(key) ==> link_map(Some(Box::new(n0)))[key]
                == link_map(n0.right)[key],
    {
        let lm = link_map(n0.left);
        assert(!lm.dom().contains(key)) by {
            if lm.dom().contains(key) {
                assert(key_lt(key, n0.key));
            }
        }
        assert(key != n0.key);
        assert(link_map(Some(Box::new(n1))) =~= link_map(Some(Box::new(n0))).insert(key, value));
    }

    /// Associates `value` with `key`. Returns the value that `key` had, if
    /// any; then only the value is replaced in place, and the tree keeps its
    /// shape and size.
    pub fn insert(&mut self, key: K, value: V) -> (r: Option<V>)
        requires
            old(self).well_formed(),
            old(self)@.len() < usize::MAX,
        ensures
            final(self).well_formed(),
            final(self)@ == old(self)@.insert(key, value),
            r == (if old(self)@.dom().contains(key) {
                Some(old(self)@[key])
            } else {
                None
            }),
            r is Some ==> same_shape(final(self).root_link(), old(self).root_link()),
            final(self).root_link() == link_inserted(old(self).root_link(), key, value),
            link_ordered(final(self).root_link()),
            link_balanced(final(self).root_link()),
            link_heights_ok(final(self).root_link()),
            final(self)@.len() == old(self)@.len() + (if r is None {
                1int
            } else {
                0int
            }),
            final(self)@.len() == final(self).entries().len(),
    {
        proof {
            lemma_count_is_len(self.root);
        }
        let r = Self::insert_into(&mut self.root, key, value);
        if r.is_none() {
            self.size = self.size + 1;
        }
        proof {
            lemma_count_is_len(self.root);
            lemma_inorder_sorted(self.root);
        }
        r
    }
    /// The value stored under `key`, if any.
    pub fn get(&self, key: &K) -> (r: Option<&V>)
        requires
            self.well_formed(),
        ensures
            r == (if self@.dom().contains(*key) {
                Some(&self@[*key])
            } else {
                None
            }),
    {
        let mut current = &self.root;
        loop
            invariant
                total_order::<K>(),
                link_ordered(*current),
                link_map(self.root).dom().contains(*key) == link_map(*current).dom().contains(*key),
                link_map(self.root).dom().contains(*key) ==> link_map(self.root)[*key]
                    == link_map(*current)[*key],
            decreases *current,
        {
            match current {
                None => return None,
                Some(n) => {
                    match key.cmp(&n.key) {
                        Ordering::Less => {
                            proof {
                                let rm = link_map(n.right);
                                if rm.dom().contains(*key) {
                                    assert(key_lt(n.key, *key));
                                }
                            }
                            current = &n.left;
                        },
                        Ordering::Greater => {
                            proof {
                                let lm = link_map(n.left);
                                if lm.dom().contains(*key) {
                                    assert(key_lt(*key, n.key));
                                }
                            }
                            current = &n.right;
                        },
                        Ordering::Equal => return Some(&n.value),
                    }
                },
            }
        }
    }

    /// Whether `key` has an entry.
    pub fn contains(&self, key: &K) -> (r: bool)
        requires
            self.well_formed(),
        ensures
            r == self@.dom().contains(*key),
    {
        self.get(key).is_some()
    }
    /// Splices the node with the smallest key out of the non-empty subtree
    /// in `node` and returns it detached (no children). Its right subtree,
    /// if any, takes its slot; every ancestor on the way back up is
    /// rebalanced.
    fn take_leftmost(node: &mut Option<Box<AVLTreeNode<K, V>>>) -> (m: Box<AVLTreeNode<K, V>>)
        requires
            total_order::<K>(),
            *old(node) is Some,
            link_avl(*old(node)),
            link_count(*old(node)) <= usize::MAX,
        ensures
            *final(node) == without_leftmost(old(node).unwrap()),
            m.key == leftmost_node(old(node).unwrap()).key,
            m.value == leftmost_node(old(node).unwrap()).value,
            m.height == leftmost_node(old(node).unwrap()).height,
            m.left is None,
            m.right is None,
            link_avl(*final(node)),
            link_map(*old(node)).dom().contains(m.key),
            link_map(*old(node))[m.key] == m.value,
            link_map(*final(node)) == link_map(*old(node)).remove(m.key),
            forall|k: K| #[trigger] link_map(*final(node)).dom().contains(k) ==> key_lt(m.key, k),
            link_count(*final(node)) + 1 == link_count(*old(node)),
            link_height(*final(node)) <= link_height(*old(node)) <= link_height(*final(node)) + 1,
        decreases *old(node),
    {
        proof {
            lemma_avl_height_bound(*node);
        }
        let ghost t0 = *node;
        let mut n = node.take().unwrap();
        let ghost n0 = *n;
        if n.left.is_none() {
            *node = n.right.take();
            proof {
                assert(link_count(n0.left) == 0);
                assert(link_map(n0.left) == Map::<K, V>::empty());
                let rm = link_map(n0.right);
                assert(!rm.dom().contains(n0.key)) by {
                    if rm.dom().contains(n0.key) {
                        assert(key_lt(n0.key, n0.key));
                    }
                }
                assert(link_map(*node) =~= link_map(Some(Box::new(n0))).remove(n0.key));
            }
            n
        } else {
            let m = Self::take_leftmost(&mut n.left);
            proof {
                let lm0 = link_map(n0.left);
                let rm = link_map(n0.right);
                assert(key_lt(m.key, n0.key));
                assert(!rm.dom().contains(m.key)) by {
                    if rm.dom().contains(m.key) {
                        assert(key_lt(n0.key, m.key));
                    }
                }
                assert(link_map(Some(n)) =~= link_map(Some(Box::new(n0))).remove(m.key));
                assert forall|k: K| #[trigger] link_map(Some(n)).dom().contains(k) implies key_lt(
                    m.key,
                    k,
                ) by {
                    if rm.dom().contains(k) {
                        assert(key_lt(n0.key, k));
                    }
                }
            }
            *node = Some(n);
            AVLTreeNode::rebalance(node);
            m
        }
    }

    /// Removal of a node without children: its slot becomes empty.
    fn remove_leaf_node(node: Box<AVLTreeNode<K, V>>) -> (r: (Option<Box<AVLTreeNode<K, V>>>, V))
        requires
            total_order::<K>(),
            link_avl(Some(node)),
            node.left is None,
            node.right is None,
        ensures
            Self::removal_result(node, r.0, r.1),
            r.0 == removed_root(node),
    {
        proof {
            assert(link_map(None::<Box<AVLTreeNode<K, V>>>) =~= link_map(Some(node)).remove(node.key));
        }
        (None, node.value)
    }

    /// Removal of a node with exactly one child: the child is promoted into
    /// the node's slot.
    fn remove_one_child_node(node: Box<AVLTreeNode<K, V>>) -> (r: (Option<Box<AVLTreeNode<K, V>>>, V))
        requires
            total_order::<K>(),
            link_avl(Some(node)),
            node.left is None || node.right is None,
        ensures
            Self::removal_result(node, r.0, r.1),
            r.0 == removed_root(node),
    {
        let mut node = node;
        let ghost n0 = *node;
        proof {
            reveal_with_fuel(link_count, 2);
            reveal_with_fuel(link_map, 2);
        }
        let child = if node.left.is_some() {
            node.left.take()
        } else {
            node.right.take()
        };
        proof {
            let lm = link_map(n0.left);
            let rm = link_map(n0.right);
            assert(!lm.dom().contains(n0.key)) by {
                if lm.dom().contains(n0.key) {
                    assert(key_lt(n0.key, n0.key));
                }
            }
            assert(!rm.dom().contains(n0.key)) by {
                if rm.dom().contains(n0.key) {
                    assert(key_lt(n0.key, n0.key));
                }
            }
            assert(link_map(child) =~= link_map(Some(Box::new(n0))).remove(n0.key));
        }
        (child, node.value)
    }

    /// Removal of a node with two children: its in-order successor (the
    /// leftmost node of the right subtree) is spliced out of its place and
    /// installed in the node's slot, taking over both subtrees; then that
    /// slot is rebalanced.
    fn remove_two_children_node(node: Box<AVLTreeNode<K, V>>) -> (r: (
        Option<Box<AVLTreeNode<K, V>>>,
        V,
    ))
        requires
            total_order::<K>(),
            link_avl(Some(node)),
            node.left is Some,
            node.right is Some,
            link_count(Some(node)) <= usize::MAX,
        ensures
            Self::removal_result(node, r.0, r.1),
            r.0 == removed_root(node),
    {
        proof {
            lemma_avl_height_bound(Some(node));
        }
        let mut node = node;
        let ghost n0 = *node;
        let mut successor = Self::take_leftmost(&mut node.right);
        successor.left = node.left.take();
        successor.right = node.right.take();
        proof {
            let lm = link_map(n0.left);
            let rm = link_map(n0.right);
            let sk = successor.key;
            assert(key_lt(n0.key, sk));
            assert forall|k: K| #[trigger] lm.dom().contains(k) implies key_lt(k, sk) by {
                assert(key_lt(k, n0.key));
            }
            assert(!lm.dom().contains(sk)) by {
                if lm.dom().contains(sk) {
                    assert(key_lt(sk, sk));
                }
            }
            assert(!lm.dom().contains(n0.key)) by {
                if lm.dom().contains(n0.key) {
                    assert(key_lt(n0.key, n0.key));
                }
            }
            assert(!rm.dom().contains(n0.key)) by {
                if rm.dom().contains(n0.key) {
                    assert(key_lt(n0.key, n0.key));
                }
            }
            assert(link_map(Some(successor)) =~= link_map(Some(Box::new(n0))).remove(n0.key));
        }
        let mut slot = Some(successor);
        AVLTreeNode::rebalance(&mut slot);
        (slot, node.value)
    }

    /// What removing `node`'s own entry from its subtree leaves: an AVL
    /// subtree `t` holding the other entries, one node fewer, at most one
    /// level lower, and `value` the removed value.
    spec fn removal_result(node: Box<AVLTreeNode<K, V>>, t: Option<Box<AVLTreeNode<K, V>>>, value: V) -> bool {
        &&& link_avl(t)
        &&& link_map(t) == link_map(Some(node)).remove(node.key)
        &&& value == node.value
        &&& link_count(t) + 1 == link_count(Some(node))
        &&& link_height(t) <= link_height(Some(node)) <= link_height(t) + 1
    }
    /// Removes `key` from the subtree in `node`, keeping it AVL, and returns
    /// its value. Every node on the way back up is rebalanced: a removal can
    /// lower a subtree by one level at several heights in a row.
    fn remove_from(node: &mut Option<Box<AVLTreeNode<K, V>>>, key: &K) -> (r: Option<V>)
        requires
            total_order::<K>(),
            link_avl(*old(node)),
            link_count(*old(node)) <= usize::MAX,
        ensures
            link_avl(*final(node)),
            link_map(*final(node)) == link_map(*old(node)).remove(*key),
            r == (if link_map(*old(node)).dom().contains(*key) {
                Some(link_map(*old(node))[*key])
            } else {
                None
            }),
            link_count(*final(node)) + (if r is None {
                0int
            } else {
                1int
            }) == link_count(*old(node)),
            link_height(*final(node)) <= link_height(*old(node)) <= link_height(*final(node)) + 1,
            r is None ==> same_shape(*final(node), *old(node)),
            *final(node) == link_removed(*old(node), *key),
        decreases *old(node),
    {
        proof {
            lemma_avl_height_bound(*node);
        }
        match node.take() {
            None => {
                proof {
                    assert(link_map(*node) =~= link_map(*node).remove(*key));
                }
                None
            },
            Some(mut n) => {
                let ghost n0 = *n;
                match key.cmp(&n.key) {
                    Ordering::Less => {
                        let r = Self::remove_from(&mut n.left, key);
                        proof {
                            Self::lemma_remove_left(n0, *n, *key);
                            lemma_same_shape_refl(n0.right);
                        }
                        *node = Some(n);
                        AVLTreeNode::rebalance(node);
                        r
                    },
                    Ordering::Greater => {
                        let r = Self::remove_from(&mut n.right, key);
                        proof {
                            Self::lemma_remove_right(n0, *n, *key);
                            lemma_same_shape_refl(n0.left);
                        }
                        *node = Some(n);
                        AVLTreeNode::rebalance(node);
                        r
                    },
                    Ordering::Equal => {
                        let (t, value) = if n.left.is_none() && n.right.is_none() {
                            Self::remove_leaf_node(n)
                        } else if n.left.is_some() && n.right.is_some() {
                            Self::remove_two_children_node(n)
                        } else {
                            Self::remove_one_child_node(n)
                        };
                        *node = t;
                        Some(value)
                    },
                }
            },
        }
    }

    /// After removing `key` (smaller than `n0`'s key) from `n0`'s left
    /// subtree, the node's entries are `n0`'s without `key`, its order holds,
    /// and the lookup of `key` in the left subtree is the lookup in the whole.
    proof fn lemma_remove_left(n0: AVLTreeNode<K, V>, n1: AVLTreeNode<K, V>, key: K)
        requires
            total_order::<K>(),
            link_ordered(Some(Box::new(n0))),
            key_lt(key, n0.key),
            n1.key == n0.key,
            n1.value == n0.value,
            n1.right == n0.right,
            link_map(n1.left) == link_map(n0.left).remove(key),
        ensures
            link_ordered(Some(Box::new(n1))) <== link_ordered(n1.left),
            link_map(Some(Box::new(n1))) == link_map(Some(Box::new(n0))).remove(key),
            link_map(Some(Box::new(n0))).dom().contains(key) == link_map(n0.left).dom().contains(
                key,
            ),
            link_map(Some(Box::new(n0))).dom().contains(key) ==> link_map(Some(Box::new(n0)))[key]
                == link_map(n0.left)[key],
    {
        let rm = link_map(n0.right);
        assert(!rm.dom().contains(key)) by {
            if rm.dom().contains(key) {
                assert(key_lt(n0.key, key));
            }
        }
        assert(key != n0.key);
        assert(link_map(Some(Box::new(n1))) =~= link_map(Some(Box::new(n0))).remove(key));
    }

    /// The mirror image of `lemma_remove_left`.
    proof fn lemma_remove_right(n0: AVLTreeNode<K, V>, n1: AVLTreeNode<K, V>, key: K)
        requires
            total_order::<K>(),
            link_ordered(Some(Box::new(n0))),
            key_lt(n0.key, key),
            n1.key == n0.key,
            n1.value == n0.value,
            n1.left == n0.left,
            link_map(n1.right) == link_map(n0.right).remove(key),
        ensures
            link_ordered(Some(Box::new(n1))) <== link_ordered(n1.right),
            link_map(Some(Box::new(n1))) == link_map(Some(Box::new(n0))).remove(key),
            link_map(Some(Box::new(n0))).dom().contains(key) == link_map(n0.right).dom().contains(
                key,
            ),
            link_map(Some(Box::new(n0))).dom().contains(key) ==> link_map(Some(Box::new(n0)))[key]
                == link_map(n0.right)[key],
    {
        let lm = link_map(n0.left);
        assert(!lm.dom().contains(key)) by {
            if lm.dom().contains(key) {
                assert(key_lt(key, n0.key));
            }
        }
        assert(key != n0.key);
        assert(link_map(Some(Box::new(n1))) =~= link_map(Some(Box::new(n0))).remove(key));
    }

    /// Removes `key` and returns its value; `None`, with the tree keeping its
    /// shape, when it has no entry.
    pub fn remove(&mut self, key: &K) -> (r: Option<V>)
        requires
            old(self).well_formed(),
        ensures
            final(self).well_formed(),
            final(self)@ == old(self)@.remove(*key),
            r == (if old(self)@.dom().contains(*key) {
                Some(old(self)@[*key])
            } else {
                None
            }),
            r is None ==> same_shape(final(self).root_link(), old(self).root_link()),
            final(self).root_link() == link_removed(old(self).root_link(), *key),
            link_ordered(final(self).root_link()),
            link_balanced(final(self).root_link()),
            link_heights_ok(final(self).root_link()),
            final(self)@.len() + (if r is None {
                0int
            } else {
                1int
            }) == old(self)@.len(),
            final(self)@.len() == final(self).entries().len(),
    {
        proof {
            lemma_count_is_len(self.root);
        }
        let r = Self::remove_from(&mut self.root, key);
        if r.is_some() {
            self.size = self.size - 1;
        }
        proof {
            lemma_count_is_len(self.root);
            lemma_inorder_sorted(self.root);
        }
        r
    }
    /// The smallest key and its value; `None` when the tree is empty.
    pub fn min(&self) -> (r: Option<(&K, &V)>)
        requires
            self.well_formed(),
        ensures
            r is None <==> self@.len() == 0,
            r is Some ==> {
                let (k, v) = r.unwrap();
                &&& self@.dom().contains(*k)
                &&& self@[*k] == *v
                &&& forall|j: K| #[trigger] self@.dom().contains(j) && j != *k ==> key_lt(*k, j)
            },
    {
        proof {
            lemma_count_is_len(self.root);
            lemma_inorder_sorted(self.root);
        }
        match &self.root {
            None => None,
            Some(root) => {
                let node = root.find_leftmost_node();
                proof {
                    let s = link_inorder(self.root);
                    assert(s[0] == (node.key, node.value));
                    assert forall|j: K| #[trigger]
                        self@.dom().contains(j) && j != node.key implies key_lt(node.key, j) by {
                        assert(link_map(self.root).dom().contains(j));
                        let i = choose|i: int| 0 <= i < s.len() && s[i].0 == j;
                        assert(i != 0);
                        assert(key_lt(s[0].0, s[i].0));
                    }
                }
                Some((&node.key, &node.value))
            },
        }
    }

    /// The largest key and its value; `None` when the tree is empty.
    pub fn max(&self) -> (r: Option<(&K, &V)>)
        requires
            self.well_formed(),
        ensures
            r is None <==> self@.len() == 0,
            r is Some ==> {
                let (k, v) = r.unwrap();
                &&& self@.dom().contains(*k)
                &&& self@[*k] == *v
                &&& forall|j: K| #[trigger] self@.dom().contains(j) && j != *k ==> key_lt(j, *k)
            },
    {
        proof {
            lemma_count_is_len(self.root);
            lemma_inorder_sorted(self.root);
        }
        match &self.root {
            None => None,
            Some(root) => {
                let node = root.find_rightmost_node();
                proof {
                    let s = link_inorder(self.root);
                    assert(s[s.len() - 1] == (node.key, node.value));
                    assert forall|j: K| #[trigger]
                        self@.dom().contains(j) && j != node.key implies key_lt(j, node.key) by {
                        assert(link_map(self.root).dom().contains(j));
                        let i = choose|i: int| 0 <= i < s.len() && s[i].0 == j;
                        assert(i != s.len() - 1);
                        assert(key_lt(s[i].0, s[s.len() - 1].0));
                    }
                }
                Some((&node.key, &node.value))
            },
        }
    }

    /// The nodes of the tree in in-order sequence.
    pub closed spec fn in_order_nodes(&self) -> Seq<AVLTreeNode<K, V>> {
        link_nodes(self.root)
    }

    /// A lazy walk over the entries by ascending key, yielding key and value.
    pub fn iter(&self) -> (r: AvlTreeKeyValueIterator<'_, K, V>)
        ensures
            r.remaining() == self.in_order_nodes(),
    {
        AvlTreeIterator::new(&self.root, KeyValueProjection)
    }

    /// A lazy walk over the keys in ascending order.
    pub fn keys(&self) -> (r: AvlTreeKeyIterator<'_, K, V>)
        ensures
            r.remaining() == self.in_order_nodes(),
    {
        AvlTreeIterator::new(&self.root, KeyProjection)
    }

    /// A lazy walk over the values, by ascending key.
    pub fn values(&self) -> (r: AvlTreeValueIterator<'_, K, V>)
        ensures
            r.remaining() == self.in_order_nodes(),
    {
        AvlTreeIterator::new(&self.root, ValueProjection)
    }

    /// A lazy walk over the nodes themselves, in order, for inspecting the
    /// tree's shape.
    pub fn nodes(&self) -> (r: AvlTreeNodeIterator<'_, K, V>)
        ensures
            r.remaining() == self.in_order_nodes(),
    {
        AvlTreeIterator::new(&self.root, NodeItself)
    }

    /// Consumes the tree into a walk that hands out its entries, owned, by
    /// ascending key.
    pub fn into_iter(self) -> (r: AvlTreeOwnedIterator<K, V>)
        ensures
            r.remaining() == self.entries(),
    {
        AvlTreeOwnedIterator::new(self.root)
    }

    /// The root node, if any, for inspecting the tree's shape.
    pub fn root(&self) -> (r: Option<&AVLTreeNode<K, V>>)
        ensures
            r is None <==> self.root_link() is None,
            r is Some ==> *r.unwrap() == *self.root_link().unwrap(),
    {
        match &self.root {
            Some(n) => Some(n),
            None => None,
        }
    }
    /// Whether every child sits in the slot its key calls for: a left child's
    /// key is below its parent's and a right child's above, at every node.
    /// Nodes carry no back-reference to their parent: a node's parent is the
    /// node whose child slot owns it, so this is the only parent relation
    /// there is to check, and on a well-formed tree it always holds.
    pub fn check_parent_references(&self) -> (r: bool)
        requires
            self.well_formed(),
        ensures
            r == children_placed(self.root_link()),
            r,
    {
        proof {
            lemma_ordered_children_placed(self.root);
        }
        Self::check_children(&self.root)
    }

    fn check_children(node: &Option<Box<AVLTreeNode<K, V>>>) -> (r: bool)
        requires
            total_order::<K>(),
        ensures
            r == children_placed(*node),
        decreases *node,
    {
        match node {
            None => true,
            Some(n) => {
                let left_ok = match &n.left {
                    Some(l) => n.is_left_child(l) && matches!(l.key.cmp(&n.key), Ordering::Less),
                    None => true,
                };
                let right_ok = match &n.right {
                    Some(c) => n.is_right_child(c) && matches!(c.key.cmp(&n.key), Ordering::Greater),
                    None => true,
                };
                left_ok && right_ok && Self::check_children(&n.left) && Self::check_children(
                    &n.right,
                )
            },
        }
    }

    /// Builds a tree by inserting the pairs in order; a later pair wins over
    /// an earlier one with the same key.
    pub fn from_pairs(pairs: Vec<(K, V)>) -> (r: Self)
        requires
            total_order::<K>(),
            pairs@.len() < usize::MAX,
        ensures
            r.well_formed(),
            r@ == map_of_pairs(pairs@),
    {
        let ghost all = pairs@;
        let mut pending = pairs;
        let mut reversed: Vec<(K, V)> = Vec::new();
        while pending.len() > 0
            invariant
                pending@.len() + reversed@.len() == all.len(),
                pending@ == all.subrange(0, pending@.len() as int),
                forall|i: int| 0 <= i < reversed@.len() ==> #[trigger] reversed@[i] == all[all.len() - 1 - i],
            decreases pending.len(),
        {
            let p = pending.pop().unwrap();
            reversed.push(p);
        }
        let mut tree = Self::new();
        while reversed.len() > 0
            invariant
                tree.well_formed(),
                reversed@.len() <= all.len(),
                forall|i: int| 0 <= i < reversed@.len() ==> #[trigger] reversed@[i] == all[all.len() - 1 - i],
                tree@ == map_of_pairs(all.subrange(0, all.len() - reversed@.len())),
                tree@.len() <= all.len() - reversed@.len(),
                all.len() < usize::MAX,
            decreases reversed.len(),
        {
            let ghost done = all.subrange(0, all.len() - reversed@.len());
            let (k, v) = reversed.pop().unwrap();
            proof {
                Self::lemma_size_matches_traversal(&tree);
            }
            tree.insert(k, v);
            proof {
                let done2 = all.subrange(0, all.len() - reversed@.len());
                assert(done2.drop_last() =~= done);
                assert(done2.last() == (k, v));
            }
        }
        proof {
            assert(all.subrange(0, all.len() as int) =~= all);
        }
        tree
    }
    /// The tree's entries, their in-order sequence and its in-order nodes
    /// are those of the subtree in its root slot, which is an AVL subtree.
    pub proof fn lemma_root_holds_entries(t: &Self)
        requires
            t.well_formed(),
        ensures
            link_avl(t.root_link()),
            link_map(t.root_link()) == t@,
            link_inorder(t.root_link()) == t.entries(),
            link_nodes(t.root_link()) == t.in_order_nodes(),
    {
    }

    /// An empty tree has an empty root slot, so its traversal yields
    /// nothing.
    pub proof fn lemma_empty_tree(t: &Self)
        requires
            t.well_formed(),
            t@.len() == 0,
        ensures
            t.root_link() is None,
            t.entries().len() == 0,
            t.in_order_nodes().len() == 0,
    {
        lemma_count_is_len(t.root);
        lemma_nodes_carry_entries(t.root);
        lemma_inorder_sorted(t.root);
    }

    /// Full drain: a tree reached from one holding the entries `start` by
    /// removing the keys of `keys` one after another (so its map is
    /// `removed_all(start, keys)`, by `remove`'s contract), where `keys`
    /// include every key of `start`, is empty, with an empty root slot and
    /// nothing left to traverse.
    pub proof fn lemma_drained(t: &Self, start: Map<K, V>, keys: Seq<K>)
        requires
            t.well_formed(),
            t@ == removed_all(start, keys),
            forall|k: K| #[trigger] start.dom().contains(k) ==> keys.contains(k),
        ensures
            t@.len() == 0,
            t.root_link() is None,
            t.entries().len() == 0,
    {
        lemma_remove_all(start, keys);
        assert(t@.dom() =~= Set::<K>::empty());
        Self::lemma_empty_tree(t);
    }

    /// Search order holds at every node: each key of a left subtree is below
    /// the node's key and each key of a right subtree above it. So the
    /// in-order entries come by strictly ascending key.
    pub proof fn lemma_search_order(t: &Self)
        requires
            t.well_formed(),
        ensures
            link_ordered(t.root_link()),
            keys_ascending(t.entries()),
    {
        lemma_inorder_sorted(t.root);
    }

    /// Balance holds at every node: the heights of its two subtrees differ by
    /// at most one.
    pub proof fn lemma_balanced(t: &Self)
        requires
            t.well_formed(),
        ensures
            link_balanced(t.root_link()),
    {
    }

    /// Every node's height is one more than the larger height of its children,
    /// an absent child counting 0.
    pub proof fn lemma_heights_correct(t: &Self)
        requires
            t.well_formed(),
        ensures
            link_heights_ok(t.root_link()),
    {
    }

    /// The number of entries is the number of entries, and of nodes, that a
    /// full in-order traversal yields.
    pub proof fn lemma_size_matches_traversal(t: &Self)
        requires
            t.well_formed(),
        ensures
            t@.dom().finite(),
            t@.len() == t.entries().len(),
            t.in_order_nodes().len() == t.entries().len(),
    {
        lemma_count_is_len(t.root);
        lemma_inorder_sorted(t.root);
        lemma_nodes_carry_entries(t.root);
    }

    /// The traversal agrees with the map it stands for: the in-order entries
    /// list exactly the map's entries by strictly ascending key (which is
    /// what an ordered map hands out), and the `i`-th node in order carries
    /// the `i`-th entry.
    pub proof fn lemma_traversal_lists_map(t: &Self)
        requires
            t.well_formed(),
        ensures
            keys_ascending(t.entries()),
            lists_entries(t.entries(), t@),
            t.in_order_nodes().len() == t.entries().len(),
            forall|i: int|
                0 <= i < t.entries().len() ==> (#[trigger] t.in_order_nodes()[i].key,
                t.in_order_nodes()[i].value) == t.entries()[i],
    {
        lemma_inorder_sorted(t.root);
        lemma_nodes_carry_entries(t.root);
    }
    /// An ordered map holding the same entries as the tree lists them by
    /// ascending key as `s`; that listing is exactly the tree's traversal.
    pub proof fn lemma_traversal_matches_ordered_map(t: &Self, s: Seq<(K, V)>)
        requires
            t.well_formed(),
            keys_ascending(s),
            lists_entries(s, t@),
        ensures
            s == t.entries(),
    {
        lemma_inorder_sorted(t.root);
        lemma_sorted_listing_unique(s, t.entries(), t@);
    }
}

/// Inserting a key twice: the second insert finds the first value (which it
/// returns), leaves the number of entries as the first insert left it, and
/// the key ends up with the second value.
pub proof fn lemma_insert_twice<K, V>(m: Map<K, V>, k: K, a: V, b: V)
    requires
        m.dom().finite(),
    ensures
        m.insert(k, a).dom().contains(k),
        m.insert(k, a)[k] == a,
        m.insert(k, a).insert(k, b).len() == m.insert(k, a).len(),
        m.insert(k, a).insert(k, b)[k] == b,
        m.insert(k, a).insert(k, b) == m.insert(k, b),
{
    assert(m.insert(k, a).insert(k, b).dom() =~= m.insert(k, a).dom());
    assert(m.insert(k, a).insert(k, b) =~= m.insert(k, b));
}

/// The map left by removing the keys of `keys` from `m`, one after another.
pub open spec fn removed_all<K, V>(m: Map<K, V>, keys: Seq<K>) -> Map<K, V>
    decreases keys.len(),
{
    if keys.len() == 0 {
        m
    } else {
        removed_all(m, keys.drop_last()).remove(keys.last())
    }
}

/// Removing, in any order, keys that include every key of the map leaves
/// it empty.
pub proof fn lemma_remove_all<K, V>(m: Map<K, V>, keys: Seq<K>)
    requires
        forall|k: K| #[trigger] m.dom().contains(k) ==> keys.contains(k),
    ensures
        removed_all(m, keys) == Map::<K, V>::empty(),
{
    lemma_removed_all_dom(m, keys);
    assert(removed_all(m, keys) =~= Map::<K, V>::empty());
}

proof fn lemma_removed_all_dom<K, V>(m: Map<K, V>, keys: Seq<K>)
    ensures
        forall|k: K| #[trigger]
            removed_all(m, keys).dom().contains(k) <==> m.dom().contains(k) && !keys.contains(k),
    decreases keys.len(),
{
    if keys.len() > 0 {
        let rest = keys.drop_last();
        lemma_removed_all_dom(m, rest);
        assert(removed_all(m, keys) == removed_all(m, rest).remove(keys.last()));
        assert forall|k: K| #[trigger]
            removed_all(m, keys).dom().contains(k) <==> m.dom().contains(k) && !keys.contains(k) by {
            assert(keys[keys.len() - 1] == keys.last());
            if k == keys.last() {
                assert(keys.contains(k));
            } else {
                if keys.contains(k) {
                    let i = choose|i: int| 0 <= i < keys.len() && keys[i] == k;
                    assert(i < keys.len() - 1);
                    assert(rest[i] == k);
                    assert(rest.contains(k));
                }
                if rest.contains(k) {
                    let i = choose|i: int| 0 <= i < rest.len() && rest[i] == k;
                    assert(keys[i] == k);
                }
            }
        }
    }
}

} // verus!
