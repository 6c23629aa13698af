//! Tree nodes, the invariants of the subtree a node owns, and the rotations.
use vstd::prelude::*;
use crate::order::{key_lt, lemma_lt_asym, total_order};
use vstd::set_lib::lemma_set_disjoint_lens;

verus! {

/// A node owns its two subtrees and caches its own height.
///
/// Each node has exactly one owner: the child slot of its parent, or the
/// tree's root slot. The parent of a node is therefore the node whose child
/// slot holds it, and no separate back-reference exists that could go stale.
pub struct AVLTreeNode<K, V> {
    pub key: K,
    pub value: V,
    pub left: Option<Box<AVLTreeNode<K, V>>>,
    pub right: Option<Box<AVLTreeNode<K, V>>>,
    pub height: u32,
}

/// Cached height of a subtree slot: 0 when it is empty.
pub open spec fn link_height<K, V>(t: Option<Box<AVLTreeNode<K, V>>>) -> nat {
    match t {
        None => 0,
        Some(n) => n.height as nat,
    }
}

/// Number of nodes in a subtree slot.
pub open spec fn link_count<K, V>(t: Option<Box<AVLTreeNode<K, V>>>) -> nat
    decreases t,
{
    match t {
        None => 0,
        Some(n) => link_count(n.left) + link_count(n.right) + 1,
    }
}

/// The entries of a subtree slot, as a map from key to value.
pub open spec fn link_map<K, V>(t: Option<Box<AVLTreeNode<K, V>>>) -> Map<K, V>
    decreases t,
{
    match t {
        None => Map::empty(),
        Some(n) => link_map(n.left).union_prefer_right(link_map(n.right)).insert(n.key, n.value),
    }
}

/// The entries of a subtree slot in in-order sequence.
pub open spec fn link_inorder<K, V>(t: Option<Box<AVLTreeNode<K, V>>>) -> Seq<(K, V)>
    decreases t,
{
    match t {
        None => Seq::empty(),
        Some(n) => link_inorder(n.left).push((n.key, n.value)) + link_inorder(n.right),
    }
}

/// Search-tree order: every key of a left subtree is smaller than the node's
/// key, and every key of a right subtree is greater, at every node.
pub open spec fn link_ordered<K: Ord, V>(t: Option<Box<AVLTreeNode<K, V>>>) -> bool
    decreases t,
{
    match t {
        None => true,
        Some(n) => {
            &&& forall|k: K| #[trigger] link_map(n.left).dom().contains(k) ==> key_lt(k, n.key)
            &&& forall|k: K| #[trigger] link_map(n.right).dom().contains(k) ==> key_lt(n.key, k)
            &&& link_ordered(n.left)
            &&& link_ordered(n.right)
        },
    }
}

/// Every cached height is one more than the larger cached height of its children.
pub open spec fn link_heights_ok<K, V>(t: Option<Box<AVLTreeNode<K, V>>>) -> bool
    decreases t,
{
    match t {
        None => true,
        Some(n) => {
            &&& n.height as nat == 1 + max_nat(link_height(n.left), link_height(n.right))
            &&& link_heights_ok(n.left)
            &&& link_heights_ok(n.right)
        },
    }
}

/// At every node the heights of the two subtrees differ by at most one.
pub open spec fn link_balanced<K, V>(t: Option<Box<AVLTreeNode<K, V>>>) -> bool
    decreases t,
{
    match t {
        None => true,
        Some(n) => {
            &&& link_height(n.left) <= link_height(n.right) + 1
            &&& link_height(n.right) <= link_height(n.left) + 1
            &&& link_balanced(n.left)
            &&& link_balanced(n.right)
        },
    }
}

/// An AVL subtree: ordered, with correct cached heights, and balanced.
pub open spec fn link_avl<K: Ord, V>(t: Option<Box<AVLTreeNode<K, V>>>) -> bool {
    &&& link_ordered(t)
    &&& link_heights_ok(t)
    &&& link_balanced(t)
}

/// The larger of `a` and `b`.
pub open spec fn max_nat(a: nat, b: nat) -> nat {
    if a >= b { a } else { b }
}


/// The subtree after a single left rotation at its root: the right child
/// `p` becomes the root, the old root `r` becomes `p`'s left child and takes
/// `p`'s former left subtree as its right one; `r`'s height and then `p`'s
/// are recomputed. Unchanged when there is no root or no right child.
pub open spec fn rotated_left<K, V>(t: Option<Box<AVLTreeNode<K, V>>>) -> Option<
    Box<AVLTreeNode<K, V>>,
> {
    match t {
        Some(r) => match r.right {
            Some(p) => {
                let hr = 1 + max_nat(link_height(r.left), link_height(p.left));
                let nr = AVLTreeNode {
                    key: r.key,
                    value: r.value,
                    left: r.left,
                    right: p.left,
                    height: hr as u32,
                };
                Some(
                    Box::new(
                        AVLTreeNode {
                            key: p.key,
                            value: p.value,
                            left: Some(Box::new(nr)),
                            right: p.right,
                            height: (1 + max_nat(hr, link_height(p.right))) as u32,
                        },
                    ),
                )
            },
            None => t,
        },
        None => t,
    }
}

/// The mirror image of `rotated_left`.
pub open spec fn rotated_right<K, V>(t: Option<Box<AVLTreeNode<K, V>>>) -> Option<
    Box<AVLTreeNode<K, V>>,
> {
    match t {
        Some(r) => match r.left {
            Some(p) => {
                let hr = 1 + max_nat(link_height(p.right), link_height(r.right));
                let nr = AVLTreeNode {
                    key: r.key,
                    value: r.value,
                    left: p.right,
                    right: r.right,
                    height: hr as u32,
                };
                Some(
                    Box::new(
                        AVLTreeNode {
                            key: p.key,
                            value: p.value,
                            left: p.left,
                            right: Some(Box::new(nr)),
                            height: (1 + max_nat(link_height(p.left), hr)) as u32,
                        },
                    ),
                )
            },
            None => t,
        },
        None => t,
    }
}

/// The heights that a left rotation computes fit in `u32`.
pub open spec fn left_rotation_fits<K, V>(t: Option<Box<AVLTreeNode<K, V>>>) -> bool {
    match t {
        Some(r) => match r.right {
            Some(p) => {
                &&& link_height(r.left) + 2 < u32::MAX
                &&& link_height(p.left) + 2 < u32::MAX
                &&& link_height(p.right) + 2 < u32::MAX
            },
            None => true,
        },
        None => true,
    }
}

/// The heights that a right rotation computes fit in `u32`.
pub open spec fn right_rotation_fits<K, V>(t: Option<Box<AVLTreeNode<K, V>>>) -> bool {
    match t {
        Some(r) => match r.left {
            Some(p) => {
                &&& link_height(r.right) + 2 < u32::MAX
                &&& link_height(p.left) + 2 < u32::MAX
                &&& link_height(p.right) + 2 < u32::MAX
            },
            None => true,
        },
        None => true,
    }
}

/// The subtree with its right child rotated right: the first step of the
/// right-left double rotation.
pub open spec fn right_child_rotated_right<K, V>(t: Option<Box<AVLTreeNode<K, V>>>) -> Option<
    Box<AVLTreeNode<K, V>>,
> {
    match t {
        Some(r) => Some(
            Box::new(
                AVLTreeNode {
                    key: r.key,
                    value: r.value,
                    left: r.left,
                    right: rotated_right(r.right),
                    height: r.height,
                },
            ),
        ),
        None => t,
    }
}

/// The subtree with its left child rotated left: the first step of the
/// left-right double rotation.
pub open spec fn left_child_rotated_left<K, V>(t: Option<Box<AVLTreeNode<K, V>>>) -> Option<
    Box<AVLTreeNode<K, V>>,
> {
    match t {
        Some(r) => Some(
            Box::new(
                AVLTreeNode {
                    key: r.key,
                    value: r.value,
                    left: rotated_left(r.left),
                    right: r.right,
                    height: r.height,
                },
            ),
        ),
        None => t,
    }
}

/// The heights that a right-left double rotation computes fit in `u32`.
pub open spec fn big_left_rotation_fits<K, V>(t: Option<Box<AVLTreeNode<K, V>>>) -> bool {
    match t {
        Some(r) => right_rotation_fits(r.right) && left_rotation_fits(right_child_rotated_right(t)),
        None => true,
    }
}

/// The heights that a left-right double rotation computes fit in `u32`.
pub open spec fn big_right_rotation_fits<K, V>(t: Option<Box<AVLTreeNode<K, V>>>) -> bool {
    match t {
        Some(r) => left_rotation_fits(r.left) && right_rotation_fits(left_child_rotated_left(t)),
        None => true,
    }
}

impl<K, V> AVLTreeNode<K, V> {
    /// The node as a one-element subtree slot.
    pub open spec fn as_link(self) -> Option<Box<AVLTreeNode<K, V>>> {
        Some(Box::new(self))
    }

    /// A leaf holding `key` and `value`.
    pub fn new(key: K, value: V) -> (r: Self)
        ensures
            r.key == key,
            r.value == value,
            r.left is None,
            r.right is None,
            r.height == 1,
    {
        AVLTreeNode { key, value, left: None, right: None, height: 1 }
    }

    /// Cached height of the left subtree, 0 when absent.
    pub fn left_height(&self) -> (r: u32)
        ensures
            r == link_height(self.left),
    {
        match &self.left {
            Some(l) => l.height,
            None => 0,
        }
    }

    /// Cached height of the right subtree, 0 when absent.
    pub fn right_height(&self) -> (r: u32)
        ensures
            r == link_height(self.right),
    {
        match &self.right {
            Some(r) => r.height,
            None => 0,
        }
    }

    /// Sets the cached height from the children's cached heights.
    pub fn update_height(&mut self)
        requires
            link_height(old(self).left) < u32::MAX,
            link_height(old(self).right) < u32::MAX,
        ensures
            final(self).height as nat == 1 + max_nat(
                link_height(old(self).left),
                link_height(old(self).right),
            ),
            final(self).key == old(self).key,
            final(self).value == old(self).value,
            final(self).left == old(self).left,
            final(self).right == old(self).right,
    {
        let lh = self.left_height();
        let rh = self.right_height();
        self.height = if lh >= rh { 1 + lh } else { 1 + rh };
    }

    /// Left height minus right height, as a small signed integer (exact
    /// whenever the difference fits in `i8`).
    pub fn balance_factor(&self) -> (r: i8)
        ensures
            -128 <= link_height(self.left) - link_height(self.right) <= 127 ==> r as int
                == link_height(self.left) - link_height(self.right),
    {
        let d = self.left_height() as i64 - self.right_height() as i64;
        d as i8
    }
    /// Single left rotation of the subtree in `node` (see `rotated_left`).
    pub fn rotate_left(node: &mut Option<Box<AVLTreeNode<K, V>>>)
        requires
            left_rotation_fits(*old(node)),
        ensures
            *final(node) == rotated_left(*old(node)),
    {
        let mut root = match node.take() {
            Some(root) => root,
            None => return ,
        };
        let mut right_child = match root.right.take() {
            Some(right_child) => right_child,
            None => {
                *node = Some(root);
                return ;
            },
        };
        root.right = right_child.left.take();
        root.update_height();
        right_child.left = Some(root);
        right_child.update_height();
        *node = Some(right_child);
    }

    /// Single right rotation of the subtree in `node` (see `rotated_right`).
    pub fn rotate_right(node: &mut Option<Box<AVLTreeNode<K, V>>>)
        requires
            right_rotation_fits(*old(node)),
        ensures
            *final(node) == rotated_right(*old(node)),
    {
        let mut root = match node.take() {
            Some(root) => root,
            None => return ,
        };
        let mut left_child = match root.left.take() {
            Some(left_child) => left_child,
            None => {
                *node = Some(root);
                return ;
            },
        };
        root.left = left_child.right.take();
        root.update_height();
        left_child.right = Some(root);
        left_child.update_height();
        *node = Some(left_child);
    }
    /// Right-left double rotation: rotates the right child right, then the
    /// root left. Corrects a right-heavy subtree whose right child is
    /// left-heavy.
    pub fn big_rotate_left(node: &mut Option<Box<AVLTreeNode<K, V>>>)
        requires
            big_left_rotation_fits(*old(node)),
        ensures
            *final(node) == rotated_left(right_child_rotated_right(*old(node))),
    {
        if let Some(mut root) = node.take() {
            Self::rotate_right(&mut root.right);
            *node = Some(root);
            Self::rotate_left(node);
        }
    }

    /// Left-right double rotation: rotates the left child left, then the
    /// root right. Corrects a left-heavy subtree whose left child is
    /// right-heavy.
    pub fn big_rotate_right(node: &mut Option<Box<AVLTreeNode<K, V>>>)
        requires
            big_right_rotation_fits(*old(node)),
        ensures
            *final(node) == rotated_right(left_child_rotated_left(*old(node))),
    {
        if let Some(mut root) = node.take() {
            Self::rotate_left(&mut root.left);
            *node = Some(root);
            Self::rotate_right(node);
        }
    }
}

impl<K, V> AVLTreeNode<K, V> {
    /// The leftmost node of this node's subtree: the first in order.
    pub fn find_leftmost_node(&self) -> (r: &AVLTreeNode<K, V>)
        ensures
            r.left is None,
            (r.key, r.value) == link_inorder(self.as_link())[0],
    {
        let mut current = self;
        loop
            invariant
                link_inorder(current.as_link()).len() > 0,
                link_inorder(current.as_link())[0] == link_inorder(self.as_link())[0],
            decreases current.as_link(),
        {
            match &current.left {
                None => {
                    assert(link_inorder(current.left) == Seq::<(K, V)>::empty());
                    return current;
                },
                Some(l) => {
                    proof {
                        assert(l.as_link() == current.left);
                        assert(link_inorder(current.left).len() > 0);
                        assert(link_inorder(current.as_link())[0] == link_inorder(current.left)[0]);
                    }
                    current = l;
                },
            }
        }
    }

    /// The rightmost node of this node's subtree: the last in order.
    pub fn find_rightmost_node(&self) -> (r: &AVLTreeNode<K, V>)
        ensures
            r.right is None,
            (r.key, r.value) == link_inorder(self.as_link()).last(),
    {
        let mut current = self;
        loop
            invariant
                link_inorder(current.as_link()).len() > 0,
                link_inorder(current.as_link()).last() == link_inorder(self.as_link()).last(),
            decreases current.as_link(),
        {
            match &current.right {
                None => {
                    assert(link_inorder(current.right) == Seq::<(K, V)>::empty());
                    return current;
                },
                Some(r) => {
                    proof {
                        assert(r.as_link() == current.right);
                        assert(link_inorder(current.right).len() > 0);
                        assert(link_inorder(current.as_link()).last() == link_inorder(
                            current.right,
                        ).last());
                    }
                    current = r;
                },
            }
        }
    }
}

impl<K: Ord, V> AVLTreeNode<K, V> {
    /// Whether this node's left child holds `other`'s key. In an ordered
    /// tree keys are unique, so this says whether `other` is the left child.
    pub fn is_left_child(&self, other: &AVLTreeNode<K, V>) -> (r: bool)
        requires
            total_order::<K>(),
        ensures
            r == (self.left is Some && self.left.unwrap().key == other.key),
    {
        match &self.left {
            Some(l) => matches!(l.key.cmp(&other.key), core::cmp::Ordering::Equal),
            None => false,
        }
    }

    /// Whether this node's right child holds `other`'s key (see
    /// `is_left_child`).
    pub fn is_right_child(&self, other: &AVLTreeNode<K, V>) -> (r: bool)
        requires
            total_order::<K>(),
        ensures
            r == (self.right is Some && self.right.unwrap().key == other.key),
    {
        match &self.right {
            Some(r) => matches!(r.key.cmp(&other.key), core::cmp::Ordering::Equal),
            None => false,
        }
    }
}


/// A left rotation keeps the in-order sequence of entries.
pub proof fn lemma_rotate_left_inorder<K, V>(t: Option<Box<AVLTreeNode<K, V>>>)
    ensures
        link_inorder(rotated_left(t)) == link_inorder(t),
        link_count(rotated_left(t)) == link_count(t),
{
    reveal_with_fuel(link_inorder, 3);
    reveal_with_fuel(link_count, 3);
    if let Some(r) = t {
        if let Some(p) = r.right {
            let a = link_inorder(r.left);
            let b = link_inorder(p.left);
            let c = link_inorder(p.right);
            assert((a.push((r.key, r.value)) + b).push((p.key, p.value)) + c =~= a.push(
                (r.key, r.value),
            ) + (b.push((p.key, p.value)) + c));
        }
    }
}

/// A right rotation keeps the in-order sequence of entries.
pub proof fn lemma_rotate_right_inorder<K, V>(t: Option<Box<AVLTreeNode<K, V>>>)
    ensures
        link_inorder(rotated_right(t)) == link_inorder(t),
        link_count(rotated_right(t)) == link_count(t),
{
    reveal_with_fuel(link_inorder, 3);
    reveal_with_fuel(link_count, 3);
    if let Some(r) = t {
        if let Some(p) = r.left {
            let a = link_inorder(p.left);
            let b = link_inorder(p.right);
            let c = link_inorder(r.right);
            assert(a.push((p.key, p.value)) + (b.push((r.key, r.value)) + c) =~= (a.push(
                (p.key, p.value),
            ) + b).push((r.key, r.value)) + c);
        }
    }
}

/// A left rotation of an ordered subtree keeps its entries and its order.
pub proof fn lemma_rotate_left_ordered<K: Ord, V>(t: Option<Box<AVLTreeNode<K, V>>>)
    requires
        total_order::<K>(),
        link_ordered(t),
    ensures
        link_ordered(rotated_left(t)),
        link_map(rotated_left(t)) == link_map(t),
{
    reveal_with_fuel(link_map, 3);
    reveal_with_fuel(link_ordered, 3);
    if let Some(r) = t {
        if let Some(p) = r.right {
            let ma = link_map(r.left);
            let mb = link_map(p.left);
            let mc = link_map(p.right);
            let t2 = rotated_left(t);
            let nr = t2.unwrap().left;
            assert(link_map(nr) == ma.union_prefer_right(mb).insert(r.key, r.value));
            assert(link_map(r.right).dom().contains(p.key));
            assert(key_lt(r.key, p.key));
            assert forall|k: K| #[trigger] link_map(nr).dom().contains(k) implies key_lt(
                k,
                p.key,
            ) by {
                if ma.dom().contains(k) {
                    assert(key_lt(k, r.key));
                } else if mb.dom().contains(k) {
                    assert(link_map(r.right).dom().contains(k));
                }
            }
            assert forall|k: K| #[trigger] mb.dom().contains(k) implies key_lt(r.key, k) by {
                assert(link_map(r.right).dom().contains(k));
            }
            assert forall|k: K| #[trigger] mc.dom().contains(k) implies key_lt(p.key, k) by {}
            assert forall|k: K| ma.dom().contains(k) implies !mb.dom().contains(k) && !mc.dom().contains(k) && k != p.key by {
                assert(key_lt(k, r.key));
                if mb.dom().contains(k) || mc.dom().contains(k) {
                    assert(link_map(r.right).dom().contains(k));
                    assert(key_lt(r.key, k));
                }
            }
            assert forall|k: K| mb.dom().contains(k) implies !mc.dom().contains(k) && k != p.key && k != r.key by {
                assert(key_lt(k, p.key));
                assert(link_map(r.right).dom().contains(k));
            }
            assert forall|k: K| mc.dom().contains(k) implies k != r.key by {
                assert(link_map(r.right).dom().contains(k));
            }
            assert(link_map(t2) =~= link_map(t));
        }
    }
}

/// A right rotation of an ordered subtree keeps its entries and its order.
pub proof fn lemma_rotate_right_ordered<K: Ord, V>(t: Option<Box<AVLTreeNode<K, V>>>)
    requires
        total_order::<K>(),
        link_ordered(t),
    ensures
        link_ordered(rotated_right(t)),
        link_map(rotated_right(t)) == link_map(t),
{
    reveal_with_fuel(link_map, 3);
    reveal_with_fuel(link_ordered, 3);
    if let Some(r) = t {
        if let Some(p) = r.left {
            let ma = link_map(p.left);
            let mb = link_map(p.right);
            let mc = link_map(r.right);
            let t2 = rotated_right(t);
            let nr = t2.unwrap().right;
            assert(link_map(nr) == mb.union_prefer_right(mc).insert(r.key, r.value));
            assert(link_map(r.left).dom().contains(p.key));
            assert(key_lt(p.key, r.key));
            assert forall|k: K| #[trigger] link_map(nr).dom().contains(k) implies key_lt(
                p.key,
                k,
            ) by {
                if mc.dom().contains(k) {
                    assert(key_lt(r.key, k));
                } else if mb.dom().contains(k) {
                    assert(link_map(r.left).dom().contains(k));
                }
            }
            assert forall|k: K| #[trigger] mb.dom().contains(k) implies key_lt(k, r.key) by {
                assert(link_map(r.left).dom().contains(k));
            }
            assert forall|k: K| #[trigger] ma.dom().contains(k) implies key_lt(k, p.key) by {}
            assert forall|k: K| mc.dom().contains(k) implies !mb.dom().contains(k) && !ma.dom().contains(k) && k != p.key by {
                assert(key_lt(r.key, k));
                if mb.dom().contains(k) || ma.dom().contains(k) {
                    assert(link_map(r.left).dom().contains(k));
                    assert(key_lt(k, r.key));
                }
            }
            assert forall|k: K| mb.dom().contains(k) implies !ma.dom().contains(k) && k != p.key && k != r.key by {
                assert(key_lt(p.key, k));
                assert(link_map(r.left).dom().contains(k));
            }
            assert forall|k: K| ma.dom().contains(k) implies k != r.key by {
                assert(link_map(r.left).dom().contains(k));
            }
            assert(link_map(t2) =~= link_map(t));
        }
    }
}


/// The two subtrees have the same shape: the same keys in the same places,
/// with the same cached heights. Only values may differ.
pub open spec fn same_shape<K, V>(a: Option<Box<AVLTreeNode<K, V>>>, b: Option<Box<AVLTreeNode<K, V>>>) -> bool
    decreases a,
{
    match (a, b) {
        (None, None) => true,
        (Some(x), Some(y)) => {
            &&& x.key == y.key
            &&& x.height == y.height
            &&& same_shape(x.left, y.left)
            &&& same_shape(x.right, y.right)
        },
        _ => false,
    }
}

/// Every subtree has its own shape.
pub proof fn lemma_same_shape_refl<K, V>(t: Option<Box<AVLTreeNode<K, V>>>)
    ensures
        same_shape(t, t),
    decreases t,
{
    if let Some(n) = t {
        lemma_same_shape_refl(n.left);
        lemma_same_shape_refl(n.right);
    }
}

/// In an ordered subtree the keys are distinct, so the node count is the
/// number of entries.
pub proof fn lemma_count_is_len<K: Ord, V>(t: Option<Box<AVLTreeNode<K, V>>>)
    requires
        total_order::<K>(),
        link_ordered(t),
    ensures
        link_map(t).dom().finite(),
        link_map(t).len() == link_count(t),
    decreases t,
{
    if let Some(n) = t {
        lemma_count_is_len(n.left);
        lemma_count_is_len(n.right);
        let dl = link_map(n.left).dom();
        let dr = link_map(n.right).dom();
        assert(dl.disjoint(dr)) by {
            assert forall|k: K| dl.contains(k) implies !dr.contains(k) by {
                assert(key_lt(k, n.key));
                if dr.contains(k) {
                    assert(key_lt(n.key, k));
                }
            }
        }
        lemma_set_disjoint_lens(dl, dr);
        let u = link_map(n.left).union_prefer_right(link_map(n.right));
        assert(u.dom() =~= dl + dr);
        assert(!u.dom().contains(n.key)) by {
            if dl.contains(n.key) {
                assert(key_lt(n.key, n.key));
            }
            if dr.contains(n.key) {
                assert(key_lt(n.key, n.key));
            }
        }
    }
}


/// Keys strictly increase along `s`.
pub open spec fn keys_ascending<K: Ord, V>(s: Seq<(K, V)>) -> bool {
    forall|i: int, j: int| 0 <= i < j < s.len() ==> key_lt(#[trigger] s[i].0, #[trigger] s[j].0)
}

/// `s` lists exactly the entries of `m`: each element is an entry of `m`,
/// and each key of `m` occurs in `s`.
pub open spec fn lists_entries<K, V>(s: Seq<(K, V)>, m: Map<K, V>) -> bool {
    &&& forall|i: int| 0 <= i < s.len() ==> #[trigger] m.dom().contains(s[i].0) && m[s[i].0] == s[i].1
    &&& forall|k: K| #[trigger] m.dom().contains(k) ==> exists|i: int| 0 <= i < s.len() && s[i].0 == k
}

/// The in-order sequence of an ordered subtree lists its entries by
/// ascending key, one element per node.
pub proof fn lemma_inorder_sorted<K: Ord, V>(t: Option<Box<AVLTreeNode<K, V>>>)
    requires
        total_order::<K>(),
        link_ordered(t),
    ensures
        keys_ascending(link_inorder(t)),
        lists_entries(link_inorder(t), link_map(t)),
        link_inorder(t).len() == link_count(t),
    decreases t,
{
    if let Some(n) = t {
        lemma_inorder_sorted(n.left);
        lemma_inorder_sorted(n.right);
        let sl = link_inorder(n.left);
        let sr = link_inorder(n.right);
        let lm = link_map(n.left);
        let rm = link_map(n.right);
        let s = link_inorder(t);
        let m = link_map(t);
        assert(s == sl.push((n.key, n.value)) + sr);
        let p = sl.len() as int;
        assert forall|i: int| 0 <= i < s.len() implies #[trigger] m.dom().contains(s[i].0) && m[s[i].0]
            == s[i].1 by {
            if i < p {
                assert(s[i] == sl[i]);
                assert(lm.dom().contains(sl[i].0));
                assert(key_lt(sl[i].0, n.key));
                if rm.dom().contains(sl[i].0) {
                    assert(key_lt(n.key, sl[i].0));
                }
            } else if i > p {
                assert(s[i] == sr[i - p - 1]);
                assert(rm.dom().contains(sr[i - p - 1].0));
                assert(key_lt(n.key, sr[i - p - 1].0));
            }
        }
        assert forall|k: K| #[trigger] m.dom().contains(k) implies exists|i: int|
            0 <= i < s.len() && s[i].0 == k by {
            if k == n.key {
                assert(s[p].0 == k);
            } else if rm.dom().contains(k) {
                let j = choose|j: int| 0 <= j < sr.len() && sr[j].0 == k;
                assert(s[p + 1 + j] == sr[j]);
            } else {
                assert(lm.dom().contains(k));
                let j = choose|j: int| 0 <= j < sl.len() && sl[j].0 == k;
                assert(s[j] == sl[j]);
            }
        }
        assert forall|i: int, j: int| 0 <= i < j < s.len() implies key_lt(
            #[trigger] s[i].0,
            #[trigger] s[j].0,
        ) by {
            if i < p {
                assert(s[i] == sl[i]);
                assert(lm.dom().contains(sl[i].0));
                if j < p {
                    assert(s[j] == sl[j]);
                } else if j == p {
                } else {
                    assert(s[j] == sr[j - p - 1]);
                    assert(rm.dom().contains(sr[j - p - 1].0));
                    assert(key_lt(sl[i].0, n.key));
                    assert(key_lt(n.key, sr[j - p - 1].0));
                }
            } else if i == p {
                assert(s[j] == sr[j - p - 1]);
                assert(rm.dom().contains(sr[j - p - 1].0));
            } else {
                assert(s[i] == sr[i - p - 1]);
                assert(s[j] == sr[j - p - 1]);
            }
        }
        assert(lists_entries(s, m));
    }
}


/// The nodes of a subtree slot in in-order sequence.
pub open spec fn link_nodes<K, V>(t: Option<Box<AVLTreeNode<K, V>>>) -> Seq<AVLTreeNode<K, V>>
    decreases t,
{
    match t {
        None => Seq::empty(),
        Some(n) => link_nodes(n.left).push(*n) + link_nodes(n.right),
    }
}

/// The in-order nodes carry the in-order entries.
pub proof fn lemma_nodes_carry_entries<K, V>(t: Option<Box<AVLTreeNode<K, V>>>)
    ensures
        link_nodes(t).len() == link_inorder(t).len(),
        forall|i: int|
            0 <= i < link_nodes(t).len() ==> (#[trigger] link_nodes(t)[i].key, link_nodes(t)[i].value)
                == link_inorder(t)[i],
    decreases t,
{
    if let Some(n) = t {
        lemma_nodes_carry_entries(n.left);
        lemma_nodes_carry_entries(n.right);
        let p = link_nodes(n.left).len() as int;
        assert forall|i: int| 0 <= i < link_nodes(t).len() implies (
        #[trigger] link_nodes(t)[i].key, link_nodes(t)[i].value) == link_inorder(t)[i] by {
            if i < p {
                assert(link_nodes(t)[i] == link_nodes(n.left)[i]);
                assert(link_inorder(t)[i] == link_inorder(n.left)[i]);
            } else if i > p {
                assert(link_nodes(t)[i] == link_nodes(n.right)[i - p - 1]);
                assert(link_inorder(t)[i] == link_inorder(n.right)[i - p - 1]);
            }
        }
    }
}


/// Two sequences that both list exactly the entries of `m` by strictly
/// ascending key are the same sequence: the listing of a map in key order
/// is unique.
pub proof fn lemma_sorted_listing_unique<K: Ord, V>(s1: Seq<(K, V)>, s2: Seq<(K, V)>, m: Map<K, V>)
    requires
        total_order::<K>(),
        keys_ascending(s1),
        keys_ascending(s2),
        lists_entries(s1, m),
        lists_entries(s2, m),
    ensures
        s1 == s2,
    decreases s1.len(),
{
    if s1.len() == 0 {
        if s2.len() > 0 {
            assert(m.dom().contains(s2[0].0));
        }
        assert(s1 =~= s2);
    } else {
        assert(m.dom().contains(s1[0].0));
        let j = choose|j: int| 0 <= j < s2.len() && s2[j].0 == s1[0].0;
        assert(m.dom().contains(s2[0].0));
        let i = choose|i: int| 0 <= i < s1.len() && s1[i].0 == s2[0].0;
        if i > 0 && j > 0 {
            assert(key_lt(s1[0].0, s1[i].0));
            assert(key_lt(s2[0].0, s2[j].0));
            lemma_lt_asym(s1[0].0, s2[0].0);
        }
        assert(s1[0].0 == s2[0].0);
        let k = s1[0].0;
        let t1 = s1.drop_first();
        let t2 = s2.drop_first();
        let m2 = m.remove(k);
        assert forall|a: int, b: int| 0 <= a < b < t1.len() implies key_lt(
            #[trigger] t1[a].0,
            #[trigger] t1[b].0,
        ) by {
            assert(t1[a] == s1[a + 1] && t1[b] == s1[b + 1]);
        }
        assert forall|a: int, b: int| 0 <= a < b < t2.len() implies key_lt(
            #[trigger] t2[a].0,
            #[trigger] t2[b].0,
        ) by {
            assert(t2[a] == s2[a + 1] && t2[b] == s2[b + 1]);
        }
        assert forall|a: int| 0 <= a < t1.len() implies #[trigger] m2.dom().contains(t1[a].0)
            && m2[t1[a].0] == t1[a].1 by {
            assert(t1[a] == s1[a + 1]);
            assert(m.dom().contains(s1[a + 1].0));
            assert(key_lt(s1[0].0, s1[a + 1].0));
        }
        assert forall|a: int| 0 <= a < t2.len() implies #[trigger] m2.dom().contains(t2[a].0)
            && m2[t2[a].0] == t2[a].1 by {
            assert(t2[a] == s2[a + 1]);
            assert(m.dom().contains(s2[a + 1].0));
            assert(key_lt(s2[0].0, s2[a + 1].0));
        }
        assert forall|x: K| #[trigger] m2.dom().contains(x) implies exists|a: int|
            0 <= a < t1.len() && t1[a].0 == x by {
            let a = choose|a: int| 0 <= a < s1.len() && s1[a].0 == x;
            assert(a > 0);
            assert(t1[a - 1] == s1[a]);
        }
        assert forall|x: K| #[trigger] m2.dom().contains(x) implies exists|a: int|
            0 <= a < t2.len() && t2[a].0 == x by {
            let a = choose|a: int| 0 <= a < s2.len() && s2[a].0 == x;
            assert(a > 0);
            assert(t2[a - 1] == s2[a]);
        }
        lemma_sorted_listing_unique(t1, t2, m2);
        assert(s1[0] == s2[0]);
        assert(s1 =~= seq![s1[0]] + t1);
        assert(s2 =~= seq![s2[0]] + t2);
    }
}

} // verus!
