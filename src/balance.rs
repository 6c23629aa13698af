//! The balancer: rebalancing a subtree whose children differ in height by
//! up to two, and the bound that keeps AVL heights logarithmic.
use vstd::prelude::*;
use crate::order::total_order;
use crate::node::{
    AVLTreeNode, big_left_rotation_fits, big_right_rotation_fits, lemma_rotate_left_inorder,
    lemma_rotate_left_ordered, lemma_rotate_right_inorder, lemma_rotate_right_ordered,
    left_child_rotated_left, link_avl, rotated_left, rotated_right, link_balanced, link_count, link_height, link_heights_ok,
    link_inorder, link_map, link_ordered, max_nat, right_child_rotated_right,
};
use vstd::arithmetic::power::lemma_pow0;
use vstd::arithmetic::power2::{lemma2_to64, lemma_pow2_unfold, pow2};

verus! {

/// The subtree that `AVLTreeNode::rebalance` makes of `t`: the root's
/// height recomputed; then, when the right side is two levels higher, a
/// left rotation, preceded by a right rotation of the right child when that
/// child leans left; the mirror image when the left side is two higher;
/// otherwise nothing more.
pub open spec fn rebalanced<K, V>(t: Option<Box<AVLTreeNode<K, V>>>) -> Option<
    Box<AVLTreeNode<K, V>>,
> {
    match t {
        None => None,
        Some(n) => {
            let hl = link_height(n.left);
            let hr = link_height(n.right);
            let m = Some(
                Box::new(
                    AVLTreeNode {
                        key: n.key,
                        value: n.value,
                        left: n.left,
                        right: n.right,
                        height: (1 + max_nat(hl, hr)) as u32,
                    },
                ),
            );
            if hr == hl + 2 {
                let c = n.right.unwrap();
                if link_height(c.left) == link_height(c.right) + 1 {
                    rotated_left(right_child_rotated_right(m))
                } else {
                    rotated_left(m)
                }
            } else if hl == hr + 2 {
                let c = n.left.unwrap();
                if link_height(c.right) == link_height(c.left) + 1 {
                    rotated_right(left_child_rotated_left(m))
                } else {
                    rotated_right(m)
                }
            } else {
                m
            }
        },
    }
}

/// The larger cached height of the root's two children.
pub open spec fn children_max_height<K, V>(t: Option<Box<AVLTreeNode<K, V>>>) -> nat {
    match t {
        Some(n) => max_nat(link_height(n.left), link_height(n.right)),
        None => 0,
    }
}

/// The root's children are AVL subtrees whose heights differ by at most
/// `d`, and are small enough for rotations to compute heights in `u32`.
pub open spec fn children_avl_within<K: Ord, V>(t: Option<Box<AVLTreeNode<K, V>>>, d: nat) -> bool {
    match t {
        Some(n) => {
            &&& link_ordered(t)
            &&& link_avl(n.left)
            &&& link_avl(n.right)
            &&& link_height(n.left) <= link_height(n.right) + d
            &&& link_height(n.right) <= link_height(n.left) + d
            &&& link_height(n.left) < 0x4000_0000
            &&& link_height(n.right) < 0x4000_0000
        },
        None => false,
    }
}

impl<K: Ord, V> AVLTreeNode<K, V> {
    /// Recomputes the root's height and, when its balance factor is 2 or -2,
    /// rotates: toward the taller side's child balance factor it picks the
    /// single rotation (child balanced or leaning the same way) or the
    /// double one (child leaning the other way).
    pub fn rebalance(node: &mut Option<Box<AVLTreeNode<K, V>>>)
        requires
            total_order::<K>(),
            children_avl_within(*old(node), 2),
        ensures
            *final(node) == rebalanced(*old(node)),
            *final(node) is Some,
            link_avl(*final(node)),
            link_map(*final(node)) == link_map(*old(node)),
            link_inorder(*final(node)) == link_inorder(*old(node)),
            link_count(*final(node)) == link_count(*old(node)),
            children_max_height(*old(node)) <= link_height(*final(node)) <= children_max_height(
                *old(node),
            ) + 1,
            children_avl_within(*old(node), 1) ==> link_height(*final(node)) == 1
                + children_max_height(*old(node)),
            children_avl_within(*old(node), 1) ==> {
                let (a, b) = ((*final(node)).unwrap(), (*old(node)).unwrap());
                a.key == b.key && a.value == b.value && a.left == b.left && a.right == b.right
            },
    {
        proof {
            reveal_with_fuel(link_heights_ok, 3);
            reveal_with_fuel(link_balanced, 3);
        }
        let mut n = node.take().unwrap();
        n.update_height();
        let bf = n.balance_factor();
        if bf == -2 {
            let child_bf = match &n.right {
                Some(c) => c.balance_factor(),
                None => 0,
            };
            *node = Some(n);
            let ghost t0 = *node;
            if child_bf == 1 {
                Self::big_rotate_left(node);
                proof {
                    let r = t0.unwrap();
                    lemma_rotate_right_ordered(r.right);
                    lemma_rotate_right_inorder(r.right);
                    let t1 = right_child_rotated_right(t0);
                    assert(link_map(t1) == link_map(t0));
                    assert(link_inorder(t1) == link_inorder(t0));
                    lemma_rotate_left_ordered(t1);
                    lemma_rotate_left_inorder(t1);
                }
            } else {
                Self::rotate_left(node);
                proof {
                    lemma_rotate_left_ordered(t0);
                    lemma_rotate_left_inorder(t0);
                }
            }
        } else if bf == 2 {
            let child_bf = match &n.left {
                Some(c) => c.balance_factor(),
                None => 0,
            };
            *node = Some(n);
            let ghost t0 = *node;
            if child_bf == -1 {
                Self::big_rotate_right(node);
                proof {
                    let r = t0.unwrap();
                    lemma_rotate_left_ordered(r.left);
                    lemma_rotate_left_inorder(r.left);
                    let t1 = left_child_rotated_left(t0);
                    assert(link_map(t1) == link_map(t0));
                    assert(link_inorder(t1) == link_inorder(t0));
                    lemma_rotate_right_ordered(t1);
                    lemma_rotate_right_inorder(t1);
                }
            } else {
                Self::rotate_right(node);
                proof {
                    lemma_rotate_right_ordered(t0);
                    lemma_rotate_right_inorder(t0);
                }
            }
        } else {
            *node = Some(n);
        }
    }
}

/// Fewest nodes that an AVL subtree of height `h` can have.
pub open spec fn avl_min_count(h: nat) -> nat
    decreases h,
{
    if h == 0 {
        0
    } else if h == 1 {
        1
    } else {
        avl_min_count((h - 1) as nat) + avl_min_count((h - 2) as nat) + 1
    }
}

proof fn lemma_min_count_mono(a: nat, b: nat)
    requires
        a <= b,
    ensures
        avl_min_count(a) <= avl_min_count(b),
    decreases b,
{
    if a < b {
        lemma_min_count_mono(a, (b - 1) as nat);
    }
}

/// A balanced subtree with correct heights has at least
/// `avl_min_count(height)` nodes.
pub proof fn lemma_avl_min_count<K, V>(t: Option<Box<AVLTreeNode<K, V>>>)
    requires
        link_heights_ok(t),
        link_balanced(t),
    ensures
        link_count(t) >= avl_min_count(link_height(t)),
    decreases t,
{
    if let Some(n) = t {
        lemma_avl_min_count(n.left);
        lemma_avl_min_count(n.right);
        let h = link_height(t);
        let hl = link_height(n.left);
        let hr = link_height(n.right);
        if h >= 2 {
            if hl >= hr {
                lemma_min_count_mono((h - 2) as nat, hr);
            } else {
                lemma_min_count_mono((h - 2) as nat, hl);
            }
        }
    }
}

proof fn lemma_min_count_doubles(k: nat)
    ensures
        avl_min_count(2 * k) + 1 >= pow2(k),
    decreases k,
{
    if k == 0 {
        assert(pow2(0) == 1) by {
            lemma_pow0(2);
        }
    } else {
        lemma_min_count_doubles((k - 1) as nat);
        lemma_min_count_mono((2 * k - 2) as nat, (2 * k - 1) as nat);
        lemma_pow2_unfold(k);
    }
}

/// An AVL subtree whose node count fits in `usize` is less than 130 high:
/// the height grows with the logarithm of the size.
pub proof fn lemma_avl_height_bound<K, V>(t: Option<Box<AVLTreeNode<K, V>>>)
    requires
        link_heights_ok(t),
        link_balanced(t),
        link_count(t) <= usize::MAX,
    ensures
        link_height(t) < 130,
{
    lemma_avl_min_count(t);
    if link_height(t) >= 130 {
        lemma_min_count_mono(130, link_height(t));
        lemma_min_count_mono(128, 129);
        lemma_min_count_doubles(64);
        lemma2_to64();
        assert(avl_min_count(130) == avl_min_count(129) + avl_min_count(128) + 1);
    }
}


} // verus!
