//! In-order traversal: borrowed iteration with a projection of each node,
//! and consuming iteration that hands out owned entries.
use vstd::prelude::*;
use crate::node::{AVLTreeNode, link_inorder, link_nodes};

verus! {

/// Projects a node to its key and value.
pub fn get_key_value<K, V>(node: &AVLTreeNode<K, V>) -> (r: (&K, &V))
    ensures
        *r.0 == node.key,
        *r.1 == node.value,
{
    (&node.key, &node.value)
}

/// Projects a node to its key.
pub fn get_key<K, V>(node: &AVLTreeNode<K, V>) -> (r: &K)
    ensures
        *r == node.key,
{
    &node.key
}

/// Projects a node to its value.
pub fn get_value<K, V>(node: &AVLTreeNode<K, V>) -> (r: &V)
    ensures
        *r == node.value,
{
    &node.value
}

/// Projects a node to itself.
pub fn get_node<K, V>(node: &AVLTreeNode<K, V>) -> (r: &AVLTreeNode<K, V>)
    ensures
        *r == *node,
{
    node
}

/// The nodes still to visit, given a stack whose top is the next node:
/// each stacked node is followed by its right subtree, then by what lies
/// below it on the stack. (The left subtrees of stacked nodes have already
/// been visited.)
pub open spec fn stack_nodes<'a, K, V>(stack: Seq<&'a AVLTreeNode<K, V>>) -> Seq<AVLTreeNode<K, V>>
    decreases stack.len(),
{
    if stack.len() == 0 {
        Seq::empty()
    } else {
        let top = stack.last();
        seq![*top] + link_nodes(top.right) + stack_nodes(stack.drop_last())
    }
}

/// How a walk turns each visited node into the item it hands out.
pub trait NodeProjection<'a, K: 'a, V: 'a> {
    type Item;

    /// `item` is what the projection makes of node `n`.
    spec fn projects(n: AVLTreeNode<K, V>, item: Self::Item) -> bool;

    fn project(&self, n: &'a AVLTreeNode<K, V>) -> (r: Self::Item)
        ensures
            Self::projects(*n, r),
    ;
}

/// Projects each node to its key and value.
pub struct KeyValueProjection;

/// Projects each node to its key.
pub struct KeyProjection;

/// Projects each node to its value.
pub struct ValueProjection;

/// Projects each node to itself.
pub struct NodeItself;

impl<'a, K: 'a, V: 'a> NodeProjection<'a, K, V> for KeyValueProjection {
    type Item = (&'a K, &'a V);

    open spec fn projects(n: AVLTreeNode<K, V>, item: (&'a K, &'a V)) -> bool {
        *item.0 == n.key && *item.1 == n.value
    }

    fn project(&self, n: &'a AVLTreeNode<K, V>) -> (r: (&'a K, &'a V)) {
        get_key_value(n)
    }
}

impl<'a, K: 'a, V: 'a> NodeProjection<'a, K, V> for KeyProjection {
    type Item = &'a K;

    open spec fn projects(n: AVLTreeNode<K, V>, item: &'a K) -> bool {
        *item == n.key
    }

    fn project(&self, n: &'a AVLTreeNode<K, V>) -> (r: &'a K) {
        get_key(n)
    }
}

impl<'a, K: 'a, V: 'a> NodeProjection<'a, K, V> for ValueProjection {
    type Item = &'a V;

    open spec fn projects(n: AVLTreeNode<K, V>, item: &'a V) -> bool {
        *item == n.value
    }

    fn project(&self, n: &'a AVLTreeNode<K, V>) -> (r: &'a V) {
        get_value(n)
    }
}

impl<'a, K: 'a, V: 'a> NodeProjection<'a, K, V> for NodeItself {
    type Item = &'a AVLTreeNode<K, V>;

    open spec fn projects(n: AVLTreeNode<K, V>, item: &'a AVLTreeNode<K, V>) -> bool {
        *item == n
    }

    fn project(&self, n: &'a AVLTreeNode<K, V>) -> (r: &'a AVLTreeNode<K, V>) {
        get_node(n)
    }
}

/// A lazy in-order walk over borrowed nodes, handing out what
/// `get_item_func` makes of each. The tree cannot change while the walk
/// borrows it.
///
/// The stack holds the next node on top, and below it the ancestors in
/// whose left subtree the walk still is. The successor of a node is thus
/// found as usual: the leftmost descendant of its right child if it has
/// one (its left spine is pushed), otherwise the nearest ancestor of which
/// it lies in the left subtree (the next one on the stack).
pub struct AvlTreeIterator<'a, K, V, P> {
    stack: Vec<&'a AVLTreeNode<K, V>>,
    get_item_func: P,
}

/// A walk yielding key and value.
pub type AvlTreeKeyValueIterator<'a, K, V> = AvlTreeIterator<'a, K, V, KeyValueProjection>;

/// A walk yielding keys.
pub type AvlTreeKeyIterator<'a, K, V> = AvlTreeIterator<'a, K, V, KeyProjection>;

/// A walk yielding values.
pub type AvlTreeValueIterator<'a, K, V> = AvlTreeIterator<'a, K, V, ValueProjection>;

/// A walk yielding the nodes themselves.
pub type AvlTreeNodeIterator<'a, K, V> = AvlTreeIterator<'a, K, V, NodeItself>;

impl<'a, K, V, P: NodeProjection<'a, K, V>> AvlTreeIterator<'a, K, V, P> {
    /// The nodes the walk has yet to visit, in order.
    pub closed spec fn remaining(&self) -> Seq<AVLTreeNode<K, V>> {
        stack_nodes(self.stack@)
    }

    /// Pushes `node` and its chain of left descendants, so that the leftmost
    /// node of the subtree ends on top.
    fn push_left_chain(stack: &mut Vec<&'a AVLTreeNode<K, V>>, node: &'a Option<Box<AVLTreeNode<K, V>>>)
        ensures
            stack_nodes(final(stack)@) == link_nodes(*node) + stack_nodes(old(stack)@),
    {
        let mut current = node;
        loop
            invariant
                link_nodes(*current) + stack_nodes(stack@) == link_nodes(*node) + stack_nodes(
                    old(stack)@,
                ),
            decreases *current,
        {
            match current {
                None => {
                    proof {
                        assert(link_nodes(*current) + stack_nodes(stack@) =~= stack_nodes(stack@));
                    }
                    return ;
                },
                Some(n) => {
                    let ghost before = stack@;
                    stack.push(&**n);
                    proof {
                        assert(stack@.drop_last() == before);
                        assert(link_nodes(n.left) + stack_nodes(stack@) =~= link_nodes(*current)
                            + stack_nodes(before));
                    }
                    current = &n.left;
                },
            }
        }
    }

    /// A walk over the subtree `root`, starting at its leftmost node.
    pub fn new(root: &'a Option<Box<AVLTreeNode<K, V>>>, get_item_func: P) -> (r: Self)
        ensures
            r.remaining() == link_nodes(*root),
    {
        let mut stack: Vec<&'a AVLTreeNode<K, V>> = Vec::new();
        proof {
            assert(stack_nodes(stack@) =~= Seq::<AVLTreeNode<K, V>>::empty());
        }
        Self::push_left_chain(&mut stack, root);
        proof {
            assert(link_nodes(*root) + Seq::<AVLTreeNode<K, V>>::empty() =~= link_nodes(*root));
        }
        AvlTreeIterator { stack, get_item_func }
    }

    /// The item for the next node in order; the walk then moves on to that
    /// node's in-order successor. `None` once every node has been visited.
    pub fn next(&mut self) -> (r: Option<P::Item>)
        ensures
            old(self).remaining().len() == 0 ==> r is None && final(self).remaining() == old(
                self,
            ).remaining(),
            old(self).remaining().len() > 0 ==> r is Some && P::projects(
                old(self).remaining()[0],
                r.unwrap(),
            ) && final(self).remaining() == old(self).remaining().drop_first(),
    {
        match self.stack.pop() {
            None => None,
            Some(top) => {
                let ghost rest = self.stack@;
                Self::push_left_chain(&mut self.stack, &top.right);
                proof {
                    assert(old(self).stack@.drop_last() == rest);
                    assert(old(self).remaining() == seq![*top] + link_nodes(top.right)
                        + stack_nodes(rest));
                    assert(old(self).remaining().drop_first() =~= link_nodes(top.right)
                        + stack_nodes(rest));
                }
                Some(self.get_item_func.project(top))
            },
        }
    }

    /// Runs the walk to the end and gathers the items, in order.
    pub fn collect(self) -> (r: Vec<P::Item>)
        ensures
            r@.len() == self.remaining().len(),
            forall|i: int| 0 <= i < r@.len() ==> P::projects(self.remaining()[i], #[trigger] r@[i]),
    {
        let mut walk = self;
        let mut out: Vec<P::Item> = Vec::new();
        loop
            invariant
                out@.len() <= self.remaining().len(),
                walk.remaining() == self.remaining().subrange(
                    out@.len() as int,
                    self.remaining().len() as int,
                ),
                forall|i: int|
                    0 <= i < out@.len() ==> P::projects(self.remaining()[i], #[trigger] out@[i]),
            decreases walk.remaining().len(),
        {
            let ghost before = walk.remaining();
            match walk.next() {
                None => {
                    return out;
                },
                Some(item) => {
                    let ghost old_out = out@;
                    out.push(item);
                    proof {
                        assert forall|i: int| 0 <= i < out@.len() implies P::projects(
                            self.remaining()[i],
                            #[trigger] out@[i],
                        ) by {
                            if i < old_out.len() {
                                assert(out@[i] == old_out[i]);
                            }
                        }
                        assert(walk.remaining() =~= self.remaining().subrange(
                            out@.len() as int,
                            self.remaining().len() as int,
                        ));
                    }
                },
            }
        }
    }
}

/// The entries still to hand out, given a stack of detached nodes whose
/// top is the next one: each stacked node's entry is followed by its right
/// subtree's entries, then by what lies below it on the stack. (Stacked
/// nodes have had their left subtrees taken away and handed out first.)
pub open spec fn owned_stack_entries<K, V>(stack: Seq<Box<AVLTreeNode<K, V>>>) -> Seq<(K, V)>
    decreases stack.len(),
{
    if stack.len() == 0 {
        Seq::empty()
    } else {
        let top = stack.last();
        seq![(top.key, top.value)] + link_inorder(top.right) + owned_stack_entries(
            stack.drop_last(),
        )
    }
}

/// A consuming in-order walk: it owns the nodes not yet handed out and
/// releases each one as its entry is returned.
pub struct AvlTreeOwnedIterator<K, V> {
    stack: Vec<Box<AVLTreeNode<K, V>>>,
}

impl<K, V> AvlTreeOwnedIterator<K, V> {
    /// The entries the walk has yet to hand out, in order.
    pub closed spec fn remaining(&self) -> Seq<(K, V)> {
        owned_stack_entries(self.stack@)
    }

    /// Takes ownership of `node` and its chain of left descendants, detaching
    /// each from its left child, so that the leftmost node ends on top.
    fn push_left_chain(stack: &mut Vec<Box<AVLTreeNode<K, V>>>, node: Option<Box<AVLTreeNode<K, V>>>)
        ensures
            owned_stack_entries(final(stack)@) == link_inorder(node) + owned_stack_entries(
                old(stack)@,
            ),
    {
        let mut current = node;
        loop
            invariant
                link_inorder(current) + owned_stack_entries(stack@) == link_inorder(node)
                    + owned_stack_entries(old(stack)@),
            decreases current,
        {
            match current {
                None => {
                    proof {
                        assert(link_inorder(current) + owned_stack_entries(stack@)
                            =~= owned_stack_entries(stack@));
                    }
                    return ;
                },
                Some(mut n) => {
                    let ghost n0 = *n;
                    let ghost before = stack@;
                    current = n.left.take();
                    stack.push(n);
                    proof {
                        assert(stack@.drop_last() == before);
                        assert(link_inorder(current) + owned_stack_entries(stack@) =~= link_inorder(
                            Some(Box::new(n0)),
                        ) + owned_stack_entries(before));
                    }
                },
            }
        }
    }

    /// A walk that takes ownership of the subtree `root`.
    pub fn new(root: Option<Box<AVLTreeNode<K, V>>>) -> (r: Self)
        ensures
            r.remaining() == link_inorder(root),
    {
        let mut stack: Vec<Box<AVLTreeNode<K, V>>> = Vec::new();
        let ghost root0 = root;
        Self::push_left_chain(&mut stack, root);
        proof {
            assert(link_inorder(root0) + owned_stack_entries(Seq::<Box<AVLTreeNode<K, V>>>::empty())
                =~= link_inorder(root0));
        }
        AvlTreeOwnedIterator { stack }
    }

    /// The next entry in order, now owned by the caller; `None` once all
    /// have been handed out.
    pub fn next(&mut self) -> (r: Option<(K, V)>)
        ensures
            old(self).remaining().len() == 0 ==> r is None && final(self).remaining() == old(
                self,
            ).remaining(),
            old(self).remaining().len() > 0 ==> r == Some(old(self).remaining()[0])
                && final(self).remaining() == old(self).remaining().drop_first(),
    {
        match self.stack.pop() {
            None => None,
            Some(mut top) => {
                let ghost rest = self.stack@;
                let ghost top0 = top;
                let right = top.right.take();
                Self::push_left_chain(&mut self.stack, right);
                proof {
                    assert(old(self).stack@.drop_last() == rest);
                    assert(old(self).remaining() == seq![(top0.key, top0.value)] + link_inorder(
                        top0.right,
                    ) + owned_stack_entries(rest));
                    assert(old(self).remaining().drop_first() =~= link_inorder(top0.right)
                        + owned_stack_entries(rest));
                }
                Some((top.key, top.value))
            },
        }
    }

    /// Runs the walk to the end and gathers the remaining entries, in order.
    pub fn collect(self) -> (r: Vec<(K, V)>)
        ensures
            r@ == self.remaining(),
    {
        let mut walk = self;
        let mut out: Vec<(K, V)> = Vec::new();
        loop
            invariant
                out@ + walk.remaining() == self.remaining(),
            decreases walk.remaining().len(),
        {
            let ghost before = walk.remaining();
            match walk.next() {
                None => {
                    proof {
                        assert(out@ + walk.remaining() =~= out@);
                    }
                    return out;
                },
                Some(entry) => {
                    let ghost old_out = out@;
                    out.push(entry);
                    proof {
                        assert(out@ + walk.remaining() =~= old_out + before);
                    }
                },
            }
        }
    }
}

} // verus!
