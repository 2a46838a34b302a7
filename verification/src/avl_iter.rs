//! In-order traversal of the tree, in two protocols: a borrowing iterator
//! that hands out references and leaves the tree intact, and a consuming
//! iterator that takes the tree apart and hands out owned values.
//!
//! Both keep an explicit stack of pending nodes instead of recursing.  The
//! stack always holds, bottom to top, the nodes whose value and right subtree
//! are still to be visited; the value to emit next sits on top.  The
//! mathematical view of an iterator is [`Iter::remaining`] /
//! [`IntoIter::remaining`], the sequence of values it has yet to yield.

use crate::avl_tree::AVLNode;
use crate::avl_tree::AVLTree;
use vstd::prelude::*;

verus! {

/// What visiting a pending node still yields: its own value, then its right
/// subtree in order.  (A pending node's left subtree is already spread out
/// above it on the stack, so it does not appear.)
pub open spec fn visit(n: AVLNode) -> Seq<i64> {
    seq![n.data] + n.rch.inorder()
}

/// The values a stack of borrowed pending nodes still yields, top first.
pub open spec fn stack_rem<'a>(s: Seq<&'a AVLNode>) -> Seq<i64>
    decreases s.len(),
{
    if s.len() == 0 {
        Seq::empty()
    } else {
        visit(*s.last()) + stack_rem(s.drop_last())
    }
}

/// The values a stack of owned pending nodes still yields, top first.
pub open spec fn stack_rem_own(s: Seq<AVLNode>) -> Seq<i64>
    decreases s.len(),
{
    if s.len() == 0 {
        Seq::empty()
    } else {
        visit(s.last()) + stack_rem_own(s.drop_last())
    }
}

/// The borrowing in-order iterator: never copies values, never changes the
/// tree.
pub struct Iter<'a> {
    pub stack: Vec<&'a AVLNode>,
}

impl<'a> Iter<'a> {
    /// The values not yet yielded, in ascending order for a search tree.
    pub open spec fn remaining(self) -> Seq<i64> {
        stack_rem(self.stack@)
    }

    /// Makes an iterator over nothing.
    pub fn new() -> (it: Self)
        ensures
            it.remaining() == Seq::<i64>::empty(),
    {
        Self::default()
    }

    /// Pushes the root of `t` and then the spine of left children below it,
    /// so that the smallest value of `t` ends up on top of the stack.
    fn push_spine(&mut self, t: &'a AVLTree)
        ensures
            final(self).remaining() == t.inorder() + old(self).remaining(),
    {
        let mut cur: &'a AVLTree = t;
        loop
            invariant
                cur.inorder() + stack_rem(self.stack@) == t.inorder() + stack_rem(
                    old(self).stack@,
                ),
            ensures
                stack_rem(self.stack@) == t.inorder() + stack_rem(old(self).stack@),
            decreases cur,
        {
            match &cur.0 {
                None => {
                    proof {
                        assert(cur.inorder() =~= Seq::<i64>::empty());
                        assert(cur.inorder() + stack_rem(self.stack@) =~= stack_rem(self.stack@));
                    }
                    break ;
                },
                Some(b) => {
                    let node: &'a AVLNode = &**b;
                    let ghost prev = self.stack@;
                    self.stack.push(node);
                    proof {
                        assert(self.stack@.drop_last() =~= prev);
                        assert(stack_rem(self.stack@) == visit(*node) + stack_rem(prev));
                        assert(cur.inorder() =~= node.lch.inorder() + visit(*node));
                        assert(node.lch.inorder() + (visit(*node) + stack_rem(prev)) =~= (
                        node.lch.inorder() + visit(*node)) + stack_rem(prev));
                    }
                    cur = &node.lch;
                },
            }
        }
    }

    /// Yields a reference to the next value in ascending order, or nothing
    /// once the traversal is exhausted.
    pub fn next(&mut self) -> (r: Option<&'a i64>)
        ensures
            old(self).remaining().len() == 0 ==> r is None && final(self).remaining()
                == old(self).remaining(),
            old(self).remaining().len() > 0 ==> (r matches Some(v)
                && *v == old(self).remaining()[0] && final(self).remaining()
                == old(self).remaining().drop_first()),
    {
        proof {
            if old(self).stack@.len() > 0 {
                assert(old(self).remaining() == visit(*old(self).stack@.last()) + stack_rem(
                    old(self).stack@.drop_last(),
                ));
            }
        }
        let popped = self.stack.pop();
        match popped {
            None => None,
            Some(node) => {
                proof {
                    assert(self.stack@ =~= old(self).stack@.drop_last());
                }
                self.push_spine(&node.rch);
                proof {
                    let rest = old(self).stack@.drop_last();
                    assert(old(self).remaining() == (seq![node.data] + node.rch.inorder())
                        + stack_rem(rest));
                    assert(old(self).remaining().drop_first() =~= node.rch.inorder() + stack_rem(
                        rest,
                    ));
                }
                Some(&node.data)
            },
        }
    }
}

impl<'a> Default for Iter<'a> {
    /// The default iterator has nothing to yield.
    fn default() -> (it: Self)
        ensures
            it.remaining() == Seq::<i64>::empty(),
    {
        let it = Iter { stack: Vec::new() };
        proof {
            assert(it.remaining() =~= Seq::<i64>::empty());
        }
        it
    }
}

impl AVLTree {
    /// A borrowing iterator positioned at the smallest value of the tree.
    pub fn iter<'a>(&'a self) -> (it: Iter<'a>)
        ensures
            it.remaining() == self.inorder(),
    {
        let mut it = Iter::new();
        it.push_spine(self);
        proof {
            assert(self.inorder() + Seq::<i64>::empty() =~= self.inorder());
        }
        it
    }
}

/// The consuming in-order iterator: owns what is left of the tree and hands
/// the values out by value.  Building it moves the whole tree in, so the tree
/// is gone afterwards.
pub struct IntoIter {
    pub stack: Vec<AVLNode>,
}

impl IntoIter {
    /// The values not yet yielded, in ascending order for a search tree.
    pub open spec fn remaining(self) -> Seq<i64> {
        stack_rem_own(self.stack@)
    }

    /// Takes ownership of a whole tree and yields its values in ascending
    /// order.
    pub fn new(tree: AVLTree) -> (it: Self)
        ensures
            it.remaining() == tree.inorder(),
    {
        let mut it = IntoIter { stack: Vec::new() };
        proof {
            assert(it.remaining() =~= Seq::<i64>::empty());
        }
        let AVLTree(root) = tree;
        it.push_left(root);
        proof {
            assert(tree.inorder() + Seq::<i64>::empty() =~= tree.inorder());
        }
        it
    }

    /// Detaches every node on the spine of left children below `node` and
    /// pushes it, leftmost on top.
    fn push_left(&mut self, node: Option<Box<AVLNode>>)
        ensures
            final(self).remaining() == AVLTree(node).inorder() + old(self).remaining(),
    {
        let ghost start = node;
        let mut node = node;
        loop
            invariant
                AVLTree(node).inorder() + stack_rem_own(self.stack@) == AVLTree(start).inorder()
                    + stack_rem_own(old(self).stack@),
            ensures
                stack_rem_own(self.stack@) == AVLTree(start).inorder() + stack_rem_own(
                    old(self).stack@,
                ),
            decreases node,
        {
            let ghost entry = node;
            match node {
                None => {
                    proof {
                        assert(AVLTree(None::<Box<AVLNode>>).inorder() + stack_rem_own(self.stack@)
                            =~= stack_rem_own(self.stack@));
                    }
                    break ;
                },
                Some(mut boxed) => {
                    let ghost whole = *boxed;
                    let left = boxed.lch.0.take();
                    let ghost prev = self.stack@;
                    self.stack.push(*boxed);
                    proof {
                        assert(self.stack@.drop_last() =~= prev);
                        assert(self.stack@.last() == (AVLNode { lch: AVLTree(None), ..whole }));
                        assert(visit(self.stack@.last()) == visit(whole));
                        assert(stack_rem_own(self.stack@) == visit(whole) + stack_rem_own(prev));
                        assert(AVLTree(entry).inorder() == whole.lch.inorder() + seq![whole.data]
                            + whole.rch.inorder());
                        assert(AVLTree(left) == whole.lch);
                        assert((whole.lch.inorder() + seq![whole.data] + whole.rch.inorder())
                            + stack_rem_own(prev) =~= whole.lch.inorder() + ((seq![whole.data]
                            + whole.rch.inorder()) + stack_rem_own(prev)));
                    }
                    node = left;
                },
            }
        }
    }

    /// Yields the next value in ascending order by value, or nothing once
    /// the tree has been consumed entirely.
    pub fn next(&mut self) -> (r: Option<i64>)
        ensures
            old(self).remaining().len() == 0 ==> r is None && final(self).remaining()
                == old(self).remaining(),
            old(self).remaining().len() > 0 ==> (r == Some(old(self).remaining()[0])
                && final(self).remaining() == old(self).remaining().drop_first()),
    {
        proof {
            if old(self).stack@.len() > 0 {
                assert(old(self).remaining() == visit(old(self).stack@.last()) + stack_rem_own(
                    old(self).stack@.drop_last(),
                ));
            }
        }
        let popped = self.stack.pop();
        match popped {
            None => None,
            Some(mut node) => {
                let ghost whole = node;
                proof {
                    assert(self.stack@ =~= old(self).stack@.drop_last());
                }
                let right = node.rch.0.take();
                self.push_left(right);
                proof {
                    let rest = old(self).stack@.drop_last();
                    assert(old(self).remaining() == (seq![whole.data] + whole.rch.inorder())
                        + stack_rem_own(rest));
                    assert(old(self).remaining().drop_first() =~= whole.rch.inorder()
                        + stack_rem_own(rest));
                }
                Some(node.data)
            },
        }
    }
}

} // verus!
