//! A self-balancing ordered binary search tree over `i64` keys.
//!
//! Every node caches the height of the subtree rooted at it (0 for a leaf;
//! an absent subtree counts as -1), and after each insertion the tree
//! re-derives, bottom-up on the insertion path, whether a single rotation is
//! needed at that level.  The tree is a set: inserting a value that is
//! already present leaves the tree untouched.
//!
//! The mathematical model of a tree is its in-order value sequence
//! [`AVLTree::inorder`]; well-formedness [`AVLTree::wf`] states the search
//! order and the correctness of every cached height.

use vstd::math::max;
use vstd::prelude::*;
use vstd::string::StringExecFns;

verus! {

broadcast use
    vstd::seq_lib::lemma_seq_concat_contains_all_elements,
    vstd::seq_lib::lemma_seq_empty_contains_nothing,
    vstd::prelude::Seq::lemma_index_contains,
;

/// One node of the tree: a payload, the cached height of the subtree rooted
/// here, and the two child subtrees, exclusively owned.
#[derive(Debug)]
pub struct AVLNode {
    pub data: i64,
    pub height: isize,
    pub lch: AVLTree,
    pub rch: AVLTree,
}

/// Which rotation, if any, a node needs in order to restore balance.
#[derive(Debug)]
pub enum RotMod {
    LeftRot,
    RightRot,
    NotRot,
}

/// A tree: an optional owned root node.
#[derive(Debug)]
pub struct AVLTree(pub Option<Box<AVLNode>>);

impl AVLTree {
    /// The in-order value sequence: left subtree, then the node, then the
    /// right subtree.  For a search tree this lists the values in ascending
    /// order.
    pub open spec fn inorder(self) -> Seq<i64>
        decreases self,
    {
        match self.0 {
            None => Seq::empty(),
            Some(n) => n.inorder_n(),
        }
    }

    /// The true height of the tree: -1 when empty, otherwise one more than
    /// the taller child.
    pub open spec fn hgt(self) -> int
        decreases self,
    {
        match self.0 {
            None => -1,
            Some(n) => n.hgt_n(),
        }
    }

    /// The height as the structure itself records it: -1 when empty,
    /// otherwise the root's cached `height` field.
    pub open spec fn sh(self) -> int {
        match self.0 {
            None => -1,
            Some(n) => n.height as int,
        }
    }

    /// Every cached `height` field equals the true height of its subtree.
    pub open spec fn heights_ok(self) -> bool
        decreases self,
    {
        match self.0 {
            None => true,
            Some(n) => n.hok_n(),
        }
    }

    /// The search order: at every node, all values to the left are smaller
    /// and all values to the right are larger.
    pub open spec fn bst_ok(self) -> bool
        decreases self,
    {
        match self.0 {
            None => true,
            Some(n) => n.bst_n(),
        }
    }

    /// Well-formedness: the search order holds and every cached height is
    /// correct.
    pub open spec fn wf(self) -> bool {
        self.bst_ok() && self.heights_ok()
    }

    /// The heights of the two children of every node differ by at most 1.
    pub open spec fn balanced(self) -> bool
        decreases self,
    {
        match self.0 {
            None => true,
            Some(n) => n.balanced_n(),
        }
    }

    /// The balance factor of the root: left height minus right height
    /// (0 for an empty tree).
    pub open spec fn bal(self) -> int {
        match self.0 {
            None => 0,
            Some(n) => n.lch.hgt() - n.rch.hgt(),
        }
    }
}

impl AVLNode {
    /// The in-order sequence of the subtree rooted at this node.
    pub open spec fn inorder_n(self) -> Seq<i64>
        decreases self,
    {
        self.lch.inorder() + seq![self.data] + self.rch.inorder()
    }

    /// The true height of the subtree rooted at this node.
    pub open spec fn hgt_n(self) -> int
        decreases self,
    {
        1 + max(self.lch.hgt(), self.rch.hgt())
    }

    /// The balance factor: left height minus right height.
    pub open spec fn bal_n(self) -> int {
        self.lch.hgt() - self.rch.hgt()
    }

    /// The search order at and below this node.
    pub open spec fn bst_n(self) -> bool
        decreases self,
    {
        &&& all_below(self.lch.inorder(), self.data)
        &&& all_above(self.rch.inorder(), self.data)
        &&& self.lch.bst_ok()
        &&& self.rch.bst_ok()
    }

    /// Both child subtrees carry correct cached heights.
    pub open spec fn kids_ok(self) -> bool {
        self.lch.heights_ok() && self.rch.heights_ok()
    }

    /// The cached heights at and below this node are correct.
    pub open spec fn hok_n(self) -> bool
        decreases self,
    {
        self.height as int == self.hgt_n() && self.lch.heights_ok() && self.rch.heights_ok()
    }

    /// The subtree rooted at this node meets the balance bound everywhere.
    pub open spec fn balanced_n(self) -> bool
        decreases self,
    {
        -1 <= self.bal_n() <= 1 && self.lch.balanced() && self.rch.balanced()
    }
}

/// The rotation that the cached child heights of a node call for: a right
/// rotation when the left side is higher by more than 1, a left rotation when
/// the right side is, and none otherwise.
pub open spec fn spec_rot_mod(n: AVLNode) -> RotMod {
    if n.lch.sh() - n.rch.sh() > 1 {
        RotMod::RightRot
    } else if n.rch.sh() - n.lch.sh() > 1 {
        RotMod::LeftRot
    } else {
        RotMod::NotRot
    }
}

/// The left rotation as a function on nodes: without a right child the node
/// is unchanged; otherwise the right child becomes the root, the old root
/// becomes its left child and adopts the right child's former left subtree,
/// and the heights of the demoted root and then the new root are recomputed
/// from the cached child heights.
pub open spec fn spec_rot_left_n(n: AVLNode) -> AVLNode {
    match n.rch.0 {
        None => n,
        Some(rb) => {
            let moved = AVLNode {
                data: n.data,
                height: (1 + max(n.lch.sh(), rb.lch.sh())) as isize,
                lch: n.lch,
                rch: rb.lch,
            };
            let new_left = AVLTree(Some(Box::new(moved)));
            AVLNode {
                data: rb.data,
                height: (1 + max(new_left.sh(), rb.rch.sh())) as isize,
                lch: new_left,
                rch: rb.rch,
            }
        },
    }
}

/// The right rotation as a function on nodes, the mirror image of
/// [`spec_rot_left_n`].
pub open spec fn spec_rot_right_n(n: AVLNode) -> AVLNode {
    match n.lch.0 {
        None => n,
        Some(lb) => {
            let moved = AVLNode {
                data: n.data,
                height: (1 + max(lb.rch.sh(), n.rch.sh())) as isize,
                lch: lb.rch,
                rch: n.rch,
            };
            let new_right = AVLTree(Some(Box::new(moved)));
            AVLNode {
                data: lb.data,
                height: (1 + max(lb.lch.sh(), new_right.sh())) as isize,
                lch: lb.lch,
                rch: new_right,
            }
        },
    }
}

/// What one unwind step of the insertion does to a node: apply the rotation
/// its cached child heights call for, or just refresh its cached height.
pub open spec fn spec_fixup(n: AVLNode) -> AVLTree {
    match spec_rot_mod(n) {
        RotMod::LeftRot => AVLTree(Some(Box::new(spec_rot_left_n(n)))),
        RotMod::RightRot => AVLTree(Some(Box::new(spec_rot_right_n(n)))),
        RotMod::NotRot => AVLTree(
            Some(
                Box::new(
                    AVLNode { height: (1 + max(n.lch.sh(), n.rch.sh())) as isize, ..n },
                ),
            ),
        ),
    }
}

/// The insertion algorithm as a function on trees: a new leaf in an empty
/// tree, an unchanged tree for a duplicate, and otherwise the recursive
/// insertion into the matching child followed by [`spec_fixup`] at this
/// level.  [`AVLTree::insert`] returns exactly this tree.
pub open spec fn spec_insert_tree(t: AVLTree, x: i64) -> AVLTree
    decreases t,
{
    match t.0 {
        None => AVLTree(
            Some(Box::new(AVLNode { data: x, height: 0isize, lch: AVLTree(None), rch: AVLTree(None) })),
        ),
        Some(b) => {
            if x == b.data {
                t
            } else if x < b.data {
                spec_fixup(
                    AVLNode { data: b.data, height: b.height, lch: spec_insert_tree(b.lch, x), rch: b.rch },
                )
            } else {
                spec_fixup(
                    AVLNode { data: b.data, height: b.height, lch: b.lch, rch: spec_insert_tree(b.rch, x) },
                )
            }
        },
    }
}

/// A one-element sequence contains exactly its element.
pub broadcast proof fn lemma_singleton_contains(x: i64, v: i64)
    ensures
        #[trigger] seq![x].contains(v) <==> v == x,
{
    if seq![x].contains(v) {
        let i = choose|i: int| 0 <= i < seq![x].len() && seq![x][i] == v;
        assert(i == 0);
    }
    if v == x {
        assert(seq![x][0] == v);
    }
}

/// A height is never below -1, the height of an empty tree.
pub broadcast proof fn lemma_hgt_lb(t: AVLTree)
    ensures
        #[trigger] t.hgt() >= -1,
    decreases t,
{
    if t.0 is Some {
        let n = t.0->Some_0;
        lemma_hgt_lb(n.lch);
        lemma_hgt_lb(n.rch);
        assert(t.hgt() == 1 + max(n.lch.hgt(), n.rch.hgt()));
    }
}

/// Wherever the cached heights are correct, the stored height reads as the
/// true height.
pub broadcast proof fn lemma_sh_eq_hgt(t: AVLTree)
    requires
        t.heights_ok(),
    ensures
        #[trigger] t.sh() == t.hgt(),
{
    if t.0 is Some {
        assert(t.0->Some_0.hok_n());
    }
}

/// Arithmetic room for a left rotation: the two heights that it recomputes
/// stay within `isize`.
pub open spec fn rot_left_pre(n: AVLNode) -> bool {
    n.rch.0 matches Some(rb) ==> max(n.lch.sh(), rb.lch.sh()) <= isize::MAX - 2
        && rb.rch.sh() <= isize::MAX - 1
}

/// Arithmetic room for a right rotation, the mirror image.
pub open spec fn rot_right_pre(n: AVLNode) -> bool {
    n.lch.0 matches Some(lb) ==> max(n.rch.sh(), lb.rch.sh()) <= isize::MAX - 2
        && lb.lch.sh() <= isize::MAX - 1
}

/// What a left rotation leaves behind: `s` is the node before, `r` after.
/// Without a right child the node is unchanged; otherwise the right child is
/// the new root, the old root becomes its left child and adopts the right
/// child's former left subtree, and the two rewired nodes carry freshly
/// computed heights.  The in-order sequence and the search order survive; with
/// correct child heights, the result's cached heights are correct and its
/// height moves by at most one, downward whenever the rotation fired on a
/// genuine imbalance.
pub open spec fn rot_left_post(s: AVLNode, r: AVLNode) -> bool {
    &&& r == spec_rot_left_n(s)
    &&& (s.rch.0 is None ==> r == s)
    &&& r.inorder_n() == s.inorder_n()
    &&& (s.bst_n() ==> r.bst_n())
    &&& (s.rch.0 matches Some(rb) ==> {
        &&& r.data == rb.data
        &&& r.rch == rb.rch
        &&& (r.lch.0 matches Some(nl)
            && *nl == (AVLNode {
                data: s.data,
                height: (1 + max(s.lch.sh(), rb.lch.sh())) as isize,
                lch: s.lch,
                rch: rb.lch,
            }))
        &&& r.height as int == 1 + max(r.lch.sh(), rb.rch.sh())
        &&& (s.kids_ok() ==> {
            &&& r.hok_n()
            &&& s.hgt_n() - 1 <= r.hgt_n() <= s.hgt_n() + 1
            &&& (s.bal_n() <= -2 ==> r.hgt_n() <= s.hgt_n())
            &&& (s.lch.balanced() && s.rch.balanced() && s.bal_n() == -2 && s.rch.bal() == -1
                ==> r.balanced_n() && r.hgt_n() == s.hgt_n() - 1)
        })
    })
}

/// What a right rotation leaves behind, the mirror image of
/// [`rot_left_post`].
pub open spec fn rot_right_post(s: AVLNode, r: AVLNode) -> bool {
    &&& r == spec_rot_right_n(s)
    &&& (s.lch.0 is None ==> r == s)
    &&& r.inorder_n() == s.inorder_n()
    &&& (s.bst_n() ==> r.bst_n())
    &&& (s.lch.0 matches Some(lb) ==> {
        &&& r.data == lb.data
        &&& r.lch == lb.lch
        &&& (r.rch.0 matches Some(nr)
            && *nr == (AVLNode {
                data: s.data,
                height: (1 + max(lb.rch.sh(), s.rch.sh())) as isize,
                lch: lb.rch,
                rch: s.rch,
            }))
        &&& r.height as int == 1 + max(lb.lch.sh(), r.rch.sh())
        &&& (s.kids_ok() ==> {
            &&& r.hok_n()
            &&& s.hgt_n() - 1 <= r.hgt_n() <= s.hgt_n() + 1
            &&& (s.bal_n() >= 2 ==> r.hgt_n() <= s.hgt_n())
            &&& (s.lch.balanced() && s.rch.balanced() && s.bal_n() == 2 && s.lch.bal() == 1
                ==> r.balanced_n() && r.hgt_n() == s.hgt_n() - 1)
        })
    })
}

/// Every value of the sequence is strictly below the bound.
pub open spec fn all_below(s: Seq<i64>, b: i64) -> bool {
    forall|v: i64| #[trigger] s.contains(v) ==> v < b
}

/// Every value of the sequence is strictly above the bound.
pub open spec fn all_above(s: Seq<i64>, b: i64) -> bool {
    forall|v: i64| #[trigger] s.contains(v) ==> v > b
}

/// The values appear in strictly ascending order.
pub open spec fn sorted_strict(s: Seq<i64>) -> bool {
    forall|i: int, j: int| 0 <= i < j < s.len() ==> s[i] < s[j]
}

/// The larger of two heights.
fn taller(a: isize, b: isize) -> (m: isize)
    ensures
        m as int == max(a as int, b as int),
{
    if a >= b {
        a
    } else {
        b
    }
}

impl AVLNode {
    /// Makes a node that carries `data` with the given children and a cached
    /// height of 0, the height of a leaf.
    pub fn new(data: i64, lch: AVLTree, rch: AVLTree) -> (n: Self)
        ensures
            n == (AVLNode { data, height: 0isize, lch, rch }),
    {
        Self { data, height: 0, lch, rch }
    }

    /// Reads the rotation that the cached child heights call for.
    pub(crate) fn rot_mod(&self) -> (m: RotMod)
        requires
            -1 <= self.lch.sh() <= isize::MAX - 2,
            -1 <= self.rch.sh() <= isize::MAX - 2,
        ensures
            m == spec_rot_mod(*self),
    {
        if self.lch.sub_height() - self.rch.sub_height() > 1 {
            RotMod::RightRot
        } else if self.rch.sub_height() - self.lch.sub_height() > 1 {
            RotMod::LeftRot
        } else {
            RotMod::NotRot
        }
    }

    /// The standard AVL left rotation: the right child becomes the root of
    /// the subtree and the old root becomes its left child, keeping the
    /// in-order sequence.  Safe to call without a right child, in which case
    /// the node comes back unchanged.
    pub(crate) fn rot_left(self) -> (r: Box<AVLNode>)
        requires
            rot_left_pre(self),
        ensures
            rot_left_post(self, *r),
    {
        let AVLNode { data, height, lch, rch } = self;
        let AVLTree(rch_opt) = rch;
        match rch_opt {
            None => Box::new(AVLNode { data, height, lch, rch: AVLTree(None) }),
            Some(rb) => {
                let AVLNode { data: rdata, height: _rheight, lch: rlch, rch: rrch } = *rb;
                let moved_h = 1 + taller(lch.sub_height(), rlch.sub_height());
                let moved = AVLNode { data, height: moved_h, lch, rch: rlch };
                let new_left = AVLTree(Some(Box::new(moved)));
                let root_h = 1 + taller(new_left.sub_height(), rrch.sub_height());
                let r = AVLNode { data: rdata, height: root_h, lch: new_left, rch: rrch };
                proof {
                    lemma_rot_facts_left(self, r);
                }
                Box::new(r)
            },
        }
    }

    /// The standard AVL right rotation, the mirror image of
    /// [`AVLNode::rot_left`].
    pub(crate) fn rot_right(self) -> (r: Box<AVLNode>)
        requires
            rot_right_pre(self),
        ensures
            rot_right_post(self, *r),
    {
        let AVLNode { data, height, lch, rch } = self;
        let AVLTree(lch_opt) = lch;
        match lch_opt {
            None => Box::new(AVLNode { data, height, lch: AVLTree(None), rch }),
            Some(lb) => {
                let AVLNode { data: ldata, height: _lheight, lch: llch, rch: lrch } = *lb;
                let moved_h = 1 + taller(lrch.sub_height(), rch.sub_height());
                let moved = AVLNode { data, height: moved_h, lch: lrch, rch };
                let new_right = AVLTree(Some(Box::new(moved)));
                let root_h = 1 + taller(llch.sub_height(), new_right.sub_height());
                let r = AVLNode { data: ldata, height: root_h, lch: llch, rch: new_right };
                proof {
                    lemma_rot_facts_right(self, r);
                }
                Box::new(r)
            },
        }
    }
}

/// The facts of [`rot_left_post`] that follow from the shape of the rewired
/// node: the in-order sequence is kept, the search order is kept, and the
/// recomputed heights are correct and bounded.
proof fn lemma_rot_facts_left(s: AVLNode, r: AVLNode)
    requires
        rot_left_pre(s),
        s.rch.0 matches Some(rb) && r.data == rb.data && r.rch == rb.rch && (r.lch.0 matches Some(
            nl,
        ) && *nl == (AVLNode {
            data: s.data,
            height: (1 + max(s.lch.sh(), rb.lch.sh())) as isize,
            lch: s.lch,
            rch: rb.lch,
        })) && r.height as int == 1 + max(r.lch.sh(), rb.rch.sh()),
    ensures
        rot_left_post(s, r),
{
    broadcast use lemma_singleton_contains, lemma_sh_eq_hgt;

    let rb = s.rch.0->Some_0;
    let nl = r.lch.0->Some_0;
    let l = s.lch.inorder();
    let bl = rb.lch.inorder();
    let br = rb.rch.inorder();
    let d = s.data;
    let rd = rb.data;
    assert(s.rch.0 == Some(rb));
    assert(s.rch.inorder() == bl + seq![rd] + br);
    assert(r.lch.inorder() == l + seq![d] + bl);
    assert(r.inorder_n() =~= s.inorder_n());
    if s.bst_n() {
        assert(s.rch.bst_ok());
        assert(rb.bst_n());
        assert(s.rch.inorder().contains(rd));
        assert(all_below(r.lch.inorder(), rd)) by {
            assert forall|v: i64| #[trigger] (l + seq![d] + bl).contains(v) implies v < rd by {
                assert(l.contains(v) || v == d || bl.contains(v));
                if l.contains(v) {
                    assert(v < d);
                }
            }
        }
        assert(all_above(bl, d)) by {
            assert forall|v: i64| #[trigger] bl.contains(v) implies v > d by {
                assert(s.rch.inorder().contains(v));
            }
        }
        assert(nl.bst_n());
        assert(r.lch.bst_ok());
        assert(r.bst_n());
    }
    if s.kids_ok() {
        assert(s.rch.heights_ok());
        assert(rb.hok_n());
        assert(nl.hgt_n() == 1 + max(s.lch.hgt(), rb.lch.hgt()));
        assert(nl.hok_n());
        assert(r.lch.heights_ok());
        assert(r.lch.hgt() == nl.hgt_n());
        assert(r.hok_n());
        assert(s.hgt_n() == 1 + max(s.lch.hgt(), 1 + max(rb.lch.hgt(), rb.rch.hgt())));
        assert(r.hgt_n() == 1 + max(1 + max(s.lch.hgt(), rb.lch.hgt()), rb.rch.hgt()));
        assert(s.hgt_n() - 1 <= r.hgt_n() <= s.hgt_n() + 1);
        if s.lch.balanced() && s.rch.balanced() && s.bal_n() == -2 && s.rch.bal() == -1 {
            assert(rb.balanced_n());
            assert(nl.balanced_n());
            assert(r.lch.balanced());
            assert(r.balanced_n());
            assert(r.hgt_n() == s.hgt_n() - 1);
        }
    }
}

/// The mirror image of [`lemma_rot_facts_left`].
proof fn lemma_rot_facts_right(s: AVLNode, r: AVLNode)
    requires
        rot_right_pre(s),
        s.lch.0 matches Some(lb) && r.data == lb.data && r.lch == lb.lch && (r.rch.0 matches Some(
            nr,
        ) && *nr == (AVLNode {
            data: s.data,
            height: (1 + max(lb.rch.sh(), s.rch.sh())) as isize,
            lch: lb.rch,
            rch: s.rch,
        })) && r.height as int == 1 + max(lb.lch.sh(), r.rch.sh()),
    ensures
        rot_right_post(s, r),
{
    broadcast use lemma_singleton_contains, lemma_sh_eq_hgt;

    let lb = s.lch.0->Some_0;
    let nr = r.rch.0->Some_0;
    let bl = lb.lch.inorder();
    let bm = lb.rch.inorder();
    let rr = s.rch.inorder();
    let d = s.data;
    let ld = lb.data;
    assert(s.lch.0 == Some(lb));
    assert(s.lch.inorder() == bl + seq![ld] + bm);
    assert(r.rch.inorder() == bm + seq![d] + rr);
    assert(r.inorder_n() =~= s.inorder_n());
    if s.bst_n() {
        assert(s.lch.bst_ok());
        assert(lb.bst_n());
        assert(s.lch.inorder().contains(ld));
        assert(all_above(r.rch.inorder(), ld)) by {
            assert forall|v: i64| #[trigger] (bm + seq![d] + rr).contains(v) implies v > ld by {
                assert(bm.contains(v) || v == d || rr.contains(v));
                if rr.contains(v) {
                    assert(v > d);
                }
            }
        }
        assert(all_below(bm, d)) by {
            assert forall|v: i64| #[trigger] bm.contains(v) implies v < d by {
                assert(s.lch.inorder().contains(v));
            }
        }
        assert(nr.bst_n());
        assert(r.rch.bst_ok());
        assert(r.bst_n());
    }
    if s.kids_ok() {
        assert(s.lch.heights_ok());
        assert(lb.hok_n());
        assert(nr.hgt_n() == 1 + max(lb.rch.hgt(), s.rch.hgt()));
        assert(nr.hok_n());
        assert(r.rch.heights_ok());
        assert(r.rch.hgt() == nr.hgt_n());
        assert(r.hok_n());
        assert(s.hgt_n() == 1 + max(1 + max(lb.lch.hgt(), lb.rch.hgt()), s.rch.hgt()));
        assert(r.hgt_n() == 1 + max(lb.lch.hgt(), 1 + max(lb.rch.hgt(), s.rch.hgt())));
        assert(s.hgt_n() - 1 <= r.hgt_n() <= s.hgt_n() + 1);
        if s.lch.balanced() && s.rch.balanced() && s.bal_n() == 2 && s.lch.bal() == 1 {
            assert(lb.balanced_n());
            assert(nr.balanced_n());
            assert(r.rch.balanced());
            assert(r.balanced_n());
            assert(r.hgt_n() == s.hgt_n() - 1);
        }
    }
}

impl AVLTree {
    /// The cached height of the root, read out: -1 for an empty tree.
    pub(crate) fn sub_height(&self) -> (h: isize)
        ensures
            h as int == self.sh(),
    {
        match &self.0 {
            None => -1,
            Some(n) => n.height,
        }
    }

    /// Makes an empty tree.
    pub fn new() -> (t: Self)
        ensures
            t == AVLTree(None::<Box<AVLNode>>),
            t.wf(),
            t.balanced(),
            t.inorder() == Seq::<i64>::empty(),
    {
        Self::default()
    }

    /// Recomputes the root's cached height from its children's cached
    /// heights.  A no-op on an empty tree.
    pub(crate) fn update_height(&mut self)
        requires
            old(self).0 matches Some(n) ==> max(n.lch.sh(), n.rch.sh()) <= isize::MAX - 1,
        ensures
            old(self).0 is None ==> *final(self) == *old(self),
            old(self).0 matches Some(n) ==> (final(self).0 matches Some(m) && m.data == n.data
                && m.lch == n.lch && m.rch == n.rch && m.height as int == 1 + max(
                n.lch.sh(),
                n.rch.sh(),
            )),
    {
        let opt = self.0.take();
        match opt {
            None => {},
            Some(mut b) => {
                let hl = b.lch.sub_height();
                let hr = b.rch.sub_height();
                b.height = 1 + taller(hl, hr);
                self.0 = Some(b);
            },
        }
    }

    /// Rotates the root to the left; a no-op on an empty tree and, through
    /// the node primitive, on a root without a right child.
    pub(crate) fn rot_left(&mut self)
        requires
            old(self).0 matches Some(b) ==> rot_left_pre(*b),
        ensures
            old(self).0 is None ==> *final(self) == *old(self),
            old(self).0 matches Some(b) ==> (final(self).0 matches Some(r) && rot_left_post(
                *b,
                *r,
            )),
    {
        let opt = self.0.take();
        match opt {
            None => {},
            Some(b) => {
                self.0 = Some((*b).rot_left());
            },
        }
    }

    /// Rotates the root to the right, the mirror image of
    /// [`AVLTree::rot_left`].
    pub(crate) fn rot_right(&mut self)
        requires
            old(self).0 matches Some(b) ==> rot_right_pre(*b),
        ensures
            old(self).0 is None ==> *final(self) == *old(self),
            old(self).0 matches Some(b) ==> (final(self).0 matches Some(r) && rot_right_post(
                *b,
                *r,
            )),
    {
        let opt = self.0.take();
        match opt {
            None => {},
            Some(b) => {
                self.0 = Some((*b).rot_right());
            },
        }
    }

    /// Applies the rotation that `rot_mod` names; `NotRot` only refreshes the
    /// root's cached height.  Called with the mode that the root's child
    /// heights call for (the only way the insertion calls it), the root is
    /// replaced by exactly [`spec_fixup`] of itself: the corresponding
    /// rotation primitive's result, or the height refresh.  The tree's
    /// in-order sequence, search order and cached heights stay intact, the
    /// height moves by at most one, and the tree is balanced whenever the
    /// rotation repaired a simple two-high imbalance.
    pub(crate) fn rotate(&mut self, rot_mod: RotMod)
        requires
            old(self).0 matches Some(n) ==> {
                &&& n.kids_ok()
                &&& n.lch.hgt() <= isize::MAX - 2
                &&& n.rch.hgt() <= isize::MAX - 2
                &&& rot_mod == spec_rot_mod(*n)
            },
            old(self).0 is None ==> rot_mod is NotRot,
        ensures
            old(self).0 is None ==> *final(self) == *old(self),
            old(self).0 matches Some(n) ==> {
                &&& *final(self) == spec_fixup(*n)
                &&& final(self).0 is Some
                &&& final(self).inorder() == n.inorder_n()
                &&& (n.bst_n() ==> final(self).bst_ok())
                &&& final(self).heights_ok()
                &&& n.hgt_n() - 1 <= final(self).hgt() <= n.hgt_n() + 1
                &&& (spec_rot_mod(*n) is NotRot ==> final(self).hgt() == n.hgt_n() && (
                final(self).balanced() <==> n.balanced_n()) && final(self).bal() == n.bal_n() && (
                n.height as int == n.hgt_n() ==> *final(self) == *old(self)))
                &&& (!(spec_rot_mod(*n) is NotRot) ==> final(self).hgt() <= n.hgt_n())
                &&& (spec_rot_mod(*n) is LeftRot && n.lch.balanced() && n.rch.balanced()
                    && n.bal_n() == -2 && n.rch.bal() == -1 ==> final(self).balanced()
                    && final(self).hgt() == n.hgt_n() - 1)
                &&& (spec_rot_mod(*n) is RightRot && n.lch.balanced() && n.rch.balanced()
                    && n.bal_n() == 2 && n.lch.bal() == 1 ==> final(self).balanced()
                    && final(self).hgt() == n.hgt_n() - 1)
            },
    {
        proof {
            broadcast use lemma_sh_eq_hgt, lemma_hgt_lb;

            if old(self).0 is Some {
                let n = old(self).0->Some_0;
                assert(n.lch.sh() == n.lch.hgt());
                assert(n.rch.sh() == n.rch.hgt());
                if spec_rot_mod(*n) is LeftRot {
                    assert(n.rch.hgt() >= 1);
                    assert(n.rch.0 is Some) by {
                        if n.rch.0 is None {
                            assert(n.rch.hgt() == -1);
                        }
                    }
                    let rb = n.rch.0->Some_0;
                    assert(rb.hok_n());
                    assert(n.rch.hgt() == 1 + max(rb.lch.hgt(), rb.rch.hgt()));
                    assert(rb.lch.sh() == rb.lch.hgt());
                    assert(rb.rch.sh() == rb.rch.hgt());
                    assert(rot_left_pre(*n));
                }
                if spec_rot_mod(*n) is RightRot {
                    assert(n.lch.hgt() >= 1);
                    assert(n.lch.0 is Some) by {
                        if n.lch.0 is None {
                            assert(n.lch.hgt() == -1);
                        }
                    }
                    let lb = n.lch.0->Some_0;
                    assert(lb.hok_n());
                    assert(n.lch.hgt() == 1 + max(lb.lch.hgt(), lb.rch.hgt()));
                    assert(lb.lch.sh() == lb.lch.hgt());
                    assert(lb.rch.sh() == lb.rch.hgt());
                    assert(rot_right_pre(*n));
                }
            }
        }
        match rot_mod {
            RotMod::LeftRot => {
                self.rot_left();
                proof {
                    let n = old(self).0->Some_0;
                    let r = self.0->Some_0;
                    assert(rot_left_post(*n, *r));
                    assert(*self == spec_fixup(*n));
                    if n.kids_ok() {
                        assert(self.heights_ok());
                        assert(self.hgt() == r.hgt_n());
                    }
                    if n.bst_n() {
                        assert(self.bst_ok());
                    }
                    assert(self.inorder() == r.inorder_n());
                }
            },
            RotMod::RightRot => {
                self.rot_right();
                proof {
                    let n = old(self).0->Some_0;
                    let r = self.0->Some_0;
                    assert(rot_right_post(*n, *r));
                    assert(*self == spec_fixup(*n));
                    if n.kids_ok() {
                        assert(self.heights_ok());
                        assert(self.hgt() == r.hgt_n());
                    }
                    if n.bst_n() {
                        assert(self.bst_ok());
                    }
                    assert(self.inorder() == r.inorder_n());
                }
            },
            RotMod::NotRot => {
                self.update_height();
                proof {
                    if old(self).0 is Some {
                        let n = old(self).0->Some_0;
                        let m = self.0->Some_0;
                        assert(m.hgt_n() == 1 + max(n.lch.hgt(), n.rch.hgt()));
                        assert(m.hok_n());
                        assert(self.hgt() == n.hgt_n());
                        assert(m.inorder_n() == n.inorder_n()) by {
                            assert(m.inorder_n() =~= n.inorder_n());
                        }
                        if n.bst_n() {
                            assert(m.bst_n());
                        }
                        assert(m.balanced_n() <==> n.balanced_n());
                        assert(self.bal() == n.bal_n());
                        if n.height as int == n.hgt_n() {
                            assert(*m == *n);
                        }
                        assert(*self == spec_fixup(*n));
                    }
                }
            },
        }
    }

    /// The height of the tree as reported to callers: 0 for an empty tree,
    /// otherwise the root's cached height, so 0 for a single leaf as well.
    pub fn height(&self) -> (h: isize)
        ensures
            h as int == if self.0 is None { 0int } else { self.sh() },
            self.heights_ok() ==> h as int == if self.inorder().len() == 0 { 0int } else { self.hgt() },
    {
        match &self.0 {
            None => 0,
            Some(n) => n.height,
        }
    }
}

impl AVLTree {
    /// Inserts `data` unless it is already present; a duplicate leaves a
    /// balanced tree untouched.  The insertion descends by comparison, and on
    /// the way back up every node on the path re-derives its rotation mode
    /// and applies it, which keeps every cached height correct and the
    /// search order intact, so the in-order sequence is always the sorted,
    /// duplicate-free listing of everything inserted.  The resulting tree is
    /// pinned down completely: it equals [`spec_insert_tree`] of the old
    /// tree, the algorithm written as a function, so every concrete shape
    /// and height is derivable from this contract alone.
    ///
    /// Balance is restored by single rotations alone.  These repair every
    /// imbalance that an insertion beyond either end of the stored range can
    /// cause, so such insertions keep the tree balanced, as the contract
    /// states; an insertion that bends the path (left then right, or right
    /// then left, as in 3, 1, then 2) can leave one subtree two levels
    /// deeper.  The height never grows by more than one per insertion either
    /// way.
    pub fn insert(&mut self, data: i64)
        requires
            old(self).wf(),
            old(self).hgt() <= isize::MAX - 3,
        ensures
            *final(self) == spec_insert_tree(*old(self), data),
            final(self).wf(),
            final(self).inorder() == sorted_insert(old(self).inorder(), data),
            forall|v: i64|
                #[trigger] final(self).inorder().contains(v) <==> (v == data || old(self).inorder().contains(v)),
            old(self).inorder().contains(data) ==> final(self).inorder() == old(self).inorder()
                && (old(self).balanced() ==> *final(self) == *old(self)),
            !old(self).inorder().contains(data) ==> final(self).inorder().len() == old(self).inorder().len() + 1,
            final(self).hgt() <= old(self).hgt() + 1,
            old(self).balanced() ==> old(self).hgt() <= final(self).hgt(),
            old(self).balanced() && all_below(old(self).inorder(), data) ==> final(self).balanced()
                && (final(self).hgt() == old(self).hgt() + 1 ==> old(self).0 is None || final(self).bal() == -1),
            old(self).balanced() && all_above(old(self).inorder(), data) ==> final(self).balanced()
                && (final(self).hgt() == old(self).hgt() + 1 ==> old(self).0 is None || final(self).bal() == 1),
    {
        let mut t = AVLTree(None);
        core::mem::swap(self, &mut t);
        *self = Self::insert_at(t, data);
        proof {
            lemma_bst_inorder_sorted(*old(self));
            lemma_bst_inorder_sorted(*self);
            lemma_sorted_insert(old(self).inorder(), data);
            lemma_sorted_unique(self.inorder(), sorted_insert(old(self).inorder(), data));
        }
    }

    /// The recursive worker behind [`AVLTree::insert`], written over owned
    /// subtrees.
    fn insert_at(t: AVLTree, data: i64) -> (r: AVLTree)
        requires
            t.wf(),
            t.hgt() <= isize::MAX - 3,
        ensures
            r == spec_insert_tree(t, data),
            r.wf(),
            r.0 is Some,
            forall|v: i64|
                #[trigger] r.inorder().contains(v) <==> (v == data || t.inorder().contains(v)),
            t.inorder().contains(data) ==> r.inorder() == t.inorder() && (t.balanced() ==> r == t),
            !t.inorder().contains(data) ==> r.inorder().len() == t.inorder().len() + 1,
            r.hgt() <= t.hgt() + 1,
            t.balanced() ==> t.hgt() <= r.hgt(),
            t.balanced() && all_below(t.inorder(), data) ==> r.balanced() && (r.hgt() == t.hgt()
                + 1 ==> t.0 is None || r.bal() == -1),
            t.balanced() && all_above(t.inorder(), data) ==> r.balanced() && (r.hgt() == t.hgt()
                + 1 ==> t.0 is None || r.bal() == 1),
        decreases t,
    {
        broadcast use lemma_singleton_contains, lemma_sh_eq_hgt, lemma_hgt_lb;

        let AVLTree(opt) = t;
        match opt {
            None => {
                let r = AVLTree(Some(Box::new(AVLNode::new(data, AVLTree(None), AVLTree(None)))));
                proof {
                    let leaf = r.0->Some_0;
                    assert(leaf.inorder_n() =~= seq![data]);
                    assert(leaf.hgt_n() == 0);
                    assert(leaf.bst_n());
                    assert(leaf.hok_n());
                    assert(leaf.balanced_n());
                    assert(r == spec_insert_tree(t, data));
                }
                r
            },
            Some(b) => {
                proof {
                    assert(t.0 == Some(b));
                    assert(b.hok_n());
                    assert(b.bst_n());
                    assert(t.inorder() == b.lch.inorder() + seq![b.data] + b.rch.inorder());
                    assert(t.inorder().contains(b.data));
                    assert(t.hgt() == 1 + max(b.lch.hgt(), b.rch.hgt()));
                }
                if data == b.data {
                    let r = AVLTree(Some(b));
                    proof {
                        assert(r == t);
                    }
                    r
                } else {
                    let AVLNode { data: d, height, lch, rch } = *b;
                    if data < d {
                        let nl = Self::insert_at(lch, data);
                        let node = AVLNode { data: d, height, lch: nl, rch };
                        proof {
                            assert(node.bst_n()) by {
                                assert forall|v: i64| #[trigger] nl.inorder().contains(v) implies v
                                    < d by {
                                    assert(v == data || lch.inorder().contains(v));
                                }
                            }
                            assert(node.kids_ok());
                            assert(node.hgt_n() == 1 + max(nl.hgt(), rch.hgt()));
                        }
                        let m = node.rot_mod();
                        let mut nt = AVLTree(Some(Box::new(node)));
                        nt.rotate(m);
                        proof {
                            assert(nt == spec_fixup(node));
                            assert(nt == spec_insert_tree(t, data));
                            assert(nt.inorder() == node.inorder_n());
                            assert(node.inorder_n() == nl.inorder() + seq![d] + rch.inorder());
                            assert forall|v: i64| #[trigger] nt.inorder().contains(v) <==> (v
                                == data || t.inorder().contains(v)) by {
                                assert(nl.inorder().contains(v) <==> (v == data
                                    || lch.inorder().contains(v)));
                            }
                            if t.inorder().contains(data) {
                                assert(!rch.inorder().contains(data));
                                assert(lch.inorder().contains(data));
                                assert(nt.inorder() == t.inorder());
                                if t.balanced() {
                                    assert(b.balanced_n());
                                    assert(nl == lch);
                                    assert(node == *b);
                                    assert(node.height as int == node.hgt_n());
                                    assert(spec_rot_mod(node) is NotRot);
                                    assert(nt == t);
                                }
                            }
                            if t.balanced() {
                                assert(b.balanced_n());
                                assert(lch.hgt() <= nl.hgt() <= lch.hgt() + 1);
                                if !(spec_rot_mod(node) is NotRot) {
                                    assert(node.bal_n() == 2);
                                    assert(nl.hgt() == lch.hgt() + 1 && lch.hgt() == rch.hgt()
                                        + 1);
                                    assert(node.hgt_n() == t.hgt() + 1);
                                }
                                assert(t.hgt() <= nt.hgt() <= t.hgt() + 1);
                                if all_above(t.inorder(), data) {
                                    assert(all_above(lch.inorder(), data)) by {
                                        assert forall|v: i64|
                                            #[trigger] lch.inorder().contains(v) implies v
                                            > data by {
                                            assert(t.inorder().contains(v));
                                        }
                                    }
                                    assert(nl.balanced());
                                    if spec_rot_mod(node) is NotRot {
                                        assert(node.balanced_n());
                                        assert(nt.balanced());
                                        if nt.hgt() == t.hgt() + 1 {
                                            assert(nl.hgt() == lch.hgt() + 1);
                                            assert(nl.hgt() > rch.hgt());
                                            assert(nt.bal() == 1);
                                        }
                                    } else {
                                        assert(node.bal_n() == 2);
                                        assert(nl.hgt() == lch.hgt() + 1);
                                        assert(lch.0 is Some) by {
                                            if lch.0 is None {
                                                assert(lch.hgt() == -1);
                                                assert(nl.hgt() == 0);
                                                assert(rch.hgt() == -2);
                                            }
                                        }
                                        assert(nl.bal() == 1);
                                        assert(nt.balanced() && nt.hgt() == node.hgt_n() - 1);
                                        assert(nt.hgt() == t.hgt());
                                    }
                                }
                                if all_below(t.inorder(), data) {
                                    assert(d < data);
                                    assert(false);
                                }
                            }
                        }
                        nt
                    } else {
                        let nr = Self::insert_at(rch, data);
                        let node = AVLNode { data: d, height, lch, rch: nr };
                        proof {
                            assert(node.bst_n()) by {
                                assert forall|v: i64| #[trigger] nr.inorder().contains(v) implies v
                                    > d by {
                                    assert(v == data || rch.inorder().contains(v));
                                }
                            }
                            assert(node.kids_ok());
                            assert(node.hgt_n() == 1 + max(lch.hgt(), nr.hgt()));
                        }
                        let m = node.rot_mod();
                        let mut nt = AVLTree(Some(Box::new(node)));
                        nt.rotate(m);
                        proof {
                            assert(nt == spec_fixup(node));
                            assert(nt == spec_insert_tree(t, data));
                            assert(nt.inorder() == node.inorder_n());
                            assert(node.inorder_n() == lch.inorder() + seq![d] + nr.inorder());
                            assert forall|v: i64| #[trigger] nt.inorder().contains(v) <==> (v
                                == data || t.inorder().contains(v)) by {
                                assert(nr.inorder().contains(v) <==> (v == data
                                    || rch.inorder().contains(v)));
                            }
                            if t.inorder().contains(data) {
                                assert(!lch.inorder().contains(data));
                                assert(rch.inorder().contains(data));
                                assert(nt.inorder() == t.inorder());
                                if t.balanced() {
                                    assert(b.balanced_n());
                                    assert(nr == rch);
                                    assert(node == *b);
                                    assert(node.height as int == node.hgt_n());
                                    assert(spec_rot_mod(node) is NotRot);
                                    assert(nt == t);
                                }
                            }
                            if t.balanced() {
                                assert(b.balanced_n());
                                assert(rch.hgt() <= nr.hgt() <= rch.hgt() + 1);
                                if !(spec_rot_mod(node) is NotRot) {
                                    assert(node.bal_n() == -2);
                                    assert(nr.hgt() == rch.hgt() + 1 && rch.hgt() == lch.hgt()
                                        + 1);
                                    assert(node.hgt_n() == t.hgt() + 1);
                                }
                                assert(t.hgt() <= nt.hgt() <= t.hgt() + 1);
                                if all_below(t.inorder(), data) {
                                    assert(all_below(rch.inorder(), data)) by {
                                        assert forall|v: i64|
                                            #[trigger] rch.inorder().contains(v) implies v
                                            < data by {
                                            assert(t.inorder().contains(v));
                                        }
                                    }
                                    assert(nr.balanced());
                                    if spec_rot_mod(node) is NotRot {
                                        assert(node.balanced_n());
                                        assert(nt.balanced());
                                        if nt.hgt() == t.hgt() + 1 {
                                            assert(nr.hgt() == rch.hgt() + 1);
                                            assert(nr.hgt() > lch.hgt());
                                            assert(nt.bal() == -1);
                                        }
                                    } else {
                                        assert(node.bal_n() == -2);
                                        assert(nr.hgt() == rch.hgt() + 1);
                                        assert(rch.0 is Some) by {
                                            if rch.0 is None {
                                                assert(rch.hgt() == -1);
                                                assert(nr.hgt() == 0);
                                                assert(lch.hgt() == -2);
                                            }
                                        }
                                        assert(nr.bal() == -1);
                                        assert(nt.balanced() && nt.hgt() == node.hgt_n() - 1);
                                        assert(nt.hgt() == t.hgt());
                                    }
                                }
                                if all_above(t.inorder(), data) {
                                    assert(d > data);
                                    assert(false);
                                }
                            }
                        }
                        nt
                    }
                }
            },
        }
    }
}

impl AVLTree {
    /// Whether `data` is stored in the tree, found by comparison-guided
    /// descent: smaller values to the left, larger ones to the right.
    pub fn contains(&self, data: i64) -> (r: bool)
        requires
            self.wf(),
        ensures
            r == self.inorder().contains(data),
        decreases self,
    {
        match &self.0 {
            None => false,
            Some(n) => {
                proof {
                    broadcast use lemma_singleton_contains;

                    assert(n.bst_n());
                    assert(self.inorder() == n.lch.inorder() + seq![n.data] + n.rch.inorder());
                    assert(self.inorder().contains(n.data));
                }
                if data < n.data {
                    proof {
                        if n.rch.inorder().contains(data) {
                            assert(data > n.data);
                        }
                    }
                    n.lch.contains(data)
                } else if data > n.data {
                    proof {
                        if n.lch.inorder().contains(data) {
                            assert(data < n.data);
                        }
                    }
                    n.rch.contains(data)
                } else {
                    true
                }
            },
        }
    }
}

/// The decimal rendering of a single digit.
pub open spec fn dec_digit(d: nat) -> Seq<char> {
    if d == 0 {
        "0"@
    } else if d == 1 {
        "1"@
    } else if d == 2 {
        "2"@
    } else if d == 3 {
        "3"@
    } else if d == 4 {
        "4"@
    } else if d == 5 {
        "5"@
    } else if d == 6 {
        "6"@
    } else if d == 7 {
        "7"@
    } else if d == 8 {
        "8"@
    } else {
        "9"@
    }
}

/// The decimal rendering of an unsigned number, most significant digit
/// first.
pub open spec fn dec_digits(v: nat) -> Seq<char>
    decreases v,
{
    if v < 10 {
        dec_digit(v)
    } else {
        dec_digits(v / 10) + dec_digit(v % 10)
    }
}

/// The decimal rendering of a signed number: a leading minus sign for
/// negative values.
pub open spec fn dec_i64(v: int) -> Seq<char> {
    if v < 0 {
        "-"@ + dec_digits((-v) as nat)
    } else {
        dec_digits(v as nat)
    }
}

/// One digit as text.
fn digit_str(d: u64) -> (s: &'static str)
    requires
        d < 10,
    ensures
        s@ == dec_digit(d as nat),
{
    if d == 0 {
        "0"
    } else if d == 1 {
        "1"
    } else if d == 2 {
        "2"
    } else if d == 3 {
        "3"
    } else if d == 4 {
        "4"
    } else if d == 5 {
        "5"
    } else if d == 6 {
        "6"
    } else if d == 7 {
        "7"
    } else if d == 8 {
        "8"
    } else {
        "9"
    }
}

/// Appends the decimal rendering of `v`.
fn push_u64(out: &mut String, v: u64)
    ensures
        final(out)@ == old(out)@ + dec_digits(v as nat),
    decreases v,
{
    if v < 10 {
        out.append(digit_str(v));
    } else {
        push_u64(out, v / 10);
        out.append(digit_str(v % 10));
        proof {
            assert(old(out)@ + dec_digits(v as nat / 10) + dec_digit(v as nat % 10) =~= old(out)@
                + (dec_digits(v as nat / 10) + dec_digit(v as nat % 10)));
        }
    }
}

/// Appends the decimal rendering of `v`, minus sign included.
fn push_i64(out: &mut String, v: i64)
    ensures
        final(out)@ == old(out)@ + dec_i64(v as int),
{
    if v < 0 {
        out.append("-");
        let m: u64 = (-(v as i128)) as u64;
        push_u64(out, m);
        proof {
            assert(old(out)@ + "-"@ + dec_digits(m as nat) =~= old(out)@ + ("-"@ + dec_digits(
                m as nat,
            )));
        }
    } else {
        push_u64(out, v as u64);
    }
}

/// The drawing of the subtree rooted at `n`: one line per node, children
/// indented below their parent, the left child before the right one.
pub open spec fn render_node(n: AVLNode, prefix: Seq<char>, is_left: bool) -> Seq<char>
    decreases n,
{
    let connector: Seq<char> = if is_left {
        "└── "@
    } else {
        "├── "@
    };
    let new_prefix = prefix + (if is_left {
        "    "@
    } else {
        "│   "@
    });
    prefix + connector + dec_i64(n.data as int) + "\n"@ + (match n.lch.0 {
        Some(l) => render_node(*l, new_prefix, false),
        None => Seq::empty(),
    }) + (match n.rch.0 {
        Some(r) => render_node(*r, new_prefix, true),
        None => Seq::empty(),
    })
}

/// The drawing of a whole tree; an empty tree has a fixed placeholder text.
pub open spec fn render_tree(t: AVLTree) -> Seq<char> {
    match t.0 {
        None => "(empty tree)"@,
        Some(n) => render_node(*n, Seq::empty(), true),
    }
}

impl AVLNode {
    /// Appends this subtree's drawing: the node's own line under the given
    /// prefix, then the left and the right subtree, indented.
    fn fmt_helper(&self, prefix: &str, is_left: bool, out: &mut String)
        ensures
            final(out)@ == old(out)@ + render_node(*self, prefix@, is_left),
        decreases self,
    {
        let connector = if is_left {
            "└── "
        } else {
            "├── "
        };
        out.append(prefix);
        out.append(connector);
        push_i64(out, self.data);
        out.append("\n");
        let ghost line_done = out@;
        proof {
            assert(line_done =~= old(out)@ + (prefix@ + connector@ + dec_i64(self.data as int)
                + "\n"@));
        }
        let mut new_prefix = String::from_str(prefix);
        new_prefix.append(
            if is_left {
                "    "
            } else {
                "│   "
            },
        );
        match &self.lch.0 {
            Some(l) => {
                l.fmt_helper(new_prefix.as_str(), false, out);
            },
            None => {},
        }
        proof {
            assert(out@ =~= old(out)@ + (prefix@ + connector@ + dec_i64(self.data as int) + "\n"@
                + (match self.lch.0 {
                Some(l) => render_node(*l, new_prefix@, false),
                None => Seq::<char>::empty(),
            })));
        }
        match &self.rch.0 {
            Some(r) => {
                r.fmt_helper(new_prefix.as_str(), true, out);
            },
            None => {},
        }
        proof {
            assert(out@ =~= old(out)@ + render_node(*self, prefix@, is_left));
        }
    }
}

impl AVLTree {
    /// The tree drawn as text, root first, children indented below their
    /// parent; an empty tree reads "(empty tree)".
    pub fn render(&self) -> (s: String)
        ensures
            s@ == render_tree(*self),
    {
        match &self.0 {
            None => String::from_str("(empty tree)"),
            Some(n) => {
                let mut out = String::new();
                n.fmt_helper("", true, &mut out);
                proof {
                    assert(Seq::<char>::empty() + render_node(**n, ""@, true) =~= render_node(
                        **n,
                        ""@,
                        true,
                    ));
                    assert(""@ =~= Seq::<char>::empty()) by {
                        reveal_strlit("");
                    }
                }
                out
            },
        }
    }
}

/// Sortedness of the search order: the in-order sequence of a tree whose
/// nodes respect the search order lists its values in strictly ascending
/// order.  Together with [`lemma_sorted_unique`] this pins the in-order
/// sequence down as the one sorted, duplicate-free listing of the stored
/// values.
pub proof fn lemma_bst_inorder_sorted(t: AVLTree)
    requires
        t.bst_ok(),
    ensures
        sorted_strict(t.inorder()),
    decreases t,
{
    if t.0 is Some {
        let n = t.0->Some_0;
        assert(n.bst_n());
        lemma_bst_inorder_sorted(n.lch);
        lemma_bst_inorder_sorted(n.rch);
        let l = n.lch.inorder();
        let r = n.rch.inorder();
        let d = n.data;
        let s = t.inorder();
        assert(s == l + seq![d] + r);
        assert forall|i: int, j: int| 0 <= i < j < s.len() implies s[i] < s[j] by {
            assert(s.len() == l.len() + 1 + r.len());
            if i < l.len() {
                assert(s[i] == l[i]);
                assert(l.contains(l[i]));
                assert(s[i] < d);
            } else if i == l.len() {
                assert(s[i] == d);
            } else {
                assert(s[i] == r[i - l.len() - 1]);
                assert(r.contains(r[i - l.len() - 1]));
                assert(s[i] > d);
            }
            if j < l.len() {
                assert(s[j] == l[j]);
            } else if j == l.len() {
                assert(s[j] == d);
            } else {
                assert(s[j] == r[j - l.len() - 1]);
                assert(r.contains(r[j - l.len() - 1]));
                assert(s[j] > d);
            }
            if j < l.len() {
                assert(l[i] < l[j]);
            }
            if l.len() < i {
                assert(r[i - l.len() - 1] < r[j - l.len() - 1]);
            }
        }
    }
}

/// A strictly sorted sequence is determined by the set of its values: two
/// strictly ascending sequences that contain exactly the same values are
/// equal.  In particular, every traversal protocol that emits the stored
/// values in ascending order emits the same sequence.
pub proof fn lemma_sorted_unique(s1: Seq<i64>, s2: Seq<i64>)
    requires
        sorted_strict(s1),
        sorted_strict(s2),
        forall|v: i64| #[trigger] s1.contains(v) <==> #[trigger] s2.contains(v),
    ensures
        s1 == s2,
    decreases s1.len(),
{
    if s1.len() == 0 {
        if s2.len() > 0 {
            assert(s2.contains(s2[0]));
            assert(s1.contains(s2[0]));
        }
        assert(s1 =~= s2);
    } else {
        assert(s1.contains(s1[0]));
        assert(s2.contains(s1[0]));
        assert(s2.len() > 0);
        assert(s2.contains(s2[0]));
        assert(s1.contains(s2[0]));
        let k1 = choose|k: int| 0 <= k < s2.len() && s2[k] == s1[0];
        let k2 = choose|k: int| 0 <= k < s1.len() && s1[k] == s2[0];
        assert(s2[0] <= s2[k1]);
        assert(s1[0] <= s1[k2]);
        assert(s1[0] == s2[0]);
        let t1 = s1.drop_first();
        let t2 = s2.drop_first();
        assert(forall|i: int| 0 <= i < t1.len() ==> t1[i] == s1[i + 1]);
        assert(forall|i: int| 0 <= i < t2.len() ==> t2[i] == s2[i + 1]);
        assert forall|v: i64| #[trigger] t1.contains(v) <==> #[trigger] t2.contains(v) by {
            lemma_tail_contains(s1, v);
            lemma_tail_contains(s2, v);
        }
        lemma_sorted_unique(t1, t2);
        assert(s1.len() == s2.len());
        assert forall|i: int| 0 <= i < s1.len() implies s1[i] == s2[i] by {
            if i > 0 {
                assert(s1[i] == t1[i - 1]);
                assert(t1[i - 1] == t2[i - 1]);
                assert(s2[i] == t2[i - 1]);
            }
        }
        assert(s1 =~= s2);
    }
}

/// Insertion into a strictly sorted sequence at the position that keeps it
/// sorted; a value already present changes nothing.
pub open spec fn sorted_insert(s: Seq<i64>, x: i64) -> Seq<i64>
    decreases s.len(),
{
    if s.len() == 0 {
        seq![x]
    } else if x < s[0] {
        seq![x] + s
    } else if x == s[0] {
        s
    } else {
        seq![s[0]] + sorted_insert(s.drop_first(), x)
    }
}

/// What [`sorted_insert`] does to a strictly sorted sequence: the result is
/// strictly sorted again, holds exactly the old values and the new one, and
/// grows by one entry unless the value was already present.  Together with
/// [`lemma_sorted_unique`] this makes it the only such sequence.
pub proof fn lemma_sorted_insert(s: Seq<i64>, x: i64)
    requires
        sorted_strict(s),
    ensures
        sorted_strict(sorted_insert(s, x)),
        forall|v: i64| #[trigger] sorted_insert(s, x).contains(v) <==> (v == x || s.contains(v)),
        sorted_insert(s, x).len() == s.len() + (if s.contains(x) {
            0int
        } else {
            1
        }),
    decreases s.len(),
{
    broadcast use lemma_singleton_contains;

    let r = sorted_insert(s, x);
    if s.len() == 0 {
        assert(r == seq![x]);
        assert(r[0] == x);
    } else if x < s[0] {
        assert(r == seq![x] + s);
        assert forall|i: int, j: int| 0 <= i < j < r.len() implies r[i] < r[j] by {
            if i > 0 {
                assert(r[i] == s[i - 1] && r[j] == s[j - 1]);
            } else {
                assert(r[j] == s[j - 1]);
                if j > 1 {
                    assert(s[0] < s[j - 1]);
                }
            }
        }
        if s.contains(x) {
            let i = choose|i: int| 0 <= i < s.len() && s[i] == x;
            if i > 0 {
                assert(s[0] < s[i]);
            }
        }
    } else if x == s[0] {
        assert(s.contains(x)) by {
            assert(s[0] == x);
        }
    } else {
        let t = s.drop_first();
        assert(forall|i: int| 0 <= i < t.len() ==> t[i] == s[i + 1]);
        assert(sorted_strict(t));
        lemma_sorted_insert(t, x);
        let ti = sorted_insert(t, x);
        assert(r == seq![s[0]] + ti);
        assert forall|v: i64| #[trigger] s.contains(v) <==> (v == s[0] || t.contains(v)) by {
            lemma_tail_contains(s, v);
            if s.contains(v) && v != s[0] {
                let i = choose|i: int| 0 <= i < s.len() && s[i] == v;
                assert(i > 0);
                assert(s[0] < s[i]);
            }
            if v == s[0] {
                assert(s.contains(v)) by {
                    assert(s[0] == v);
                }
            }
        }
        assert forall|i: int, j: int| 0 <= i < j < r.len() implies r[i] < r[j] by {
            if i > 0 {
                assert(r[i] == ti[i - 1] && r[j] == ti[j - 1]);
            } else {
                assert(r[j] == ti[j - 1]);
                assert(ti.contains(ti[j - 1]));
                assert(ti[j - 1] == x || t.contains(ti[j - 1]));
                if t.contains(ti[j - 1]) {
                    lemma_tail_contains(s, ti[j - 1]);
                }
            }
        }
        assert(s.contains(x) <==> t.contains(x)) by {
            lemma_tail_contains(s, x);
        }
    }
}

/// In a strictly sorted, non-empty sequence, the tail holds exactly the
/// values beyond the head.
proof fn lemma_tail_contains(s: Seq<i64>, v: i64)
    requires
        sorted_strict(s),
        s.len() > 0,
    ensures
        s.drop_first().contains(v) <==> s.contains(v) && v > s[0],
{
    let t = s.drop_first();
    if t.contains(v) {
        let i = choose|i: int| 0 <= i < t.len() && t[i] == v;
        assert(s[i + 1] == v);
        assert(s.contains(v));
        assert(s[0] < s[i + 1]);
    }
    if s.contains(v) && v > s[0] {
        let i = choose|i: int| 0 <= i < s.len() && s[i] == v;
        assert(i > 0);
        assert(t[i - 1] == v);
        assert(t.contains(v));
    }
}

impl Default for AVLTree {
    /// The default tree is empty.
    fn default() -> (t: Self)
        ensures
            t == AVLTree(None::<Box<AVLNode>>),
            t.wf(),
            t.balanced(),
            t.inorder() == Seq::<i64>::empty(),
    {
        AVLTree(None)
    }
}

} // verus!
