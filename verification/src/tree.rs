//! The AVL tree itself: node and tree types, their mathematical model,
//! and the balanced insert / contains / delete operations. Beside the
//! set-level view, both mutations have exact structural specifications:
//! `inserted_opt` and `deleted` compute, rotation by rotation, the very
//! trees the algorithms build, and the operations are proved to return
//! them.

use vstd::prelude::*;

verus! {

/// A vertex of the tree: a value, a cached subtree height, and owned
/// left and right subtrees. A leaf has height 1; an absent subtree
/// counts as height 0.
pub struct Node {
    pub left: Option<Box<Node>>,
    pub right: Option<Box<Node>>,
    pub height: i32,
    pub value: i64,
}

/// An ordered set of `i64` values, kept as an AVL-balanced binary
/// search tree. `root` is absent exactly when the tree is empty.
pub struct Tree {
    pub root: Option<Box<Node>>,
}

/// A lazy, restartable in-order traversal over a tree's nodes. Instead
/// of recursing, it keeps an explicit stack of ancestors that still owe
/// a visit and a right-subtree walk, so iteration state never grows the
/// call stack with the tree's height.
pub struct TreeIter<'a> {
    previous_nodes: Vec<&'a Node>,
    current_node: Option<&'a Node>,
}

/// Whether `v` occurs somewhere in the subtree `n`.
pub open spec fn has_opt(n: Option<Box<Node>>, v: i64) -> bool
    decreases n,
{
    match n {
        None => false,
        Some(node) => node.has(v),
    }
}

/// Height of the subtree `n`: 0 when absent, otherwise one more than
/// the taller child. This is the true structural height, independent of
/// the cached `height` fields.
pub open spec fn ht_opt(n: Option<Box<Node>>) -> int
    decreases n,
{
    match n {
        None => 0,
        Some(node) => node.ht(),
    }
}

/// Well-formedness of the subtree `n` (see `Node::wf`).
pub open spec fn wf_opt(n: Option<Box<Node>>) -> bool
    decreases n,
{
    match n {
        None => true,
        Some(node) => node.wf(),
    }
}

/// The values of the subtree `n` in symmetric (in-order) order.
pub open spec fn seq_opt(n: Option<Box<Node>>) -> Seq<i64>
    decreases n,
{
    match n {
        None => Seq::empty(),
        Some(node) => node.in_order(),
    }
}

/// Cached height of the subtree `n`: 0 when absent, otherwise the
/// node's stored `height` field. Equal to `ht_opt(n)` whenever `n` is
/// well formed.
pub open spec fn sh_opt(n: Option<Box<Node>>) -> int {
    match n {
        None => 0,
        Some(node) => node.height as int,
    }
}

impl Node {
    /// Whether `v` occurs in this node's subtree.
    pub open spec fn has(self, v: i64) -> bool
        decreases self,
    {
        self.value == v || has_opt(self.left, v) || has_opt(self.right, v)
    }

    /// Binary-search ordering at this node alone: everything to the
    /// left is smaller, everything to the right is larger.
    pub open spec fn ordered_at(self) -> bool {
        &&& forall|v: i64| has_opt(self.left, v) ==> v < self.value
        &&& forall|v: i64| has_opt(self.right, v) ==> v > self.value
    }

    /// True structural height of this node's subtree (at least 1).
    pub open spec fn ht(self) -> int
        decreases self,
    {
        1 + vstd::math::max(ht_opt(self.left), ht_opt(self.right))
    }

    /// Well-formedness: binary-search ordering at every node, the AVL
    /// balance condition at every node, and every cached height equal
    /// to the true height.
    pub open spec fn wf(self) -> bool
        decreases self,
    {
        &&& wf_opt(self.left)
        &&& wf_opt(self.right)
        &&& self.ordered_at()
        &&& self.height as int == self.ht()
        &&& -1 <= ht_opt(self.left) - ht_opt(self.right) <= 1
    }

    /// The values of this node's subtree in ascending symmetric order.
    pub open spec fn in_order(self) -> Seq<i64>
        decreases self,
    {
        seq_opt(self.left) + seq![self.value] + seq_opt(self.right)
    }
}

impl Tree {
    /// Well-formedness of the whole tree.
    pub open spec fn wf(self) -> bool {
        wf_opt(self.root)
    }

    /// The values of the tree in ascending order.
    pub open spec fn in_order(self) -> Seq<i64> {
        seq_opt(self.root)
    }

    /// Height of the tree: 0 when empty.
    pub open spec fn ht(self) -> int {
        ht_opt(self.root)
    }
}

impl View for Tree {
    type V = Set<i64>;

    /// The abstract view of the tree: the set of values it holds.
    open spec fn view(&self) -> Set<i64> {
        Set::new(|v: i64| has_opt(self.root, v))
    }
}

impl Tree {
    /// Creates an empty tree.
    pub fn new() -> (t: Tree)
        ensures
            t.wf(),
            t@ == Set::<i64>::empty(),
            t.root is None,
    {
        let t = Tree { root: None };
        proof {
            assert(t@ =~= Set::<i64>::empty());
        }
        t
    }

    /// True exactly when the tree holds no value.
    pub fn is_empty(&self) -> (r: bool)
        ensures
            r <==> self@ == Set::<i64>::empty(),
            r <==> self.root is None,
    {
        proof {
            match &self.root {
                None => {
                    assert(self@ =~= Set::<i64>::empty());
                }
                Some(node) => {
                    assert(self@.contains(node.value));
                }
            }
        }
        self.root.is_none()
    }
}

impl Node {
    /// Creates a fresh leaf holding `val`.
    pub fn new(val: i64) -> (n: Node)
        ensures
            n == (Node { value: val, height: 1, left: None, right: None }),
            n.wf(),
            forall|v: i64| n.has(v) <==> v == val,
    {
        Node { value: val, height: 1, left: None, right: None }
    }

    /// The value stored at this node.
    pub fn value(&self) -> (r: &i64)
        ensures
            *r == self.value,
    {
        &self.value
    }

    /// Mutable access to the value stored at this node. Replacing the
    /// value through this reference can break the search ordering; the
    /// new tree is well formed only if the caller preserves it.
    pub fn value_mut(&mut self) -> (r: &mut i64)
        ensures
            *r == old(self).value,
            *final(self) == (Node { value: *final(r), ..*old(self) }),
    {
        &mut self.value
    }

    /// The left subtree.
    pub fn left(&self) -> (r: &Option<Box<Node>>)
        ensures
            *r == self.left,
    {
        &self.left
    }

    /// The right subtree.
    pub fn right(&self) -> (r: &Option<Box<Node>>)
        ensures
            *r == self.right,
    {
        &self.right
    }

    /// The cached height of this node's subtree; equals the true height
    /// on a well-formed node.
    pub fn height(&self) -> (r: i32)
        ensures
            r == self.height,
            self.wf() ==> r == self.ht(),
    {
        self.height
    }
}

/// A node built over the given subtrees, its cached height freshly
/// computed from theirs. The building block of the insertion model
/// below.
pub open spec fn built(value: i64, left: Option<Box<Node>>, right: Option<Box<Node>>) -> Node {
    Node {
        value: value,
        height: (1 + vstd::math::max(ht_opt(left), ht_opt(right))) as i32,
        left: left,
        right: right,
    }
}

/// The node as an occupied subtree.
pub open spec fn some_node(n: Node) -> Option<Box<Node>> {
    Some(Box::new(n))
}

/// The tree a single right rotation produces: the left child rises,
/// the old root descends to its right, and both heights are
/// recomputed.
pub open spec fn rotated_right(n: Node) -> Node {
    let l = *n.left.unwrap();
    built(l.value, l.left, some_node(built(n.value, l.right, n.right)))
}

/// The tree a single left rotation produces, the mirror image of
/// `rotated_right`.
pub open spec fn rotated_left(n: Node) -> Node {
    let r = *n.right.unwrap();
    built(r.value, some_node(built(n.value, n.left, r.left)), r.right)
}

/// The tree the balancing step produces: unchanged when the balance
/// factor is within one; otherwise a single or double rotation, chosen
/// by the taller grandchild exactly as the balancing engine does.
pub open spec fn restructured(n: Node) -> Node {
    let bf = ht_opt(n.left) - ht_opt(n.right);
    if -1 <= bf && bf <= 1 {
        n
    } else if bf == 2 {
        let l = *n.left.unwrap();
        if ht_opt(l.left) < ht_opt(l.right) {
            rotated_right(built(n.value, some_node(rotated_left(l)), n.right))
        } else {
            rotated_right(n)
        }
    } else {
        let r = *n.right.unwrap();
        if ht_opt(r.left) > ht_opt(r.right) {
            rotated_left(built(n.value, n.left, some_node(rotated_right(r))))
        } else {
            rotated_left(n)
        }
    }
}

/// The exact tree a balanced insertion produces: an equal value is
/// overwritten in place, otherwise the value descends, the node is
/// rebuilt over the grown child, and the balancing step runs.
pub open spec fn inserted(n: Node, val: i64) -> Node
    decreases n,
{
    if val == n.value {
        Node { value: val, height: n.height, left: n.left, right: n.right }
    } else if val < n.value {
        restructured(built(n.value, inserted_opt(n.left, val), n.right))
    } else {
        restructured(built(n.value, n.left, inserted_opt(n.right, val)))
    }
}

/// The exact subtree a balanced insertion produces: a fresh leaf where
/// the subtree was absent.
pub open spec fn inserted_opt(n: Option<Box<Node>>, val: i64) -> Option<Box<Node>>
    decreases n,
{
    match n {
        None => some_node(built(val, None, None)),
        Some(b) => some_node(inserted(*b, val)),
    }
}

/// The minimum value of a nonempty subtree, paired with the exact tree
/// that detaching it leaves behind: the walk back up rebuilds and
/// rebalances every ancestor, just as the deletion engine does.
pub open spec fn detached_min(n: Node) -> (i64, Option<Box<Node>>)
    decreases n,
{
    match n.left {
        None => (n.value, n.right),
        Some(l) => {
            let (m, rest) = detached_min(*l);
            (m, some_node(restructured(built(n.value, rest, n.right))))
        }
    }
}

/// The exact tree that splicing the root out of a subtree produces:
/// nothing for a leaf, the lone child if there is one, and otherwise a
/// node carrying the minimum of the right subtree over the old left
/// subtree and the right subtree with that minimum detached.
pub open spec fn spliced(n: Node) -> Option<Box<Node>> {
    if n.left is None && n.right is None {
        None
    } else if n.left is None {
        n.right
    } else if n.right is None {
        n.left
    } else {
        let (m, rest) = detached_min(*n.right.unwrap());
        some_node(built(m, n.left, rest))
    }
}

/// The exact tree a balanced deletion produces: the value descends,
/// the node holding it is spliced out, and every node on the way back
/// up is rebuilt over the shrunken child and rebalanced.
pub open spec fn deleted(n: Option<Box<Node>>, val: i64) -> Option<Box<Node>>
    decreases n,
{
    match n {
        None => None,
        Some(b) => {
            let x = *b;
            if val < x.value {
                some_node(restructured(built(x.value, deleted(x.left, val), x.right)))
            } else if val > x.value {
                some_node(restructured(built(x.value, x.left, deleted(x.right, val))))
            } else {
                match spliced(x) {
                    None => None,
                    Some(m) => some_node(restructured(*m)),
                }
            }
        }
    }
}

/// On a well-formed subtree the cached height is the true height, and
/// the true height lies between 0 and `MAX_HEIGHT`.
pub proof fn lemma_stored_height(n: Option<Box<Node>>)
    requires
        wf_opt(n),
    ensures
        sh_opt(n) == ht_opt(n),
        0 <= ht_opt(n) <= crate::bounds::MAX_HEIGHT,
{
    crate::bounds::lemma_wf_height(n);
    match n {
        None => {
        }
        Some(node) => {
            assert(node.wf());
        }
    }
}

/// Cached height of an optional subtree: 0 when the subtree is absent.
fn subtree_height(node: &Option<Box<Node>>) -> (r: i32)
    ensures
        r as int == sh_opt(*node),
{
    match node {
        None => 0,
        Some(n) => n.height,
    }
}

impl Node {
    /// Balance factor of this node, from the cached heights: cached
    /// height of the left subtree minus cached height of the right.
    fn bf(&self) -> (r: i32)
        requires
            0 <= sh_opt(self.left),
            0 <= sh_opt(self.right),
        ensures
            r as int == sh_opt(self.left) - sh_opt(self.right),
    {
        subtree_height(&self.left) - subtree_height(&self.right)
    }

    /// Recomputes this node's cached height from its children's cached
    /// heights: one more than the taller child.
    fn update_height(&mut self)
        requires
            0 <= sh_opt(old(self).left) < i32::MAX,
            0 <= sh_opt(old(self).right) < i32::MAX,
        ensures
            final(self).left == old(self).left,
            final(self).right == old(self).right,
            final(self).value == old(self).value,
            final(self).height as int == 1 + vstd::math::max(
                sh_opt(old(self).left),
                sh_opt(old(self).right),
            ),
    {
        let lh = subtree_height(&self.left);
        let rh = subtree_height(&self.right);
        let m = if lh > rh {
            lh
        } else {
            rh
        };
        self.height = m + 1;
    }
}

/// Single right rotation. The left child becomes the subtree root and
/// the old root becomes its right child; both cached heights are
/// recomputed. The members and their symmetric order are unchanged; the
/// result's root need not be balanced (the caller decides that from the
/// component heights).
fn rotate_right(mut node: Box<Node>) -> (r: Box<Node>)
    requires
        node.left is Some,
        wf_opt(node.left.unwrap().left),
        wf_opt(node.left.unwrap().right),
        wf_opt(node.right),
        node.left.unwrap().ordered_at(),
        node.ordered_at(),
    ensures
        r.value == node.left.unwrap().value,
        r.left == node.left.unwrap().left,
        r.right is Some,
        r.right.unwrap().value == node.value,
        r.right.unwrap().left == node.left.unwrap().right,
        r.right.unwrap().right == node.right,
        r.right.unwrap().height as int == ht_opt(r.right),
        r.height as int == r.ht(),
        r.ordered_at(),
        r.right.unwrap().ordered_at(),
        forall|v: i64| r.has(v) <==> node.has(v),
        *r == rotated_right(*node),
{
    let ghost n0 = *node;
    let ghost l = *node.left.unwrap();
    proof {
        lemma_stored_height(l.left);
        lemma_stored_height(l.right);
        lemma_stored_height(n0.right);
    }
    let mut b = node.left.take().unwrap();
    node.left = b.right.take();
    node.update_height();
    b.right = Some(node);
    b.update_height();
    proof {
        let m = *b.right.unwrap();
        assert(m.value == n0.value && m.left == l.right && m.right == n0.right);
        assert(m.ht() == 1 + vstd::math::max(ht_opt(l.right), ht_opt(n0.right)));
        assert(b.ht() == 1 + vstd::math::max(ht_opt(l.left), m.ht()));
        assert(b.ordered_at()) by {
            assert(forall|v: i64| has_opt(b.left, v) ==> v < b.value);
            assert forall|v: i64| has_opt(b.right, v) implies v > b.value by {
                assert(has_opt(n0.left, l.value));
                if v == m.value {
                } else if has_opt(m.left, v) {
                } else {
                    assert(has_opt(m.right, v));
                    assert(v > n0.value);
                    assert(l.value < n0.value);
                }
            }
        }
        assert(m.ordered_at()) by {
            assert forall|v: i64| has_opt(m.left, v) implies v < m.value by {
                assert(has_opt(n0.left, v));
            }
        }
        assert forall|v: i64| b.has(v) <==> n0.has(v) by {
            assert(b.has(v) == (b.value == v || has_opt(b.left, v) || has_opt(b.right, v)));
            assert(has_opt(b.right, v) == (m.value == v || has_opt(m.left, v) || has_opt(
                m.right,
                v,
            )));
            assert(n0.has(v) == (n0.value == v || has_opt(n0.left, v) || has_opt(
                n0.right,
                v,
            )));
            assert(has_opt(n0.left, v) == (l.value == v || has_opt(l.left, v) || has_opt(
                l.right,
                v,
            )));
        }
        assert(*b == rotated_right(n0)) by {
            let inner = built(n0.value, l.right, n0.right);
            assert(m == inner);
            assert(b.right == some_node(inner));
            assert(ht_opt(some_node(inner)) == m.ht());
            assert(*b == built(l.value, l.left, some_node(inner)));
        }
    }
    b
}

/// Single left rotation, the mirror image of `rotate_right`.
fn rotate_left(mut node: Box<Node>) -> (r: Box<Node>)
    requires
        node.right is Some,
        wf_opt(node.right.unwrap().left),
        wf_opt(node.right.unwrap().right),
        wf_opt(node.left),
        node.right.unwrap().ordered_at(),
        node.ordered_at(),
    ensures
        r.value == node.right.unwrap().value,
        r.right == node.right.unwrap().right,
        r.left is Some,
        r.left.unwrap().value == node.value,
        r.left.unwrap().right == node.right.unwrap().left,
        r.left.unwrap().left == node.left,
        r.left.unwrap().height as int == ht_opt(r.left),
        r.height as int == r.ht(),
        r.ordered_at(),
        r.left.unwrap().ordered_at(),
        forall|v: i64| r.has(v) <==> node.has(v),
        *r == rotated_left(*node),
{
    let ghost n0 = *node;
    let ghost l = *node.right.unwrap();
    proof {
        lemma_stored_height(l.left);
        lemma_stored_height(l.right);
        lemma_stored_height(n0.left);
    }
    let mut b = node.right.take().unwrap();
    node.right = b.left.take();
    node.update_height();
    b.left = Some(node);
    b.update_height();
    proof {
        let m = *b.left.unwrap();
        assert(m.value == n0.value && m.left == n0.left && m.right == l.left);
        assert(m.ht() == 1 + vstd::math::max(ht_opt(n0.left), ht_opt(l.left)));
        assert(b.ht() == 1 + vstd::math::max(m.ht(), ht_opt(l.right)));
        assert(b.ordered_at()) by {
            assert(forall|v: i64| has_opt(b.right, v) ==> v > b.value);
            assert forall|v: i64| has_opt(b.left, v) implies v < b.value by {
                assert(has_opt(n0.right, l.value));
                if v == m.value {
                } else if has_opt(m.right, v) {
                } else {
                    assert(has_opt(m.left, v));
                    assert(v < n0.value);
                    assert(l.value > n0.value);
                }
            }
        }
        assert(m.ordered_at()) by {
            assert forall|v: i64| has_opt(m.right, v) implies v > m.value by {
                assert(has_opt(n0.right, v));
            }
        }
        assert forall|v: i64| b.has(v) <==> n0.has(v) by {
            assert(b.has(v) == (b.value == v || has_opt(b.left, v) || has_opt(b.right, v)));
            assert(has_opt(b.left, v) == (m.value == v || has_opt(m.left, v) || has_opt(
                m.right,
                v,
            )));
            assert(n0.has(v) == (n0.value == v || has_opt(n0.left, v) || has_opt(
                n0.right,
                v,
            )));
            assert(has_opt(n0.right, v) == (l.value == v || has_opt(l.left, v) || has_opt(
                l.right,
                v,
            )));
        }
        assert(*b == rotated_left(n0)) by {
            let inner = built(n0.value, n0.left, l.left);
            assert(m == inner);
            assert(b.left == some_node(inner));
            assert(ht_opt(some_node(inner)) == m.ht());
            assert(*b == built(l.value, some_node(inner), l.right));
        }
    }
    b
}

/// The balancing step shared by insertion and deletion. Takes a node
/// whose children are well formed and whose own cached height is fresh,
/// with a balance factor anywhere in [-2, 2], and returns a well-formed
/// subtree with the same members. A balance factor outside that range
/// would be an internal defect; the contract proves it impossible, so
/// no runtime check is needed. The height shrinks by at most one.
fn restructure(mut node: Box<Node>) -> (r: Box<Node>)
    requires
        wf_opt(node.left),
        wf_opt(node.right),
        node.ordered_at(),
        node.height as int == node.ht(),
        -2 <= ht_opt(node.left) - ht_opt(node.right) <= 2,
    ensures
        r.wf(),
        forall|v: i64| r.has(v) <==> node.has(v),
        node.ht() - 1 <= r.ht() <= node.ht(),
        -1 <= ht_opt(node.left) - ht_opt(node.right) <= 1 ==> r == node,
        *r == restructured(*node),
{
    let ghost n0 = *node;
    proof {
        lemma_stored_height(n0.left);
        lemma_stored_height(n0.right);
    }
    let balance = node.bf();
    if -1 <= balance && balance <= 1 {
        proof {
            assert(node.wf());
            assert(*node == restructured(n0));
        }
        node
    } else if balance == 2 {
        proof {
            assert(ht_opt(n0.left) >= 2);
            assert(n0.left is Some);
        }
        let ghost l = *n0.left.unwrap();
        let mut left = node.left.take().unwrap();
        proof {
            lemma_stored_height(l.left);
            lemma_stored_height(l.right);
        }
        if subtree_height(&left.left) < subtree_height(&left.right) {
            // Left-right case: the left child leans right, so rotate it
            // left first, then rotate this node right.
            proof {
                assert(ht_opt(l.right) > ht_opt(l.left));
                assert(l.right is Some);
            }
            let ghost lr = *l.right.unwrap();
            proof {
                assert(l.wf());
                assert(l.right.unwrap().wf());
                lemma_stored_height(lr.left);
                lemma_stored_height(lr.right);
            }
            let nl = rotate_left(left);
            proof {
                assert(nl.left.unwrap().wf()) by {
                    assert(nl.left.unwrap().left == l.left);
                    assert(nl.left.unwrap().right == lr.left);
                }
            }
            node.left = Some(nl);
            node.update_height();
            proof {
                assert forall|v: i64| has_opt(node.left, v) implies v < node.value by {
                    assert(nl.has(v) == l.has(v));
                    assert(has_opt(n0.left, v));
                }
                assert(node.ordered_at());
                assert(*node == built(n0.value, some_node(rotated_left(l)), n0.right)) by {
                    assert(*nl == rotated_left(l));
                    assert(nl.height as int == ht_opt(some_node(rotated_left(l))));
                }
            }
            let r = rotate_right(node);
            proof {
                let m2 = *r.right.unwrap();
                assert(m2.wf());
                assert(r.wf());
                assert forall|v: i64| r.has(v) <==> n0.has(v) by {
                    assert(has_opt(n0.left, v) == l.has(v));
                }
                assert(*r == restructured(n0));
            }
            r
        } else {
            // Left-left case: a single right rotation suffices.
            node.left = Some(left);
            proof {
                assert(node == n0);
            }
            let r = rotate_right(node);
            proof {
                let m = *r.right.unwrap();
                assert(m.wf()) by {
                    assert(m.left == l.right);
                    assert(m.right == n0.right);
                }
                assert(r.wf());
                assert(*r == restructured(n0));
            }
            r
        }
    } else {
        proof {
            assert(balance == -2);
            assert(ht_opt(n0.right) >= 2);
            assert(n0.right is Some);
        }
        let ghost l = *n0.right.unwrap();
        let mut right = node.right.take().unwrap();
        proof {
            lemma_stored_height(l.left);
            lemma_stored_height(l.right);
        }
        if subtree_height(&right.left) > subtree_height(&right.right) {
            // Right-left case: the right child leans left, so rotate it
            // right first, then rotate this node left.
            proof {
                assert(ht_opt(l.left) > ht_opt(l.right));
                assert(l.left is Some);
            }
            let ghost ll = *l.left.unwrap();
            proof {
                assert(l.wf());
                assert(l.left.unwrap().wf());
                lemma_stored_height(ll.left);
                lemma_stored_height(ll.right);
            }
            let nr = rotate_right(right);
            proof {
                assert(nr.right.unwrap().wf()) by {
                    assert(nr.right.unwrap().right == l.right);
                    assert(nr.right.unwrap().left == ll.right);
                }
            }
            node.right = Some(nr);
            node.update_height();
            proof {
                assert forall|v: i64| has_opt(node.right, v) implies v > node.value by {
                    assert(nr.has(v) == l.has(v));
                    assert(has_opt(n0.right, v));
                }
                assert(node.ordered_at());
                assert(*node == built(n0.value, n0.left, some_node(rotated_right(l)))) by {
                    assert(*nr == rotated_right(l));
                    assert(nr.height as int == ht_opt(some_node(rotated_right(l))));
                }
            }
            let r = rotate_left(node);
            proof {
                let m2 = *r.left.unwrap();
                assert(m2.wf());
                assert(r.wf());
                assert forall|v: i64| r.has(v) <==> n0.has(v) by {
                    assert(has_opt(n0.right, v) == l.has(v));
                }
                assert(*r == restructured(n0));
            }
            r
        } else {
            // Right-right case: a single left rotation suffices.
            node.right = Some(right);
            proof {
                assert(node == n0);
            }
            let r = rotate_left(node);
            proof {
                assert(*r == restructured(n0));
                let m = *r.left.unwrap();
                assert(m.wf()) by {
                    assert(m.right == l.left);
                    assert(m.left == n0.left);
                }
                assert(r.wf());
            }
            r
        }
    }
}

/// Balanced insertion into a nonempty subtree. An equal value
/// overwrites the one stored; otherwise the new value descends to a
/// leaf position and every node on the way back up is re-measured and
/// rebalanced. The height grows by at most one.
fn insert(mut node: Box<Node>, val: i64) -> (r: Box<Node>)
    requires
        node.wf(),
    ensures
        r.wf(),
        forall|v: i64| r.has(v) <==> node.has(v) || v == val,
        node.ht() <= r.ht() <= node.ht() + 1,
        node.has(val) ==> r == node,
        *r == inserted(*node, val),
    decreases *node,
{
    let ghost n0 = *node;
    proof {
        lemma_stored_height(n0.left);
        lemma_stored_height(n0.right);
    }
    if val == node.value {
        node.value = val;
        proof {
            assert(*node == n0);
            assert(*node == inserted(n0, val));
        }
        node
    } else if val < node.value {
        let child = insert_in(node.left.take(), val);
        proof {
            lemma_stored_height(child);
        }
        node.left = child;
        node.update_height();
        proof {
            assert forall|v: i64| has_opt(node.left, v) implies v < node.value by {
                if v != val {
                    assert(has_opt(n0.left, v));
                }
            }
            assert(node.ordered_at());
            if n0.has(val) {
                if has_opt(n0.right, val) {
                    assert(val > n0.value);
                }
                assert(has_opt(n0.left, val));
                assert(node.left == n0.left);
                assert(*node == n0);
            }
            assert(*node == built(n0.value, inserted_opt(n0.left, val), n0.right)) by {
                assert(node.left == inserted_opt(n0.left, val));
            }
        }
        let r = restructure(node);
        proof {
            assert(*r == inserted(n0, val));
            assert forall|v: i64| r.has(v) <==> n0.has(v) || v == val by {
                assert(r.has(v) == (node.value == v || has_opt(node.left, v) || has_opt(
                    n0.right,
                    v,
                )));
            }
        }
        r
    } else {
        let child = insert_in(node.right.take(), val);
        proof {
            lemma_stored_height(child);
        }
        node.right = child;
        node.update_height();
        proof {
            assert forall|v: i64| has_opt(node.right, v) implies v > node.value by {
                if v != val {
                    assert(has_opt(n0.right, v));
                }
            }
            assert(node.ordered_at());
            if n0.has(val) {
                if has_opt(n0.left, val) {
                    assert(val < n0.value);
                }
                assert(has_opt(n0.right, val));
                assert(node.right == n0.right);
                assert(*node == n0);
            }
            assert(*node == built(n0.value, n0.left, inserted_opt(n0.right, val))) by {
                assert(node.right == inserted_opt(n0.right, val));
            }
        }
        let r = restructure(node);
        proof {
            assert(*r == inserted(n0, val));
            assert forall|v: i64| r.has(v) <==> n0.has(v) || v == val by {
                assert(r.has(v) == (node.value == v || has_opt(n0.left, v) || has_opt(
                    node.right,
                    v,
                )));
            }
        }
        r
    }
}

/// Balanced insertion into an optional subtree: a fresh leaf when the
/// subtree is absent, `insert` otherwise. The result is never absent.
fn insert_in(node: Option<Box<Node>>, val: i64) -> (r: Option<Box<Node>>)
    requires
        wf_opt(node),
    ensures
        r is Some,
        wf_opt(r),
        forall|v: i64| has_opt(r, v) <==> has_opt(node, v) || v == val,
        ht_opt(node) <= ht_opt(r) <= ht_opt(node) + 1,
        has_opt(node, val) ==> r == node,
        r == inserted_opt(node, val),
    decreases node,
{
    match node {
        Some(n) => {
            let ghost g = *n;
            let out = insert(n, val);
            let ghost gout = *out;
            let res = Some(out);
            proof {
                assert forall|v: i64| has_opt(res, v) <==> has_opt(node, v) || v == val by {
                    assert(has_opt(res, v) == gout.has(v));
                    assert(has_opt(node, v) == g.has(v));
                }
                if g.has(val) {
                    assert(res == node);
                }
                assert(res == inserted_opt(node, val)) by {
                    assert(gout == inserted(g, val));
                }
            }
            res
        }
        None => {
            let leaf = Node::new(val);
            proof {
                assert(leaf == built(val, None, None));
            }
            Some(Box::new(leaf))
        }
    }
}

/// Detaches the minimum-valued node of a subtree. Returns the detached
/// node, reduced to a bare leaf, together with the remaining subtree,
/// rebalanced on the way back up. The remainder's height shrinks by at
/// most one.
#[verifier::spinoff_prover]
#[verifier::rlimit(30)]
fn minimum(mut node: Box<Node>) -> (r: (Box<Node>, Option<Box<Node>>))
    requires
        node.wf(),
    ensures
        r.0.left is None,
        r.0.right is None,
        r.0.height == 1,
        node.has(r.0.value),
        forall|v: i64| node.has(v) ==> r.0.value <= v,
        wf_opt(r.1),
        forall|v: i64| has_opt(r.1, v) <==> node.has(v) && v != r.0.value,
        node.ht() - 1 <= ht_opt(r.1) <= node.ht(),
        r.0.value == detached_min(*node).0,
        r.1 == detached_min(*node).1,
    decreases *node,
{
    let ghost n0 = *node;
    proof {
        lemma_stored_height(n0.left);
        lemma_stored_height(n0.right);
    }
    match node.left.take() {
        None => {
            let rest = node.right.take();
            node.height = 1;
            proof {
                assert forall|v: i64| n0.has(v) implies node.value <= v by {
                    if has_opt(n0.right, v) {
                    }
                }
                assert forall|v: i64| has_opt(rest, v) <==> n0.has(v) && v != n0.value by {
                    if has_opt(n0.right, v) {
                        assert(v > n0.value);
                    }
                }
                assert(node.value == n0.value);
            }
            (node, rest)
        }
        Some(l) => {
            let ghost gl = *l;
            let (m, rest_left) = minimum(l);
            proof {
                lemma_stored_height(rest_left);
            }
            node.left = rest_left;
            node.update_height();
            proof {
                assert forall|v: i64| has_opt(node.left, v) implies v < node.value by {
                    assert(gl.has(v));
                    assert(has_opt(n0.left, v));
                }
                assert(node.ordered_at());
            }
            let ghost n1 = *node;
            let r = restructure(node);
            proof {
                assert(gl.has(m.value));
                assert(has_opt(n0.left, m.value));
                assert(m.value < n0.value);
                assert forall|v: i64| n0.has(v) implies m.value <= v by {
                    if has_opt(n0.left, v) {
                        assert(gl.has(v));
                    } else if has_opt(n0.right, v) {
                        assert(v > n0.value);
                    }
                }
                assert forall|v: i64| has_opt(Some(r), v) <==> n0.has(v) && v != m.value by {
                    assert(r.has(v) == (n0.value == v || has_opt(n1.left, v) || has_opt(
                        n0.right,
                        v,
                    )));
                    assert(has_opt(n1.left, v) == (gl.has(v) && v != m.value));
                    assert(has_opt(n0.left, v) == gl.has(v));
                    assert(n0.has(v) == (n0.value == v || has_opt(n0.left, v) || has_opt(
                        n0.right,
                        v,
                    )));
                    if has_opt(n0.right, v) {
                        assert(v > n0.value);
                    }
                }
                assert(m.value == detached_min(n0).0) by {
                    assert(m.value == detached_min(gl).0);
                }
                assert(Some(r) == detached_min(n0).1) by {
                    assert(n1.left == detached_min(gl).1);
                    assert(n1 == built(n0.value, n1.left, n0.right));
                    assert(*r == restructured(n1));
                }
            }
            (m, Some(r))
        }
    }
}

/// Splices the root value out of a subtree: with no children the
/// subtree vanishes, with one child the child takes its place, and
/// with two children the minimum of the right subtree is detached and
/// reused as the replacement root, keeping the old left subtree. The
/// result's members are exactly the old ones minus the old root value;
/// its height shrinks by at most one, and when it does shrink the new
/// root is already balanced.
fn remove_in(mut node: Box<Node>) -> (r: Option<Box<Node>>)
    requires
        node.wf(),
    ensures
        forall|v: i64| has_opt(r, v) <==> node.has(v) && v != node.value,
        node.ht() - 1 <= ht_opt(r) <= node.ht(),
        r is Some ==> wf_opt(r.unwrap().left) && wf_opt(r.unwrap().right)
            && r.unwrap().ordered_at() && r.unwrap().height as int == ht_opt(r),
        r is Some ==> -2 <= ht_opt(r.unwrap().left) - ht_opt(r.unwrap().right) <= 2,
        r is Some && ht_opt(r) == node.ht() - 1 ==> -1 <= ht_opt(r.unwrap().left) - ht_opt(
            r.unwrap().right,
        ) <= 1,
        r is None <==> node.left is None && node.right is None,
        node.left is None ==> r == node.right,
        node.right is None ==> r == node.left,
        node.left is Some && node.right is Some ==> r is Some && r.unwrap().left == node.left
            && has_opt(node.right, r.unwrap().value) && (forall|v: i64|
            has_opt(node.right, v) ==> r.unwrap().value <= v),
        r == spliced(*node),
{
    let ghost n0 = *node;
    proof {
        lemma_stored_height(n0.left);
        lemma_stored_height(n0.right);
    }
    if node.left.is_none() && node.right.is_none() {
        None
    } else if node.left.is_none() {
        proof {
            assert(n0.right.unwrap().wf());
            assert forall|v: i64| has_opt(n0.right, v) implies v != n0.value by {
            }
        }
        node.right.take()
    } else if node.right.is_none() {
        proof {
            assert(n0.left.unwrap().wf());
            assert forall|v: i64| has_opt(n0.left, v) implies v != n0.value by {
            }
        }
        node.left.take()
    } else {
        let right = node.right.take().unwrap();
        let ghost gr = *right;
        let (mut successor, rest) = minimum(right);
        proof {
            lemma_stored_height(rest);
            assert(has_opt(n0.right, successor.value));
        }
        successor.left = node.left.take();
        successor.right = rest;
        successor.update_height();
        proof {
            assert(successor.value > n0.value);
            assert forall|v: i64| has_opt(successor.left, v) implies v < successor.value by {
                assert(has_opt(n0.left, v));
                assert(v < n0.value);
            }
            assert forall|v: i64| has_opt(successor.right, v) implies v > successor.value by {
                assert(gr.has(v) && v != successor.value);
                assert(successor.value <= v);
            }
            assert(successor.ordered_at());
            assert forall|v: i64| has_opt(Some(successor), v) <==> n0.has(v) && v != n0.value by {
                assert(successor.has(v) == (successor.value == v || has_opt(n0.left, v)
                    || has_opt(successor.right, v)));
                assert(has_opt(successor.right, v) == (gr.has(v) && v != successor.value));
                assert(n0.has(v) == (n0.value == v || has_opt(n0.left, v) || gr.has(v)));
                if has_opt(n0.left, v) {
                    assert(v < n0.value);
                }
                if gr.has(v) {
                    assert(has_opt(n0.right, v));
                    assert(v > n0.value);
                }
                if v == successor.value {
                    assert(gr.has(v));
                }
            }
            assert forall|v: i64| has_opt(n0.right, v) implies successor.value <= v by {
                assert(gr.has(v));
            }
            assert(Some(successor) == spliced(n0)) by {
                assert(successor.value == detached_min(gr).0);
                assert(successor.right == detached_min(gr).1);
                assert(*successor == built(detached_min(gr).0, n0.left, detached_min(gr).1));
            }
        }
        Some(successor)
    }
}

/// Balanced deletion from an optional subtree: descends to the value,
/// splices it out, and rebalances every node on the way back up. The
/// members afterwards are exactly the old ones minus `val`; the height
/// shrinks by at most one.
fn delete(node: Option<Box<Node>>, val: i64) -> (r: Option<Box<Node>>)
    requires
        wf_opt(node),
    ensures
        wf_opt(r),
        forall|v: i64| has_opt(r, v) <==> has_opt(node, v) && v != val,
        ht_opt(node) - 1 <= ht_opt(r) <= ht_opt(node),
        !has_opt(node, val) ==> r == node,
        r == deleted(node, val),
    decreases node,
{
    match node {
        None => None,
        Some(mut n) => {
            let ghost n0 = *n;
            proof {
                lemma_stored_height(n0.left);
                lemma_stored_height(n0.right);
            }
            if val < n.value {
                proof {
                    if has_opt(n0.right, val) {
                        assert(val > n0.value);
                    }
                }
                let child = delete(n.left.take(), val);
                proof {
                    lemma_stored_height(child);
                    assert(forall|v: i64| has_opt(child, v) == (has_opt(n0.left, v) && v != val));
                }
                n.left = child;
            } else if val > n.value {
                proof {
                    if has_opt(n0.left, val) {
                        assert(val < n0.value);
                    }
                }
                let child = delete(n.right.take(), val);
                proof {
                    lemma_stored_height(child);
                    assert(forall|v: i64| has_opt(child, v) == (has_opt(n0.right, v) && v != val));
                }
                n.right = child;
            } else {
                match remove_in(n) {
                    Some(m) => {
                        proof {
                            lemma_stored_height(m.left);
                            lemma_stored_height(m.right);
                            assert forall|v: i64| (m.value == v || has_opt(m.left, v) || has_opt(
                                m.right,
                                v,
                            )) <==> n0.has(v) && v != n0.value by {
                                assert(has_opt(Some(m), v) == m.has(v));
                            }
                        }
                        n = m;
                    }
                    None => {
                        proof {
                            assert(has_opt(node, val));
                            assert(deleted(node, val) is None) by {
                                assert(spliced(n0) is None);
                            }
                        }
                        return None;
                    }
                }
            }
            proof {
                assert(n.ordered_at()) by {
                    if val < n0.value {
                        assert forall|v: i64| has_opt(n.left, v) implies v < n.value by {
                            assert(has_opt(n0.left, v));
                        }
                    } else if val > n0.value {
                        assert forall|v: i64| has_opt(n.right, v) implies v > n.value by {
                            assert(has_opt(n0.right, v));
                        }
                    }
                }
            }
            n.update_height();
            let ghost gn = *n;
            let out = restructure(n);
            proof {
                assert forall|v: i64| has_opt(Some(out), v) <==> has_opt(node, v) && v != val by {
                    assert(out.has(v) == gn.has(v));
                    assert(has_opt(node, v) == n0.has(v));
                    assert(gn.has(v) == (gn.value == v || has_opt(gn.left, v) || has_opt(
                        gn.right,
                        v,
                    )));
                    assert(n0.has(v) == (n0.value == v || has_opt(n0.left, v) || has_opt(
                        n0.right,
                        v,
                    )));
                    if val < n0.value {
                        assert(has_opt(gn.left, v) == (has_opt(n0.left, v) && v != val));
                        if v == val && has_opt(n0.right, v) {
                            assert(v > n0.value);
                        }
                    } else if val > n0.value {
                        assert(has_opt(gn.right, v) == (has_opt(n0.right, v) && v != val));
                        if v == val && has_opt(n0.left, v) {
                            assert(v < n0.value);
                        }
                    } else {
                        assert((gn.value == v || has_opt(gn.left, v) || has_opt(gn.right, v))
                            <==> n0.has(v) && v != n0.value);
                    }
                }
                if !n0.has(val) {
                    assert(val != n0.value);
                    if val < n0.value {
                        assert(!has_opt(n0.left, val));
                        assert(gn == n0);
                    } else {
                        assert(!has_opt(n0.right, val));
                        assert(gn == n0);
                    }
                    assert(*out == gn);
                    assert(Some(out) == node);
                }
                assert(Some(out) == deleted(node, val)) by {
                    assert(*out == restructured(gn));
                    if val < n0.value {
                        assert(gn.left == deleted(n0.left, val));
                        assert(gn == built(n0.value, gn.left, n0.right));
                    } else if val > n0.value {
                        assert(gn.right == deleted(n0.right, val));
                        assert(gn == built(n0.value, n0.left, gn.right));
                    } else {
                        assert(spliced(n0) is Some);
                        assert(gn == *spliced(n0).unwrap());
                    }
                }
            }
            Some(out)
        }
    }
}

impl Node {
    /// Whether a value equal to `val` is stored in this subtree,
    /// following the search ordering.
    fn contains(&self, val: i64) -> (r: bool)
        requires
            self.wf(),
        ensures
            r == self.has(val),
        decreases *self,
    {
        if val == self.value {
            true
        } else if val < self.value {
            proof {
                if has_opt(self.right, val) {
                    assert(val > self.value);
                }
            }
            match &self.left {
                Some(n) => n.contains(val),
                None => false,
            }
        } else {
            proof {
                if has_opt(self.left, val) {
                    assert(val < self.value);
                }
            }
            match &self.right {
                Some(n) => n.contains(val),
                None => false,
            }
        }
    }
}

impl Tree {
    /// Inserts `val`, rebalancing along the way back to the root. An
    /// equal value is overwritten in place, and the tree — structure
    /// and cached heights included — stays as it was. Insertion cannot
    /// fail, so the result is always `true`; afterwards the tree holds
    /// exactly the old values plus `val`.
    pub fn insert(&mut self, val: i64) -> (r: bool)
        requires
            old(self).wf(),
        ensures
            final(self).wf(),
            final(self)@ == old(self)@.insert(val),
            r == true,
            old(self)@.contains(val) ==> *final(self) == *old(self),
            final(self).root == inserted_opt(old(self).root, val),
    {
        let ghost t0 = *old(self);
        match self.root.take() {
            Some(node) => {
                let ghost g = *node;
                let out = insert(node, val);
                let ghost gout = *out;
                self.root = Some(out);
                proof {
                    assert forall|v: i64| has_opt(self.root, v) <==> has_opt(t0.root, v) || v
                        == val by {
                        assert(has_opt(self.root, v) == gout.has(v));
                        assert(has_opt(t0.root, v) == g.has(v));
                    }
                    if t0@.contains(val) {
                        assert(g.has(val));
                        assert(*self == t0);
                    }
                    assert(self.root == inserted_opt(t0.root, val)) by {
                        assert(gout == inserted(g, val));
                    }
                }
            }
            None => {
                let leaf = Node::new(val);
                let ghost gl = leaf;
                self.root = Some(Box::new(leaf));
                proof {
                    assert forall|v: i64| has_opt(self.root, v) <==> has_opt(t0.root, v) || v
                        == val by {
                        assert(has_opt(self.root, v) == gl.has(v));
                    }
                    assert(self.root == inserted_opt(t0.root, val)) by {
                        assert(gl == built(val, None, None));
                    }
                }
            }
        }
        proof {
            assert forall|v: i64| self@.contains(v) <==> t0@.insert(val).contains(v) by {
                assert(self@.contains(v) == has_opt(self.root, v));
                assert(t0@.contains(v) == has_opt(t0.root, v));
            }
            assert(self@ =~= t0@.insert(val));
        }
        true
    }

    /// Whether the tree holds a value equal to `val`. Never mutates
    /// and never rebalances.
    pub fn contains(&self, val: i64) -> (r: bool)
        requires
            self.wf(),
        ensures
            r == self@.contains(val),
    {
        match &self.root {
            Some(node) => node.contains(val),
            None => false,
        }
    }

    /// Removes the value equal to `val` if the tree holds one,
    /// rebalancing along the way back to the root. Returns whether a
    /// value was removed; afterwards the tree holds exactly the old
    /// values minus `val`. Deleting an absent value is a no-op that
    /// leaves the tree — structure and cached heights included —
    /// exactly as it was.
    pub fn delete(&mut self, val: i64) -> (r: bool)
        requires
            old(self).wf(),
        ensures
            final(self).wf(),
            final(self)@ == old(self)@.remove(val),
            r == old(self)@.contains(val),
            !old(self)@.contains(val) ==> *final(self) == *old(self),
            final(self).root == deleted(old(self).root, val),
    {
        let ghost t0 = *old(self);
        let found = self.contains(val);
        match self.root.take() {
            Some(node) => {
                self.root = delete(Some(node), val);
            }
            None => {
                self.root = None;
            }
        }
        proof {
            assert(self.root == deleted(t0.root, val));
            if !t0@.contains(val) {
                assert(!has_opt(t0.root, val));
                assert(*self == t0);
            }
            assert forall|v: i64| self@.contains(v) <==> t0@.remove(val).contains(v) by {
                assert(self@.contains(v) == has_opt(self.root, v));
                assert(t0@.contains(v) == has_opt(t0.root, v));
            }
            assert(self@ =~= t0@.remove(val));
        }
        found
    }

    /// Synonym for `delete`: removes the value equal to `val` if it is
    /// present and reports whether it was.
    pub fn remove(&mut self, val: i64) -> (r: bool)
        requires
            old(self).wf(),
        ensures
            final(self).wf(),
            final(self)@ == old(self)@.remove(val),
            r == old(self)@.contains(val),
            !old(self)@.contains(val) ==> *final(self) == *old(self),
            final(self).root == deleted(old(self).root, val),
    {
        self.delete(val)
    }
}

/// Number of values in the subtree `n`.
spec fn count_opt(n: Option<Box<Node>>) -> nat
    decreases n,
{
    match n {
        None => 0,
        Some(b) => 1 + count_opt(b.left) + count_opt(b.right),
    }
}

/// In-order values of the subtree an iterator is currently standing on.
spec fn cur_seq(c: Option<&Node>) -> Seq<i64> {
    match c {
        None => Seq::empty(),
        Some(n) => n.in_order(),
    }
}

/// Number of values in the subtree an iterator is currently standing
/// on; the descent measure of `TreeIter::next`.
spec fn cur_count(c: Option<&Node>) -> nat {
    match c {
        None => 0,
        Some(n) => 1 + count_opt(n.left) + count_opt(n.right),
    }
}

/// Values still owed by a stack of ancestors, topmost first: each
/// pushed node owes its own value and then its right subtree.
spec fn stack_tail(s: Seq<&Node>) -> Seq<i64>
    decreases s.len(),
{
    if s.len() == 0 {
        Seq::empty()
    } else {
        seq![s.last().value] + seq_opt(s.last().right) + stack_tail(s.drop_last())
    }
}

/// Borrows the node inside an optional subtree, if any.
fn opt_ref<'a>(o: &'a Option<Box<Node>>) -> (r: Option<&'a Node>)
    ensures
        (r is Some) <==> (*o is Some),
        r is Some ==> *r.unwrap() == *o.unwrap(),
{
    match o {
        Some(b) => Some(&**b),
        None => None,
    }
}

impl<'a> TreeIter<'a> {
    /// The values this iterator has yet to produce, in ascending
    /// symmetric order of the tree it walks.
    pub closed spec fn remaining(self) -> Seq<i64> {
        cur_seq(self.current_node) + stack_tail(self.previous_nodes@)
    }

    /// Produces the next node of the in-order traversal, or nothing
    /// once every node has been produced.
    pub fn next(&mut self) -> (r: Option<&'a Node>)
        ensures
            old(self).remaining().len() == 0 ==> r is None && final(self).remaining() == old(
                self,
            ).remaining(),
            old(self).remaining().len() > 0 ==> r is Some && r.unwrap().value == old(
                self,
            ).remaining()[0] && final(self).remaining() == old(self).remaining().drop_first(),
    {
        loop
            invariant
                self.remaining() == old(self).remaining(),
            decreases cur_count(self.current_node),
        {
            let cur = self.current_node;
            match cur {
                Some(node) => {
                    let ghost stack1 = self.previous_nodes@;
                    if node.left.is_some() {
                        self.previous_nodes.push(node);
                        self.current_node = opt_ref(&node.left);
                        proof {
                            let stack2 = self.previous_nodes@;
                            assert(stack2.last() == node);
                            assert(stack2.drop_last() =~= stack1);
                            assert(stack_tail(stack2) == seq![node.value] + seq_opt(node.right)
                                + stack_tail(stack1));
                            assert(cur_seq(self.current_node) == seq_opt(node.left));
                            assert(self.remaining() =~= node.in_order() + stack_tail(stack1));
                        }
                    } else if node.right.is_some() {
                        self.current_node = opt_ref(&node.right);
                        proof {
                            assert(cur_seq(self.current_node) == seq_opt(node.right));
                            assert(seq_opt(node.left) =~= Seq::<i64>::empty());
                            assert(node.in_order()[0] == node.value);
                            assert(self.remaining() =~= (node.in_order() + stack_tail(
                                stack1,
                            )).drop_first());
                        }
                        return Some(node);
                    } else {
                        self.current_node = None;
                        proof {
                            assert(seq_opt(node.left) =~= Seq::<i64>::empty());
                            assert(seq_opt(node.right) =~= Seq::<i64>::empty());
                            assert(node.in_order()[0] == node.value);
                            assert(self.remaining() =~= (node.in_order() + stack_tail(
                                stack1,
                            )).drop_first());
                        }
                        return Some(node);
                    }
                }
                None => {
                    let ghost stack1 = self.previous_nodes@;
                    match self.previous_nodes.pop() {
                        None => {
                            proof {
                                assert(stack1.len() == 0);
                                assert(self.remaining() =~= old(self).remaining());
                            }
                            return None;
                        }
                        Some(n) => {
                            self.current_node = opt_ref(&n.right);
                            proof {
                                assert(stack1.last() == n);
                                assert(self.previous_nodes@ =~= stack1.drop_last());
                                assert(stack_tail(stack1) == seq![n.value] + seq_opt(n.right)
                                    + stack_tail(stack1.drop_last()));
                                assert(stack_tail(stack1)[0] == n.value);
                                assert(self.remaining() =~= stack_tail(stack1).drop_first());
                            }
                            return Some(n);
                        }
                    }
                }
            }
        }
    }
}

impl Tree {
    /// Starts a fresh lazy in-order traversal over this tree's nodes.
    /// A fresh call restarts from the smallest value.
    pub fn node_iter(&self) -> (it: TreeIter<'_>)
        ensures
            it.remaining() == self.in_order(),
    {
        let it = TreeIter { previous_nodes: Vec::new(), current_node: opt_ref(&self.root) };
        proof {
            assert(it.remaining() =~= self.in_order());
        }
        it
    }

    /// All values of the tree, in ascending order. On a well-formed
    /// tree the result is strictly ascending and lists exactly the
    /// members of the tree's set view.
    pub fn iter(&self) -> (r: Vec<i64>)
        ensures
            r@ == self.in_order(),
            self.wf() ==> crate::order::strictly_ascending(r@),
            self.wf() ==> forall|v: i64| r@.contains(v) <==> self@.contains(v),
    {
        let mut out: Vec<i64> = Vec::new();
        let mut it = self.node_iter();
        loop
            invariant
                out@ + it.remaining() == self.in_order(),
            ensures
                out@ == self.in_order(),
            decreases it.remaining().len(),
        {
            match it.next() {
                Some(n) => {
                    out.push(*n.value());
                    proof {
                        assert(out@ + it.remaining() =~= self.in_order());
                    }
                }
                None => {
                    proof {
                        assert(out@ =~= self.in_order());
                    }
                    break;
                }
            }
        }
        proof {
            if self.wf() {
                crate::order::lemma_wf_ascending(self.root);
                crate::order::lemma_in_order_membership(self.root);
            }
        }
        out
    }
}

} // verus!
