//! A self-balancing (AVL) search tree of distinct `u32` items: after each
//! insertion, every node on the way back up whose children's heights differ
//! by two or more is rotated back into balance.
use vstd::prelude::*;

use super::bst::{collect_levels, levels_below, BinarySearchTree};
use super::increasing;
use super::{
    all_above, all_below, inserted, make_node, lemma_inserted_above, lemma_inserted_below, lemma_items_contains, lemma_link_wf, link_height, link_items,
    link_wf, BinaryTreeNode, Error, Orientation,
};

verus! {

/// How the heights of a node's children compare.
#[derive(Debug, Clone, Copy, PartialEq, Eq, Structural)]
pub enum Balance {
    LeftHeavy,
    Balanced,
    RightHeavy,
}

/// Every node below the link has children whose heights differ by at most
/// one.
pub(crate) open spec fn link_balanced(l: Option<Box<BinaryTreeNode>>) -> bool
    decreases l,
{
    match l {
        None => true,
        Some(n) => {
            &&& -1 <= link_height(n.left) - link_height(n.right) <= 1
            &&& link_balanced(n.left)
            &&& link_balanced(n.right)
        },
    }
}

/// A node whose children are well formed and lie on the right sides of its
/// item; its own recorded height may be stale.
pub(crate) open spec fn children_wf(n: BinaryTreeNode) -> bool {
    &&& all_below(link_items(n.left), n.item)
    &&& all_above(link_items(n.right), n.item)
    &&& link_wf(n.left)
    &&& link_wf(n.right)
}

/// A part of a sequence whose items all lie below a bound does too.
proof fn lemma_below_parts(a: Seq<u32>, x: u32, b: Seq<u32>, bound: u32)
    requires
        all_below(a + seq![x] + b, bound),
    ensures
        all_below(a, bound),
        x < bound,
        all_below(b, bound),
{
    let s = a + seq![x] + b;
    assert forall|i: int| 0 <= i < a.len() implies #[trigger] a[i] < bound by {
        assert(s[i] == a[i]);
    }
    assert(s[a.len() as int] == x);
    assert forall|i: int| 0 <= i < b.len() implies #[trigger] b[i] < bound by {
        assert(s[i + a.len() + 1] == b[i]);
    }
}

proof fn lemma_above_parts(a: Seq<u32>, x: u32, b: Seq<u32>, bound: u32)
    requires
        all_above(a + seq![x] + b, bound),
    ensures
        all_above(a, bound),
        x > bound,
        all_above(b, bound),
{
    let s = a + seq![x] + b;
    assert forall|i: int| 0 <= i < a.len() implies #[trigger] a[i] > bound by {
        assert(s[i] == a[i]);
    }
    assert(s[a.len() as int] == x);
    assert forall|i: int| 0 <= i < b.len() implies #[trigger] b[i] > bound by {
        assert(s[i + a.len() + 1] == b[i]);
    }
}

proof fn lemma_join_below(a: Seq<u32>, x: u32, b: Seq<u32>, bound: u32)
    requires
        all_below(a, bound),
        x < bound,
        all_below(b, bound),
    ensures
        all_below(a + seq![x] + b, bound),
{
    let s = a + seq![x] + b;
    assert forall|i: int| 0 <= i < s.len() implies #[trigger] s[i] < bound by {
        if i < a.len() {
            assert(s[i] == a[i]);
        } else if i > a.len() {
            assert(s[i] == b[i - a.len() - 1]);
        }
    }
}

proof fn lemma_join_above(a: Seq<u32>, x: u32, b: Seq<u32>, bound: u32)
    requires
        all_above(a, bound),
        x > bound,
        all_above(b, bound),
    ensures
        all_above(a + seq![x] + b, bound),
{
    let s = a + seq![x] + b;
    assert forall|i: int| 0 <= i < s.len() implies #[trigger] s[i] > bound by {
        if i < a.len() {
            assert(s[i] == a[i]);
        } else if i > a.len() {
            assert(s[i] == b[i - a.len() - 1]);
        }
    }
}

proof fn lemma_above_weaken(s: Seq<u32>, x: u32, y: u32)
    requires
        all_above(s, x),
        x > y,
    ensures
        all_above(s, y),
{
}

proof fn lemma_below_weaken(s: Seq<u32>, x: u32, y: u32)
    requires
        all_below(s, x),
        x < y,
    ensures
        all_below(s, y),
{
}

/// The node after a rotation to the left: its right child becomes the root.
pub(crate) open spec fn rotated_left(n: BinaryTreeNode) -> BinaryTreeNode {
    let t = n.right.unwrap();
    make_node(t.item, Some(Box::new(make_node(n.item, n.left, t.left))), t.right)
}

/// The node after a rotation to the right: its left child becomes the root.
pub(crate) open spec fn rotated_right(n: BinaryTreeNode) -> BinaryTreeNode {
    let t = n.left.unwrap();
    make_node(t.item, t.left, Some(Box::new(make_node(n.item, t.right, n.right))))
}

/// The node after rebalancing: where one child is two or more higher, a
/// single rotation, or a double one when that child leans the other way;
/// otherwise the node with its height recorded anew.
pub(crate) open spec fn rebalanced(n: BinaryTreeNode) -> BinaryTreeNode {
    let d = link_height(n.left) - link_height(n.right);
    if d >= 2 {
        let l = n.left.unwrap();
        let l2 = if link_height(l.left) < link_height(l.right) {
            rotated_left(*l)
        } else {
            *l
        };
        rotated_right(BinaryTreeNode { left: Some(Box::new(l2)), ..n })
    } else if d <= -2 {
        let r = n.right.unwrap();
        let r2 = if link_height(r.left) > link_height(r.right) {
            rotated_right(*r)
        } else {
            *r
        };
        rotated_left(BinaryTreeNode { right: Some(Box::new(r2)), ..n })
    } else {
        make_node(n.item, n.left, n.right)
    }
}

/// The subtree after inserting `x` below `l` and rebalancing every node on
/// the way back up; unchanged if `x` is there already.
pub(crate) open spec fn link_insert_balanced(l: Option<Box<BinaryTreeNode>>, x: u32) -> Option<
    Box<BinaryTreeNode>,
>
    decreases l,
{
    match l {
        None => Some(Box::new(make_node(x, None, None))),
        Some(n) => if x < n.item {
            Some(
                Box::new(
                    rebalanced(BinaryTreeNode { left: link_insert_balanced(n.left, x), ..*n }),
                ),
            )
        } else if x > n.item {
            Some(
                Box::new(
                    rebalanced(BinaryTreeNode { right: link_insert_balanced(n.right, x), ..*n }),
                ),
            )
        } else {
            Some(n)
        },
    }
}

impl BinaryTreeNode {
    /// How the heights of the children compare.
    fn balance(&self) -> (r: Balance)
        requires
            link_wf(self.left),
            link_wf(self.right),
        ensures
            r == Balance::LeftHeavy <==> link_height(self.left) - link_height(self.right) >= 2,
            r == Balance::RightHeavy <==> link_height(self.left) - link_height(self.right) <= -2,
    {
        let (lh, rh) = self.child_heights();
        let d = lh as i64 - rh as i64;
        if d <= -2 {
            Balance::RightHeavy
        } else if d >= 2 {
            Balance::LeftHeavy
        } else {
            Balance::Balanced
        }
    }

    /// Rotates the subtree towards `direction`: its child on the other side
    /// becomes its root. The items keep their order.
    fn rotate(node: Box<BinaryTreeNode>, direction: Orientation) -> (r: Box<BinaryTreeNode>)
        requires
            children_wf(*node),
            node.items().len() < i32::MAX,
            direction == Orientation::Left ==> node.right is Some,
            direction == Orientation::Right ==> node.left is Some,
        ensures
            r.wf(),
            r.items() == node.items(),
            direction == Orientation::Left ==> *r == rotated_left(*node),
            direction == Orientation::Right ==> *r == rotated_right(*node),
            direction == Orientation::Left ==> {
                let t = node.right.unwrap();
                &&& r.item == t.item
                &&& r.right == t.right
                &&& r.left is Some
                &&& r.left.unwrap().item == node.item
                &&& r.left.unwrap().left == node.left
                &&& r.left.unwrap().right == t.left
            },
            direction == Orientation::Right ==> {
                let t = node.left.unwrap();
                &&& r.item == t.item
                &&& r.left == t.left
                &&& r.right is Some
                &&& r.right.unwrap().item == node.item
                &&& r.right.unwrap().right == node.right
                &&& r.right.unwrap().left == t.right
            },
    {
        let mut node = node;
        proof {
            lemma_link_wf(node.left);
            lemma_link_wf(node.right);
        }
        let ghost before = node.items();
        match direction {
            Orientation::Left => {
                let mut top = node.right.take().unwrap();
                let ghost a = link_items(node.left);
                let ghost b = link_items(top.left);
                let ghost c = link_items(top.right);
                proof {
                    lemma_above_parts(b, top.item, c, node.item);
                    lemma_link_wf(top.left);
                    lemma_link_wf(top.right);
                    assert(all_above(c, top.item) && link_wf(top.right));
                }
                node.right = top.left.take();
                node.update_height();
                proof {
                    lemma_link_wf(Some(node));
                    lemma_below_weaken(a, node.item, top.item);
                    lemma_join_below(a, node.item, b, top.item);
                }
                top.left = Some(node);
                top.update_height();
                assert(top.items() =~= before);
                assert(all_below(link_items(top.left), top.item));
                assert(all_above(link_items(top.right), top.item));
                assert(link_wf(top.left) && link_wf(top.right));
                assert(top.wf());
                top
            },
            Orientation::Right => {
                let mut top = node.left.take().unwrap();
                let ghost a = link_items(top.left);
                let ghost b = link_items(top.right);
                let ghost c = link_items(node.right);
                proof {
                    lemma_below_parts(a, top.item, b, node.item);
                    lemma_link_wf(top.left);
                    lemma_link_wf(top.right);
                    assert(all_below(a, top.item) && link_wf(top.left));
                }
                node.left = top.right.take();
                node.update_height();
                proof {
                    lemma_link_wf(Some(node));
                    lemma_above_weaken(c, node.item, top.item);
                    lemma_join_above(b, node.item, c, top.item);
                }
                top.right = Some(node);
                top.update_height();
                assert(top.items() =~= before);
                assert(all_below(link_items(top.left), top.item));
                assert(all_above(link_items(top.right), top.item));
                assert(link_wf(top.left) && link_wf(top.right));
                assert(top.wf());
                top
            },
        }
    }

    /// Restores the balance of a node whose children are balanced search
    /// trees, by one or two rotations where their heights differ by two or
    /// more; records its height. The items keep their order.
    fn rebalance(node: Box<BinaryTreeNode>) -> (r: Box<BinaryTreeNode>)
        requires
            children_wf(*node),
            node.items().len() < i32::MAX,
            link_balanced(node.left),
            link_balanced(node.right),
            -2 <= link_height(node.left) - link_height(node.right) <= 2,
        ensures
            r.wf(),
            r.items() == node.items(),
            *r == rebalanced(*node),
            link_balanced(Some(r)),
            ({
                let m = vstd::math::max(link_height(node.left), link_height(node.right));
                if -1 <= link_height(node.left) - link_height(node.right) <= 1 {
                    r.spec_height() == 1 + m
                } else {
                    m <= r.spec_height() <= m + 1
                }
            }),
    {
        let mut node = node;
        proof {
            lemma_link_wf(node.left);
            lemma_link_wf(node.right);
        }
        let ghost before = node.items();
        match node.balance() {
            Balance::LeftHeavy => {
                let mut left = node.left.take().unwrap();
                proof {
                    lemma_below_parts(link_items(left.left), left.item, link_items(left.right), node.item);
                }
                let ghost l0 = *left;
                let ghost rr = node.right;
                proof {
                    lemma_link_wf(left.left);
                    lemma_link_wf(left.right);
                    assert(link_balanced(l0.left) && link_balanced(l0.right));
                    assert(-1 <= link_height(l0.left) - link_height(l0.right) <= 1);
                }
                let (ll, lr) = left.child_heights();
                if ll < lr {
                    let ghost lr0 = *l0.right.unwrap();
                    proof {
                        assert(link_balanced(lr0.left) && link_balanced(lr0.right));
                        assert(-1 <= link_height(lr0.left) - link_height(lr0.right) <= 1);
                        assert(link_height(l0.right) == lr0.spec_height());
                    }
                    left = BinaryTreeNode::rotate(left, Orientation::Left);
                    node.left = Some(left);
                    assert(node.items() =~= before);
                    let r = BinaryTreeNode::rotate(node, Orientation::Right);
                    proof {
                        let m1 = *r.left.unwrap();
                        let m2 = *r.right.unwrap();
                        assert(m1.left == l0.left && m1.right == lr0.left);
                        assert(m2.left == lr0.right && m2.right == rr);
                        assert(link_balanced(Some(Box::new(m1))));
                        assert(link_balanced(Some(Box::new(m2))));
                    }
                    r
                } else {
                    node.left = Some(left);
                    assert(node.items() =~= before);
                    let r = BinaryTreeNode::rotate(node, Orientation::Right);
                    proof {
                        let m2 = *r.right.unwrap();
                        assert(m2.left == l0.right && m2.right == rr);
                        assert(link_balanced(Some(Box::new(m2))));
                    }
                    r
                }
            },
            Balance::RightHeavy => {
                let mut right = node.right.take().unwrap();
                proof {
                    lemma_above_parts(link_items(right.left), right.item, link_items(right.right), node.item);
                }
                let ghost r0 = *right;
                let ghost ll = node.left;
                proof {
                    lemma_link_wf(right.left);
                    lemma_link_wf(right.right);
                    assert(link_balanced(r0.left) && link_balanced(r0.right));
                    assert(-1 <= link_height(r0.left) - link_height(r0.right) <= 1);
                }
                let (rl, rr) = right.child_heights();
                if rl > rr {
                    let ghost rl0 = *r0.left.unwrap();
                    proof {
                        assert(link_balanced(rl0.left) && link_balanced(rl0.right));
                        assert(-1 <= link_height(rl0.left) - link_height(rl0.right) <= 1);
                        assert(link_height(r0.left) == rl0.spec_height());
                    }
                    right = BinaryTreeNode::rotate(right, Orientation::Right);
                    node.right = Some(right);
                    assert(node.items() =~= before);
                    let r = BinaryTreeNode::rotate(node, Orientation::Left);
                    proof {
                        let m1 = *r.left.unwrap();
                        let m2 = *r.right.unwrap();
                        assert(m1.left == ll && m1.right == rl0.left);
                        assert(m2.left == rl0.right && m2.right == r0.right);
                        assert(link_balanced(Some(Box::new(m1))));
                        assert(link_balanced(Some(Box::new(m2))));
                    }
                    r
                } else {
                    node.right = Some(right);
                    assert(node.items() =~= before);
                    let r = BinaryTreeNode::rotate(node, Orientation::Left);
                    proof {
                        let m1 = *r.left.unwrap();
                        assert(m1.left == ll && m1.right == r0.left);
                        assert(link_balanced(Some(Box::new(m1))));
                    }
                    r
                }
            },
            Balance::Balanced => {
                node.update_height();
                node
            },
        }
    }

    /// Inserts `item` into the subtree and rebalances the nodes on the way
    /// back up; gives back the new root of the subtree. Fails, with the
    /// subtree unchanged, if the item is there already.
    fn insert_balanced(node: Box<BinaryTreeNode>, item: u32) -> (r: (Box<BinaryTreeNode>, Result<(), Error>))
        requires
            node.wf(),
            link_balanced(Some(node)),
            node.items().len() + 1 < i32::MAX,
        ensures
            match r.1 {
                Ok(()) => {
                    &&& !node.items().contains(item)
                    &&& r.0.wf()
                    &&& inserted(node.items(), r.0.items(), item)
                    &&& link_balanced(Some(r.0))
                    &&& node.spec_height() <= r.0.spec_height() <= node.spec_height() + 1
                    &&& Some(r.0) == link_insert_balanced(Some(node), item)
                },
                Err(e) => {
                    &&& e == Error::InsertionError
                    &&& node.items().contains(item)
                    &&& r.0 == node
                },
            },
        decreases node,
    {
        let mut node = node;
        proof {
            lemma_items_contains(*node);
            lemma_link_wf(node.left);
            lemma_link_wf(node.right);
        }
        let ghost hl = link_height(node.left);
        let ghost hr = link_height(node.right);
        assert(link_balanced(node.left) && link_balanced(node.right) && -1 <= hl - hr <= 1);
        let ghost a = link_items(node.left);
        let ghost b = link_items(node.right);
        let ghost before = *node;
        if item < node.item {
            match node.left.take() {
                Some(l) => {
                    let (nl, res) = BinaryTreeNode::insert_balanced(l, item);
                    node.left = Some(nl);
                    if res.is_err() {
                        return (node, res);
                    }
                },
                None => {
                    node.left = Some(BinaryTreeNode::create(item));
                    assert(link_items(node.left)[0] == item);
                },
            }
            proof {
                assert(node.left == link_insert_balanced(before.left, item));
                assert(*node == BinaryTreeNode { left: link_insert_balanced(before.left, item), ..before });
                lemma_inserted_below(a, link_items(node.left), item, node.item);
                if b.contains(item) {
                    let j = choose|j: int| 0 <= j < b.len() && b[j] == item;
                }
            }
        } else if item > node.item {
            match node.right.take() {
                Some(rt) => {
                    let (nr, res) = BinaryTreeNode::insert_balanced(rt, item);
                    node.right = Some(nr);
                    if res.is_err() {
                        return (node, res);
                    }
                },
                None => {
                    node.right = Some(BinaryTreeNode::create(item));
                    assert(link_items(node.right)[0] == item);
                },
            }
            proof {
                assert(node.right == link_insert_balanced(before.right, item));
                assert(*node == BinaryTreeNode { right: link_insert_balanced(before.right, item), ..before });
                lemma_inserted_above(b, link_items(node.right), item, node.item);
                if a.contains(item) {
                    let j = choose|j: int| 0 <= j < a.len() && a[j] == item;
                }
            }
        } else {
            return (node, Err(Error::InsertionError));
        }
        proof {
            lemma_items_contains(*node);
        }
        let r = BinaryTreeNode::rebalance(node);
        assert(Some(r) == link_insert_balanced(Some(Box::new(before)), item));
        (r, Ok(()))
    }
}

/// Whether every node below the link is balanced.
fn link_is_balanced(l: &Option<Box<BinaryTreeNode>>) -> (r: bool)
    requires
        link_wf(*l),
    ensures
        r == link_balanced(*l),
    decreases *l,
{
    match l {
        None => true,
        Some(n) => {
            n.balance() == Balance::Balanced && link_is_balanced(&n.left) && link_is_balanced(
                &n.right,
            )
        },
    }
}

/// A self-balancing search tree of distinct items.
pub struct AVLTree {
    inner: BinarySearchTree,
}

impl View for AVLTree {
    type V = Seq<u32>;

    closed spec fn view(&self) -> Seq<u32> {
        self.inner@
    }
}

impl AVLTree {
    /// The tree is a search tree whose nodes record their heights, and
    /// every node is balanced.
    pub closed spec fn wf(&self) -> bool {
        &&& self.inner.wf()
        &&& link_balanced(self.inner.root)
    }

    /// Whether every node's children differ in height by at most one.
    pub closed spec fn balanced(&self) -> bool {
        link_balanced(self.inner.root)
    }

    /// The nodes of the tree.
    pub closed spec fn root_spec(&self) -> Option<Box<BinaryTreeNode>> {
        self.inner.root
    }

    /// The nodes after inserting `x` and rebalancing every node on the way
    /// back up.
    pub closed spec fn shape_after_insert(&self, x: u32) -> Option<Box<BinaryTreeNode>> {
        link_insert_balanced(self.inner.root, x)
    }

    /// The items depth by depth from the root, each depth left to right.
    pub closed spec fn level_order(&self) -> Seq<u32> {
        self.inner.level_order()
    }

    /// The height of the tree: 0 for the empty tree and for a single node.
    pub closed spec fn spec_height(&self) -> int {
        self.inner.spec_height()
    }

    /// An empty tree.
    pub fn new() -> (r: AVLTree)
        ensures
            r.wf(),
            r@ == Seq::<u32>::empty(),
    {
        let r = AVLTree { inner: BinarySearchTree { root: None, size: 0 } };
        proof {
            r.inner.lemma_fields();
        }
        r
    }

    /// The number of items.
    pub fn size(&self) -> (r: usize)
        requires
            self.wf(),
        ensures
            r == self@.len(),
    {
        self.inner.size()
    }

    /// Inserts `value` and rebalances; fails if the tree holds it already.
    pub fn insert(&mut self, value: u32) -> (r: Result<(), Error>)
        requires
            old(self).wf(),
            old(self)@.len() + 1 < i32::MAX,
        ensures
            final(self).wf(),
            match r {
                Ok(()) => {
                    &&& !old(self)@.contains(value)
                    &&& inserted(old(self)@, final(self)@, value)
                    &&& final(self).root_spec() == old(self).shape_after_insert(value)
                },
                Err(e) => e == Error::InsertionError && old(self)@.contains(value) && *final(self)
                    == *old(self),
            },
    {
        proof {
            self.inner.lemma_fields();
            lemma_link_wf(self.inner.root);
        }
        match self.inner.root.take() {
            None => {
                self.inner.root = Some(BinaryTreeNode::create(value));
                assert(self.inner.root == link_insert_balanced(None, value));
                proof {
                    self.inner.lemma_fields();
                    assert(link_items(self.inner.root)[0] == value);
                }
            },
            Some(root) => {
                let (root, res) = BinaryTreeNode::insert_balanced(root, value);
                self.inner.root = Some(root);
                if res.is_err() {
                    proof {
                        self.inner.lemma_fields();
                    }
                    return res;
                }
            },
        }
        self.inner.size = self.inner.size + 1;
        proof {
            self.inner.lemma_fields();
        }
        Ok(())
    }

    /// Whether the tree holds `value`.
    pub fn contains(&self, value: &u32) -> (r: bool)
        requires
            self.wf(),
        ensures
            r == self@.contains(*value),
    {
        self.inner.contains(value)
    }

    /// Whether every node's children differ in height by at most one; true
    /// of every well-formed tree.
    pub fn is_balanced(&self) -> (r: bool)
        requires
            self.wf(),
        ensures
            r == self.balanced(),
            r,
    {
        proof {
            self.inner.lemma_fields();
        }
        link_is_balanced(&self.inner.root)
    }

    /// The items depth by depth from the root, each depth left to right.
    pub fn level_iter(&self) -> (r: Vec<u32>)
        requires
            self.wf(),
        ensures
            r@ == self.level_order(),
    {
        self.inner.level_iter()
    }

    /// The items in ascending order.
    pub fn iter(&self) -> (r: Vec<u32>)
        requires
            self.wf(),
        ensures
            r@ == self@,
            increasing(r@),
    {
        self.inner.iter()
    }

    /// The height of the tree: 0 for the empty tree and for a single node.
    pub fn height(&self) -> (r: i32)
        requires
            self.wf(),
        ensures
            r == self.spec_height(),
    {
        self.inner.height()
    }
}

} // verus!
