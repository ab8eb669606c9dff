//! Ordered containers over `u32` items: an unbalanced binary search tree and
//! a self-balancing AVL tree built on the same nodes. Each node records the
//! height of its subtree.
use vstd::prelude::*;

pub mod avl;
pub mod bst;

verus! {

/// Errors of the tree containers.
#[derive(Debug, PartialEq, Eq, Structural)]
pub enum Error {
    /// The item is in the tree already.
    InsertionError,
}

/// A side of a node.
#[derive(Debug, PartialEq, Eq, Structural)]
pub enum Orientation {
    Left,
    Right,
}

/// A node with its item, the height of its subtree (a leaf has height 0),
/// and its children.
pub struct BinaryTreeNode {
    pub(crate) item: u32,
    pub(crate) height: i32,
    pub(crate) left: Option<Box<BinaryTreeNode>>,
    pub(crate) right: Option<Box<BinaryTreeNode>>,
}

/// Every item of `s` is below `x`.
pub open spec fn all_below(s: Seq<u32>, x: u32) -> bool {
    forall|i: int| 0 <= i < s.len() ==> #[trigger] s[i] < x
}

/// Every item of `s` is above `x`.
pub open spec fn all_above(s: Seq<u32>, x: u32) -> bool {
    forall|i: int| 0 <= i < s.len() ==> #[trigger] s[i] > x
}

/// The items of `s` strictly increase.
pub open spec fn increasing(s: Seq<u32>) -> bool {
    forall|i: int, j: int| 0 <= i < j < s.len() ==> #[trigger] s[i] < #[trigger] s[j]
}

/// The items under a link, in order.
pub(crate) open spec fn link_items(l: Option<Box<BinaryTreeNode>>) -> Seq<u32>
    decreases l,
{
    match l {
        None => Seq::empty(),
        Some(n) => n.items(),
    }
}

/// The height of the subtree under a link; an empty link has height -1.
pub(crate) open spec fn link_height(l: Option<Box<BinaryTreeNode>>) -> int
    decreases l,
{
    match l {
        None => -1,
        Some(n) => n.spec_height(),
    }
}

/// The subtree under a link is well formed.
pub(crate) open spec fn link_wf(l: Option<Box<BinaryTreeNode>>) -> bool
    decreases l,
{
    match l {
        None => true,
        Some(n) => n.wf(),
    }
}

impl BinaryTreeNode {
    /// The items of the subtree, in order.
    pub(crate) open spec fn items(self) -> Seq<u32>
        decreases self,
    {
        link_items(self.left) + seq![self.item] + link_items(self.right)
    }

    /// The height of the subtree; a leaf has height 0.
    pub(crate) open spec fn spec_height(self) -> int
        decreases self,
    {
        1 + vstd::math::max(link_height(self.left), link_height(self.right))
    }

    /// The subtree is a search tree whose nodes record their heights.
    pub(crate) open spec fn wf(self) -> bool
        decreases self,
    {
        &&& all_below(link_items(self.left), self.item)
        &&& all_above(link_items(self.right), self.item)
        &&& self.height == self.spec_height()
        &&& link_wf(self.left)
        &&& link_wf(self.right)
    }
}

/// The items of a well-formed subtree strictly increase, and its height is
/// below its number of items.
pub(crate) proof fn lemma_link_wf(l: Option<Box<BinaryTreeNode>>)
    requires
        link_wf(l),
    ensures
        increasing(link_items(l)),
        link_height(l) < link_items(l).len(),
        link_height(l) >= -1,
    decreases l,
{
    if let Some(n) = l {
        lemma_link_wf(n.left);
        lemma_link_wf(n.right);
        let a = link_items(n.left);
        let b = link_items(n.right);
        let s = a + seq![n.item] + b;
        assert(s == link_items(l));
        assert forall|i: int, j: int| 0 <= i < j < s.len() implies #[trigger] s[i] < #[trigger] s[j] by {
            if j < a.len() {
                assert(s[i] == a[i] && s[j] == a[j]);
            } else if j == a.len() {
                assert(s[i] == a[i]);
            } else if i < a.len() {
                assert(s[i] == a[i] && s[j] == b[j - a.len() - 1]);
            } else if i == a.len() {
                assert(s[j] == b[j - a.len() - 1]);
            } else {
                assert(s[i] == b[i - a.len() - 1] && s[j] == b[j - a.len() - 1]);
            }
        }
    }
}

/// An item is in a subtree when it is in the left child, at the node, or in
/// the right child.
pub(crate) proof fn lemma_items_contains(n: BinaryTreeNode)
    ensures
        forall|y: u32| #[trigger]
            n.items().contains(y) <==> (link_items(n.left).contains(y) || y == n.item || link_items(
                n.right,
            ).contains(y)),
{
    let a = link_items(n.left);
    let b = link_items(n.right);
    let s = n.items();
    assert forall|y: u32| #[trigger]
        s.contains(y) <==> (a.contains(y) || y == n.item || b.contains(y)) by {
        if s.contains(y) {
            let i = choose|i: int| 0 <= i < s.len() && s[i] == y;
            if i < a.len() {
                assert(a[i] == y);
            } else if i > a.len() {
                assert(b[i - a.len() - 1] == y);
            }
        }
        if a.contains(y) {
            let i = choose|i: int| 0 <= i < a.len() && a[i] == y;
            assert(s[i] == y);
        }
        if y == n.item {
            assert(s[a.len() as int] == y);
        }
        if b.contains(y) {
            let i = choose|i: int| 0 <= i < b.len() && b[i] == y;
            assert(s[i + a.len() + 1] == y);
        }
    }
}

/// `t` holds the items of `s` and `x`, and one item more than `s`.
pub open spec fn inserted(s: Seq<u32>, t: Seq<u32>, x: u32) -> bool {
    &&& t.len() == s.len() + 1
    &&& forall|y: u32| #[trigger] t.contains(y) <==> (s.contains(y) || y == x)
}

/// All items of a sequence that holds only items of `s` and `x` lie below
/// a bound that `x` and those of `s` lie below.
pub(crate) proof fn lemma_inserted_below(s: Seq<u32>, t: Seq<u32>, x: u32, bound: u32)
    requires
        inserted(s, t, x),
        all_below(s, bound),
        x < bound,
    ensures
        all_below(t, bound),
{
    assert forall|i: int| 0 <= i < t.len() implies #[trigger] t[i] < bound by {
        assert(t.contains(t[i]));
        if s.contains(t[i]) {
            let j = choose|j: int| 0 <= j < s.len() && s[j] == t[i];
        }
    }
}

pub(crate) proof fn lemma_inserted_above(s: Seq<u32>, t: Seq<u32>, x: u32, bound: u32)
    requires
        inserted(s, t, x),
        all_above(s, bound),
        x > bound,
    ensures
        all_above(t, bound),
{
    assert forall|i: int| 0 <= i < t.len() implies #[trigger] t[i] > bound by {
        assert(t.contains(t[i]));
        if s.contains(t[i]) {
            let j = choose|j: int| 0 <= j < s.len() && s[j] == t[i];
        }
    }
}

/// A node with the given item and children, recording the height they give
/// it.
pub(crate) open spec fn make_node(
    item: u32,
    left: Option<Box<BinaryTreeNode>>,
    right: Option<Box<BinaryTreeNode>>,
) -> BinaryTreeNode {
    BinaryTreeNode {
        item,
        height: (1 + vstd::math::max(link_height(left), link_height(right))) as i32,
        left,
        right,
    }
}

/// The subtree after inserting `x` below `l` without rebalancing: a new leaf
/// at the end of the search path, with the heights along the path recorded
/// anew; unchanged if `x` is there already.
pub(crate) open spec fn link_insert(l: Option<Box<BinaryTreeNode>>, x: u32) -> Option<
    Box<BinaryTreeNode>,
>
    decreases l,
{
    match l {
        None => Some(Box::new(make_node(x, None, None))),
        Some(n) => if x < n.item {
            Some(Box::new(make_node(n.item, link_insert(n.left, x), n.right)))
        } else if x > n.item {
            Some(Box::new(make_node(n.item, n.left, link_insert(n.right, x))))
        } else {
            Some(n)
        },
    }
}

impl BinaryTreeNode {
    /// A leaf holding `item`.
    pub(crate) fn create(item: u32) -> (r: Box<BinaryTreeNode>)
        ensures
            r.wf(),
            r.items() == seq![item],
            r.spec_height() == 0,
            *r == make_node(item, None, None),
    {
        let r = Box::new(BinaryTreeNode { item, height: 0, left: None, right: None });
        assert(r.items() =~= seq![item]);
        r
    }

    /// Puts a leaf holding `item` on the given side.
    fn create_child(&mut self, item: u32, orientation: Orientation)
        ensures
            final(self).item == old(self).item,
            final(self).height == old(self).height,
            orientation == Orientation::Left ==> {
                &&& link_wf(final(self).left)
                &&& link_items(final(self).left) == seq![item]
                &&& link_height(final(self).left) == 0
                &&& final(self).left == Some(Box::new(make_node(item, None, None)))
                &&& final(self).right == old(self).right
            },
            orientation == Orientation::Right ==> {
                &&& link_wf(final(self).right)
                &&& link_items(final(self).right) == seq![item]
                &&& link_height(final(self).right) == 0
                &&& final(self).right == Some(Box::new(make_node(item, None, None)))
                &&& final(self).left == old(self).left
            },
    {
        let node = BinaryTreeNode::create(item);
        match orientation {
            Orientation::Left => self.left = Some(node),
            Orientation::Right => self.right = Some(node),
        }
    }

    /// The heights recorded in the two children; -1 for a missing child.
    pub(crate) fn child_heights(&self) -> (r: (i32, i32))
        requires
            link_wf(self.left),
            link_wf(self.right),
        ensures
            r.0 == link_height(self.left),
            r.1 == link_height(self.right),
    {
        let lh = match &self.left {
            Some(l) => l.height,
            None => -1,
        };
        let rh = match &self.right {
            Some(r) => r.height,
            None => -1,
        };
        (lh, rh)
    }

    /// Records the height that the children give this node.
    pub(crate) fn update_height(&mut self)
        requires
            link_wf(old(self).left),
            link_wf(old(self).right),
            link_items(old(self).left).len() + link_items(old(self).right).len() < i32::MAX,
        ensures
            final(self).item == old(self).item,
            final(self).left == old(self).left,
            final(self).right == old(self).right,
            final(self).height == 1 + vstd::math::max(
                link_height(old(self).left),
                link_height(old(self).right),
            ),
    {
        proof {
            lemma_link_wf(self.left);
            lemma_link_wf(self.right);
        }
        let (lh, rh) = self.child_heights();
        self.height = 1 + if lh > rh {
            lh
        } else {
            rh
        };
    }

    /// The node holding `item` in this subtree, if any.
    pub(crate) fn find(&self, item: &u32) -> (r: Option<&BinaryTreeNode>)
        requires
            self.wf(),
        ensures
            r is Some <==> self.items().contains(*item),
            r matches Some(n) ==> n.item == *item,
        decreases self,
    {
        let ghost s = self.items();
        let ghost a = link_items(self.left);
        let ghost b = link_items(self.right);
        if *item < self.item {
            proof {
                if s.contains(*item) {
                    let i = choose|i: int| 0 <= i < s.len() && s[i] == *item;
                    if i >= a.len() {
                        if i > a.len() {
                            assert(s[i] == b[i - a.len() - 1]);
                        }
                    } else {
                        assert(a[i] == *item);
                    }
                }
                if a.contains(*item) {
                    let i = choose|i: int| 0 <= i < a.len() && a[i] == *item;
                    assert(s[i] == a[i]);
                }
            }
            match &self.left {
                Some(l) => l.find(item),
                None => None,
            }
        } else if *item > self.item {
            proof {
                if s.contains(*item) {
                    let i = choose|i: int| 0 <= i < s.len() && s[i] == *item;
                    if i <= a.len() {
                        if i < a.len() {
                            assert(s[i] == a[i]);
                        }
                    } else {
                        assert(b[i - a.len() - 1] == *item);
                    }
                }
                if b.contains(*item) {
                    let i = choose|i: int| 0 <= i < b.len() && b[i] == *item;
                    assert(s[i + a.len() + 1] == b[i]);
                }
            }
            match &self.right {
                Some(r) => r.find(item),
                None => None,
            }
        } else {
            assert(s[a.len() as int] == self.item);
            Some(self)
        }
    }

    /// Inserts `item` below this node, keeping the search order and the
    /// recorded heights; fails if the item is there already.
    pub(crate) fn insert(&mut self, item: u32) -> (r: Result<(), Error>)
        requires
            old(self).wf(),
            old(self).items().len() < i32::MAX,
        ensures
            match r {
                Ok(()) => {
                    &&& !old(self).items().contains(item)
                    &&& final(self).wf()
                    &&& inserted(old(self).items(), final(self).items(), item)
                    &&& Some(Box::new(*final(self))) == link_insert(Some(Box::new(*old(self))), item)
                },
                Err(e) => {
                    &&& e == Error::InsertionError
                    &&& old(self).items().contains(item)
                    &&& *final(self) == *old(self)
                },
            },
        decreases *old(self),
    {
        proof {
            lemma_items_contains(*self);
            lemma_link_wf(self.left);
            lemma_link_wf(self.right);
        }
        let ghost a = link_items(self.left);
        let ghost b = link_items(self.right);
        let ghost before = *self;
        if item < self.item {
            match self.left.take() {
                Some(mut l) => {
                    let r = (&mut *l).insert(item);
                    self.left = Some(l);
                    if r.is_err() {
                        return r;
                    }
                    proof {
                        assert(self.left == link_insert(before.left, item));
                        lemma_inserted_below(a, link_items(self.left), item, self.item);
                    }
                },
                None => {
                    self.create_child(item, Orientation::Left);
                    assert(link_items(self.left)[0] == item);
                    proof {
                        lemma_inserted_below(a, link_items(self.left), item, self.item);
                    }
                },
            }
            proof {
                if b.contains(item) {
                    let j = choose|j: int| 0 <= j < b.len() && b[j] == item;
                }
            }
            self.update_height();
            proof {
                lemma_link_wf(self.left);
                assert(*self == make_node(before.item, link_insert(before.left, item), before.right));
            }
        } else if item > self.item {
            match self.right.take() {
                Some(mut rt) => {
                    let r = (&mut *rt).insert(item);
                    self.right = Some(rt);
                    if r.is_err() {
                        return r;
                    }
                    proof {
                        assert(self.right == link_insert(before.right, item));
                        lemma_inserted_above(b, link_items(self.right), item, self.item);
                    }
                },
                None => {
                    self.create_child(item, Orientation::Right);
                    assert(link_items(self.right)[0] == item);
                    proof {
                        lemma_inserted_above(b, link_items(self.right), item, self.item);
                    }
                },
            }
            proof {
                if a.contains(item) {
                    let j = choose|j: int| 0 <= j < a.len() && a[j] == item;
                }
            }
            self.update_height();
            proof {
                lemma_link_wf(self.right);
                assert(*self == make_node(before.item, before.left, link_insert(before.right, item)));
            }
        } else {
            return Err(Error::InsertionError);
        }
        proof {
            lemma_items_contains(*self);
        }
        Ok(())
    }
}

} // verus!
