//! An unbalanced binary search tree of distinct `u32` items.
use vstd::prelude::*;

use super::{
    increasing, inserted, link_insert, lemma_link_wf, link_height, link_items, link_wf, BinaryTreeNode, Error,
};

verus! {

/// The items at depth `d` below a link, left to right.
pub(crate) open spec fn level(l: Option<Box<BinaryTreeNode>>, d: nat) -> Seq<u32>
    decreases l,
{
    match l {
        None => Seq::empty(),
        Some(n) => if d == 0 {
            seq![n.item]
        } else {
            level(n.left, (d - 1) as nat) + level(n.right, (d - 1) as nat)
        },
    }
}

/// The items at depths below `d`, depth by depth, each depth left to right.
pub(crate) open spec fn levels_below(l: Option<Box<BinaryTreeNode>>, d: nat) -> Seq<u32>
    decreases d,
{
    if d == 0 {
        Seq::empty()
    } else {
        levels_below(l, (d - 1) as nat) + level(l, (d - 1) as nat)
    }
}

/// Appends the items below `l` in order.
pub(crate) fn collect_in_order(l: &Option<Box<BinaryTreeNode>>, out: &mut Vec<u32>)
    ensures
        final(out)@ == old(out)@ + link_items(*l),
    decreases *l,
{
    match l {
        None => {
            assert(old(out)@ + link_items(*l) =~= old(out)@);
        },
        Some(n) => {
            collect_in_order(&n.left, out);
            out.push(n.item);
            collect_in_order(&n.right, out);
            assert(final(out)@ =~= old(out)@ + link_items(*l));
        },
    }
}

/// Appends the items at depth `d` below `l`, left to right.
pub(crate) fn collect_level(l: &Option<Box<BinaryTreeNode>>, d: u32, out: &mut Vec<u32>)
    ensures
        final(out)@ == old(out)@ + level(*l, d as nat),
    decreases *l,
{
    match l {
        None => {
            assert(old(out)@ + level(*l, d as nat) =~= old(out)@);
        },
        Some(n) => {
            if d == 0 {
                out.push(n.item);
                assert(final(out)@ =~= old(out)@ + level(*l, d as nat));
            } else {
                collect_level(&n.left, d - 1, out);
                collect_level(&n.right, d - 1, out);
                assert(final(out)@ =~= old(out)@ + level(*l, d as nat));
            }
        },
    }
}

/// The items below `l` depth by depth, from the top, each depth left to
/// right.
pub(crate) fn collect_levels(l: &Option<Box<BinaryTreeNode>>) -> (r: Vec<u32>)
    requires
        link_wf(*l),
    ensures
        r@ == levels_below(*l, (link_height(*l) + 1) as nat),
{
    proof {
        lemma_link_wf(*l);
    }
    let depth: i32 = match l {
        Some(n) => n.height,
        None => -1,
    };
    let mut out: Vec<u32> = Vec::new();
    let mut d: i64 = 0;
    while d <= depth as i64
        invariant
            0 <= d <= depth + 1,
            depth == link_height(*l),
            out@ == levels_below(*l, d as nat),
        decreases depth + 1 - d,
    {
        collect_level(l, d as u32, &mut out);
        d = d + 1;
    }
    out
}

/// An unbalanced binary search tree of distinct items.
pub struct BinarySearchTree {
    pub(super) root: Option<Box<BinaryTreeNode>>,
    pub(super) size: usize,
}

impl View for BinarySearchTree {
    type V = Seq<u32>;

    closed spec fn view(&self) -> Seq<u32> {
        link_items(self.root)
    }
}

impl BinarySearchTree {
    /// The tree is a search tree whose nodes record their heights, and its
    /// size counts its items.
    pub closed spec fn wf(&self) -> bool {
        &&& link_wf(self.root)
        &&& self.size == link_items(self.root).len()
    }

    /// The nodes of the tree.
    pub closed spec fn root_spec(&self) -> Option<Box<BinaryTreeNode>> {
        self.root
    }

    /// The nodes after inserting `x` without rebalancing: a new leaf at the
    /// end of the search path, heights along the path recorded anew.
    pub closed spec fn shape_after_insert(&self, x: u32) -> Option<Box<BinaryTreeNode>> {
        link_insert(self.root, x)
    }

    /// The items depth by depth from the root, each depth left to right.
    pub closed spec fn level_order(&self) -> Seq<u32> {
        levels_below(self.root, (link_height(self.root) + 1) as nat)
    }

    /// The height of the tree: 0 for the empty tree and for a single node.
    pub closed spec fn spec_height(&self) -> int {
        match self.root {
            None => 0,
            Some(_) => link_height(self.root),
        }
    }

    /// What well-formedness and the view say about the fields.
    pub(super) proof fn lemma_fields(&self)
        ensures
            self.wf() <==> (link_wf(self.root) && self.size == link_items(self.root).len()),
            self@ == link_items(self.root),
            self.spec_height() == (match self.root {
                None => 0,
                Some(_) => link_height(self.root),
            }),
    {
    }

    /// An empty tree.
    pub fn new() -> (r: BinarySearchTree)
        ensures
            r.wf(),
            r@ == Seq::<u32>::empty(),
    {
        BinarySearchTree { root: None, size: 0 }
    }

    /// The number of items.
    pub fn size(&self) -> (r: usize)
        requires
            self.wf(),
        ensures
            r == self@.len(),
    {
        self.size
    }

    /// Inserts `item`; fails if the tree holds it already.
    pub fn insert(&mut self, item: u32) -> (r: Result<(), Error>)
        requires
            old(self).wf(),
            old(self)@.len() < i32::MAX,
        ensures
            final(self).wf(),
            match r {
                Ok(()) => {
                    &&& !old(self)@.contains(item)
                    &&& inserted(old(self)@, final(self)@, item)
                    &&& final(self).root_spec() == old(self).shape_after_insert(item)
                },
                Err(e) => e == Error::InsertionError && old(self)@.contains(item) && *final(self)
                    == *old(self),
            },
    {
        match self.root.take() {
            None => {
                let node = BinaryTreeNode::create(item);
                self.root = Some(node);
                assert(self.root == link_insert(None, item));
                proof {
                    assert(self@[0] == item);
                }
            },
            Some(mut t) => {
                let r = (&mut *t).insert(item);
                self.root = Some(t);
                if r.is_err() {
                    return r;
                }
            },
        }
        self.size = self.size + 1;
        Ok(())
    }

    /// Whether the tree holds `item`.
    pub fn contains(&self, item: &u32) -> (r: bool)
        requires
            self.wf(),
        ensures
            r == self@.contains(*item),
    {
        match &self.root {
            Some(n) => n.find(item).is_some(),
            None => false,
        }
    }

    /// The items in ascending order.
    pub fn iter(&self) -> (r: Vec<u32>)
        requires
            self.wf(),
        ensures
            r@ == self@,
            increasing(r@),
    {
        proof {
            lemma_link_wf(self.root);
        }
        let mut out: Vec<u32> = Vec::new();
        collect_in_order(&self.root, &mut out);
        assert(out@ =~= self@);
        out
    }

    /// Consumes the tree, giving its items in ascending order.
    pub fn into_iter(self) -> (r: Vec<u32>)
        requires
            self.wf(),
        ensures
            r@ == self@,
            increasing(r@),
    {
        self.iter()
    }

    /// The items depth by depth from the root, each depth left to right.
    pub fn level_iter(&self) -> (r: Vec<u32>)
        requires
            self.wf(),
        ensures
            r@ == self.level_order(),
    {
        collect_levels(&self.root)
    }

    /// The height of the tree: 0 for the empty tree and for a single node.
    pub fn height(&self) -> (r: i32)
        requires
            self.wf(),
        ensures
            r == self.spec_height(),
    {
        match &self.root {
            Some(n) => n.height,
            None => 0,
        }
    }
}

} // verus!
