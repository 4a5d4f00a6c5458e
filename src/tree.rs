//! The tree: root growth on insertion, root shrinking on deletion, and
//! in-order iteration.
use vstd::prelude::*;

use crate::error::DeleteError;
use crate::iter::BTreeIterator;
use crate::node::Node;

verus! {

/// A B-tree of distinct `i64` keys with minimum degree `D`.
#[derive(Debug)]
pub struct BTree<const D: usize> {
    root: Node<D>,
}

impl<const D: usize> View for BTree<D> {
    type V = Set<i64>;

    /// The set of keys held by the tree.
    closed spec fn view(&self) -> Set<i64> {
        self.root.contents()
    }
}

impl<const D: usize> BTree<D> {
    /// The tree invariant: sorted keys, search order, between `D-1` and
    /// `2D-1` keys in every node below the root and at most `2D-1` in the
    /// root, `keys + 1` children in internal nodes, all leaves at one depth,
    /// and an internal root that holds at least one key.
    pub closed spec fn wf(self) -> bool {
        &&& Node::<D>::order_ok()
        &&& self.root.wf()
        &&& (!self.root.is_leaf_spec() ==> self.root.key_count() >= 1)
    }

    /// The root node.
    pub closed spec fn root_node(self) -> Node<D> {
        self.root
    }

    /// Number of levels below the root.
    pub closed spec fn height(self) -> nat {
        self.root.height()
    }

    /// An empty tree.
    pub fn new() -> (r: Self)
        requires
            Node::<D>::order_ok(),
        ensures
            r.wf(),
            r@ == Set::<i64>::empty(),
    {
        let r = BTree { root: Node::new() };
        proof {
            assert(r@ =~= Set::<i64>::empty());
        }
        r
    }

    /// Adds `value`; a value already present is left alone.
    pub fn insert(&mut self, value: i64)
        requires
            old(self).wf(),
        ensures
            final(self).wf(),
            final(self)@ == old(self)@.insert(value),
            final(self).height() == if old(self).root_node().key_count() == 2 * D - 1 {
                old(self).height() + 1
            } else {
                old(self).height()
            },
    {
        proof {
            self.root.lemma_key_count_bound();
        }
        if self.root.is_full() {
            let mut full = Node::new();
            std::mem::swap(&mut full, &mut self.root);
            self.root = Node::grow(full);
        }
        self.root.insert(value);
        proof {
            assert(self@ =~= old(self)@.insert(value));
        }
    }

    /// An iterator over the keys in ascending order.
    pub fn iter(&self) -> (r: BTreeIterator<'_, D>)
        requires
            self.wf(),
        ensures
            r.inv(),
            r.remaining() == self@,
    {
        BTreeIterator::new(self)
    }

    /// Removes `value`, or reports that it is not in the tree.
    pub fn delete(&mut self, value: &i64) -> (r: Result<(), DeleteError>)
        requires
            old(self).wf(),
        ensures
            final(self).wf(),
            r is Ok <==> old(self)@.contains(*value),
            r is Err ==> r == Err::<(), DeleteError>(DeleteError::NotFound),
            final(self)@ == old(self)@.remove(*value),
            r is Err ==> *final(self) == *old(self),
            final(self).height() <= old(self).height(),
            final(self).height() + 1 >= old(self).height(),
    {
        let r = self.root.delete_intermediate(value);
        self.root.collapse();
        proof {
            assert(self@ =~= old(self)@.remove(*value));
        }
        r
    }

    /// The root of a well-formed tree is well formed, and the tree holds
    /// finitely many keys.
    pub proof fn lemma_root_wf(self)
        requires
            self.wf(),
        ensures
            Node::<D>::order_ok(),
            self.root_node().wf(),
            self@ == self.root_node().contents(),
            self@.finite(),
    {
        self.root.lemma_contents_finite();
    }

    /// The root node.
    pub fn root(&self) -> (r: &Node<D>)
        ensures
            *r == self.root_node(),
    {
        &self.root
    }
}

} // verus!
