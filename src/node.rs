//! Tree nodes: the recursive mechanics of insertion, splitting, borrowing,
//! merging and predecessor extraction.
use vstd::prelude::*;

use crate::error::DeleteError;

verus! {

/// Strictly increasing sequence of keys.
pub open spec fn strictly_sorted(s: Seq<i64>) -> bool {
    forall|a: int, b: int| 0 <= a < b < s.len() ==> s[a] < s[b]
}

/// A node of a B-tree of minimum degree `D`: sorted keys and, unless it is a
/// leaf, one more child than it has keys.
#[derive(Debug)]
pub struct Node<const D: usize> {
    keys: Vec<i64>,
    children: Vec<Node<D>>,
}

impl<const D: usize> Node<D> {
    /// The minimum degree is at least 2, and `2 * D` fits in a `usize`.
    pub open spec fn order_ok() -> bool {
        2 <= D && D * 2 <= usize::MAX
    }

    /// The keys held by this node itself.
    pub closed spec fn key_seq(self) -> Seq<i64> {
        self.keys@
    }

    /// Number of keys held by this node itself.
    pub closed spec fn key_count(self) -> nat {
        self.keys@.len()
    }

    /// The subtrees below this node.
    pub closed spec fn child_seq(self) -> Seq<Node<D>> {
        self.children@
    }

    /// This node has no children.
    pub closed spec fn is_leaf_spec(self) -> bool {
        self.children@.len() == 0
    }

    /// `x` occurs somewhere in the subtree rooted at this node.
    pub closed spec fn has(self, x: i64) -> bool
        decreases self,
    {
        self.keys@.contains(x) || exists|i: int|
            0 <= i < self.children@.len() && (#[trigger] self.children@[i]).has(x)
    }

    /// The set of keys in the subtree rooted at this node.
    pub open spec fn contents(self) -> Set<i64> {
        Set::new(|x: i64| self.has(x))
    }

    /// Distance from this node down to its leaves.
    pub closed spec fn height(self) -> nat
        decreases self,
    {
        if self.children@.len() == 0 {
            0
        } else {
            self.children@[0].height() + 1
        }
    }

    /// Every key of child `i` lies strictly between the keys that surround it.
    pub closed spec fn child_bounded(self, i: int, x: i64) -> bool {
        &&& (0 < i ==> self.keys@[i - 1] < x)
        &&& (i < self.keys@.len() ==> x < self.keys@[i])
    }

    /// Well-formedness of the subtree rooted here: sorted keys, at most
    /// `2D-1` keys in every node, at least `D-1` keys in every node below this
    /// one, `keys + 1` children in every internal node, search order between
    /// keys and subtrees, and all leaves at the same depth.
    pub closed spec fn wf(self) -> bool
        decreases self,
    {
        &&& self.keys@.len() < 2 * D
        &&& strictly_sorted(self.keys@)
        &&& (self.children@.len() == 0 || self.children@.len() == self.keys@.len() + 1)
        &&& forall|i: int|
            0 <= i < self.children@.len() ==> {
                &&& (#[trigger] self.children@[i]).wf()
                &&& self.children@[i].keys@.len() + 1 >= D
                &&& self.children@[i].height() + 1 == self.height()
            }
        &&& forall|i: int, x: i64|
            0 <= i < self.children@.len() && #[trigger] self.children@[i].has(x)
                ==> self.child_bounded(i, x)
    }

    /// The keys found in the first `j` children.
    spec fn children_prefix_contents(self, j: int) -> Set<i64> {
        Set::new(|x: i64| exists|k: int| 0 <= k < j && (#[trigger] self.children@[k]).has(x))
    }

    proof fn lemma_children_prefix_finite(self, j: int)
        requires
            0 <= j <= self.children@.len(),
            forall|k: int| 0 <= k < self.children@.len() ==> (#[trigger] self.children@[k]).contents().finite(),
        ensures
            self.children_prefix_contents(j).finite(),
        decreases j,
    {
        if j == 0 {
            assert(self.children_prefix_contents(0) =~= Set::<i64>::empty());
        } else {
            self.lemma_children_prefix_finite(j - 1);
            let c = self.children@[j - 1];
            assert(self.children_prefix_contents(j) =~= self.children_prefix_contents(j - 1).union(
                c.contents(),
            )) by {
                assert forall|x: i64| #[trigger] self.children_prefix_contents(j).contains(x) implies self.children_prefix_contents(j - 1).union(c.contents()).contains(x) by {
                    let k = choose|k: int| 0 <= k < j && (#[trigger] self.children@[k]).has(x);
                    if k < j - 1 {
                        assert(self.children_prefix_contents(j - 1).contains(x));
                    }
                }
                assert forall|x: i64| #[trigger] self.children_prefix_contents(j - 1).union(c.contents()).contains(x) implies self.children_prefix_contents(j).contains(x) by {
                    if c.has(x) {
                        assert(self.children@[j - 1].has(x));
                    } else {
                        let k = choose|k: int| 0 <= k < j - 1 && (#[trigger] self.children@[k]).has(x);
                        assert(self.children@[k].has(x));
                    }
                }
            }
        }
    }

    /// A subtree holds finitely many keys.
    pub proof fn lemma_contents_finite(self)
        ensures
            self.contents().finite(),
        decreases self,
    {
        assert forall|k: int| 0 <= k < self.children@.len() implies (#[trigger] self.children@[k]).contents().finite() by {
            self.children@[k].lemma_contents_finite();
        }
        let n = self.children@.len() as int;
        self.lemma_children_prefix_finite(n);
        vstd::seq_lib::seq_to_set_is_finite(self.keys@);
        assert(self.contents() =~= self.keys@.to_set().union(self.children_prefix_contents(n)));
    }

    /// No node of a well-formed subtree holds more than `2D-1` keys.
    pub proof fn lemma_key_count_bound(self)
        requires
            self.wf(),
        ensures
            self.key_count() < 2 * D,
    {
    }

    /// Well-formedness, except that child `k` may hold one key fewer than
    /// the minimum: the state a node is in right after a deletion below it.
    pub closed spec fn wf_except(self, k: int) -> bool {
        &&& self.keys@.len() < 2 * D
        &&& strictly_sorted(self.keys@)
        &&& (self.children@.len() == 0 || self.children@.len() == self.keys@.len() + 1)
        &&& forall|i: int|
            0 <= i < self.children@.len() ==> {
                &&& (#[trigger] self.children@[i]).wf()
                &&& (self.children@[i].keys@.len() + 1 >= D || (i == k
                    && self.children@[i].keys@.len() + 2 >= D))
                &&& self.children@[i].height() + 1 == self.height()
            }
        &&& forall|i: int, x: i64|
            0 <= i < self.children@.len() && #[trigger] self.children@[i].has(x)
                ==> self.child_bounded(i, x)
    }

    proof fn lemma_wf_except(self, k: int)
        ensures
            self.wf() ==> self.wf_except(k),
            self.wf_except(k) && (0 <= k < self.children@.len() ==> self.children@[k].keys@.len()
                + 1 >= D) ==> self.wf(),
    {
    }

    /// An empty leaf.
    pub fn new() -> (r: Self)
        requires
            Self::order_ok(),
        ensures
            r.wf(),
            r.key_count() == 0,
            r.is_leaf_spec(),
            r.height() == 0,
            forall|x: i64| !r.has(x),
    {
        Node { keys: Vec::new(), children: Vec::new() }
    }

    /// Whether this node has no children.
    pub fn is_leaf(&self) -> (r: bool)
        ensures
            r == self.is_leaf_spec(),
    {
        self.children.len() == 0
    }

    pub(crate) fn is_full(&self) -> (r: bool)
        requires
            Self::order_ok(),
        ensures
            r == (self.key_count() >= 2 * D - 1),
    {
        self.keys.len() >= D * 2 - 1
    }

    /// Binary search of `value` among this node's own keys: `Ok(i)` where
    /// `keys[i] == value`, else `Err(i)` with `i` the position at which
    /// `value` would keep the keys sorted.
    pub fn find_key(&self, value: &i64) -> (r: Result<usize, usize>)
        requires
            strictly_sorted(self.key_seq()),
        ensures
            match r {
                Ok(i) => i < self.key_count() && self.key_seq()[i as int] == *value,
                Err(i) => {
                    &&& i <= self.key_count()
                    &&& forall|j: int| 0 <= j < i ==> self.key_seq()[j] < *value
                    &&& forall|j: int| i <= j < self.key_count() ==> *value < self.key_seq()[j]
                },
            },
    {
        let mut lo: usize = 0;
        let mut hi: usize = self.keys.len();
        while lo < hi
            invariant
                lo <= hi <= self.keys@.len(),
                strictly_sorted(self.keys@),
                forall|j: int| 0 <= j < lo ==> self.keys@[j] < *value,
                forall|j: int| hi <= j < self.keys@.len() ==> *value < self.keys@[j],
            decreases hi - lo,
        {
            let mid = lo + (hi - lo) / 2;
            if self.keys[mid] == *value {
                return Ok(mid);
            } else if self.keys[mid] < *value {
                lo = mid + 1;
            } else {
                hi = mid;
            }
        }
        Err(lo)
    }

    /// Splits the full child at `index` around its median key, which moves up
    /// into this node at `index`.
    fn split(&mut self, index: usize)
        requires
            Self::order_ok(),
            old(self).wf(),
            old(self).keys@.len() < 2 * D - 1,
            index < old(self).children@.len(),
            old(self).children@[index as int].keys@.len() == 2 * D - 1,
        ensures
            final(self).wf(),
            final(self).height() == old(self).height(),
            final(self).keys@ == old(self).keys@.insert(
                index as int,
                old(self).children@[index as int].keys@[D - 1],
            ),
            final(self).children@.len() == old(self).children@.len() + 1,
            final(self).children@[index as int].keys@.len() == D - 1,
            final(self).children@[index + 1].keys@.len() == D - 1,
            final(self).children@[index as int].keys@ == old(self).children@[index as int].keys@.subrange(0, D - 1),
            final(self).children@[index + 1].keys@ == old(self).children@[index as int].keys@.subrange(D as int, 2 * D - 1),
            old(self).children@[index as int].children@.len() == 0 ==> {
                &&& final(self).children@[index as int].children@.len() == 0
                &&& final(self).children@[index + 1].children@.len() == 0
            },
            old(self).children@[index as int].children@.len() > 0 ==> {
                &&& final(self).children@[index as int].children@ == old(self).children@[index as int].children@.subrange(0, D as int)
                &&& final(self).children@[index + 1].children@ == old(self).children@[index as int].children@.subrange(D as int, 2 * D as int)
            },
            forall|j: int| 0 <= j < index ==> #[trigger] final(self).children@[j] == old(self).children@[j],
            forall|j: int| index < j < old(self).children@.len() ==> #[trigger] final(self).children@[j + 1] == old(self).children@[j],
            forall|x: i64| final(self).has(x) == old(self).has(x),
            forall|x: i64|
                #[trigger] final(self).children@[index as int].has(x) == (old(
                    self,
                ).children@[index as int].has(x) && x < old(self).children@[index as int].keys@[D
                    - 1]),
            forall|x: i64|
                #[trigger] final(self).children@[index + 1].has(x) == (old(
                    self,
                ).children@[index as int].has(x) && x > old(self).children@[index as int].keys@[D
                    - 1]),
    {
        let ghost old_self = *self;
        let ghost c = self.children@[index as int];
        assert(old_self.wf());
        assert(0 <= index < old_self.children@.len());
        assert(old_self.children@[index as int].wf());
        assert(c.wf());
        let mut child = self.children.remove(index);
        let right_keys = child.keys.split_off(D);
        let mid = child.keys.pop().unwrap();
        let right_children = if child.children.len() == 0 {
            Vec::new()
        } else {
            child.children.split_off(D)
        };
        let left = Node::<D> { keys: child.keys, children: child.children };
        let right = Node::<D> { keys: right_keys, children: right_children };
        proof {
            assert(left.keys@ =~= c.keys@.subrange(0, D - 1));
            assert(right.keys@ =~= c.keys@.subrange(D as int, 2 * D - 1));
            assert(mid == c.keys@[D - 1]);
            if c.children@.len() > 0 {
                assert(left.children@ =~= c.children@.subrange(0, D as int));
                assert(right.children@ =~= c.children@.subrange(D as int, 2 * D as int));
            }
            assert(c.children@.len() > 0 ==> left.children@ == c.children@.subrange(0, D as int));
            assert(c.children@.len() > 0 ==> right.children@ == c.children@.subrange(
                D as int,
                2 * D as int,
            ));
            assert(c.children@.len() == 0 ==> left.children@.len() == 0 && right.children@.len()
                == 0);
            assert forall|x: i64| #[trigger] left.has(x) == (c.has(x) && x < mid) by {
                if left.has(x) {
                    if left.keys@.contains(x) {
                        let j = choose|j: int| 0 <= j < left.keys@.len() && left.keys@[j] == x;
                        assert(c.keys@[j] == x);
                    } else {
                        let j = choose|j: int|
                            0 <= j < left.children@.len() && (#[trigger] left.children@[j]).has(x);
                        assert(c.children@[j] == left.children@[j]);
                        assert(c.child_bounded(j, x));
                    }
                }
                if c.has(x) && x < mid {
                    if c.keys@.contains(x) {
                        let j = choose|j: int| 0 <= j < c.keys@.len() && c.keys@[j] == x;
                        assert(left.keys@[j] == x);
                    } else {
                        let j = choose|j: int|
                            0 <= j < c.children@.len() && (#[trigger] c.children@[j]).has(x);
                        assert(c.child_bounded(j, x));
                        assert(left.children@[j] == c.children@[j]);
                    }
                }
            }
            assert forall|x: i64| #[trigger] right.has(x) == (c.has(x) && x > mid) by {
                if right.has(x) {
                    if right.keys@.contains(x) {
                        let j = choose|j: int| 0 <= j < right.keys@.len() && right.keys@[j] == x;
                        assert(c.keys@[j + D] == x);
                    } else {
                        let j = choose|j: int|
                            0 <= j < right.children@.len() && (#[trigger] right.children@[j]).has(x);
                        assert(c.children@[j + D] == right.children@[j]);
                        assert(c.child_bounded(j + D, x));
                    }
                }
                if c.has(x) && x > mid {
                    if c.keys@.contains(x) {
                        let j = choose|j: int| 0 <= j < c.keys@.len() && c.keys@[j] == x;
                        assert(right.keys@[j - D] == x);
                    } else {
                        let j = choose|j: int|
                            0 <= j < c.children@.len() && (#[trigger] c.children@[j]).has(x);
                        assert(c.child_bounded(j, x));
                        assert(right.children@[j - D] == c.children@[j]);
                    }
                }
            }
            assert(left.wf()) by {
                assert forall|i: int, x: i64|
                    0 <= i < left.children@.len() && #[trigger] left.children@[i].has(x)
                        implies left.child_bounded(i, x) by {
                    assert(c.children@[i] == left.children@[i]);
                    assert(c.child_bounded(i, x));
                }
                if c.children@.len() > 0 {
                    assert(c.children@[0] == left.children@[0]);
                }
            }
            assert(right.wf()) by {
                assert forall|i: int, x: i64|
                    0 <= i < right.children@.len() && #[trigger] right.children@[i].has(x)
                        implies right.child_bounded(i, x) by {
                    assert(c.children@[i + D] == right.children@[i]);
                    assert(c.child_bounded(i + D, x));
                }
                if c.children@.len() > 0 {
                    assert(c.children@[D as int] == right.children@[0]);
                    assert(c.children@[0].height() == c.children@[D as int].height());
                }
            }
            if c.children@.len() > 0 {
                assert(c.children@[0] == left.children@[0]);
                assert(c.children@[D as int] == right.children@[0]);
            }
            assert(left.height() == c.height());
            assert(right.height() == c.height());
        }
        self.keys.insert(index, mid);
        self.children.insert(index, right);
        self.children.insert(index, left);
        proof {
            let n = *self;
            assert(n.keys@ =~= old_self.keys@.insert(index as int, mid));
            assert(n.children@[index as int] == left);
            assert(n.children@[index + 1] == right);
            assert forall|j: int| 0 <= j < index implies n.children@[j] == old_self.children@[j] by {}
            assert forall|j: int| index < j < old_self.children@.len() implies n.children@[j + 1] == old_self.children@[j] by {}
            assert(old_self.child_bounded(index as int, mid)) by {
                assert(c.keys@.contains(mid)) by {
                    assert(c.keys@[D - 1] == mid);
                }
                assert(c.has(mid));
            }
            assert(strictly_sorted(n.keys@)) by {
                assert forall|a: int, b: int| 0 <= a < b < n.keys@.len() implies n.keys@[a] < n.keys@[b] by {
                    if a == index {
                        if b > index {
                            assert(n.keys@[b] == old_self.keys@[b - 1]);
                        }
                    } else if b == index {
                        assert(n.keys@[a] == old_self.keys@[a]);
                    }
                }
            }
            assert(n.height() == old_self.height()) by {
                if index == 0 {
                    assert(n.children@[0] == left);
                } else {
                    assert(n.children@[0] == old_self.children@[0]);
                }
            }
            assert forall|i: int|
                0 <= i < n.children@.len() implies {
                    &&& #[trigger] n.children@[i].wf()
                    &&& n.children@[i].keys@.len() + 1 >= D
                    &&& n.children@[i].height() + 1 == n.height()
                } by {
                if i < index {
                    assert(n.children@[i] == old_self.children@[i]);
                } else if i > index + 1 {
                    assert(n.children@[i] == old_self.children@[i - 1]);
                }
            }
            assert forall|i: int, x: i64|
                0 <= i < n.children@.len() && #[trigger] n.children@[i].has(x)
                    implies n.child_bounded(i, x) by {
                if i < index {
                    assert(n.children@[i] == old_self.children@[i]);
                    assert(old_self.child_bounded(i, x));
                } else if i > index + 1 {
                    assert(n.children@[i] == old_self.children@[i - 1]);
                    assert(old_self.child_bounded(i - 1, x));
                } else {
                    assert(c.has(x));
                    assert(old_self.child_bounded(index as int, x));
                }
            }
            assert forall|x: i64| n.has(x) == old_self.has(x) by {
                if n.has(x) {
                    if n.keys@.contains(x) {
                        let j = choose|j: int| 0 <= j < n.keys@.len() && n.keys@[j] == x;
                        if j == index {
                            assert(c.has(x)) by { assert(c.keys@[D - 1] == x); }
                        } else if j < index {
                            assert(old_self.keys@[j] == x);
                        } else {
                            assert(old_self.keys@[j - 1] == x);
                        }
                    } else {
                        let j = choose|j: int|
                            0 <= j < n.children@.len() && (#[trigger] n.children@[j]).has(x);
                        if j < index {
                            assert(old_self.children@[j].has(x));
                        } else if j > index + 1 {
                            assert(old_self.children@[j - 1].has(x));
                        } else {
                            assert(old_self.children@[index as int].has(x));
                        }
                    }
                }
                if old_self.has(x) {
                    if old_self.keys@.contains(x) {
                        let j = choose|j: int| 0 <= j < old_self.keys@.len() && old_self.keys@[j] == x;
                        if j < index {
                            assert(n.keys@[j] == x);
                        } else {
                            assert(n.keys@[j + 1] == x);
                        }
                    } else {
                        let j = choose|j: int|
                            0 <= j < old_self.children@.len() && (#[trigger] old_self.children@[j]).has(x);
                        if j < index {
                            assert(n.children@[j].has(x));
                        } else if j > index {
                            assert(n.children@[j + 1].has(x));
                        } else if x < mid {
                            assert(n.children@[index as int].has(x));
                        } else if x > mid {
                            assert(n.children@[index + 1].has(x));
                        } else {
                            assert(n.keys@[index as int] == x);
                        }
                    }
                }
            }
        }
    }

    /// Under well-formedness, a key in the interval of child `i` can only be
    /// in that child.
    proof fn lemma_bounded_only_in_child(self, i: int, x: i64)
        requires
            self.wf(),
            0 <= i < self.children@.len(),
            self.child_bounded(i, x),
        ensures
            !self.keys@.contains(x),
            forall|j: int| 0 <= j < self.children@.len() && j != i ==> !(#[trigger] self.children@[j]).has(x),
            self.has(x) == self.children@[i].has(x),
    {
        assert forall|j: int| 0 <= j < self.children@.len() && j != i implies !(#[trigger] self.children@[j]).has(x) by {
            if self.children@[j].has(x) {
                assert(self.child_bounded(j, x));
                if j < i {
                    assert(self.keys@[j] <= self.keys@[i - 1]);
                } else {
                    assert(self.keys@[i] <= self.keys@[j - 1]);
                }
            }
        }
        if self.keys@.contains(x) {
            let j = choose|j: int| 0 <= j < self.keys@.len() && self.keys@[j] == x;
            if j < i {
                assert(self.keys@[j] <= self.keys@[i - 1]);
            } else {
                assert(self.keys@[i] <= self.keys@[j]);
            }
        }
    }

    /// Membership after child `i` of a well-formed node is replaced by a
    /// subtree whose keys stay in that child's interval: inside the interval
    /// it is membership in the new child, outside it is unchanged.
    proof fn lemma_replace_child(a: Self, b: Self, i: int)
        requires
            a.wf(),
            0 <= i < a.children@.len(),
            b.keys@ == a.keys@,
            b.children@ == a.children@.update(i, b.children@[i]),
            forall|x: i64| #[trigger] b.children@[i].has(x) ==> a.child_bounded(i, x),
        ensures
            forall|x: i64| a.child_bounded(i, x) ==> #[trigger] b.has(x) == b.children@[i].has(x),
            forall|x: i64| !a.child_bounded(i, x) ==> #[trigger] b.has(x) == a.has(x),
    {
        assert forall|x: i64| a.child_bounded(i, x) implies #[trigger] b.has(x) == b.children@[i].has(x) by {
            a.lemma_bounded_only_in_child(i, x);
            if b.has(x) && !b.children@[i].has(x) {
                let j = choose|j: int| 0 <= j < b.children@.len() && (#[trigger] b.children@[j]).has(x);
                assert(a.children@[j] == b.children@[j]);
            }
        }
        assert forall|x: i64| !a.child_bounded(i, x) implies #[trigger] b.has(x) == a.has(x) by {
            if b.has(x) && !b.keys@.contains(x) {
                let j = choose|j: int| 0 <= j < b.children@.len() && (#[trigger] b.children@[j]).has(x);
                assert(a.children@[j] == b.children@[j]);
            }
            if a.has(x) && !a.keys@.contains(x) {
                let j = choose|j: int| 0 <= j < a.children@.len() && (#[trigger] a.children@[j]).has(x);
                assert(a.child_bounded(j, x));
                assert(a.children@[j] == b.children@[j]);
            }
        }
    }

    /// Adds `value` to the subtree rooted at this node, which must not be
    /// full; a value already present is left alone.
    pub(crate) fn insert(&mut self, value: i64)
        requires
            Self::order_ok(),
            old(self).wf(),
            old(self).key_count() < 2 * D - 1,
        ensures
            final(self).wf(),
            final(self).height() == old(self).height(),
            final(self).key_count() >= old(self).key_count(),
            final(self).is_leaf_spec() == old(self).is_leaf_spec(),
            forall|x: i64| #[trigger] final(self).has(x) == (old(self).has(x) || x == value),
        decreases old(self).height(),
    {
        let ghost start = *self;
        match self.find_key(&value) {
            Ok(i) => {
                proof {
                    assert(self.keys@.contains(value)) by { assert(self.keys@[i as int] == value); }
                }
            },
            Err(i) => {
                proof {
                    assert forall|j: int| 0 <= j < i implies start.keys@[j] < value by {
                        assert(start.key_seq()[j] < value);
                    }
                    assert forall|j: int| i <= j < start.keys@.len() implies value < start.keys@[j] by {
                        assert(value < start.key_seq()[j]);
                    }
                }
                if self.is_leaf() {
                    self.keys.insert(i, value);
                    proof {
                        let n = *self;
                        assert(n.keys@ == start.keys@.insert(i as int, value));
                        assert(strictly_sorted(n.keys@)) by {
                            assert forall|a: int, b: int| 0 <= a < b < n.keys@.len() implies n.keys@[a] < n.keys@[b] by {
                                if a < i && b > i {
                                    assert(n.keys@[a] == start.keys@[a]);
                                    assert(n.keys@[b] == start.keys@[b - 1]);
                                } else if b < i {
                                    assert(n.keys@[a] == start.keys@[a]);
                                    assert(n.keys@[b] == start.keys@[b]);
                                } else if a > i {
                                    assert(n.keys@[a] == start.keys@[a - 1]);
                                    assert(n.keys@[b] == start.keys@[b - 1]);
                                } else if a == i {
                                    assert(n.keys@[b] == start.keys@[b - 1]);
                                } else {
                                    assert(n.keys@[a] == start.keys@[a]);
                                }
                            }
                        }
                        assert forall|x: i64| #[trigger] n.has(x) == (start.has(x) || x == value) by {
                            if n.keys@.contains(x) {
                                let j = choose|j: int| 0 <= j < n.keys@.len() && n.keys@[j] == x;
                                if j < i {
                                    assert(start.keys@[j] == x);
                                } else if j > i {
                                    assert(start.keys@[j - 1] == x);
                                }
                            }
                            if start.keys@.contains(x) {
                                let j = choose|j: int| 0 <= j < start.keys@.len() && start.keys@[j] == x;
                                if j < i {
                                    assert(n.keys@[j] == x);
                                } else {
                                    assert(n.keys@[j + 1] == x);
                                }
                            }
                            if x == value {
                                assert(n.keys@[i as int] == x);
                            }
                        }
                    }
                } else {
                    let mut i = i;
                    proof {
                        assert(start.child_bounded(i as int, value));
                        assert(start.children@[i as int].wf());
                        assert(start.children@[i as int].keys@.len() < 2 * D);
                    }
                    if self.children[i].is_full() {
                        self.split(i);
                        if value == self.keys[i] {
                            proof {
                                assert(self.keys@.contains(value));
                            }
                            return;
                        }
                        if value > self.keys[i] {
                            i = i + 1;
                        }
                        proof {
                            assert(self.child_bounded(i as int, value));
                        }
                    }
                    let ghost before = *self;
                    proof {
                        assert(before.children@[i as int].wf());
                    }
                    self.children[i].insert(value);
                    proof {
                        let n = *self;
                        let c = n.children@[i as int];
                        assert(n.children@ == before.children@.update(i as int, c));
                        assert forall|x: i64| #[trigger] c.has(x) implies before.child_bounded(i as int, x) by {
                            if x != value {
                                assert(before.children@[i as int].has(x));
                            }
                        }
                        Self::lemma_replace_child(before, n, i as int);
                        assert(n.height() == before.height()) by {
                            assert(n.children@[0].height() == before.children@[0].height());
                        }
                        assert forall|j: int, x: i64|
                            0 <= j < n.children@.len() && #[trigger] n.children@[j].has(x)
                                implies n.child_bounded(j, x) by {
                            if j != i {
                                assert(n.children@[j] == before.children@[j]);
                            }
                        }
                        assert forall|j: int|
                            0 <= j < n.children@.len() implies {
                                &&& (#[trigger] n.children@[j]).wf()
                                &&& n.children@[j].keys@.len() + 1 >= D
                                &&& n.children@[j].height() + 1 == n.height()
                            } by {
                            if j != i {
                                assert(n.children@[j] == before.children@[j]);
                            }
                        }
                        assert forall|x: i64| #[trigger] n.has(x) == (start.has(x) || x == value) by {
                            if before.child_bounded(i as int, x) {
                                before.lemma_bounded_only_in_child(i as int, x);
                            }
                        }
                    }
                }
            },
        }
    }

    /// `b` is `a` with children `i` and `i + 1` and the key between them
    /// merged into one child at `i`: its keys are the left child's keys, the
    /// separator and the right child's keys, its children those of the left
    /// child followed by those of the right; the other children stay.
    spec fn merged_at(a: Self, b: Self, i: int) -> bool {
        let l = a.children@[i];
        let r = a.children@[i + 1];
        &&& b.keys@ == a.keys@.remove(i)
        &&& b.children@.len() == a.children@.len() - 1
        &&& b.children@[i].keys@ == l.keys@.push(a.keys@[i]) + r.keys@
        &&& b.children@[i].children@ == l.children@ + r.children@
        &&& forall|j: int| 0 <= j < i ==> #[trigger] b.children@[j] == a.children@[j]
        &&& forall|j: int| i < j < b.children@.len() ==> #[trigger] b.children@[j] == a.children@[j + 1]
    }

    /// `b` is `a` after child `i` borrowed from its right sibling: the
    /// separator went down to the end of child `i`, the sibling's smallest
    /// key took its place, and the sibling's first subtree (if any) moved to
    /// the end of child `i`; the other children stay.
    spec fn rotated_left(a: Self, b: Self, i: int) -> bool {
        let l = a.children@[i];
        let r = a.children@[i + 1];
        &&& b.keys@ == a.keys@.update(i, r.keys@[0])
        &&& b.children@.len() == a.children@.len()
        &&& b.children@[i].keys@ == l.keys@.push(a.keys@[i])
        &&& b.children@[i + 1].keys@ == r.keys@.subrange(1, r.keys@.len() as int)
        &&& r.children@.len() == 0 ==> {
            &&& b.children@[i].children@ == l.children@
            &&& b.children@[i + 1].children@.len() == 0
        }
        &&& r.children@.len() > 0 ==> {
            &&& b.children@[i].children@ == l.children@.push(r.children@[0])
            &&& b.children@[i + 1].children@ == r.children@.subrange(1, r.children@.len() as int)
        }
        &&& forall|j: int| 0 <= j < b.children@.len() && j != i && j != i + 1 ==> #[trigger] b.children@[j] == a.children@[j]
    }

    /// `b` is `a` after child `i + 1` borrowed from its left sibling: the
    /// separator went down to the front of child `i + 1`, the sibling's
    /// largest key took its place, and the sibling's last subtree (if any)
    /// moved to the front of child `i + 1`; the other children stay.
    spec fn rotated_right(a: Self, b: Self, i: int) -> bool {
        let l = a.children@[i];
        let r = a.children@[i + 1];
        &&& b.keys@ == a.keys@.update(i, l.keys@.last())
        &&& b.children@.len() == a.children@.len()
        &&& b.children@[i].keys@ == l.keys@.drop_last()
        &&& b.children@[i + 1].keys@ == seq![a.keys@[i]] + r.keys@
        &&& l.children@.len() == 0 ==> {
            &&& b.children@[i].children@.len() == 0
            &&& b.children@[i + 1].children@ == r.children@
        }
        &&& l.children@.len() > 0 ==> {
            &&& b.children@[i].children@ == l.children@.drop_last()
            &&& b.children@[i + 1].children@ == seq![l.children@.last()] + r.children@
        }
        &&& forall|j: int| 0 <= j < b.children@.len() && j != i && j != i + 1 ==> #[trigger] b.children@[j] == a.children@[j]
    }

    /// Merges children `i` and `i + 1` with the key that separates them into
    /// one child; the separator leaves this node.
    #[verifier::rlimit(40)]
    fn merge(&mut self, i: usize)
        requires
            Self::order_ok(),
            old(self).wf_except(i as int) || old(self).wf_except(i + 1),
            i + 1 < old(self).children@.len(),
            old(self).children@[i as int].keys@.len() + old(self).children@[i + 1].keys@.len()
                + 1 < 2 * D,
        ensures
            final(self).wf(),
            final(self).height() == old(self).height(),
            Self::merged_at(*old(self), *final(self), i as int),
            forall|x: i64| #[trigger] final(self).has(x) == old(self).has(x),
    {
        let ghost a = *self;
        let ghost l = a.children@[i as int];
        let ghost r = a.children@[i + 1];
        proof {
            assert(l.wf());
            assert(r.wf());
            assert(l.height() == r.height());
        }
        let mut right = self.children.remove(i + 1);
        let mut left = self.children.remove(i);
        let sep = self.keys.remove(i);
        left.keys.push(sep);
        left.keys.append(&mut right.keys);
        left.children.append(&mut right.children);
        proof {
            assert(sep == a.keys@[i as int]);
            assert(left.keys@ =~= l.keys@.push(sep) + r.keys@);
            assert(left.children@ =~= l.children@ + r.children@);
            assert forall|x: i64| l.has(x) implies x < sep by {
                assert(a.children@[i as int].has(x));
            }
            assert forall|x: i64| r.has(x) implies sep < x by {
                assert(a.children@[i + 1].has(x));
            }
            Self::lemma_merged(l, sep, r, left);
            assert(left.keys@ == l.keys@.push(sep) + r.keys@);
            assert(left.children@ == l.children@ + r.children@);
        }
        self.children.insert(i, left);
        proof {
            let n = *self;
            let m = left;
            assert(n.keys@ == a.keys@.remove(i as int));
            assert(n.children@[i as int] == m);
            assert forall|j: int| 0 <= j < i implies n.children@[j] == a.children@[j] by {}
            assert forall|j: int| i < j < n.children@.len() implies n.children@[j] == a.children@[j + 1] by {}
            assert(n.children@[i as int].keys@ == l.keys@.push(sep) + r.keys@);
            assert(n.children@[i as int].children@ == l.children@ + r.children@);
            assert forall|j: int| 0 <= j < n.keys@.len() implies #[trigger] n.keys@[j] == (if j < i { a.keys@[j] } else { a.keys@[j + 1] }) by {}
            assert(n.height() == a.height()) by {
                if i == 0 {
                    assert(a.children@[0] == l);
                } else {
                    assert(n.children@[0] == a.children@[0]);
                }
            }
            assert forall|j: int|
                0 <= j < n.children@.len() implies {
                    &&& (#[trigger] n.children@[j]).wf()
                    &&& n.children@[j].keys@.len() + 1 >= D
                    &&& n.children@[j].height() + 1 == n.height()
                } by {
                if j < i {
                    assert(n.children@[j] == a.children@[j]);
                } else if j > i {
                    assert(n.children@[j] == a.children@[j + 1]);
                }
            }
            assert forall|j: int, x: i64|
                0 <= j < n.children@.len() && #[trigger] n.children@[j].has(x)
                    implies n.child_bounded(j, x) by {
                if j < i {
                    assert(n.children@[j] == a.children@[j]);
                    assert(a.child_bounded(j, x));
                } else if j > i {
                    assert(n.children@[j] == a.children@[j + 1]);
                    assert(a.child_bounded(j + 1, x));
                } else {
                    if l.has(x) {
                        assert(a.children@[i as int].has(x));
                        assert(a.child_bounded(i as int, x));
                    } else if r.has(x) {
                        assert(a.children@[i + 1].has(x));
                        assert(a.child_bounded(i + 1, x));
                    } else {
                        assert(x == sep);
                        if i > 0 {
                            assert(a.keys@[i - 1] < a.keys@[i as int]);
                        }
                        if i + 1 < a.keys@.len() {
                            assert(a.keys@[i as int] < a.keys@[i + 1]);
                        }
                    }
                }
            }
            assert forall|x: i64| #[trigger] n.has(x) == a.has(x) by {
                if n.has(x) {
                    if n.keys@.contains(x) {
                        let j = choose|j: int| 0 <= j < n.keys@.len() && n.keys@[j] == x;
                        if j < i {
                            assert(a.keys@[j] == x);
                        } else {
                            assert(a.keys@[j + 1] == x);
                        }
                    } else {
                        let j = choose|j: int| 0 <= j < n.children@.len() && (#[trigger] n.children@[j]).has(x);
                        if j < i {
                            assert(a.children@[j].has(x));
                        } else if j > i {
                            assert(a.children@[j + 1].has(x));
                        } else if l.has(x) {
                            assert(a.children@[i as int].has(x));
                        } else if r.has(x) {
                            assert(a.children@[i + 1].has(x));
                        } else {
                            assert(a.keys@[i as int] == x);
                        }
                    }
                }
                if a.has(x) {
                    if a.keys@.contains(x) {
                        let j = choose|j: int| 0 <= j < a.keys@.len() && a.keys@[j] == x;
                        if j < i {
                            assert(n.keys@[j] == x);
                        } else if j > i {
                            assert(n.keys@[j - 1] == x);
                        } else {
                            assert(n.children@[i as int].has(x));
                        }
                    } else {
                        let j = choose|j: int| 0 <= j < a.children@.len() && (#[trigger] a.children@[j]).has(x);
                        if j < i {
                            assert(n.children@[j].has(x));
                        } else if j > i + 1 {
                            assert(n.children@[j - 1].has(x));
                        } else {
                            assert(n.children@[i as int].has(x));
                        }
                    }
                }
            }
        }
    }

    /// The node made of `l`'s keys, `sep`, `r`'s keys and both child lists is
    /// well formed and holds exactly `l`, `sep` and `r`.
    proof fn lemma_merged(l: Self, sep: i64, r: Self, m: Self)
        requires
            Self::order_ok(),
            l.wf(),
            r.wf(),
            l.height() == r.height(),
            forall|x: i64| l.has(x) ==> x < sep,
            forall|x: i64| r.has(x) ==> sep < x,
            l.keys@.len() + r.keys@.len() + 1 < 2 * D,
            m.keys@ == l.keys@.push(sep) + r.keys@,
            m.children@ == l.children@ + r.children@,
        ensures
            m.wf(),
            m.height() == l.height(),
            forall|x: i64| #[trigger] m.has(x) == (l.has(x) || x == sep || r.has(x)),
    {
        let lk = l.keys@.len() as int;
        let lc = l.children@.len() as int;
        let lk = l.keys@.len() as int;
        let lc = l.children@.len() as int;
        assert forall|j: int| 0 <= j < lk implies l.has(#[trigger] l.keys@[j]) by {
            assert(l.keys@.contains(l.keys@[j]));
        }
        assert forall|j: int| 0 <= j < r.keys@.len() implies r.has(#[trigger] r.keys@[j]) by {
            assert(r.keys@.contains(r.keys@[j]));
        }
        assert(strictly_sorted(m.keys@)) by {
            assert forall|p: int, q: int| 0 <= p < q < m.keys@.len() implies m.keys@[p] < m.keys@[q] by {
                if q < lk {
                } else if q == lk {
                    assert(l.has(l.keys@[p]));
                } else if p > lk {
                    assert(m.keys@[p] == r.keys@[p - lk - 1]);
                    assert(m.keys@[q] == r.keys@[q - lk - 1]);
                } else if p == lk {
                    assert(r.has(r.keys@[q - lk - 1]));
                } else {
                    assert(l.has(l.keys@[p]));
                    assert(r.has(r.keys@[q - lk - 1]));
                }
            }
        }
        assert forall|x: i64| #[trigger] m.has(x) == (l.has(x) || x == sep || r.has(x)) by {
            if m.keys@.contains(x) {
                let j = choose|j: int| 0 <= j < m.keys@.len() && m.keys@[j] == x;
                if j < lk {
                    assert(l.keys@.contains(x));
                } else if j > lk {
                    assert(r.keys@[j - lk - 1] == x);
                    assert(r.keys@.contains(x));
                }
            } else if m.has(x) {
                let j = choose|j: int| 0 <= j < m.children@.len() && (#[trigger] m.children@[j]).has(x);
                if j < lc {
                    assert(l.children@[j] == m.children@[j]);
                } else {
                    assert(r.children@[j - lc] == m.children@[j]);
                }
            }
            if l.has(x) {
                if l.keys@.contains(x) {
                    let j = choose|j: int| 0 <= j < l.keys@.len() && l.keys@[j] == x;
                    assert(m.keys@[j] == x);
                } else {
                    let j = choose|j: int| 0 <= j < l.children@.len() && (#[trigger] l.children@[j]).has(x);
                    assert(m.children@[j] == l.children@[j]);
                }
            }
            if x == sep {
                assert(m.keys@[lk] == x);
            }
            if r.has(x) {
                if r.keys@.contains(x) {
                    let j = choose|j: int| 0 <= j < r.keys@.len() && r.keys@[j] == x;
                    assert(m.keys@[j + lk + 1] == x);
                } else {
                    let j = choose|j: int| 0 <= j < r.children@.len() && (#[trigger] r.children@[j]).has(x);
                    assert(m.children@[j + lc] == r.children@[j]);
                }
            }
        }
        if lc > 0 {
            assert(r.children@.len() > 0);
            assert(m.children@[0] == l.children@[0]);
            assert(r.children@[0].height() + 1 == r.height());
        } else {
            assert(r.children@.len() == 0);
        }
        assert(m.height() == l.height());
        assert(m.wf()) by {
            assert forall|j: int|
                0 <= j < m.children@.len() implies {
                    &&& (#[trigger] m.children@[j]).wf()
                    &&& m.children@[j].keys@.len() + 1 >= D
                    &&& m.children@[j].height() + 1 == m.height()
                } by {
                if j < lc {
                    assert(m.children@[j] == l.children@[j]);
                } else {
                    assert(m.children@[j] == r.children@[j - lc]);
                }
            }
            assert forall|j: int, x: i64|
                0 <= j < m.children@.len() && #[trigger] m.children@[j].has(x)
                    implies m.child_bounded(j, x) by {
                if j < lc {
                    assert(m.children@[j] == l.children@[j]);
                    assert(l.child_bounded(j, x));
                    assert(l.has(x));
                    if j < lk {
                        assert(m.keys@[j] == l.keys@[j]);
                    }
                    if j > 0 {
                        assert(m.keys@[j - 1] == l.keys@[j - 1]);
                    }
                } else {
                    assert(m.children@[j] == r.children@[j - lc]);
                    assert(r.child_bounded(j - lc, x));
                    assert(r.has(x));
                    if j > lc {
                        assert(m.keys@[j - 1] == r.keys@[j - lc - 1]);
                    }
                    if j < m.keys@.len() {
                        assert(m.keys@[j] == r.keys@[j - lc]);
                    }
                }
            }
        }
    }

    /// The node made of keys `a..b` of `n` (and, if `n` is internal, of the
    /// children between them) is well formed and holds exactly the keys of
    /// `n` that lie strictly between keys `a - 1` and `b`.
    proof fn lemma_slice(n: Self, a: int, b: int, m: Self)
        requires
            n.wf(),
            0 <= a <= b <= n.keys@.len(),
            m.keys@ == n.keys@.subrange(a, b),
            n.children@.len() == 0 ==> m.children@.len() == 0,
            n.children@.len() > 0 ==> m.children@ == n.children@.subrange(a, b + 1),
        ensures
            m.wf(),
            m.height() == n.height(),
            forall|x: i64| #[trigger] m.has(x) == (n.has(x) && (0 < a ==> n.keys@[a - 1] < x) && (b
                < n.keys@.len() ==> x < n.keys@[b])),
    {
        assert forall|x: i64| #[trigger] m.has(x) == (n.has(x) && (0 < a ==> n.keys@[a - 1] < x) && (b
            < n.keys@.len() ==> x < n.keys@[b])) by {
            if m.has(x) {
                if m.keys@.contains(x) {
                    let j = choose|j: int| 0 <= j < m.keys@.len() && m.keys@[j] == x;
                    assert(n.keys@[j + a] == x);
                    assert(n.keys@.contains(x));
                } else {
                    let j = choose|j: int| 0 <= j < m.children@.len() && (#[trigger] m.children@[j]).has(x);
                    assert(n.children@[j + a] == m.children@[j]);
                    assert(n.child_bounded(j + a, x));
                    if 0 < a {
                        assert(n.keys@[a - 1] <= n.keys@[j + a - 1]);
                    }
                    if b < n.keys@.len() {
                        assert(n.keys@[j + a] <= n.keys@[b]);
                    }
                }
            }
            if n.has(x) && (0 < a ==> n.keys@[a - 1] < x) && (b < n.keys@.len() ==> x < n.keys@[b]) {
                if n.keys@.contains(x) {
                    let j = choose|j: int| 0 <= j < n.keys@.len() && n.keys@[j] == x;
                    assert(m.keys@[j - a] == x);
                } else {
                    let j = choose|j: int| 0 <= j < n.children@.len() && (#[trigger] n.children@[j]).has(x);
                    assert(n.child_bounded(j, x));
                    if j < a {
                        assert(n.keys@[j] <= n.keys@[a - 1]);
                    }
                    if j > b {
                        assert(n.keys@[b] <= n.keys@[j - 1]);
                    }
                    assert(m.children@[j - a] == n.children@[j]);
                }
            }
        }
        assert(m.wf()) by {
            assert forall|i: int, x: i64|
                0 <= i < m.children@.len() && #[trigger] m.children@[i].has(x)
                    implies m.child_bounded(i, x) by {
                assert(n.children@[i + a] == m.children@[i]);
                assert(n.child_bounded(i + a, x));
            }
            assert forall|i: int|
                0 <= i < m.children@.len() implies {
                    &&& (#[trigger] m.children@[i]).wf()
                    &&& m.children@[i].keys@.len() + 1 >= D
                    &&& m.children@[i].height() + 1 == m.height()
                } by {
                assert(n.children@[i + a] == m.children@[i]);
                assert(n.children@[a] == m.children@[0]);
            }
        }
        if n.children@.len() > 0 {
            assert(n.children@[a] == m.children@[0]);
        }
    }

    /// A node with no keys and the children `cs` (none, or one).
    proof fn lemma_keyless(cs: Seq<Self>, m: Self, h: nat)
        requires
            Self::order_ok(),
            m.keys@.len() == 0,
            m.children@ == cs,
            cs.len() <= 1,
            cs.len() == 0 ==> h == 0,
            cs.len() == 1 ==> cs[0].wf() && cs[0].keys@.len() + 1 >= D && cs[0].height() + 1 == h,
        ensures
            m.wf(),
            m.height() == h,
            forall|x: i64| #[trigger] m.has(x) == (cs.len() == 1 && cs[0].has(x)),
    {
        assert forall|x: i64| #[trigger] m.has(x) == (cs.len() == 1 && cs[0].has(x)) by {
            if m.has(x) {
                let j = choose|j: int| 0 <= j < m.children@.len() && (#[trigger] m.children@[j]).has(x);
            }
            if cs.len() == 1 && cs[0].has(x) {
                assert(m.children@[0].has(x));
            }
        }
    }

    /// Children `i` and `i + 1` and the key between them are replaced by two
    /// well-formed subtrees of the same height around a new separator, which
    /// together hold the same keys as before: the node stays well formed and
    /// holds the same keys.
    proof fn lemma_replace_pair(a: Self, b: Self, i: int)
        requires
            a.wf_except(i) || a.wf_except(i + 1),
            0 <= i && i + 1 < a.children@.len(),
            b.keys@ == a.keys@.update(i, b.keys@[i]),
            b.children@ == a.children@.update(i, b.children@[i]).update(i + 1, b.children@[i + 1]),
            b.children@[i].wf(),
            b.children@[i + 1].wf(),
            b.children@[i].keys@.len() + 1 >= D,
            b.children@[i + 1].keys@.len() + 1 >= D,
            b.children@[i].height() == a.children@[i].height(),
            b.children@[i + 1].height() == a.children@[i].height(),
            a.children@[i].has(b.keys@[i]) || a.keys@[i] == b.keys@[i] || a.children@[i + 1].has(b.keys@[i]),
            forall|x: i64| #[trigger] b.children@[i].has(x) == (x < b.keys@[i] && (a.children@[i].has(x) || x == a.keys@[i] || a.children@[i + 1].has(x))),
            forall|x: i64| #[trigger] b.children@[i + 1].has(x) == (b.keys@[i] < x && (a.children@[i].has(x) || x == a.keys@[i] || a.children@[i + 1].has(x))),
        ensures
            b.wf(),
            b.height() == a.height(),
            forall|x: i64| #[trigger] b.has(x) == a.has(x),
    {
        let s = a.keys@[i];
        let t = b.keys@[i];
        let l = a.children@[i];
        let r = a.children@[i + 1];
        assert forall|x: i64| (l.has(x) || x == s || r.has(x)) implies (0 < i ==> a.keys@[i - 1] < x) && (i + 1 < a.keys@.len() ==> x < a.keys@[i + 1]) by {
            if l.has(x) {
                assert(a.child_bounded(i, x));
                if i + 1 < a.keys@.len() {
                    assert(a.keys@[i] < a.keys@[i + 1]);
                }
            } else if r.has(x) {
                assert(a.child_bounded(i + 1, x));
                if 0 < i {
                    assert(a.keys@[i - 1] < a.keys@[i]);
                }
            } else {
                if 0 < i {
                    assert(a.keys@[i - 1] < a.keys@[i]);
                }
                if i + 1 < a.keys@.len() {
                    assert(a.keys@[i] < a.keys@[i + 1]);
                }
            }
        }
        assert(l.has(t) || t == s || r.has(t));
        assert(strictly_sorted(b.keys@)) by {
            assert forall|p: int, q: int| 0 <= p < q < b.keys@.len() implies b.keys@[p] < b.keys@[q] by {
                if p == i {
                    assert(a.keys@[i] <= a.keys@[q]);
                    if q == i + 1 {
                    } else {
                        assert(a.keys@[i + 1] <= a.keys@[q]);
                    }
                } else if q == i {
                    if p == i - 1 {
                    } else {
                        assert(a.keys@[p] <= a.keys@[i - 1]);
                    }
                }
            }
        }
        assert(b.height() == a.height()) by {
            assert(b.children@[0].height() == a.children@[0].height());
        }
        assert forall|j: int|
            0 <= j < b.children@.len() implies {
                &&& (#[trigger] b.children@[j]).wf()
                &&& b.children@[j].keys@.len() + 1 >= D
                &&& b.children@[j].height() + 1 == b.height()
            } by {
            if j != i && j != i + 1 {
                assert(b.children@[j] == a.children@[j]);
            }
        }
        assert forall|j: int, x: i64|
            0 <= j < b.children@.len() && #[trigger] b.children@[j].has(x)
                implies b.child_bounded(j, x) by {
            if j != i && j != i + 1 {
                assert(b.children@[j] == a.children@[j]);
                assert(a.child_bounded(j, x));
            }
        }
        assert forall|x: i64| #[trigger] b.has(x) == a.has(x) by {
            if b.has(x) {
                if b.keys@.contains(x) {
                    let j = choose|j: int| 0 <= j < b.keys@.len() && b.keys@[j] == x;
                    if j != i {
                        assert(a.keys@[j] == x);
                    } else if l.has(x) {
                        assert(a.children@[i].has(x));
                    } else if r.has(x) {
                        assert(a.children@[i + 1].has(x));
                    } else {
                        assert(a.keys@[i] == x);
                    }
                } else {
                    let j = choose|j: int| 0 <= j < b.children@.len() && (#[trigger] b.children@[j]).has(x);
                    if j != i && j != i + 1 {
                        assert(a.children@[j].has(x));
                    } else if l.has(x) {
                        assert(a.children@[i].has(x));
                    } else if r.has(x) {
                        assert(a.children@[i + 1].has(x));
                    } else {
                        assert(a.keys@[i] == x);
                    }
                }
            }
            if a.has(x) {
                let in_pair = l.has(x) || x == s || r.has(x);
                if in_pair {
                    if x < t {
                        assert(b.children@[i].has(x));
                    } else if x > t {
                        assert(b.children@[i + 1].has(x));
                    } else {
                        assert(b.keys@[i] == x);
                    }
                } else if a.keys@.contains(x) {
                    let j = choose|j: int| 0 <= j < a.keys@.len() && a.keys@[j] == x;
                    assert(b.keys@[j] == x);
                } else {
                    let j = choose|j: int| 0 <= j < a.children@.len() && (#[trigger] a.children@[j]).has(x);
                    assert(b.children@[j].has(x));
                }
            }
        }
    }

    /// Child `i` is one key short: moves the separator `keys[i]` down into
    /// it and the smallest key of the right sibling up in its place (with
    /// the sibling's first subtree), or merges the two when the sibling has
    /// no key to spare.
    fn pivot_left(&mut self, i: usize)
        requires
            Self::order_ok(),
            old(self).wf_except(i as int),
            i + 1 < old(self).children@.len(),
            old(self).children@[i as int].keys@.len() + 2 == D,
        ensures
            final(self).wf(),
            final(self).height() == old(self).height(),
            final(self).keys@.len() + 1 >= old(self).keys@.len(),
            forall|x: i64| #[trigger] final(self).has(x) == old(self).has(x),
            old(self).children@[i + 1].keys@.len() < D ==> Self::merged_at(*old(self), *final(self), i as int),
            old(self).children@[i + 1].keys@.len() >= D ==> Self::rotated_left(*old(self), *final(self), i as int),
    {
        if self.children[i + 1].keys.len() < D {
            self.merge(i);
            return;
        }
        let ghost a = *self;
        let ghost l = a.children@[i as int];
        let ghost r = a.children@[i + 1];
        proof {
            assert(l.wf());
            assert(r.wf());
        }
        let mut right = self.children.remove(i + 1);
        let mut left = self.children.remove(i);
        let first = right.keys.remove(0);
        let sep = self.keys[i];
        self.keys.set(i, first);
        let mut moved = Node::new();
        if !right.is_leaf() {
            let c = right.children.remove(0);
            moved.children.push(c);
        }
        let ghost k = moved;
        left.keys.push(sep);
        left.children.append(&mut moved.children);
        proof {
            assert(r.keys@.contains(first)) by { assert(r.keys@[0] == first); }
            assert(r.has(first));
            if r.children@.len() > 0 {
                assert(r.children@[0].wf());
                assert(right.children@ =~= r.children@.subrange(1, r.keys@.len() + 1 as int));
                assert forall|x: i64| r.children@[0].has(x) implies sep < x by {
                    assert(r.has(x));
                    assert(a.children@[i + 1].has(x));
                }
            }
            assert(right.keys@ =~= r.keys@.subrange(1, r.keys@.len() as int));
            Self::lemma_slice(r, 1, r.keys@.len() as int, right);
            assert(right.children@.len() == 0 ==> r.children@.len() == 0);
            assert(k.children@.len() == 0 ==> r.children@.len() == 0);
            assert(r.children@.len() == 0 ==> r.height() == 0);
            Self::lemma_keyless(k.children@, k, r.height());
            assert forall|x: i64| l.has(x) implies x < sep by {
                assert(a.children@[i as int].has(x));
            }
            assert forall|x: i64| k.has(x) implies sep < x by {
                assert(r.children@[0].has(x));
            }
            assert(left.keys@ =~= l.keys@.push(sep) + k.keys@);
            assert(left.children@ =~= l.children@ + k.children@);
            assert(left.keys@ =~= l.keys@.push(sep));
            if r.children@.len() > 0 {
                assert(left.children@ =~= l.children@.push(r.children@[0]));
            } else {
                assert(left.children@ =~= l.children@);
            }
            Self::lemma_merged(l, sep, k, left);
            assert forall|x: i64| #[trigger] r.has(x) && x < first implies k.has(x) by {
                if r.keys@.contains(x) {
                    let j = choose|j: int| 0 <= j < r.keys@.len() && r.keys@[j] == x;
                    assert(r.keys@[0] <= r.keys@[j]);
                } else {
                    let j = choose|j: int| 0 <= j < r.children@.len() && (#[trigger] r.children@[j]).has(x);
                    assert(r.child_bounded(j, x));
                    if j > 0 {
                        assert(r.keys@[0] <= r.keys@[j - 1]);
                    }
                }
            }
            assert forall|x: i64| k.has(x) implies r.has(x) && x < first by {
                assert(r.children@[0].has(x));
                assert(r.child_bounded(0, x));
            }
        }
        self.children.insert(i, right);
        self.children.insert(i, left);
        proof {
            let b = *self;
            assert(b.children@ =~= a.children@.update(i as int, left).update(i + 1, right));
            assert(b.keys@ =~= a.keys@.update(i as int, first));
            Self::lemma_replace_pair(a, b, i as int);
            assert(b.children@[i as int] == left);
            assert(b.children@[i + 1] == right);
            assert(Self::rotated_left(a, b, i as int));
        }
    }

    /// Child `i + 1` is one key short: moves the separator `keys[i]` down
    /// into it and the largest key of the left sibling up in its place (with
    /// the sibling's last subtree), or merges the two when the sibling has no
    /// key to spare.
    fn pivot_right(&mut self, i: usize)
        requires
            Self::order_ok(),
            old(self).wf_except(i + 1),
            i + 1 < old(self).children@.len(),
            old(self).children@[i + 1].keys@.len() + 2 == D,
        ensures
            final(self).wf(),
            final(self).height() == old(self).height(),
            final(self).keys@.len() + 1 >= old(self).keys@.len(),
            forall|x: i64| #[trigger] final(self).has(x) == old(self).has(x),
            old(self).children@[i as int].keys@.len() < D ==> Self::merged_at(*old(self), *final(self), i as int),
            old(self).children@[i as int].keys@.len() >= D ==> Self::rotated_right(*old(self), *final(self), i as int),
    {
        if self.children[i].keys.len() < D {
            self.merge(i);
            return;
        }
        let ghost a = *self;
        let ghost l = a.children@[i as int];
        let ghost r = a.children@[i + 1];
        proof {
            assert(l.wf());
            assert(r.wf());
        }
        let mut right = self.children.remove(i + 1);
        let mut left = self.children.remove(i);
        let last = left.keys.pop().unwrap();
        let sep = self.keys[i];
        self.keys.set(i, last);
        let mut moved = Node::new();
        if !left.is_leaf() {
            let c = left.children.pop().unwrap();
            moved.children.push(c);
        }
        proof {
            let lk = l.keys@.len() as int;
            assert(l.keys@.contains(last)) by { assert(l.keys@[lk - 1] == last); }
            assert(l.has(last));
            if l.children@.len() > 0 {
                assert(l.children@[lk].wf());
                assert(moved.children@[0] == l.children@[lk]);
                assert(left.children@ =~= l.children@.subrange(0, lk));
                assert forall|x: i64| l.children@[lk].has(x) implies x < sep by {
                    assert(l.has(x));
                    assert(a.children@[i as int].has(x));
                }
            }
            assert(left.keys@ =~= l.keys@.subrange(0, lk - 1));
            Self::lemma_slice(l, 0, lk - 1, left);
            assert(l.children@.len() == 0 ==> l.height() == 0);
            Self::lemma_keyless(moved.children@, moved, l.height());
            assert forall|x: i64| r.has(x) implies sep < x by {
                assert(a.children@[i + 1].has(x));
            }
            assert forall|x: i64| #[trigger] l.has(x) && x > last implies moved.has(x) by {
                if l.keys@.contains(x) {
                    let j = choose|j: int| 0 <= j < l.keys@.len() && l.keys@[j] == x;
                    assert(l.keys@[j] <= l.keys@[lk - 1]);
                } else {
                    let j = choose|j: int| 0 <= j < l.children@.len() && (#[trigger] l.children@[j]).has(x);
                    assert(l.child_bounded(j, x));
                    if j < lk {
                        assert(l.keys@[j] <= l.keys@[lk - 1]);
                    }
                }
            }
            assert forall|x: i64| moved.has(x) implies l.has(x) && x > last by {
                assert(l.children@[lk].has(x));
                assert(l.child_bounded(lk, x));
            }
            assert forall|x: i64| moved.has(x) implies x < sep by {
                assert(l.has(x));
                assert(a.children@[i as int].has(x));
            }
        }
        let ghost k = moved;
        moved.keys.push(sep);
        moved.keys.append(&mut right.keys);
        moved.children.append(&mut right.children);
        proof {
            assert(moved.keys@ =~= k.keys@.push(sep) + r.keys@);
            assert(moved.children@ =~= k.children@ + r.children@);
            assert(moved.keys@ =~= seq![sep] + r.keys@);
            if l.children@.len() > 0 {
                assert(k.children@ =~= seq![l.children@.last()]);
                assert(moved.children@ =~= seq![l.children@.last()] + r.children@);
            } else {
                assert(moved.children@ =~= r.children@);
            }
            Self::lemma_merged(k, sep, r, moved);
        }
        self.children.insert(i, moved);
        self.children.insert(i, left);
        proof {
            let b = *self;
            assert(b.children@ =~= a.children@.update(i as int, left).update(i + 1, moved));
            assert(b.keys@ =~= a.keys@.update(i as int, last));
            Self::lemma_replace_pair(a, b, i as int);
            assert(b.children@[i as int] == left);
            assert(b.children@[i + 1] == moved);
            assert(left.keys@ =~= l.keys@.drop_last());
            if l.children@.len() > 0 {
                assert(left.children@ =~= l.children@.drop_last());
            }
            assert(Self::rotated_right(a, b, i as int));
        }
    }

    /// Restores the minimum occupancy of child `i` after a deletion below it,
    /// borrowing from the right sibling where there is one, else from the left.
    fn rebalance(&mut self, i: usize)
        requires
            Self::order_ok(),
            old(self).wf_except(i as int),
            i < old(self).children@.len(),
            old(self).keys@.len() >= 1,
        ensures
            final(self).wf(),
            final(self).height() == old(self).height(),
            final(self).keys@.len() + 1 >= old(self).keys@.len(),
            forall|x: i64| #[trigger] final(self).has(x) == old(self).has(x),
    {
        if self.children[i].keys.len() + 1 >= D {
            proof {
                self.lemma_wf_except(i as int);
            }
            return;
        }
        if i + 1 < self.children.len() {
            self.pivot_left(i);
        } else {
            self.pivot_right(i - 1);
        }
    }

    /// Child `i` of `a` was replaced by a subtree one key short at most,
    /// holding a subset of the old child's keys: `b` is well formed but for
    /// that child.
    proof fn lemma_after_child_delete(a: Self, b: Self, i: int)
        requires
            a.wf(),
            0 <= i < a.children@.len(),
            b.keys@ == a.keys@,
            b.children@ == a.children@.update(i, b.children@[i]),
            b.children@[i].wf(),
            b.children@[i].height() == a.children@[i].height(),
            b.children@[i].keys@.len() + 1 >= a.children@[i].keys@.len(),
            forall|x: i64| #[trigger] b.children@[i].has(x) ==> a.children@[i].has(x),
        ensures
            b.wf_except(i),
            b.height() == a.height(),
            forall|x: i64| a.child_bounded(i, x) ==> #[trigger] b.has(x) == b.children@[i].has(x),
            forall|x: i64| !a.child_bounded(i, x) ==> #[trigger] b.has(x) == a.has(x),
    {
        Self::lemma_replace_child(a, b, i);
        assert(b.height() == a.height()) by {
            assert(b.children@[0].height() == a.children@[0].height());
        }
        assert forall|j: int|
            0 <= j < b.children@.len() implies {
                &&& (#[trigger] b.children@[j]).wf()
                &&& (b.children@[j].keys@.len() + 1 >= D || (j == i
                    && b.children@[j].keys@.len() + 2 >= D))
                &&& b.children@[j].height() + 1 == b.height()
            } by {
            if j != i {
                assert(b.children@[j] == a.children@[j]);
            }
        }
        assert forall|j: int, x: i64|
            0 <= j < b.children@.len() && #[trigger] b.children@[j].has(x)
                implies b.child_bounded(j, x) by {
            if j != i {
                assert(b.children@[j] == a.children@[j]);
            }
        }
    }

    /// Removes and returns the largest key of the subtree rooted here.
    fn take_max(&mut self) -> (m: i64)
        requires
            Self::order_ok(),
            old(self).wf(),
            old(self).keys@.len() >= 1,
        ensures
            final(self).wf(),
            final(self).height() == old(self).height(),
            final(self).keys@.len() + 1 >= old(self).keys@.len(),
            old(self).has(m),
            forall|x: i64| old(self).has(x) ==> x <= m,
            forall|x: i64| #[trigger] final(self).has(x) == (old(self).has(x) && x != m),
        decreases old(self).height(),
    {
        let ghost a = *self;
        if self.is_leaf() {
            let m = self.keys.pop().unwrap();
            proof {
                let n = *self;
                let k = a.keys@.len() as int;
                assert(n.keys@ =~= a.keys@.subrange(0, k - 1));
                assert(a.keys@[k - 1] == m);
                Self::lemma_slice(a, 0, k - 1, n);
                assert(a.keys@.contains(m));
                assert forall|x: i64| a.has(x) implies x <= m by {
                    let j = choose|j: int| 0 <= j < a.keys@.len() && a.keys@[j] == x;
                    assert(a.keys@[j] <= a.keys@[k - 1]);
                }
            }
            return m;
        }
        let last = self.children.len() - 1;
        proof {
            assert(a.children@[last as int].wf());
        }
        let m = self.children[last].take_max();
        proof {
            let b = *self;
            let c = a.children@[last as int];
            Self::lemma_after_child_delete(a, b, last as int);
            assert(a.child_bounded(last as int, m));
            assert forall|x: i64| a.has(x) implies x <= m by {
                if !c.has(x) {
                    if a.keys@.contains(x) {
                        let j = choose|j: int| 0 <= j < a.keys@.len() && a.keys@[j] == x;
                        assert(a.keys@[j] <= a.keys@[last - 1]);
                    } else {
                        let j = choose|j: int| 0 <= j < a.children@.len() && (#[trigger] a.children@[j]).has(x);
                        assert(a.child_bounded(j, x));
                        assert(a.keys@[j] <= a.keys@[last - 1]);
                    }
                }
            }
            assert forall|x: i64| #[trigger] b.has(x) == (a.has(x) && x != m) by {
                if a.child_bounded(last as int, x) {
                    a.lemma_bounded_only_in_child(last as int, x);
                }
            }
            assert(a.has(m)) by {
                a.lemma_bounded_only_in_child(last as int, m);
            }
        }
        self.rebalance(last);
        m
    }

    /// Removes the key at `index` from this node and returns it; in an
    /// internal node the key is replaced by its in-order predecessor, the
    /// largest key of child `index`, and that child is then rebalanced.
    pub fn take_left_max(&mut self, index: usize) -> (r: Option<i64>)
        requires
            Self::order_ok(),
            old(self).wf(),
            index < old(self).key_count(),
        ensures
            r == Some(old(self).key_seq()[index as int]),
            final(self).wf(),
            final(self).height() == old(self).height(),
            final(self).key_count() + 1 >= old(self).key_count(),
            forall|x: i64| #[trigger] final(self).has(x) == (old(self).has(x) && x != old(self).key_seq()[index as int]),
    {
        let ghost a = *self;
        let ghost v = a.keys@[index as int];
        proof {
            assert(a.keys@.contains(v));
        }
        if self.is_leaf() {
            let k = self.keys.remove(index);
            proof {
                let n = *self;
                assert forall|x: i64| #[trigger] n.has(x) == (a.has(x) && x != v) by {
                    if n.has(x) {
                        let j = choose|j: int| 0 <= j < n.keys@.len() && n.keys@[j] == x;
                        if j < index {
                            assert(a.keys@[j] == x);
                        } else {
                            assert(a.keys@[j + 1] == x);
                        }
                    }
                    if a.has(x) && x != v {
                        let j = choose|j: int| 0 <= j < a.keys@.len() && a.keys@[j] == x;
                        if j < index {
                            assert(n.keys@[j] == x);
                        } else {
                            assert(n.keys@[j - 1] == x);
                        }
                    }
                }
            }
            return Some(k);
        }
        proof {
            assert(a.children@[index as int].wf());
        }
        let m = self.children[index].take_max();
        let ghost b = *self;
        let old_key = self.keys[index];
        self.keys.set(index, m);
        proof {
            let n = *self;
            let c = a.children@[index as int];
            Self::lemma_after_child_delete(a, b, index as int);
            assert(a.child_bounded(index as int, m));
            assert(n.keys@ == b.keys@.update(index as int, m));
            assert(n.children@ == b.children@);
            assert(n.height() == b.height());
            assert forall|x: i64| #[trigger] b.children@[index as int].has(x) implies x < m by {}
            assert(strictly_sorted(n.keys@)) by {
                assert forall|p: int, q: int| 0 <= p < q < n.keys@.len() implies n.keys@[p] < n.keys@[q] by {
                    if q == index {
                        assert(a.keys@[p] <= a.keys@[q - 1]);
                    } else if p == index {
                        assert(a.keys@[p] < a.keys@[q]);
                    }
                }
            }
            assert forall|j: int, x: i64|
                0 <= j < n.children@.len() && #[trigger] n.children@[j].has(x)
                    implies n.child_bounded(j, x) by {
                assert(b.child_bounded(j, x));
                if j == index + 1 {
                    assert(a.child_bounded(j, x));
                }
            }
            assert forall|x: i64| #[trigger] n.has(x) == (a.has(x) && x != v) by {
                if a.child_bounded(index as int, x) {
                    a.lemma_bounded_only_in_child(index as int, x);
                }
                if n.has(x) {
                    if n.keys@.contains(x) {
                        let j = choose|j: int| 0 <= j < n.keys@.len() && n.keys@[j] == x;
                        if j != index {
                            assert(b.keys@[j] == x);
                            assert(a.keys@[j] == x);
                            assert(a.keys@.contains(x));
                        } else {
                            a.lemma_bounded_only_in_child(index as int, m);
                        }
                    } else {
                        let j = choose|j: int| 0 <= j < n.children@.len() && (#[trigger] n.children@[j]).has(x);
                        assert(b.children@[j].has(x));
                        if j != index {
                            assert(a.children@[j] == b.children@[j]);
                            assert(a.has(x));
                            assert(a.child_bounded(j, x));
                        } else {
                            assert(a.children@[index as int].has(x));
                        }
                    }
                }
                if a.has(x) && x != v {
                    if x == m {
                        assert(n.keys@[index as int] == x);
                    } else if a.keys@.contains(x) {
                        let j = choose|j: int| 0 <= j < a.keys@.len() && a.keys@[j] == x;
                        assert(n.keys@[j] == x);
                    } else {
                        let j = choose|j: int| 0 <= j < a.children@.len() && (#[trigger] a.children@[j]).has(x);
                        if j == index {
                            assert(b.children@[j].has(x));
                        } else {
                            assert(b.children@[j] == a.children@[j]);
                        }
                        assert(n.children@[j].has(x));
                    }
                }
            }
        }
        self.rebalance(index);
        Some(old_key)
    }

    /// Whether `value` occurs in the subtree rooted here.
    pub(crate) fn contains(&self, value: &i64) -> (r: bool)
        requires
            self.wf(),
        ensures
            r == self.has(*value),
        decreases self.height(),
    {
        match self.find_key(value) {
            Ok(i) => {
                proof {
                    assert(self.keys@[i as int] == *value);
                }
                true
            },
            Err(i) => {
                proof {
                    assert forall|j: int| 0 <= j < i implies self.keys@[j] < *value by {
                        assert(self.key_seq()[j] < *value);
                    }
                    assert forall|j: int| i <= j < self.keys@.len() implies *value < self.keys@[j] by {
                        assert(*value < self.key_seq()[j]);
                    }
                }
                if self.is_leaf() {
                    false
                } else {
                    proof {
                        assert(self.children@[i as int].wf());
                        assert(self.child_bounded(i as int, *value));
                        self.lemma_bounded_only_in_child(i as int, *value);
                    }
                    self.children[i].contains(value)
                }
            },
        }
    }

    /// Deletes `value` from the subtree rooted here. The value is looked for
    /// first, and nothing is changed when it is absent; otherwise a key of
    /// this node is replaced by its predecessor, or the deletion goes down to
    /// the child whose interval holds `value`, which is rebalanced afterwards.
    pub fn delete_intermediate(&mut self, value: &i64) -> (r: Result<(), DeleteError>)
        requires
            Self::order_ok(),
            old(self).wf(),
            !old(self).is_leaf_spec() ==> old(self).key_count() >= 1,
        ensures
            final(self).wf(),
            final(self).height() == old(self).height(),
            final(self).key_count() + 1 >= old(self).key_count(),
            r is Ok <==> old(self).has(*value),
            r is Err ==> r == Err::<(), DeleteError>(DeleteError::NotFound),
            r is Err ==> *final(self) == *old(self),
            forall|x: i64| #[trigger] final(self).has(x) == (old(self).has(x) && x != *value),
    {
        if !self.contains(value) {
            return Err(DeleteError::NotFound);
        }
        self.remove_present(value);
        Ok(())
    }

    /// Deletes `value`, which occurs in the subtree rooted here.
    fn remove_present(&mut self, value: &i64)
        requires
            Self::order_ok(),
            old(self).wf(),
            !old(self).is_leaf_spec() ==> old(self).key_count() >= 1,
            old(self).has(*value),
        ensures
            final(self).wf(),
            final(self).height() == old(self).height(),
            final(self).key_count() + 1 >= old(self).key_count(),
            forall|x: i64| #[trigger] final(self).has(x) == (old(self).has(x) && x != *value),
        decreases old(self).height(),
    {
        let ghost a = *self;
        match self.find_key(value) {
            Ok(i) => {
                self.take_left_max(i);
            },
            Err(i) => {
                proof {
                    assert forall|j: int| 0 <= j < i implies a.keys@[j] < *value by {
                        assert(a.key_seq()[j] < *value);
                    }
                    assert forall|j: int| i <= j < a.keys@.len() implies *value < a.keys@[j] by {
                        assert(*value < a.key_seq()[j]);
                    }
                    assert(!a.keys@.contains(*value));
                    let j = choose|j: int| 0 <= j < a.children@.len() && (#[trigger] a.children@[j]).has(*value);
                    assert(a.children@[i as int].wf());
                    assert(a.child_bounded(i as int, *value));
                    a.lemma_bounded_only_in_child(i as int, *value);
                }
                self.children[i].remove_present(value);
                proof {
                    let b = *self;
                    Self::lemma_after_child_delete(a, b, i as int);
                    assert forall|x: i64| #[trigger] b.has(x) == (a.has(x) && x != *value) by {
                        if a.child_bounded(i as int, x) {
                            a.lemma_bounded_only_in_child(i as int, x);
                        }
                    }
                }
                self.rebalance(i);
            },
        }
    }

    /// Makes the full node `child` the only child of a new node and splits
    /// it: the tree grows by one level.
    pub(crate) fn grow(child: Self) -> (r: Self)
        requires
            Self::order_ok(),
            child.wf(),
            child.key_count() == 2 * D - 1,
        ensures
            r.wf(),
            r.key_count() == 1,
            r.height() == child.height() + 1,
            forall|x: i64| #[trigger] r.has(x) == child.has(x),
    {
        let mut r = Node::new();
        r.children.push(child);
        proof {
            assert(r.children@[0] == child);
            assert forall|x: i64| #[trigger] r.has(x) == child.has(x) by {
                if r.has(x) {
                    let j = choose|j: int| 0 <= j < r.children@.len() && (#[trigger] r.children@[j]).has(x);
                }
            }
        }
        r.split(0);
        r
    }

    /// An internal node left without keys is replaced by its only child:
    /// the tree shrinks by one level.
    pub(crate) fn collapse(&mut self)
        requires
            Self::order_ok(),
            old(self).wf(),
        ensures
            final(self).wf(),
            !final(self).is_leaf_spec() ==> final(self).key_count() >= 1,
            forall|x: i64| #[trigger] final(self).has(x) == old(self).has(x),
            final(self).height() <= old(self).height(),
            final(self).height() + 1 >= old(self).height(),
            old(self).is_leaf_spec() || old(self).key_count() >= 1 ==> *final(self) == *old(self),
    {
        if self.keys.len() == 0 && self.children.len() > 0 {
            let ghost a = *self;
            proof {
                assert(a.children@[0].wf());
                assert forall|x: i64| #[trigger] a.has(x) == a.children@[0].has(x) by {
                    if a.has(x) {
                        let j = choose|j: int| 0 <= j < a.children@.len() && (#[trigger] a.children@[j]).has(x);
                    }
                }
            }
            let only = self.children.pop().unwrap();
            *self = only;
        }
    }

    /// The keys held by this node itself, in ascending order.
    pub fn keys(&self) -> (r: &Vec<i64>)
        ensures
            r@ == self.key_seq(),
            r@.len() == self.key_count(),
    {
        &self.keys
    }

    /// The subtrees below this node, empty for a leaf.
    pub fn children(&self) -> (r: &Vec<Node<D>>)
        ensures
            r@ == self.child_seq(),
    {
        &self.children
    }

    /// Child `index`, for modification in place, or `None` past the last.
    pub fn get_mut_child(&mut self, index: usize) -> (r: Option<&mut Node<D>>)
        ensures
            index < old(self).child_seq().len() <==> r is Some,
            r is None ==> *final(self) == *old(self),
            r is Some ==> *r->0 == old(self).child_seq()[index as int],
            r is Some ==> final(self).key_seq() == old(self).key_seq()
                && final(self).child_seq() == old(self).child_seq().update(index as int, *final(r->0)),
    {
        if index < self.children.len() {
            Some(&mut self.children[index])
        } else {
            None
        }
    }

    /// `x` is key `i` or a later key of this node, or lies in a subtree
    /// right of key `i`: what an in-order walk standing at key `i` of this
    /// node has still to produce from it.
    pub closed spec fn rest_has(self, i: int, x: i64) -> bool {
        ||| exists|j: int| i <= j < self.keys@.len() && self.keys@[j] == x
        ||| exists|j: int| i < j < self.children@.len() && (#[trigger] self.children@[j]).has(x)
    }

    /// A walk that starts at key 0 after the first subtree has covered the
    /// whole node, and everything in that subtree comes first.
    pub proof fn lemma_rest_start(self)
        requires
            self.wf(),
        ensures
            forall|x: i64| #[trigger] self.has(x) == (self.rest_has(0, x) || (self.child_seq().len() > 0
                && self.child_seq()[0].has(x))),
            forall|x: i64, y: i64| self.child_seq().len() > 0 && #[trigger] self.child_seq()[0].has(x)
                && #[trigger] self.rest_has(0, y) ==> x < y,
            self.child_seq().len() > 0 ==> self.child_seq()[0].wf(),
            self.child_seq().len() > 0 ==> self.child_seq()[0].height() < self.height(),
    {
        assert forall|x: i64| #[trigger] self.has(x) == (self.rest_has(0, x) || (self.child_seq().len() > 0
            && self.child_seq()[0].has(x))) by {
            if self.has(x) && !self.keys@.contains(x) {
                let j = choose|j: int| 0 <= j < self.children@.len() && (#[trigger] self.children@[j]).has(x);
            }
            if self.rest_has(0, x) && !self.keys@.contains(x) {
                if exists|j: int| 0 <= j < self.keys@.len() && self.keys@[j] == x {
                    let j = choose|j: int| 0 <= j < self.keys@.len() && self.keys@[j] == x;
                    assert(self.keys@.contains(x));
                }
            }
            if self.keys@.contains(x) {
                let j = choose|j: int| 0 <= j < self.keys@.len() && self.keys@[j] == x;
            }
        }
        assert forall|x: i64, y: i64| self.child_seq().len() > 0 && #[trigger] self.child_seq()[0].has(x)
            && #[trigger] self.rest_has(0, y) implies x < y by {
            assert(self.child_bounded(0, x));
            if exists|j: int| 0 <= j < self.keys@.len() && self.keys@[j] == y {
                let j = choose|j: int| 0 <= j < self.keys@.len() && self.keys@[j] == y;
                assert(self.keys@[0] <= self.keys@[j]);
            } else {
                let j = choose|j: int| 0 < j < self.children@.len() && (#[trigger] self.children@[j]).has(y);
                assert(self.child_bounded(j, y));
                assert(self.keys@[0] <= self.keys@[j - 1]);
            }
        }
        if self.children@.len() > 0 {
            assert(self.children@[0].wf());
        }
    }

    /// Standing at key `i`, that key comes next; after it come the subtree
    /// right of it, then the walk from key `i + 1`.
    pub proof fn lemma_rest_step(self, i: int)
        requires
            self.wf(),
            0 <= i < self.key_count(),
        ensures
            self.rest_has(i, self.key_seq()[i]),
            forall|x: i64| #[trigger] self.rest_has(i, x) ==> self.key_seq()[i] <= x,
            forall|x: i64| #[trigger] self.rest_has(i, x) == (x == self.key_seq()[i] || self.rest_has(i + 1, x)
                || (self.child_seq().len() > 0 && self.child_seq()[i + 1].has(x))),
            forall|x: i64| self.child_seq().len() > 0 && #[trigger] self.child_seq()[i + 1].has(x)
                ==> self.key_seq()[i] < x,
            forall|x: i64, y: i64| self.child_seq().len() > 0 && #[trigger] self.child_seq()[i + 1].has(x)
                && #[trigger] self.rest_has(i + 1, y) ==> x < y,
            self.child_seq().len() > 0 ==> self.child_seq()[i + 1].wf(),
            self.child_seq().len() > 0 ==> self.child_seq().len() == self.key_count() + 1,
            forall|x: i64| #[trigger] self.rest_has(i + 1, x) ==> self.key_seq()[i] < x,
    {
        let k = self.keys@[i];
        assert forall|x: i64| #[trigger] self.rest_has(i + 1, x) implies k < x by {
            if exists|j: int| i + 1 <= j < self.keys@.len() && self.keys@[j] == x {
                let j = choose|j: int| i + 1 <= j < self.keys@.len() && self.keys@[j] == x;
            } else {
                let j = choose|j: int| i + 1 < j < self.children@.len() && (#[trigger] self.children@[j]).has(x);
                assert(self.child_bounded(j, x));
                assert(self.keys@[i] <= self.keys@[j - 1]);
            }
        }
        assert forall|x: i64| #[trigger] self.rest_has(i, x) implies k <= x by {
            if exists|j: int| i <= j < self.keys@.len() && self.keys@[j] == x {
                let j = choose|j: int| i <= j < self.keys@.len() && self.keys@[j] == x;
            } else {
                let j = choose|j: int| i < j < self.children@.len() && (#[trigger] self.children@[j]).has(x);
                assert(self.child_bounded(j, x));
                assert(self.keys@[i] <= self.keys@[j - 1]);
            }
        }
        assert forall|x: i64| #[trigger] self.rest_has(i, x) == (x == k || self.rest_has(i + 1, x)
            || (self.children@.len() > 0 && self.children@[i + 1].has(x))) by {
            if self.rest_has(i, x) {
                if exists|j: int| i <= j < self.keys@.len() && self.keys@[j] == x {
                    let j = choose|j: int| i <= j < self.keys@.len() && self.keys@[j] == x;
                    if j > i {
                        assert(self.rest_has(i + 1, x));
                    }
                } else {
                    let j = choose|j: int| i < j < self.children@.len() && (#[trigger] self.children@[j]).has(x);
                    if j > i + 1 {
                        assert(self.rest_has(i + 1, x));
                    }
                }
            }
            if x == k {
                assert(self.keys@[i] == x);
            }
            if self.children@.len() > 0 && self.children@[i + 1].has(x) {
                assert(self.rest_has(i, x));
            }
            if self.rest_has(i + 1, x) {
                if exists|j: int| i + 1 <= j < self.keys@.len() && self.keys@[j] == x {
                    let j = choose|j: int| i + 1 <= j < self.keys@.len() && self.keys@[j] == x;
                    assert(self.rest_has(i, x));
                } else {
                    let j = choose|j: int| i + 1 < j < self.children@.len() && (#[trigger] self.children@[j]).has(x);
                    assert(self.rest_has(i, x));
                }
            }
        }
        assert(self.keys@[i] == k);
        assert forall|x: i64| self.children@.len() > 0 && #[trigger] self.children@[i + 1].has(x)
            implies k < x by {
            assert(self.child_bounded(i + 1, x));
        }
        assert forall|x: i64, y: i64| self.children@.len() > 0 && #[trigger] self.children@[i + 1].has(x)
            && #[trigger] self.rest_has(i + 1, y) implies x < y by {
            assert(self.child_bounded(i + 1, x));
            if exists|j: int| i + 1 <= j < self.keys@.len() && self.keys@[j] == y {
                let j = choose|j: int| i + 1 <= j < self.keys@.len() && self.keys@[j] == y;
                assert(self.keys@[i + 1] <= self.keys@[j]);
            } else {
                let j = choose|j: int| i + 1 < j < self.children@.len() && (#[trigger] self.children@[j]).has(y);
                assert(self.child_bounded(j, y));
                assert(self.keys@[i + 1] <= self.keys@[j - 1]);
            }
        }
        if self.children@.len() > 0 {
            assert(self.children@[i + 1].wf());
        }
    }

    /// Past the last key nothing is left.
    pub proof fn lemma_rest_end(self, i: int)
        requires
            self.wf(),
            i >= self.key_count(),
        ensures
            forall|x: i64| !#[trigger] self.rest_has(i, x),
    {
    }
}

} // verus!
