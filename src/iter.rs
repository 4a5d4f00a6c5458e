//! In-order iteration over a tree with an explicit stack of frames, each a
//! node and the index of the next key to produce from it.
use vstd::prelude::*;

use crate::node::Node;
use crate::tree::BTree;

verus! {

/// Walks the keys of a tree in ascending order, one at a time.
#[derive(Debug)]
pub struct BTreeIterator<'a, const D: usize> {
    stack: Vec<(usize, &'a Node<D>)>,
}

/// Frame `k` of `s` has `x` still to produce.
pub open spec fn frame_has<const D: usize>(s: Seq<(usize, &Node<D>)>, k: int, x: i64) -> bool {
    (*s[k].1).rest_has(s[k].0 as int, x)
}

impl<'a, const D: usize> BTreeIterator<'a, D> {
    /// Every frame holds a well-formed node, and each frame has only keys
    /// smaller than those of the frames below it.
    pub closed spec fn inv(self) -> bool {
        let s = self.stack@;
        &&& Node::<D>::order_ok()
        &&& forall|k: int| 0 <= k < s.len() ==> (*(#[trigger] s[k]).1).wf()
        &&& forall|a: int, b: int, x: i64, y: i64|
            0 <= a < b < s.len() && #[trigger] frame_has(s, b, x) && #[trigger] frame_has(s, a, y)
                ==> x < y
    }

    /// The keys not yet produced.
    pub closed spec fn remaining(self) -> Set<i64> {
        Set::new(|x: i64| exists|k: int| 0 <= k < self.stack@.len() && #[trigger] frame_has(self.stack@, k, x))
    }

    /// Starts a walk over `source`.
    pub fn new(source: &'a BTree<D>) -> (r: Self)
        requires
            source.wf(),
        ensures
            r.inv(),
            r.remaining() == source@,
    {
        let mut iter = BTreeIterator { stack: Vec::new() };
        let root = source.root();
        proof {
            source.lemma_root_wf();
        }
        iter.stacking(root);
        proof {
            assert(iter.remaining() =~= source@);
        }
        iter
    }

    /// Pushes `node` and the chain of its first children.
    fn stacking(&mut self, node: &'a Node<D>)
        requires
            old(self).inv(),
            node.wf(),
            forall|x: i64, y: i64| node.has(x) && old(self).remaining().contains(y) ==> x < y,
        ensures
            final(self).inv(),
            forall|x: i64| #[trigger] final(self).remaining().contains(x) == (old(self).remaining().contains(x)
                || node.has(x)),
        decreases node.height(),
    {
        let ghost s0 = self.stack@;
        proof {
            node.lemma_rest_start();
            assert forall|k: int, x: i64| 0 <= k < s0.len() && #[trigger] frame_has(s0, k, x)
                implies old(self).remaining().contains(x) by {}
        }
        self.stack.push((0, node));
        proof {
            let s = self.stack@;
            assert forall|k: int| 0 <= k < s.len() implies (*(#[trigger] s[k]).1).wf() by {
                if k < s0.len() {
                    assert(s[k] == s0[k]);
                }
            }
            assert forall|a: int, b: int, x: i64, y: i64|
                0 <= a < b < s.len() && #[trigger] frame_has(s, b, x) && #[trigger] frame_has(s, a, y)
                    implies x < y by {
                assert(s[a] == s0[a]);
                assert(frame_has(s0, a, y));
                if b < s0.len() {
                    assert(s[b] == s0[b]);
                    assert(frame_has(s0, b, x));
                } else {
                    assert(s[b] == (0usize, node));
                    assert(node.rest_has(0, x));
                    assert(node.has(x));
                    assert(old(self).remaining().contains(y));
                }
            }
            assert forall|x: i64| #[trigger] self.remaining().contains(x) == (old(self).remaining().contains(x)
                || node.rest_has(0, x)) by {
                if self.remaining().contains(x) {
                    let k = choose|k: int| 0 <= k < s.len() && #[trigger] frame_has(s, k, x);
                    if k < s0.len() {
                        assert(s[k] == s0[k]);
                        assert(frame_has(s0, k, x));
                    }
                }
                if old(self).remaining().contains(x) {
                    let k = choose|k: int| 0 <= k < s0.len() && #[trigger] frame_has(s0, k, x);
                    assert(s[k] == s0[k]);
                    assert(frame_has(s, k, x));
                }
                if node.rest_has(0, x) {
                    assert(frame_has(s, s.len() - 1, x));
                }
            }
        }
        let children = node.children();
        if children.len() > 0 {
            let ghost mid = *self;
            let first = &children[0];
            proof {
                assert forall|x: i64, y: i64| first.has(x) && mid.remaining().contains(y) implies x < y by {
                    assert(node.has(x));
                    if !old(self).remaining().contains(y) {
                        assert(node.rest_has(0, y));
                    }
                }
            }
            self.stacking(first);
        }
    }

    /// The next key in ascending order, or `None` once all have been produced.
    pub fn next(&mut self) -> (r: Option<i64>)
        requires
            old(self).inv(),
        ensures
            final(self).inv(),
            old(self).remaining().is_empty() <==> r is None,
            r is None ==> final(self).remaining() == old(self).remaining(),
            r is Some ==> {
                &&& old(self).remaining().contains(r->0)
                &&& forall|x: i64| old(self).remaining().contains(x) ==> r->0 <= x
                &&& final(self).remaining() == old(self).remaining().remove(r->0)
            },
    {
        loop
            invariant
                self.inv(),
                self.remaining() == old(self).remaining(),
            decreases self.stack@.len(),
        {
            let ghost s0 = self.stack@;
            match self.stack.pop() {
                None => {
                    proof {
                        assert(self.remaining() =~= Set::<i64>::empty());
                    }
                    return None;
                },
                Some((i, node)) => {
                    let ghost s1 = self.stack@;
                    proof {
                        assert(s1 =~= s0.drop_last());
                        assert(node.wf()) by {
                            assert(s0[s0.len() - 1] == (i, node));
                        }
                        assert forall|k: int| 0 <= k < s1.len() implies (*(#[trigger] s1[k]).1).wf() by {
                            assert(s1[k] == s0[k]);
                        }
                        assert forall|k: int, x: i64| 0 <= k < s1.len() implies #[trigger] frame_has(s1, k, x) == frame_has(s0, k, x) by {
                            assert(s1[k] == s0[k]);
                        }
                    }
                    let keys = node.keys();
                    if i < keys.len() {
                        let k = keys[i];
                        proof {
                            node.lemma_rest_step(i as int);
                            assert(frame_has(s0, s0.len() - 1, k));
                            assert forall|x: i64| old(self).remaining().contains(x) implies k <= x by {
                                let q = choose|q: int| 0 <= q < s0.len() && #[trigger] frame_has(s0, q, x);
                                if q < s0.len() - 1 {
                                    assert(frame_has(s0, s0.len() - 1, k));
                                }
                            }
                        }
                        self.stack.push((i + 1, node));
                        let ghost mid = *self;
                        proof {
                            let s = self.stack@;
                            assert forall|q: int| 0 <= q < s.len() implies (*(#[trigger] s[q]).1).wf() by {
                                if q < s1.len() {
                                    assert(s[q] == s1[q]);
                                }
                            }
                            assert forall|a: int, b: int, x: i64, y: i64|
                                0 <= a < b < s.len() && #[trigger] frame_has(s, b, x) && #[trigger] frame_has(s, a, y)
                                    implies x < y by {
                                assert(s[a] == s0[a]);
                                assert(frame_has(s0, a, y));
                                if b < s1.len() {
                                    assert(s[b] == s0[b]);
                                    assert(frame_has(s0, b, x));
                                } else {
                                    assert(s[b] == ((i + 1) as usize, node));
                                    assert(node.rest_has(i + 1, x));
                                    assert(node.rest_has(i as int, x));
                                    assert(s0[s0.len() - 1] == (i, node));
                                    assert(frame_has(s0, s0.len() - 1, x));
                                }
                            }
                            let last = s0.len() - 1;
                            assert(s0[last] == (i, node));
                            assert(s[s.len() - 1] == ((i + 1) as usize, node));
                            assert forall|x: i64| #[trigger] mid.remaining().contains(x) == (old(self).remaining().contains(x)
                                && x != k && !(node.child_seq().len() > 0 && node.child_seq()[i + 1].has(x))) by {
                                let in_child = node.child_seq().len() > 0 && node.child_seq()[i + 1].has(x);
                                if in_child {
                                    assert(node.rest_has(i as int, x));
                                    assert(frame_has(s0, last, x));
                                }
                                if mid.remaining().contains(x) {
                                    let q = choose|q: int| 0 <= q < s.len() && #[trigger] frame_has(s, q, x);
                                    if q < s1.len() {
                                        assert(s[q] == s0[q]);
                                        assert(frame_has(s0, q, x));
                                        assert(frame_has(s0, last, k));
                                    } else {
                                        assert(node.rest_has(i + 1, x));
                                        assert(node.rest_has(i as int, x));
                                        assert(frame_has(s0, last, x));
                                    }
                                }
                                if old(self).remaining().contains(x) && x != k && !in_child {
                                    let q = choose|q: int| 0 <= q < s0.len() && #[trigger] frame_has(s0, q, x);
                                    if q < s1.len() {
                                        assert(s[q] == s0[q]);
                                        assert(frame_has(s, q, x));
                                    } else {
                                        assert(node.rest_has(i as int, x));
                                        assert(node.rest_has(i + 1, x));
                                        assert(frame_has(s, s.len() - 1, x));
                                    }
                                }
                            }
                        }
                        let children = node.children();
                        if children.len() > 0 {
                            let next_child = &children[i + 1];
                            proof {
                                assert forall|x: i64, y: i64| next_child.has(x) && mid.remaining().contains(y) implies x < y by {
                                    assert(frame_has(s0, s0.len() - 1, x));
                                    let q = choose|q: int| 0 <= q < self.stack@.len() && #[trigger] frame_has(self.stack@, q, y);
                                    if q < s1.len() {
                                        assert(self.stack@[q] == s0[q]);
                                        assert(frame_has(s0, q, y));
                                    }
                                }
                            }
                            self.stacking(next_child);
                        }
                        proof {
                            assert forall|x: i64| #[trigger] self.remaining().contains(x) == old(self).remaining().remove(k).contains(x) by {
                                if node.child_seq().len() > 0 && node.child_seq()[i + 1].has(x) {
                                    assert(node.rest_has(i as int, x));
                                    assert(frame_has(s0, s0.len() - 1, x));
                                }
                            }
                            assert(self.remaining() =~= old(self).remaining().remove(k));
                        }
                        return Some(k);
                    }
                    proof {
                        node.lemma_rest_end(i as int);
                        assert(self.remaining() =~= old(self).remaining()) by {
                            assert forall|x: i64| old(self).remaining().contains(x) implies self.remaining().contains(x) by {
                                let q = choose|q: int| 0 <= q < s0.len() && #[trigger] frame_has(s0, q, x);
                                if q < s1.len() {
                                    assert(frame_has(s1, q, x));
                                } else {
                                    assert(frame_has(s0, s0.len() - 1, x));
                                }
                            }
                            assert forall|x: i64| self.remaining().contains(x) implies old(self).remaining().contains(x) by {
                                let q = choose|q: int| 0 <= q < s1.len() && #[trigger] frame_has(s1, q, x);
                                assert(frame_has(s0, q, x));
                            }
                        }
                    }
                },
            }
        }
    }
}

} // verus!
