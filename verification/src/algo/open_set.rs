//! The open set of the low-level search: a binary heap of nodes, smallest
//! `f` first and larger `h` first among equal `f`.

use vstd::multiset::Multiset;
use vstd::prelude::*;
use crate::algo::astar::AstarNode;

verus! {

/// A min-priority queue of search nodes.
pub struct OpenSet {
    heap: Vec<AstarNode>,
}

/// The position above `k` in the heap.
pub open spec fn above(k: int) -> int {
    (k - 1) / 2
}

/// No node of the heap goes before the node above it.
pub open spec fn heap_ordered(s: Seq<AstarNode>) -> bool {
    forall|k: int| 0 < k < s.len() ==> !(#[trigger] s[k]).precedes(s[above(k)])
}

/// The heap is ordered but for position `k`: the node there may go before
/// the one above it, while the nodes below it do not go before that one.
pub open spec fn ordered_but_above(s: Seq<AstarNode>, k: int) -> bool {
    &&& forall|j: int| 0 < j < s.len() && j != k ==> !(#[trigger] s[j]).precedes(s[above(j)])
    &&& forall|j: int|
        0 < j < s.len() && above(j) == k && k > 0 ==> !(#[trigger] s[j]).precedes(s[above(k)])
}

/// The heap is ordered but for position `k`: the nodes below it may go
/// before it, though not before the one above it.
pub open spec fn ordered_but_below(s: Seq<AstarNode>, k: int) -> bool {
    &&& forall|j: int| 0 < j < s.len() && above(j) != k ==> !(#[trigger] s[j]).precedes(s[above(j)])
    &&& forall|j: int|
        0 < j < s.len() && above(j) == k && k > 0 ==> !(#[trigger] s[j]).precedes(s[above(k)])
}

/// Nothing in an ordered heap goes before its first node.
proof fn lemma_top_first(s: Seq<AstarNode>, k: int)
    requires
        heap_ordered(s),
        0 <= k < s.len(),
    ensures
        !s[k].precedes(s[0]),
    decreases k,
{
    if k > 0 {
        lemma_top_first(s, above(k));
    }
}

/// Putting `v` in place of an entry takes the entry out of the multiset
/// and puts `v` in.
proof fn lemma_update_multiset(s: Seq<AstarNode>, i: int, v: AstarNode)
    requires
        0 <= i < s.len(),
    ensures
        s.update(i, v).to_multiset() =~= s.to_multiset().remove(s[i]).insert(v),
{
    broadcast use vstd::seq_lib::group_to_multiset_ensures;

    let t = s.update(i, v);
    assert(t.remove(i) =~= s.remove(i));
    assert(t.remove(i).to_multiset() == t.to_multiset().remove(t[i]));
    assert(s.remove(i).to_multiset() == s.to_multiset().remove(s[i]));
    assert(t.contains(t[i]));
    assert(t.to_multiset().count(v) > 0);
    assert(t.to_multiset() =~= t.to_multiset().remove(v).insert(v));
}

/// Exchanging two entries leaves the multiset as it was.
proof fn lemma_swap_multiset(s: Seq<AstarNode>, i: int, j: int)
    requires
        0 <= i < s.len(),
        0 <= j < s.len(),
    ensures
        s.update(i, s[j]).update(j, s[i]).to_multiset() =~= s.to_multiset(),
{
    broadcast use vstd::seq_lib::group_to_multiset_ensures;

    let t = s.update(i, s[j]);
    lemma_update_multiset(s, i, s[j]);
    lemma_update_multiset(t, j, s[i]);
    assert(s.contains(s[i]));
    assert(s.contains(s[j]));
    assert(s.to_multiset().count(s[i]) > 0);
    assert(s.to_multiset().count(s[j]) > 0);
}

impl View for OpenSet {
    type V = Multiset<AstarNode>;

    closed spec fn view(&self) -> Multiset<AstarNode> {
        self.heap@.to_multiset()
    }
}

impl OpenSet {
    /// The heap is in order.
    pub closed spec fn wf(&self) -> bool {
        heap_ordered(self.heap@)
    }

    /// An empty open set.
    pub fn new() -> (s: OpenSet)
        ensures
            s.wf(),
            s@ == Multiset::<AstarNode>::empty(),
    {
        broadcast use vstd::seq_lib::group_to_multiset_ensures;

        let s = OpenSet { heap: Vec::new() };
        assert(s@ =~= Multiset::<AstarNode>::empty()) by {
            assert(s.heap@.to_multiset().len() == 0);
        }
        s
    }

    /// The number of nodes in the set.
    pub fn len(&self) -> (r: usize)
        ensures
            r == self@.len(),
    {
        broadcast use vstd::seq_lib::group_to_multiset_ensures;

        self.heap.len()
    }

    /// Exchanges the nodes at two positions.
    fn swap(&mut self, i: usize, j: usize)
        requires
            i < old(self).heap.len(),
            j < old(self).heap.len(),
        ensures
            final(self).heap@ == old(self).heap@.update(i as int, old(self).heap@[j as int]).update(
                j as int,
                old(self).heap@[i as int],
            ),
            final(self)@ == old(self)@,
    {
        let a = self.heap[i];
        let b = self.heap[j];
        proof {
            lemma_swap_multiset(self.heap@, i as int, j as int);
        }
        self.heap.set(i, b);
        self.heap.set(j, a);
    }

    /// Adds a node.
    pub fn push(&mut self, node: AstarNode)
        requires
            old(self).wf(),
        ensures
            final(self).wf(),
            final(self)@ == old(self)@.insert(node),
    {
        broadcast use vstd::seq_lib::group_to_multiset_ensures;

        self.heap.push(node);
        assert(self@ =~= old(self)@.insert(node));
        let mut k: usize = self.heap.len() - 1;
        while k > 0 && self.heap[k].goes_before(&self.heap[(k - 1) / 2])
            invariant
                k < self.heap.len(),
                self@ == old(self)@.insert(node),
                ordered_but_above(self.heap@, k as int),
            decreases k,
        {
            let up = (k - 1) / 2;
            let ghost before = self.heap@;
            self.swap(k, up);
            proof {
                let after = self.heap@;
                assert forall|j: int| 0 < j < after.len() && j != up implies !(
                #[trigger] after[j]).precedes(after[above(j)]) by {
                    if j != k {
                        assert(!before[j].precedes(before[above(j)]));
                        if above(j) == k {
                            assert(!before[j].precedes(before[above(k as int)]));
                        }
                    }
                }
                assert forall|j: int|
                    0 < j < after.len() && above(j) == up && up > 0 implies !(
                #[trigger] after[j]).precedes(after[above(up as int)]) by {
                    assert(!before[up as int].precedes(before[above(up as int)]));
                    if j != k {
                        assert(!before[j].precedes(before[above(j)]));
                    }
                }
            }
            k = up;
        }
        proof {
            assert forall|j: int| 0 < j < self.heap@.len() implies !(
            #[trigger] self.heap@[j]).precedes(self.heap@[above(j)]) by {}
        }
    }

    /// Takes out a node that no node of the set goes before.
    pub fn pop(&mut self) -> (node: AstarNode)
        requires
            old(self).wf(),
            old(self)@.len() > 0,
        ensures
            final(self).wf(),
            old(self)@ == final(self)@.insert(node),
            forall|other: AstarNode| old(self)@.contains(other) ==> !other.precedes(node),
    {
        broadcast use vstd::seq_lib::group_to_multiset_ensures;

        let ghost full = self.heap@;
        let top = self.heap[0];
        proof {
            assert forall|other: AstarNode| self@.contains(other) implies !other.precedes(top) by {
                assert(full.contains(other));
                let k = choose|k: int| 0 <= k < full.len() && full[k] == other;
                lemma_top_first(full, k);
            }
        }
        let last = self.heap.len() - 1;
        self.swap(0, last);
        let ghost turned = self.heap@;
        let taken = self.heap.pop();
        proof {
            assert(self.heap@ =~= turned.remove(last as int));
            assert(turned.to_multiset().count(top) > 0) by {
                assert(turned.contains(turned[last as int]));
            }
            assert(old(self)@ =~= self@.insert(top));
            assert(ordered_but_below(self.heap@, 0)) by {
                assert forall|j: int| 0 < j < self.heap@.len() && above(j) != 0 implies !(
                #[trigger] self.heap@[j]).precedes(self.heap@[above(j)]) by {
                    assert(!full[j].precedes(full[above(j)]));
                }
            }
        }
        let n = self.heap.len();
        let mut k: usize = 0;
        let mut sifting = true;
        while sifting
            invariant
                n == self.heap.len(),
                k < n || n == 0,
                old(self)@ == self@.insert(top),
                sifting ==> ordered_but_below(self.heap@, k as int),
                !sifting ==> heap_ordered(self.heap@),
            decreases n - k, sifting as int,
        {
            if n >= 2 && k <= (n - 2) / 2 {
                let left = 2 * k + 1;
                let down = if left + 1 < n && self.heap[left + 1].goes_before(&self.heap[left]) {
                    left + 1
                } else {
                    left
                };
                if self.heap[down].goes_before(&self.heap[k]) {
                    let ghost before = self.heap@;
                    self.swap(k, down);
                    proof {
                        let after = self.heap@;
                        assert forall|j: int|
                            0 < j < after.len() && above(j) != down implies !(
                        #[trigger] after[j]).precedes(after[above(j)]) by {
                            if j == down {
                            } else if above(j) == k {
                                assert(j == left || j == left + 1);
                            } else if j == k {
                                assert(!before[down as int].precedes(before[above(k as int)]));
                            } else {
                                assert(!before[j].precedes(before[above(j)]));
                            }
                        }
                        assert forall|j: int|
                            0 < j < after.len() && above(j) == down && down > 0 implies !(
                        #[trigger] after[j]).precedes(after[above(down as int)]) by {
                            assert(!before[j].precedes(before[above(j)]));
                        }
                    }
                    k = down;
                } else {
                    proof {
                        assert forall|j: int| 0 < j < self.heap@.len() implies !(
                        #[trigger] self.heap@[j]).precedes(self.heap@[above(j)]) by {
                            if above(j) == k {
                                assert(j == left || j == left + 1);
                            }
                        }
                    }
                    sifting = false;
                }
            } else {
                proof {
                    assert forall|j: int| 0 < j < self.heap@.len() implies !(
                    #[trigger] self.heap@[j]).precedes(self.heap@[above(j)]) by {
                        assert(above(j) != k);
                    }
                }
                sifting = false;
            }
        }
        top
    }
}

} // verus!
