//! The search frontier: a queue that hands out its entry of least cost.

use crate::osm_graph::State;
use vstd::multiset::*;
use vstd::prelude::*;
use vstd::seq_lib::*;

verus! {

/// In a list laid out as a binary tree, no entry costs less than its parent.
pub open spec fn heap_ordered(items: Seq<State>) -> bool {
    forall|j: int|
        1 <= j < items.len() ==> items[(j - 1) / 2].distance <= (#[trigger] items[j]).distance
}

/// The same but for the entry at `hole`, which may cost less than its
/// parent; the children of `hole` cost no less than that parent.
spec fn ordered_but_up(items: Seq<State>, hole: int) -> bool {
    &&& forall|j: int|
        1 <= j < items.len() && j != hole ==> items[(j - 1) / 2].distance <= (
        #[trigger] items[j]).distance
    &&& forall|j: int|
        1 <= j < items.len() && (j - 1) / 2 == hole && hole > 0 ==> items[(hole - 1) / 2].distance
            <= (#[trigger] items[j]).distance
}

/// The same but for the children of the entry at `hole`, which may cost less
/// than it; they cost no less than the parent of `hole`.
spec fn ordered_but_down(items: Seq<State>, hole: int) -> bool {
    &&& forall|j: int|
        1 <= j < items.len() && (j - 1) / 2 != hole ==> items[(j - 1) / 2].distance <= (
        #[trigger] items[j]).distance
    &&& forall|j: int|
        1 <= j < items.len() && (j - 1) / 2 == hole && hole > 0 ==> items[(hole - 1) / 2].distance
            <= (#[trigger] items[j]).distance
}

/// In an ordered heap no entry costs less than the first.
proof fn lemma_first_is_least(items: Seq<State>, j: int)
    requires
        heap_ordered(items),
        0 <= j < items.len(),
    ensures
        items[0].distance <= items[j].distance,
    decreases j,
{
    if j > 0 {
        lemma_first_is_least(items, (j - 1) / 2);
    }
}

/// Swapping two entries of a list keeps its entries as a multiset.
proof fn lemma_swap_keeps_entries(items: Seq<State>, a: int, b: int)
    requires
        0 <= a < items.len(),
        0 <= b < items.len(),
    ensures
        items.update(a, items[b]).update(b, items[a]).to_multiset() == items.to_multiset(),
{
    broadcast use vstd::multiset::group_multiset_axioms;

    let first = items.update(a, items[b]);
    to_multiset_update(items, a, items[b]);
    to_multiset_update(first, b, items[a]);
    assert(items.to_multiset().count(items[a]) > 0) by {
        to_multiset_contains(items, items[a]);
        assert(items.contains(items[a]));
    }
    assert(first.to_multiset().count(first[b]) > 0) by {
        to_multiset_contains(first, first[b]);
        assert(first.contains(first[b]));
    }
    assert(items.update(a, items[b]).update(b, items[a]).to_multiset() =~= items.to_multiset());
}

/// A queue of search states that hands out a state of least cost first.
pub struct MinQueue {
    items: Vec<State>,
}

impl MinQueue {
    /// The states in the queue, each as often as it was put in and not yet
    /// taken out.
    pub closed spec fn entries(&self) -> Multiset<State> {
        self.items@.to_multiset()
    }

    /// The queue is in order inside.
    pub closed spec fn wf(&self) -> bool {
        heap_ordered(self.items@)
    }

    /// An empty queue.
    pub fn new() -> (queue: MinQueue)
        ensures
            queue.wf(),
            queue.entries() == Multiset::<State>::empty(),
    {
        broadcast use vstd::multiset::group_multiset_axioms;

        let queue = MinQueue { items: Vec::new() };
        assert(queue.items@.to_multiset() =~= Multiset::<State>::empty()) by {
            queue.items@.to_multiset_ensures();
            assert forall|x: State| queue.items@.to_multiset().count(x) == 0 by {
                to_multiset_contains(queue.items@, x);
            }
        }
        queue
    }

    /// The number of states in the queue.
    pub fn len(&self) -> (n: usize)
        ensures
            n == self.entries().len(),
    {
        proof {
            to_multiset_len(self.items@);
        }
        self.items.len()
    }

    /// Exchanges the entries at `a` and `b`.
    fn exchange(&mut self, a: usize, b: usize)
        requires
            a < old(self).items@.len(),
            b < old(self).items@.len(),
        ensures
            final(self).items@ == old(self).items@.update(
                a as int,
                old(self).items@[b as int],
            ).update(b as int, old(self).items@[a as int]),
            final(self).entries() == old(self).entries(),
    {
        let first = self.items[a];
        let second = self.items[b];
        self.items.set(a, second);
        self.items.set(b, first);
        proof {
            lemma_swap_keeps_entries(old(self).items@, a as int, b as int);
        }
    }

    /// Puts a state into the queue.
    pub fn push(&mut self, state: State)
        requires
            old(self).wf(),
        ensures
            final(self).wf(),
            final(self).entries() == old(self).entries().insert(state),
            final(self).entries().len() == old(self).entries().len() + 1,
    {
        self.items.push(state);
        proof {
            to_multiset_build(old(self).items@, state);
            to_multiset_len(old(self).items@);
            to_multiset_len(self.items@);
        }
        let mut i: usize = self.items.len() - 1;
        while i > 0
            invariant
                i < self.items@.len(),
                self.items@.len() == old(self).items@.len() + 1,
                self.entries() == old(self).entries().insert(state),
                ordered_but_up(self.items@, i as int),
            ensures
                heap_ordered(self.items@),
                self.items@.len() == old(self).items@.len() + 1,
                self.entries() == old(self).entries().insert(state),
            decreases i,
        {
            let parent: usize = (i - 1) / 2;
            if self.items[i].distance < self.items[parent].distance {
                let ghost before = self.items@;
                self.exchange(i, parent);
                proof {
                    let after = self.items@;
                    assert forall|j: int| 1 <= j < after.len() && j != parent implies after[(j
                        - 1) / 2].distance <= (#[trigger] after[j]).distance by {
                        if j == i {
                        } else if (j - 1) / 2 == i {
                            assert(before[(i - 1) / 2].distance <= before[j].distance);
                        } else if (j - 1) / 2 == parent {
                            assert(before[(j - 1) / 2].distance <= before[j].distance);
                        } else {
                            assert(before[(j - 1) / 2].distance <= before[j].distance);
                        }
                    }
                    assert forall|j: int|
                        1 <= j < after.len() && (j - 1) / 2 == parent && parent
                            > 0 implies after[(parent - 1) / 2].distance <= (
                    #[trigger] after[j]).distance by {
                        assert(before[(parent - 1) / 2].distance <= before[parent as int].distance);
                        if j != i {
                            assert(before[(j - 1) / 2].distance <= before[j].distance);
                        }
                    }
                }
                i = parent;
            } else {
                break ;
            }
        }
        proof {
            to_multiset_len(self.items@);
        }
    }

    /// Takes a state of least cost out of the queue: `None` from an empty
    /// queue.
    pub fn pop(&mut self) -> (least: Option<State>)
        requires
            old(self).wf(),
        ensures
            final(self).wf(),
            match least {
                Some(state) => {
                    &&& old(self).entries().count(state) > 0
                    &&& final(self).entries() == old(self).entries().remove(state)
                    &&& final(self).entries().len() + 1 == old(self).entries().len()
                    &&& forall|other: State|
                        old(self).entries().count(other) > 0 ==> state.distance <= other.distance
                },
                None => {
                    &&& old(self).entries().len() == 0
                    &&& final(self).entries() == old(self).entries()
                },
            },
    {
        broadcast use vstd::multiset::group_multiset_axioms;

        proof {
            to_multiset_len(self.items@);
        }
        if self.items.len() == 0 {
            return None;
        }
        let ghost before = self.items@;
        let top = self.items[0];
        proof {
            to_multiset_contains(before, top);
            assert(before.contains(top));
            assert forall|other: State| before.to_multiset().count(other) > 0 implies top.distance
                <= other.distance by {
                to_multiset_contains(before, other);
                let j = choose|j: int| 0 <= j < before.len() && before[j] == other;
                lemma_first_is_least(before, j);
            }
        }
        let last = match self.items.pop() {
            Some(state) => state,
            None => top,
        };
        proof {
            assert(self.items@ =~= before.remove(before.len() - 1));
            to_multiset_remove(before, before.len() - 1);
            assert(self.items@.to_multiset() == before.to_multiset().remove(
                before[before.len() - 1],
            ));
            assert(last == before[before.len() - 1]);
        }
        if self.items.len() == 0 {
            assert(before.len() == 1);
            assert(before[before.len() - 1] == top);
            proof {
                to_multiset_len(self.items@);
            }
            return Some(top);
        }
        let ghost shorter = self.items@;
        self.items.set(0, last);
        proof {
            to_multiset_update(shorter, 0, last);
            to_multiset_contains(shorter, shorter[0]);
            assert(shorter.contains(shorter[0]));
            to_multiset_contains(before, last);
            assert(before.contains(last));
            assert(shorter[0] == top);
            assert(self.items@.to_multiset() =~= before.to_multiset().remove(top));
            to_multiset_len(self.items@);
            assert(ordered_but_down(self.items@, 0)) by {
                assert forall|j: int|
                    1 <= j < self.items@.len() && (j - 1) / 2 != 0 implies self.items@[(j - 1)
                    / 2].distance <= (#[trigger] self.items@[j]).distance by {
                    assert(before[(j - 1) / 2].distance <= before[j].distance);
                }
            }
        }
        let n: usize = self.items.len();
        let mut i: usize = 0;
        while i < n / 2
            invariant
                n == self.items@.len(),
                n + 1 == old(self).items@.len(),
                i < n,
                self.entries() == old(self).entries().remove(top),
                ordered_but_down(self.items@, i as int),
            ensures
                heap_ordered(self.items@),
                self.items@.len() + 1 == old(self).items@.len(),
                self.entries() == old(self).entries().remove(top),
            decreases n - i,
        {
            let left: usize = 2 * i + 1;
            let right: usize = left + 1;
            let child: usize = if right < n && self.items[right].distance
                < self.items[left].distance {
                right
            } else {
                left
            };
            if self.items[child].distance < self.items[i].distance {
                let ghost was = self.items@;
                self.exchange(i, child);
                proof {
                    let now = self.items@;
                    assert forall|j: int|
                        1 <= j < now.len() && (j - 1) / 2 != child implies now[(j - 1)
                        / 2].distance <= (#[trigger] now[j]).distance by {
                        if j == i {
                            assert(was[(i - 1) / 2].distance <= was[child as int].distance);
                        } else if (j - 1) / 2 == i {
                            if j != child {
                                assert(j == left || j == right);
                            }
                        } else {
                            assert(was[(j - 1) / 2].distance <= was[j].distance);
                        }
                    }
                    assert forall|j: int|
                        1 <= j < now.len() && (j - 1) / 2 == child && child
                            > 0 implies now[(child - 1) / 2].distance <= (
                    #[trigger] now[j]).distance by {
                        assert(was[(j - 1) / 2].distance <= was[j].distance);
                    }
                }
                i = child;
            } else {
                proof {
                    assert forall|j: int| 1 <= j < self.items@.len() implies self.items@[(j - 1)
                        / 2].distance <= (#[trigger] self.items@[j]).distance by {
                        if (j - 1) / 2 == i {
                            assert(j == left || j == right);
                        }
                    }
                }
                break ;
            }
        }
        proof {
            to_multiset_len(self.items@);
        }
        Some(top)
    }
}

} // verus!
