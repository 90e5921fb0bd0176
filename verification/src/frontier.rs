//! The frontier of a best-first search: a priority queue that hands out
//! its entry of lowest score first, and that can be cut down to its best
//! entries when it has grown too large.

use vstd::prelude::*;
use vstd::multiset::Multiset;
use vstd::seq_lib::group_to_multiset_ensures;
use crate::seqs::{exchanged, lemma_exchange_keeps_entries};

verus! {

/// The index above `i` in the implicit binary tree.
pub open spec fn parent(i: int) -> int {
    (i - 1) / 2
}

/// No entry has a lower score than the entry above it.
pub open spec fn is_heap<T>(s: Seq<(i64, T)>) -> bool {
    forall|i: int| 1 <= i < s.len() ==> s[parent(i)].0 <= (#[trigger] s[i]).0
}

/// `s` is a heap but for the entry at `at`, which may be lower than the
/// entry above it.
pub open spec fn is_heap_but_above<T>(s: Seq<(i64, T)>, at: int) -> bool {
    &&& forall|i: int| 1 <= i < s.len() && i != at ==> s[parent(i)].0 <= (#[trigger] s[i]).0
    &&& forall|i: int|
        1 <= i < s.len() && parent(i) == at && at >= 1 ==> s[parent(at)].0 <= (#[trigger] s[i]).0
}

/// `s` is a heap but for the entry at `at`, which may be higher than the
/// entries below it.
pub open spec fn is_heap_but_below<T>(s: Seq<(i64, T)>, at: int) -> bool {
    &&& forall|i: int|
        1 <= i < s.len() && parent(i) != at ==> s[parent(i)].0 <= (#[trigger] s[i]).0
    &&& forall|i: int|
        1 <= i < s.len() && parent(i) == at && at >= 1 ==> s[parent(at)].0 <= (#[trigger] s[i]).0
}

/// The first entry of a heap has the lowest score.
pub proof fn lemma_root_is_least<T>(s: Seq<(i64, T)>, i: int)
    requires
        is_heap(s),
        0 <= i < s.len(),
    ensures
        s[0].0 <= s[i].0,
    decreases i,
{
    if i > 0 {
        lemma_root_is_least(s, parent(i));
    }
}

/// `<[T]>::swap` of the standard library: exchanges the elements at `i` and
/// `j` and leaves the others where they are. It panics on an index out of
/// bounds, which the precondition rules out.
#[verifier::external_body]
fn swap_entries<T>(entries: &mut Vec<T>, i: usize, j: usize)
    requires
        i < old(entries)@.len(),
        j < old(entries)@.len(),
    ensures
        final(entries)@ == exchanged(old(entries)@, i as int, j as int),
{
    entries.swap(i, j);
}

/// Moves the entry at `at` up until the entry above it is no higher.
fn sift_up<T>(entries: &mut Vec<(i64, T)>, at: usize)
    requires
        at < old(entries)@.len(),
        is_heap_but_above(old(entries)@, at as int),
    ensures
        is_heap(final(entries)@),
        final(entries)@.to_multiset() == old(entries)@.to_multiset(),
        final(entries)@.len() == old(entries)@.len(),
{
    let mut i = at;
    while i > 0 && entries[(i - 1) / 2].0 > entries[i].0
        invariant
            i < entries@.len(),
            is_heap_but_above(entries@, i as int),
            entries@.to_multiset() == old(entries)@.to_multiset(),
            entries@.len() == old(entries)@.len(),
        decreases i,
    {
        let up = (i - 1) / 2;
        proof {
            lemma_exchange_keeps_entries(entries@, up as int, i as int);
        }
        let ghost before = entries@;
        swap_entries(entries, up, i);
        proof {
            let now = entries@;
            assert forall|j: int| 1 <= j < now.len() && j != up implies now[parent(j)].0 <= (
            #[trigger] now[j]).0 by {
                if j == i {
                } else if parent(j) == up {
                    assert(before[parent(j)].0 <= before[j].0);
                } else if parent(j) == i {
                    assert(before[parent(i as int)].0 <= before[j].0);
                } else {
                    assert(before[parent(j)].0 <= before[j].0);
                }
            }
            assert forall|j: int|
                1 <= j < now.len() && parent(j) == up && up >= 1 implies now[parent(up as int)].0 <= (
            #[trigger] now[j]).0 by {
                assert(before[parent(up as int)].0 <= before[up as int].0);
                if j != i {
                    assert(before[parent(j)].0 <= before[j].0);
                }
            }
        }
        i = up;
    }
}

/// Moves the entry at `at` down until no entry below it is lower.
fn sift_down<T>(entries: &mut Vec<(i64, T)>, at: usize)
    requires
        at < old(entries)@.len(),
        is_heap_but_below(old(entries)@, at as int),
    ensures
        is_heap(final(entries)@),
        final(entries)@.to_multiset() == old(entries)@.to_multiset(),
        final(entries)@.len() == old(entries)@.len(),
{
    let len = entries.len();
    let mut i = at;
    let mut settled = false;
    while !settled
        invariant
            len == entries@.len(),
            i < len,
            !settled ==> is_heap_but_below(entries@, i as int),
            settled ==> is_heap(entries@),
            entries@.to_multiset() == old(entries)@.to_multiset(),
            entries@.len() == old(entries)@.len(),
        decreases 2 * (len - i) + if settled { 0int } else { 1int },
    {
        if len < 2 || i > (len - 2) / 2 {
            settled = true;
        } else {
            let left = 2 * i + 1;
            let right = left + 1;
            let down = if right < len && entries[right].0 < entries[left].0 {
                right
            } else {
                left
            };
            if entries[i].0 <= entries[down].0 {
                settled = true;
            } else {
                proof {
                    lemma_exchange_keeps_entries(entries@, i as int, down as int);
                }
                let ghost before = entries@;
                swap_entries(entries, i, down);
                proof {
                    let now = entries@;
                    assert forall|j: int|
                        1 <= j < now.len() && parent(j) != down implies now[parent(j)].0 <= (
                    #[trigger] now[j]).0 by {
                        if j == down {
                        } else if parent(j) == i {
                            assert(j == left || j == right);
                        } else if j == i {
                            assert(before[parent(i as int)].0 <= before[down as int].0);
                        } else {
                            assert(before[parent(j)].0 <= before[j].0);
                        }
                    }
                    assert forall|j: int|
                        1 <= j < now.len() && parent(j) == down && down >= 1 implies now[parent(
                            down as int,
                        )].0 <= (#[trigger] now[j]).0 by {
                        assert(before[parent(j)].0 <= before[j].0);
                    }
                }
                i = down;
            }
        }
    }
}

/// A priority queue of scored entries with a nominal capacity. The entry
/// of lowest score leaves first; among entries of equal score any may.
pub struct Frontier<T> {
    entries: Vec<(i64, T)>,
    capacity: usize,
}

impl<T> View for Frontier<T> {
    type V = Multiset<(i64, T)>;

    /// The entries, each a score and an item, without order.
    closed spec fn view(&self) -> Multiset<(i64, T)> {
        self.entries@.to_multiset()
    }
}

impl<T> Frontier<T> {
    /// The entries are kept as a binary heap.
    pub closed spec fn wf(&self) -> bool {
        is_heap(self.entries@)
    }

    /// The size at which the queue counts as full.
    pub closed spec fn spec_capacity(&self) -> usize {
        self.capacity
    }

    /// An empty queue that counts as full at `capacity` entries.
    pub fn new(capacity: usize) -> (r: Frontier<T>)
        ensures
            r.wf(),
            r@ == Multiset::<(i64, T)>::empty(),
            r.capacity() == capacity,
    {
        let r = Frontier { entries: Vec::new(), capacity };
        proof {
            assert(r.entries@.to_multiset() =~= Multiset::<(i64, T)>::empty()) by {
                broadcast use group_to_multiset_ensures;

                assert(r.entries@.to_multiset().len() == 0);
            }
        }
        r
    }

    /// The number of entries.
    pub fn len(&self) -> (r: usize)
        ensures
            r == self@.len(),
    {
        proof {
            broadcast use group_to_multiset_ensures;

        }
        self.entries.len()
    }

    /// The size at which the queue counts as full.
    #[verifier::when_used_as_spec(spec_capacity)]
    pub fn capacity(&self) -> (r: usize)
        ensures
            r == self.spec_capacity(),
    {
        self.capacity
    }

    /// Whether the queue has reached its capacity.
    pub fn is_full(&self) -> (r: bool)
        ensures
            r == (self@.len() >= self.capacity()),
    {
        self.len() >= self.capacity
    }

    /// Adds an entry.
    pub fn push(&mut self, score: i64, item: T)
        requires
            old(self).wf(),
        ensures
            final(self).wf(),
            final(self)@ == old(self)@.insert((score, item)),
            final(self).capacity() == old(self).capacity(),
    {
        let at = self.entries.len();
        self.entries.push((score, item));
        proof {
            broadcast use group_to_multiset_ensures;

            let now = self.entries@;
            let before = old(self).entries@;
            assert forall|i: int| 1 <= i < now.len() && i != at implies now[parent(i)].0 <= (
            #[trigger] now[i]).0 by {
                assert(before[parent(i)].0 <= before[i].0);
            }
        }
        sift_up(&mut self.entries, at);
    }

    /// Takes out an entry of lowest score; `None` when the queue is empty.
    pub fn pop(&mut self) -> (r: Option<(i64, T)>)
        requires
            old(self).wf(),
        ensures
            final(self).wf(),
            final(self).capacity() == old(self).capacity(),
            r is None <==> old(self)@.len() == 0,
            r is None ==> final(self)@ == old(self)@,
            r matches Some(e) ==> {
                &&& old(self)@.contains(e)
                &&& final(self)@ == old(self)@.remove(e)
                &&& forall|o: (i64, T)| #[trigger] old(self)@.contains(o) ==> e.0 <= o.0
            },
    {
        proof {
            broadcast use group_to_multiset_ensures;

        }
        if self.entries.len() == 0 {
            return None;
        }
        let ghost before = self.entries@;
        proof {
            assert forall|o: (i64, T)| #[trigger] before.to_multiset().contains(o) implies before[0].0
                <= o.0 by {
                assert(before.contains(o));
                let i = choose|i: int| 0 <= i < before.len() && before[i] == o;
                lemma_root_is_least(before, i);
            }
            assert(before.contains(before[0]));
        }
        let top = self.entries.swap_remove(0);
        proof {
            let moved = before.update(0, before.last());
            assert(self.entries@ =~= moved.remove(before.len() - 1));
            assert(before.contains(before.last()));
            assert(self.entries@.to_multiset() =~= before.to_multiset().remove(before[0]));
        }
        if self.entries.len() > 0 {
            proof {
                let now = self.entries@;
                assert forall|i: int| 1 <= i < now.len() && parent(i) != 0 implies now[parent(i)].0
                    <= (#[trigger] now[i]).0 by {
                    assert(before[parent(i)].0 <= before[i].0);
                }
            }
            sift_down(&mut self.entries, 0);
        }
        Some(top)
    }
}

/// Cuts a queue down to its best entries: the `keep` entries of lowest
/// score move into a fresh queue of the same capacity, and the others are
/// dropped. A queue of at most `keep` entries comes back whole.
pub fn shrink_heap<T>(heap: Frontier<T>, keep: usize) -> (r: Frontier<T>)
    requires
        heap.wf(),
    ensures
        r.wf(),
        r.capacity() == heap.capacity(),
        r@.subset_of(heap@),
        r@.len() == if keep <= heap@.len() {
            keep as nat
        } else {
            heap@.len()
        },
        forall|a: (i64, T), b: (i64, T)|
            #![trigger r@.contains(a), heap@.sub(r@).contains(b)]
            r@.contains(a) && heap@.sub(r@).contains(b) ==> a.0 <= b.0,
{
    let mut rest = heap;
    let mut best: Frontier<T> = Frontier::new(rest.capacity());
    let mut taken: usize = 0;
    while taken < keep && rest.len() > 0
        invariant
            rest.wf(),
            best.wf(),
            best.capacity() == heap.capacity(),
            best@.add(rest@) == heap@,
            best@.len() == taken,
            taken <= keep,
            forall|a: (i64, T), b: (i64, T)|
                #![trigger best@.contains(a), rest@.contains(b)]
                best@.contains(a) && rest@.contains(b) ==> a.0 <= b.0,
        decreases rest@.len(),
    {
        let ghost rest_before = rest@;
        let ghost best_before = best@;
        match rest.pop() {
            Some((score, item)) => {
                best.push(score, item);
                proof {
                    let e = (score, item);
                    assert(best@.add(rest@) =~= heap@);
                    assert forall|a: (i64, T), b: (i64, T)|
                        #![trigger best@.contains(a), rest@.contains(b)]
                        best@.contains(a) && rest@.contains(b) implies a.0 <= b.0 by {
                        assert(rest_before.contains(b));
                        if a != e {
                            assert(best_before.contains(a));
                        }
                    }
                }
                taken += 1;
            },
            None => {},
        }
    }
    proof {
        assert(heap@.sub(best@) =~= rest@);
    }
    best
}

} // verus!
