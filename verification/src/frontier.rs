//! The priority frontier: the leaves that wait to be split, kept as a binary
//! max-heap so that the one to serve next is found in logarithmic time.

use crate::candidate::Candidate;
use vstd::multiset::Multiset;
use vstd::prelude::*;
use vstd::seq_lib::*;

verus! {

/// The candidates at the children of position `p`, if any, do not outrank
/// the one at `p`.
spec fn sound_at(s: Seq<Candidate>, p: int) -> bool {
    &&& 2 * p + 1 < s.len() ==> !s[2 * p + 1].outranks(s[p])
    &&& 2 * p + 2 < s.len() ==> !s[2 * p + 2].outranks(s[p])
}

/// As `sound_at`, but nothing is said of the child at position `skip`.
spec fn sound_but(s: Seq<Candidate>, p: int, skip: int) -> bool {
    &&& 2 * p + 1 < s.len() && 2 * p + 1 != skip ==> !s[2 * p + 1].outranks(s[p])
    &&& 2 * p + 2 < s.len() && 2 * p + 2 != skip ==> !s[2 * p + 2].outranks(s[p])
}

/// The heap order: no candidate is outranked by one of its children.
spec fn is_heap(s: Seq<Candidate>) -> bool {
    forall|p: int| 0 <= p < s.len() ==> #[trigger] sound_at(s, p)
}

/// `top` belongs to `m` and nothing in `m` outranks it.
pub open spec fn is_top(m: Multiset<Candidate>, top: Candidate) -> bool {
    &&& m.contains(top)
    &&& forall|c: Candidate| m.contains(c) ==> !(#[trigger] c.outranks(top))
}

/// While a candidate waits that is not small, no small one is served.
pub proof fn lemma_small_waits(m: Multiset<Candidate>, top: Candidate, other: Candidate)
    requires
        is_top(m, top),
        m.contains(other),
        !other.small,
    ensures
        !top.small,
{
    assert(!other.outranks(top));
}

/// In a heap the first candidate is outranked by none.
proof fn lemma_root_leads(s: Seq<Candidate>, i: int)
    requires
        is_heap(s),
        0 <= i < s.len(),
    ensures
        !s[i].outranks(s[0]),
    decreases i,
{
    if i > 0 {
        let p = (i - 1) / 2;
        lemma_root_leads(s, p);
        assert(sound_at(s, p));
        assert(i == 2 * p + 1 || i == 2 * p + 2);
    }
}

/// Exchanging two candidates leaves the multiset as it was.
proof fn lemma_swap_keeps(s: Seq<Candidate>, i: int, j: int)
    requires
        0 <= i < s.len(),
        0 <= j < s.len(),
    ensures
        s.update(i, s[j]).update(j, s[i]).to_multiset() == s.to_multiset(),
{
    broadcast use vstd::multiset::group_multiset_axioms;

    let m = s.to_multiset();
    let s1 = s.update(i, s[j]);
    to_multiset_update(s, i, s[j]);
    to_multiset_update(s1, j, s[i]);
    to_multiset_contains(s, s[i]);
    to_multiset_contains(s, s[j]);
    assert(s.contains(s[i]));
    assert(s.contains(s[j]));
    assert(s1[j] == s[j]);
    assert(m.insert(s[j]).remove(s[i]).insert(s[i]).remove(s[j]) =~= m);
}

/// Exchanges the candidates at `i` and `j`.
fn swap(heap: &mut Vec<Candidate>, i: usize, j: usize)
    requires
        i < old(heap)@.len(),
        j < old(heap)@.len(),
    ensures
        final(heap)@ == old(heap)@.update(i as int, old(heap)@[j as int]).update(
            j as int,
            old(heap)@[i as int],
        ),
        final(heap)@.to_multiset() == old(heap)@.to_multiset(),
{
    proof {
        lemma_swap_keeps(heap@, i as int, j as int);
    }
    let a = heap[i];
    let b = heap[j];
    heap[i] = b;
    heap[j] = a;
}

/// Moves the candidate at `start` up until its parent is not outranked.
fn sift_up(heap: &mut Vec<Candidate>, start: usize)
    requires
        start < old(heap)@.len(),
        forall|p: int| 0 <= p < old(heap)@.len() ==> #[trigger] sound_but(old(heap)@, p, start as int),
        2 * start + 1 >= old(heap)@.len(),
    ensures
        is_heap(final(heap)@),
        final(heap)@.to_multiset() == old(heap)@.to_multiset(),
        final(heap)@.len() == old(heap)@.len(),
{
    let mut i = start;
    loop
        invariant
            i < heap@.len(),
            heap@.len() == old(heap)@.len(),
            heap@.to_multiset() == old(heap)@.to_multiset(),
            forall|p: int| 0 <= p < heap@.len() ==> #[trigger] sound_but(heap@, p, i as int),
            sound_at(heap@, i as int),
            i > 0 ==> {
                &&& 2 * i + 1 < heap@.len() ==> !heap@[2 * i + 1].outranks(heap@[(i - 1) / 2])
                &&& 2 * i + 2 < heap@.len() ==> !heap@[2 * i + 2].outranks(heap@[(i - 1) / 2])
            },
        ensures
            is_heap(heap@),
            heap@.to_multiset() == old(heap)@.to_multiset(),
            heap@.len() == old(heap)@.len(),
        decreases i,
    {
        if i == 0 {
            proof {
                assert forall|p: int| 0 <= p < heap@.len() implies #[trigger] sound_at(heap@, p) by {
                    assert(sound_but(heap@, p, 0));
                }
            }
            break ;
        }
        let parent = (i - 1) / 2;
        if !heap[i].outranks(heap[parent]) {
            proof {
                assert forall|p: int| 0 <= p < heap@.len() implies #[trigger] sound_at(heap@, p) by {
                    assert(sound_but(heap@, p, i as int));
                }
            }
            break ;
        }
        let ghost before = heap@;
        swap(heap, i, parent);
        proof {
            let j = parent as int;
            assert(i == 2 * j + 1 || i == 2 * j + 2);
            assert(sound_but(before, j, i as int));
            assert(sound_at(before, i as int));
            assert forall|p: int| 0 <= p < heap@.len() implies #[trigger] sound_but(heap@, p, j) by {
                assert(sound_but(before, p, i as int));
            }
            assert(sound_at(heap@, j));
            if j > 0 {
                let g = (j - 1) / 2;
                assert(sound_but(before, g, i as int));
                assert(j == 2 * g + 1 || j == 2 * g + 2);
            }
        }
        i = parent;
    }
}

/// Moves the candidate at the root down until neither child outranks it.
fn sift_down(heap: &mut Vec<Candidate>)
    requires
        old(heap)@.len() > 0,
        forall|p: int| 0 < p < old(heap)@.len() ==> #[trigger] sound_at(old(heap)@, p),
    ensures
        is_heap(final(heap)@),
        final(heap)@.to_multiset() == old(heap)@.to_multiset(),
        final(heap)@.len() == old(heap)@.len(),
{
    let n = heap.len();
    let mut i: usize = 0;
    loop
        invariant
            n == heap@.len(),
            i < n,
            heap@.len() == old(heap)@.len(),
            heap@.to_multiset() == old(heap)@.to_multiset(),
            forall|p: int| 0 <= p < heap@.len() && p != i ==> #[trigger] sound_at(heap@, p),
            i > 0 ==> {
                &&& 2 * i + 1 < heap@.len() ==> !heap@[2 * i + 1].outranks(heap@[(i - 1) / 2])
                &&& 2 * i + 2 < heap@.len() ==> !heap@[2 * i + 2].outranks(heap@[(i - 1) / 2])
            },
        ensures
            is_heap(heap@),
            heap@.to_multiset() == old(heap)@.to_multiset(),
            heap@.len() == old(heap)@.len(),
        decreases n - i,
    {
        if i >= n / 2 {
            proof {
                assert(sound_at(heap@, i as int));
            }
            break ;
        }
        let left = 2 * i + 1;
        let right = left + 1;
        let child = if right < n && heap[right].outranks(heap[left]) {
            right
        } else {
            left
        };
        if !heap[child].outranks(heap[i]) {
            proof {
                assert(sound_at(heap@, i as int));
            }
            break ;
        }
        let ghost before = heap@;
        swap(heap, i, child);
        proof {
            let c = child as int;
            assert(sound_at(before, c));
            assert(sound_at(heap@, i as int));
            assert forall|p: int| 0 <= p < heap@.len() && p != c implies #[trigger] sound_at(
                heap@,
                p,
            ) by {
                if p != i {
                    assert(sound_at(before, p));
                }
            }
            assert((c - 1) / 2 == i);
        }
        i = child;
    }
}

/// The leaves that wait to be split.
pub struct Frontier {
    heap: Vec<Candidate>,
}

impl View for Frontier {
    type V = Multiset<Candidate>;

    /// The candidates that wait, each as often as it was pushed and not yet
    /// popped.
    closed spec fn view(&self) -> Multiset<Candidate> {
        self.heap@.to_multiset()
    }
}

impl Frontier {
    /// The candidates are stored in heap order.
    pub closed spec fn wf(&self) -> bool {
        is_heap(self.heap@)
    }

    /// A frontier in which nothing waits.
    pub fn new() -> (f: Frontier)
        ensures
            f.wf(),
            f@ == Multiset::<Candidate>::empty(),
    {
        let f = Frontier { heap: Vec::new() };
        assert(f.heap@.to_multiset() =~= Multiset::<Candidate>::empty()) by {
            to_multiset_len(f.heap@);
            vstd::multiset::lemma_multiset_empty_len(f.heap@.to_multiset());
        }
        f
    }

    /// How many candidates wait.
    pub fn len(&self) -> (n: usize)
        ensures
            n == self@.len(),
    {
        proof {
            to_multiset_len(self.heap@);
        }
        self.heap.len()
    }

    /// Lets `candidate` wait.
    pub fn push(&mut self, candidate: Candidate)
        requires
            old(self).wf(),
        ensures
            final(self).wf(),
            final(self)@ == old(self)@.insert(candidate),
    {
        let ghost before = self.heap@;
        self.heap.push(candidate);
        proof {
            to_multiset_build(before, candidate);
            let s = self.heap@;
            let last = s.len() - 1;
            assert forall|p: int| 0 <= p < s.len() implies #[trigger] sound_but(s, p, last) by {
                if p < before.len() {
                    assert(sound_at(before, p));
                }
            }
        }
        let last = self.heap.len() - 1;
        sift_up(&mut self.heap, last);
    }

    /// Takes out a candidate that none of the others outranks; `None` when
    /// nothing waits.
    pub fn pop(&mut self) -> (r: Option<Candidate>)
        requires
            old(self).wf(),
        ensures
            final(self).wf(),
            old(self)@.len() == 0 ==> r is None && final(self)@ == old(self)@,
            old(self)@.len() > 0 ==> r is Some && is_top(old(self)@, r.unwrap()) && final(self)@
                == old(self)@.remove(r.unwrap()),
    {
        let ghost before = self.heap@;
        proof {
            to_multiset_len(before);
        }
        let n = self.heap.len();
        if n == 0 {
            return None;
        }
        swap(&mut self.heap, 0, n - 1);
        let ghost swapped = self.heap@;
        let top = self.heap.pop().unwrap();
        proof {
            assert(top == before[0]);
            assert(self.heap@ =~= swapped.remove(n - 1));
            to_multiset_remove(swapped, n - 1);
            to_multiset_contains(before, top);
            assert(before.contains(top));
            assert forall|c: Candidate| before.to_multiset().contains(c) implies !(#[trigger] c.outranks(
                top,
            )) by {
                to_multiset_contains(before, c);
                let i = choose|i: int| 0 <= i < before.len() && before[i] == c;
                lemma_root_leads(before, i);
            }
            assert forall|p: int| 0 < p < self.heap@.len() implies #[trigger] sound_at(
                self.heap@,
                p,
            ) by {
                assert(sound_at(before, p));
            }
        }
        if self.heap.len() > 0 {
            sift_down(&mut self.heap);
        }
        Some(top)
    }
}

} // verus!
