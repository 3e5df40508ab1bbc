//! The priority queue of the task selector: a binary heap of the tasks that
//! are in the running, from which the task of the highest rank comes out
//! first.

use crate::tasks::{above, among, distinct, ranks_above, Pick};
use vstd::prelude::*;

verus! {

/// The index of the parent of the item at index `i`.
pub open spec fn parent(i: int) -> int {
    (i - 1) / 2
}

/// Whether the items stand in heap order: none ranks above its parent.
pub open spec fn heap_ordered(h: Seq<Pick>) -> bool {
    forall|j: int| 1 <= j < h.len() ==> !above(#[trigger] h[j], h[parent(j)])
}

/// Whether the items stand in heap order but for the item at index `i`,
/// which may rank above its parent, while its children do not.
pub open spec fn ordered_but_up(h: Seq<Pick>, i: int) -> bool {
    &&& forall|j: int| 1 <= j < h.len() && j != i ==> !above(#[trigger] h[j], h[parent(j)])
    &&& forall|j: int|
        1 <= j < h.len() && parent(j) == i && i >= 1 ==> !above(#[trigger] h[j], h[parent(i)])
}

/// Whether the items stand in heap order but for the children of the item
/// at index `i`, which may rank above it, while they do not rank above its
/// parent.
pub open spec fn ordered_but_down(h: Seq<Pick>, i: int) -> bool {
    &&& forall|j: int|
        1 <= j < h.len() && parent(j) != i ==> !above(#[trigger] h[j], h[parent(j)])
    &&& forall|j: int|
        1 <= j < h.len() && parent(j) == i && i >= 1 ==> !above(#[trigger] h[j], h[parent(i)])
}

/// `h` with the items at the indices `a` and `b` in each other's place.
pub open spec fn swapped(h: Seq<Pick>, a: int, b: int) -> Seq<Pick> {
    h.update(a, h[b]).update(b, h[a])
}

/// In a heap, no item ranks above the first.
pub proof fn lemma_heap_top(h: Seq<Pick>, i: int)
    requires
        heap_ordered(h),
        0 <= i < h.len(),
    ensures
        !above(h[i], h[0]),
    decreases i,
{
    if i > 0 {
        assert(!above(h[i], h[parent(i)]));
        lemma_heap_top(h, parent(i));
    }
}

/// Items that change places are the same items, and stay distinct.
pub proof fn lemma_swapped(h: Seq<Pick>, a: int, b: int)
    requires
        0 <= a < h.len(),
        0 <= b < h.len(),
    ensures
        swapped(h, a, b).len() == h.len(),
        forall|x: Pick| among(swapped(h, a, b), x) <==> among(h, x),
        distinct(h) ==> distinct(swapped(h, a, b)),
{
    let s = swapped(h, a, b);
    assert forall|x: Pick| among(s, x) <==> among(h, x) by {
        if among(s, x) {
            let i = choose|i: int| 0 <= i < s.len() && #[trigger] s[i] == x;
            if i == a {
                assert(h[b] == x);
            } else if i == b {
                assert(h[a] == x);
            } else {
                assert(h[i] == x);
            }
        }
        if among(h, x) {
            let i = choose|i: int| 0 <= i < h.len() && #[trigger] h[i] == x;
            if i == a {
                assert(s[b] == x);
            } else if i == b {
                assert(s[a] == x);
            } else {
                assert(s[i] == x);
            }
        }
    }
    if distinct(h) {
        assert forall|i: int, j: int| 0 <= i < j < s.len() implies (#[trigger] s[i]).pid != (
        #[trigger] s[j]).pid by {
            let oi = if i == a {
                b
            } else if i == b {
                a
            } else {
                i
            };
            let oj = if j == a {
                b
            } else if j == b {
                a
            } else {
                j
            };
            assert(s[i] == h[oi] && s[j] == h[oj]);
            if oi < oj {
                assert(h[oi].pid != h[oj].pid);
            } else {
                assert(h[oj].pid != h[oi].pid);
            }
        }
    }
}

/// The tasks that wait for their turn, in heap order.
pub struct PickHeap {
    items: Vec<Pick>,
}

impl PickHeap {
    /// The items as the heap holds them.
    pub closed spec fn view(&self) -> Seq<Pick> {
        self.items@
    }

    /// The items stand in heap order, and no two are the same task.
    pub open spec fn wf(&self) -> bool {
        heap_ordered(self@) && distinct(self@)
    }

    /// A queue that holds nothing.
    pub fn new() -> (h: Self)
        ensures
            h@.len() == 0,
            h.wf(),
    {
        PickHeap { items: Vec::new() }
    }

    /// The number of items.
    pub fn len(&self) -> (n: usize)
        ensures
            n == self@.len(),
    {
        self.items.len()
    }

    /// Lets the items at the indices `a` and `b` change places.
    fn swap(&mut self, a: usize, b: usize)
        requires
            a < old(self)@.len(),
            b < old(self)@.len(),
        ensures
            final(self)@ == swapped(old(self)@, a as int, b as int),
    {
        let x = self.items[a];
        let y = self.items[b];
        self.items.set(a, y);
        self.items.set(b, x);
        assert(self@ =~= swapped(old(self)@, a as int, b as int));
    }

    /// Takes a task in that the queue does not hold yet.
    pub fn push(&mut self, p: Pick)
        requires
            old(self).wf(),
            forall|i: int| 0 <= i < old(self)@.len() ==> (#[trigger] old(self)@[i]).pid != p.pid,
        ensures
            final(self).wf(),
            final(self)@.len() == old(self)@.len() + 1,
            forall|x: Pick| among(final(self)@, x) <==> among(old(self)@, x) || x == p,
    {
        let ghost before = self@;
        self.items.push(p);
        let ghost start = self@;
        proof {
            assert forall|x: Pick| among(start, x) <==> among(before, x) || x == p by {
                if among(start, x) {
                    let i = choose|i: int| 0 <= i < start.len() && #[trigger] start[i] == x;
                    if i < before.len() {
                        assert(before[i] == x);
                    }
                }
                if among(before, x) {
                    let i = choose|i: int| 0 <= i < before.len() && #[trigger] before[i] == x;
                    assert(start[i] == x);
                }
                if x == p {
                    assert(start[before.len() as int] == x);
                }
            }
            assert(distinct(start)) by {
                assert forall|i: int, j: int| 0 <= i < j < start.len() implies (
                #[trigger] start[i]).pid != (#[trigger] start[j]).pid by {
                    assert(start[i] == before[i]);
                    if j < before.len() {
                        assert(start[j] == before[j]);
                    }
                }
            }
            assert(ordered_but_up(start, start.len() - 1)) by {
                assert forall|j: int| 1 <= j < start.len() && j != start.len() - 1 implies !above(
                    #[trigger] start[j],
                    start[parent(j)],
                ) by {
                    assert(start[j] == before[j] && start[parent(j)] == before[parent(j)]);
                }
            }
        }
        let mut i: usize = self.items.len() - 1;
        while i > 0
            invariant
                i < self@.len(),
                self@.len() == start.len(),
                distinct(self@),
                forall|x: Pick| among(self@, x) <==> among(start, x),
                ordered_but_up(self@, i as int),
            ensures
                heap_ordered(self@),
            decreases i,
        {
            let up = (i - 1) / 2;
            if !ranks_above(&self.items[i], &self.items[up]) {
                proof {
                    let h = self@;
                    assert forall|j: int| 1 <= j < h.len() implies !above(
                        #[trigger] h[j],
                        h[parent(j)],
                    ) by {}
                }
                break;
            }
            let ghost now = self@;
            proof {
                lemma_swapped(now, i as int, up as int);
            }
            self.swap(i, up);
            proof {
                let next = self@;
                assert forall|j: int| 1 <= j < next.len() && j != up implies !above(
                    #[trigger] next[j],
                    next[parent(j)],
                ) by {
                    if j == i {
                    } else if parent(j) == i {
                        assert(!above(now[j], now[parent(i as int)]));
                    } else if parent(j) == up {
                        assert(!above(now[j], now[up as int]));
                    } else {
                        assert(!above(now[j], now[parent(j)]));
                    }
                }
                assert forall|j: int|
                    1 <= j < next.len() && parent(j) == up && up >= 1 implies !above(
                    #[trigger] next[j],
                    next[parent(up as int)],
                ) by {
                    assert(!above(now[up as int], now[parent(up as int)]));
                    if j != i {
                        assert(!above(now[j], now[up as int]));
                    }
                }
            }
            i = up;
        }
    }

    /// Where the item at index `i` stands in order with its children, or
    /// else the index of the child of the highest rank.
    fn largest(&self, i: usize) -> (c: usize)
        requires
            i < self@.len(),
        ensures
            c < self@.len(),
            c == i || parent(c as int) == i,
            forall|j: int|
                1 <= j < self@.len() && parent(j) == i ==> !above(
                    #[trigger] self@[j],
                    self@[c as int],
                ),
            c != i ==> above(self@[c as int], self@[i as int]),
    {
        let n = self.items.len();
        let mut c = i;
        if i < n / 2 {
            let l = 2 * i + 1;
            if l < n && ranks_above(&self.items[l], &self.items[c]) {
                c = l;
            }
            if l + 1 < n && ranks_above(&self.items[l + 1], &self.items[c]) {
                c = l + 1;
            }
        }
        assert forall|j: int| 1 <= j < self@.len() && parent(j) == i implies !above(
            #[trigger] self@[j],
            self@[c as int],
        ) by {
            assert(j == 2 * i + 1 || j == 2 * i + 2);
        }
        c
    }

    /// Takes out the task of the highest rank.
    pub fn pop(&mut self) -> (r: Option<Pick>)
        requires
            old(self).wf(),
        ensures
            final(self).wf(),
            match r {
                None => old(self)@.len() == 0 && final(self)@.len() == 0,
                Some(x) => {
                    &&& among(old(self)@, x)
                    &&& final(self)@.len() == old(self)@.len() - 1
                    &&& forall|y: Pick| among(old(self)@, y) ==> !above(y, x)
                    &&& forall|y: Pick| among(final(self)@, y) <==> among(old(self)@, y) && y != x
                },
            },
    {
        let ghost before = self@;
        if self.items.len() == 0 {
            return None;
        }
        let top = self.items[0];
        assert(among(before, top)) by {
            assert(before[0] == top);
        }
        proof {
            assert forall|y: Pick| among(before, y) implies !above(y, top) by {
                let i = choose|i: int| 0 <= i < before.len() && #[trigger] before[i] == y;
                lemma_heap_top(before, i);
            }
        }
        let last = match self.items.pop() {
            Some(last) => last,
            None => top,
        };
        if self.items.len() == 0 {
            assert forall|y: Pick| among(self@, y) <==> among(before, y) && y != top by {
                if among(before, y) {
                    let i = choose|i: int| 0 <= i < before.len() && #[trigger] before[i] == y;
                }
            }
            return Some(top);
        }
        self.items.set(0, last);
        let ghost start = self@;
        proof {
            let n = before.len() as int;
            assert(start.len() == n - 1);
            assert(start[0] == before[n - 1]);
            assert forall|i: int| 1 <= i < n - 1 implies start[i] == before[i] by {}
            assert forall|y: Pick| among(start, y) <==> among(before, y) && y != top by {
                if among(start, y) {
                    let i = choose|i: int| 0 <= i < start.len() && #[trigger] start[i] == y;
                    if i == 0 {
                        assert(before[n - 1] == y);
                        assert(before[0].pid != before[n - 1].pid);
                    } else {
                        assert(before[i] == y);
                        assert(before[0].pid != before[i].pid);
                    }
                }
                if among(before, y) && y != top {
                    let i = choose|i: int| 0 <= i < before.len() && #[trigger] before[i] == y;
                    if i == n - 1 {
                        assert(start[0] == y);
                    } else {
                        assert(start[i] == y);
                    }
                }
            }
            assert(distinct(start)) by {
                assert forall|i: int, j: int| 0 <= i < j < start.len() implies (
                #[trigger] start[i]).pid != (#[trigger] start[j]).pid by {
                    if i == 0 {
                        assert(start[j] == before[j]);
                        assert(before[j].pid != before[n - 1].pid);
                    } else {
                        assert(start[i] == before[i] && start[j] == before[j]);
                    }
                }
            }
            assert(ordered_but_down(start, 0)) by {
                assert forall|j: int| 1 <= j < start.len() && parent(j) != 0 implies !above(
                    #[trigger] start[j],
                    start[parent(j)],
                ) by {
                    assert(start[j] == before[j] && start[parent(j)] == before[parent(j)]);
                }
            }
        }
        let mut i: usize = 0;
        loop
            invariant_except_break
                i < self@.len(),
                ordered_but_down(self@, i as int),
            invariant
                self@.len() == start.len(),
                distinct(self@),
                forall|x: Pick| among(self@, x) <==> among(start, x),
                before == old(self)@,
                before.len() == start.len() + 1,
                among(before, top),
                forall|y: Pick| among(before, y) ==> !above(y, top),
                forall|y: Pick| among(start, y) <==> among(before, y) && y != top,
            ensures
                heap_ordered(self@),
            decreases self@.len() - i,
        {
            let c = self.largest(i);
            if c == i {
                proof {
                    let h = self@;
                    assert forall|j: int| 1 <= j < h.len() implies !above(
                        #[trigger] h[j],
                        h[parent(j)],
                    ) by {}
                }
                break;
            }
            let ghost now = self@;
            proof {
                lemma_swapped(now, i as int, c as int);
            }
            self.swap(i, c);
            proof {
                let next = self@;
                assert forall|j: int| 1 <= j < next.len() && parent(j) != c implies !above(
                    #[trigger] next[j],
                    next[parent(j)],
                ) by {
                    if j == c {
                    } else if parent(j) == i {
                        assert(!above(now[j], now[c as int]));
                    } else if j == i {
                        assert(!above(now[c as int], now[parent(i as int)]));
                    } else {
                        assert(!above(now[j], now[parent(j)]));
                    }
                }
                assert forall|j: int|
                    1 <= j < next.len() && parent(j) == c && c >= 1 implies !above(
                    #[trigger] next[j],
                    next[parent(c as int)],
                ) by {
                    assert(!above(now[j], now[c as int]));
                }
            }
            i = c;
        }
        Some(top)
    }
}

} // verus!
