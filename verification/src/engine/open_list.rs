//! Open list of the route search: a binary heap that hands out its least entry.

use vstd::multiset::Multiset;
use vstd::prelude::*;

verus! {

/// An entry: the estimated cost of a route over a node, and the node's number.
pub type OpenEntry = (u128, u32);

/// Entries are ordered by estimate, and between equal estimates by node.
pub open spec fn entry_le(a: OpenEntry, b: OpenEntry) -> bool {
    a.0 < b.0 || (a.0 == b.0 && a.1 <= b.1)
}

/// Whether `x` is the least entry of `m`.
pub open spec fn is_least(m: Multiset<OpenEntry>, x: OpenEntry) -> bool {
    m.contains(x) && forall|y: OpenEntry| #[trigger] m.contains(y) ==> entry_le(x, y)
}

/// The least entry of `m`.
pub open spec fn least(m: Multiset<OpenEntry>) -> OpenEntry {
    choose|x: OpenEntry| is_least(m, x)
}

fn entry_at_most(a: OpenEntry, b: OpenEntry) -> (r: bool)
    ensures
        r == entry_le(a, b),
{
    a.0 < b.0 || (a.0 == b.0 && a.1 <= b.1)
}

/// The place of a heap position's parent.
spec fn parent(i: int) -> int {
    (i - 1) / 2
}

/// Every position holds no less than its parent.
spec fn heap_ordered(heap: Seq<OpenEntry>) -> bool {
    forall|i: int| 1 <= i < heap.len() ==> entry_le(heap[parent(i)], #[trigger] heap[i])
}

/// A heap but for position `hole`, whose entry may be too small for its parent.
spec fn ordered_above(heap: Seq<OpenEntry>, hole: int) -> bool {
    &&& forall|i: int|
        1 <= i < heap.len() && i != hole ==> entry_le(heap[parent(i)], #[trigger] heap[i])
    &&& forall|i: int|
        1 <= i < heap.len() && parent(i) == hole && hole > 0 ==> entry_le(
            heap[parent(hole)],
            #[trigger] heap[i],
        )
}

/// A heap but for position `hole`, whose entry may be too large for its children.
spec fn ordered_below(heap: Seq<OpenEntry>, hole: int) -> bool {
    &&& forall|i: int|
        1 <= i < heap.len() && parent(i) != hole ==> entry_le(heap[parent(i)], #[trigger] heap[i])
    &&& forall|i: int|
        1 <= i < heap.len() && parent(i) == hole && hole > 0 ==> entry_le(
            heap[parent(hole)],
            #[trigger] heap[i],
        )
}

/// The root of a heap is its least entry.
proof fn lemma_root_least(heap: Seq<OpenEntry>, i: int)
    requires
        heap_ordered(heap),
        0 <= i < heap.len(),
    ensures
        entry_le(heap[0], heap[i]),
    decreases i,
{
    if i > 0 {
        lemma_root_least(heap, parent(i));
        assert(entry_le(heap[parent(i)], heap[i]));
    }
}

/// Writing one position of a sequence exchanges one item of its multiset.
proof fn lemma_update_multiset(s: Seq<OpenEntry>, i: int, x: OpenEntry)
    requires
        0 <= i < s.len(),
    ensures
        s.update(i, x).to_multiset() == s.to_multiset().remove(s[i]).insert(x),
        s.to_multiset().contains(s[i]),
{
    broadcast use vstd::seq_lib::group_to_multiset_ensures;

    assert(s.update(i, x) =~= s.remove(i).insert(i, x));
    vstd::seq_lib::to_multiset_remove(s, i);
    vstd::seq_lib::to_multiset_insert(s.remove(i), i, x);
    assert(s.contains(s[i]));
}

/// Exchanging two positions of a sequence keeps its multiset.
proof fn lemma_swap_multiset(s: Seq<OpenEntry>, i: int, j: int)
    requires
        0 <= i < s.len(),
        0 <= j < s.len(),
    ensures
        s.update(i, s[j]).update(j, s[i]).to_multiset() == s.to_multiset(),
{
    let t = s.update(i, s[j]);
    lemma_update_multiset(s, i, s[j]);
    lemma_update_multiset(t, j, s[i]);
    assert(t.update(j, s[i]).to_multiset() =~= s.to_multiset());
}

/// There is at most one least entry.
pub proof fn lemma_least_unique(m: Multiset<OpenEntry>, x: OpenEntry)
    requires
        is_least(m, x),
    ensures
        least(m) == x,
{
    let y = least(m);
    assert(is_least(m, y));
    assert(entry_le(x, y) && entry_le(y, x));
}

/// A binary heap of open entries.
pub struct OpenList {
    heap: Vec<OpenEntry>,
}

impl View for OpenList {
    type V = Multiset<OpenEntry>;

    closed spec fn view(&self) -> Multiset<OpenEntry> {
        self.heap@.to_multiset()
    }
}

impl OpenList {
    /// The entries lie in heap order.
    pub closed spec fn wf(self) -> bool {
        heap_ordered(self.heap@)
    }

    /// An empty list.
    pub fn new() -> (r: Self)
        ensures
            r.wf(),
            r@ == Multiset::<OpenEntry>::empty(),
    {
        let r = Self { heap: Vec::new() };
        proof {
            vstd::seq_lib::to_multiset_len(r.heap@);
            assert(r@ =~= Multiset::<OpenEntry>::empty());
        }
        r
    }

    /// Adds an entry.
    pub fn push(&mut self, entry: OpenEntry)
        requires
            old(self).wf(),
        ensures
            final(self).wf(),
            final(self)@ == old(self)@.insert(entry),
    {
        proof {
            vstd::seq_lib::to_multiset_build(self.heap@, entry);
        }
        let ghost before = self.heap@;
        self.heap.push(entry);
        let mut hole: usize = self.heap.len() - 1;
        proof {
            assert forall|i: int| 1 <= i < self.heap@.len() && i != hole implies entry_le(
                self.heap@[parent(i)],
                #[trigger] self.heap@[i],
            ) by {
                assert(self.heap@[i] == before[i]);
            }
        }
        while hole > 0 && !entry_at_most(self.heap[(hole - 1) / 2], self.heap[hole])
            invariant
                hole < self.heap@.len(),
                ordered_above(self.heap@, hole as int),
                self.heap@.to_multiset() == old(self)@.insert(entry),
            decreases hole,
        {
            let up: usize = (hole - 1) / 2;
            let ghost s = self.heap@;
            let low = self.heap[hole];
            let high = self.heap[up];
            self.heap.set(hole, high);
            self.heap.set(up, low);
            proof {
                let t = self.heap@;
                assert(t =~= s.update(hole as int, s[up as int]).update(up as int, s[hole as int]));
                lemma_swap_multiset(s, hole as int, up as int);
                assert forall|i: int| 1 <= i < t.len() && i != up implies entry_le(
                    t[parent(i)],
                    #[trigger] t[i],
                ) by {
                    assert(entry_le(s[parent(i)], s[i]) || i == hole);
                }
                assert forall|i: int|
                    1 <= i < t.len() && parent(i) == up && up > 0 implies entry_le(
                    t[parent(up as int)],
                    #[trigger] t[i],
                ) by {
                    assert(entry_le(s[parent(up as int)], s[up as int]));
                    if i != hole {
                        assert(entry_le(s[parent(i)], s[i]));
                    }
                }
            }
            hole = up;
        }
        proof {
            assert forall|i: int| 1 <= i < self.heap@.len() implies entry_le(
                self.heap@[parent(i)],
                #[trigger] self.heap@[i],
            ) by {}
        }
    }

    /// Takes out the least entry.
    pub fn pop(&mut self) -> (r: Option<OpenEntry>)
        requires
            old(self).wf(),
        ensures
            final(self).wf(),
            match r {
                Some(x) => {
                    &&& is_least(old(self)@, x)
                    &&& final(self)@ == old(self)@.remove(x)
                },
                None => {
                    &&& old(self)@ == Multiset::<OpenEntry>::empty()
                    &&& final(self)@ == old(self)@
                },
            },
    {
        broadcast use vstd::seq_lib::group_to_multiset_ensures;

        let n: usize = self.heap.len();
        if n == 0 {
            proof {
                vstd::seq_lib::to_multiset_len(self.heap@);
                assert(self@ =~= Multiset::<OpenEntry>::empty());
            }
            return None;
        }
        let ghost start = self.heap@;
        let top = self.heap[0];
        proof {
            assert forall|y: OpenEntry| #[trigger] self@.contains(y) implies entry_le(top, y) by {
                let i = start.index_of(y);
                lemma_root_least(start, i);
            }
            assert(start.contains(start[0]));
        }
        let last = self.heap[n - 1];
        self.heap.pop();
        if n == 1 {
            assert(self.heap@ =~= start.remove(0));
            return Some(top);
        }
        self.heap.set(0, last);
        let mut hole: usize = 0;
        proof {
            let t = self.heap@;
            let cut = start.drop_last();
            assert(start.remove(n - 1) =~= cut);
            vstd::seq_lib::to_multiset_remove(start, n - 1);
            assert(cut[0] == top);
            lemma_update_multiset(cut, 0, last);
            assert(t =~= cut.update(0, last));
            assert(start.to_multiset().contains(last)) by {
                assert(start.contains(start[n - 1]));
            }
            assert(t.to_multiset() =~= start.to_multiset().remove(top));
            assert forall|i: int| 1 <= i < t.len() && parent(i) != 0 implies entry_le(
                t[parent(i)],
                #[trigger] t[i],
            ) by {
                assert(entry_le(start[parent(i)], start[i]));
            }
        }
        let len: usize = n - 1;
        loop
            invariant
                hole < len,
                len == self.heap@.len(),
                ordered_below(self.heap@, hole as int),
                self.heap@.to_multiset() == old(self)@.remove(top),
            ensures
                heap_ordered(self.heap@),
                self.heap@.to_multiset() == old(self)@.remove(top),
            decreases len - hole,
        {
            let ghost s = self.heap@;
            if hole >= len / 2 {
                proof {
                    assert forall|i: int| 1 <= i < s.len() implies entry_le(
                        s[parent(i)],
                        #[trigger] s[i],
                    ) by {
                        assert(parent(i) != hole);
                    }
                }
                break;
            }
            let left: usize = 2 * hole + 1;
            let right: usize = left + 1;
            let small: usize = if right < len && !entry_at_most(
                self.heap[left],
                self.heap[right],
            ) {
                right
            } else {
                left
            };
            if entry_at_most(self.heap[hole], self.heap[small]) {
                proof {
                    assert forall|i: int| 1 <= i < s.len() implies entry_le(
                        s[parent(i)],
                        #[trigger] s[i],
                    ) by {
                        if parent(i) == hole {
                            assert(i == left || i == right);
                        }
                    }
                }
                break;
            }
            let high = self.heap[hole];
            let low = self.heap[small];
            self.heap.set(hole, low);
            self.heap.set(small, high);
            proof {
                let t = self.heap@;
                assert(t =~= s.update(hole as int, s[small as int]).update(
                    small as int,
                    s[hole as int],
                ));
                lemma_swap_multiset(s, hole as int, small as int);
                assert(parent(small as int) == hole);
                assert forall|i: int| 1 <= i < t.len() && parent(i) != small implies entry_le(
                    t[parent(i)],
                    #[trigger] t[i],
                ) by {
                    if parent(i) == hole {
                        assert(i == left || i == right);
                    } else if i == hole {
                        assert(entry_le(s[parent(hole as int)], s[small as int]));
                    } else {
                        assert(entry_le(s[parent(i)], s[i]));
                    }
                }
                assert forall|i: int| 1 <= i < t.len() && parent(i) == small implies entry_le(
                    t[parent(small as int)],
                    #[trigger] t[i],
                ) by {
                    assert(entry_le(s[parent(i)], s[i]));
                }
            }
            hole = small;
        }
        Some(top)
    }
}

} // verus!
