//! The priority queue that holds the head of each stream.

use crate::position::Positioned;
use vstd::multiset::Multiset;
use vstd::prelude::*;
use vstd::seq_lib::group_to_multiset_ensures;

verus! {

/// The composite key by which streams are sorted: chromosome rank, then
/// start, then stop.
#[derive(Clone, Copy, Debug, PartialEq, Eq, Structural)]
pub struct SortKey {
    pub rank: usize,
    pub start: u64,
    pub stop: u64,
}

impl SortKey {
    /// Lexicographic `<=` on `(rank, start, stop)`.
    pub open spec fn not_after(self, other: SortKey) -> bool {
        self.rank < other.rank || (self.rank == other.rank && (self.start < other.start || (
        self.start == other.start && self.stop <= other.stop)))
    }

    /// Decides [`SortKey::not_after`].
    pub fn is_not_after(&self, other: &SortKey) -> (r: bool)
        ensures
            r == self.not_after(*other),
    {
        if self.rank != other.rank {
            self.rank < other.rank
        } else if self.start != other.start {
            self.start < other.start
        } else {
            self.stop <= other.stop
        }
    }
}

/// The head of one stream: a value, the stream it came from, and the rank
/// of its chromosome.
pub struct HeapEntry<P> {
    pub position: P,
    /// 1 for the first of the other streams, 2 for the second, and so on.
    pub file_index: usize,
    pub rank: usize,
    /// How many values the stream had yielded before this one.
    pub ordinal: Ghost<nat>,
}

impl<P: Positioned> HeapEntry<P> {
    /// The first value of stream `file_index`, on a chromosome of rank
    /// `rank`.
    pub fn new(position: P, file_index: usize, rank: usize) -> (entry: Self)
        ensures
            entry.position == position,
            entry.file_index == file_index,
            entry.rank == rank,
            entry.ordinal@ == 0,
    {
        HeapEntry { position, file_index, rank, ordinal: Ghost(0) }
    }

    /// The key by which the entry is ordered.
    pub open spec fn key(&self) -> SortKey {
        SortKey {
            rank: self.rank,
            start: self.position.start_view(),
            stop: self.position.stop_view(),
        }
    }

    /// The order of entries: that of their keys. Entries with equal keys
    /// are equal in this order, whatever stream they come from.
    pub open spec fn precedes(&self, other: &Self) -> bool {
        self.key().not_after(other.key())
    }

    /// Which of two entries a queue lets go first: the one that precedes
    /// the other, and of two that are equal in order the one of the
    /// stream with the lower index. This settles what a queue does with
    /// ties; it is no part of the order of entries.
    pub open spec fn leaves_before(&self, other: &Self) -> bool {
        if self.key() == other.key() {
            self.file_index <= other.file_index
        } else {
            self.key().not_after(other.key())
        }
    }

    /// Reads the key off the value.
    pub fn sort_key(&self) -> (key: SortKey)
        ensures
            key == self.key(),
    {
        SortKey { rank: self.rank, start: self.position.start(), stop: self.position.stop() }
    }

    /// Decides [`HeapEntry::precedes`].
    pub fn comes_before(&self, other: &Self) -> (r: bool)
        ensures
            r == self.precedes(other),
    {
        let mine = self.sort_key();
        let theirs = other.sort_key();
        mine.is_not_after(&theirs)
    }

    /// Decides [`HeapEntry::leaves_before`].
    pub fn goes_first(&self, other: &Self) -> (r: bool)
        ensures
            r == self.leaves_before(other),
    {
        let mine = self.sort_key();
        let theirs = other.sort_key();
        if mine == theirs {
            self.file_index <= other.file_index
        } else {
            mine.is_not_after(&theirs)
        }
    }
}

/// The order of entries is total and transitive, and two entries are
/// equal in it exactly when their keys are equal.
pub proof fn lemma_entry_order<P: Positioned>(a: HeapEntry<P>, b: HeapEntry<P>, c: HeapEntry<P>)
    ensures
        a.precedes(&b) || b.precedes(&a),
        a.precedes(&b) && b.precedes(&c) ==> a.precedes(&c),
        a.precedes(&b) && b.precedes(&a) <==> a.key() == b.key(),
{
}

/// What leaves a queue first precedes what leaves it later, and among
/// entries of different streams exactly one of two leaves first.
pub proof fn lemma_leaving_order<P: Positioned>(a: HeapEntry<P>, b: HeapEntry<P>)
    ensures
        a.leaves_before(&b) ==> a.precedes(&b),
        a.leaves_before(&b) || b.leaves_before(&a),
        a.leaves_before(&b) && b.leaves_before(&a) ==> a.key() == b.key() && a.file_index
            == b.file_index,
{
}

/// `e` is among `heads` and is the one that leaves first.
pub open spec fn is_first_of<P: Positioned>(heads: Multiset<HeapEntry<P>>, e: HeapEntry<P>) -> bool {
    &&& heads.count(e) > 0
    &&& forall|x: HeapEntry<P>| heads.count(x) > 0 ==> #[trigger] e.leaves_before(&x)
}

/// Entry `j` is not before its parent in the implicit binary tree.
spec fn link<P: Positioned>(s: Seq<HeapEntry<P>>, j: int) -> bool {
    s[(j - 1) / 2].leaves_before(&s[j])
}

/// Every entry but the root is linked to its parent.
spec fn heap_ordered<P: Positioned>(s: Seq<HeapEntry<P>>) -> bool {
    forall|j: int| 0 < j < s.len() ==> #[trigger] link(s, j)
}

/// Entry `j` is not before the parent of entry `i`.
spec fn skip_link<P: Positioned>(s: Seq<HeapEntry<P>>, i: int, j: int) -> bool {
    s[(i - 1) / 2].leaves_before(&s[j])
}

/// The tree is ordered except that entry `i` may be before its parent.
spec fn ordered_but_above<P: Positioned>(s: Seq<HeapEntry<P>>, i: int) -> bool {
    &&& forall|j: int| 0 < j < s.len() && j != i ==> #[trigger] link(s, j)
    &&& forall|j: int| 0 < j < s.len() && (j - 1) / 2 == i && i > 0 ==> #[trigger] skip_link(s, i, j)
}

/// The tree is ordered except that entry `i` may be after its children.
spec fn ordered_but_below<P: Positioned>(s: Seq<HeapEntry<P>>, i: int) -> bool {
    &&& forall|j: int| 0 < j < s.len() && (j - 1) / 2 != i ==> #[trigger] link(s, j)
    &&& forall|j: int| 0 < j < s.len() && (j - 1) / 2 == i && i > 0 ==> #[trigger] skip_link(s, i, j)
}

proof fn lemma_root_first<P: Positioned>(s: Seq<HeapEntry<P>>, i: int)
    requires
        heap_ordered(s),
        0 <= i < s.len(),
    ensures
        s[0].leaves_before(&s[i]),
    decreases i,
{
    if i > 0 {
        assert(link(s, i));
        lemma_root_first(s, (i - 1) / 2);
    }
}

proof fn lemma_swap_keeps_contents<A>(s: Seq<A>, i: int, j: int)
    requires
        0 <= i < s.len(),
        0 <= j < s.len(),
    ensures
        s.update(i, s[j]).update(j, s[i]).to_multiset() == s.to_multiset(),
{
    broadcast use group_to_multiset_ensures;

    let t = s.update(i, s[j]);
    assert(t.to_multiset() == s.to_multiset().insert(s[j]).remove(s[i]));
    assert(t.update(j, s[i]).to_multiset() == t.to_multiset().insert(s[i]).remove(t[j]));
    assert(s.to_multiset().count(s[i]) > 0) by {
        assert(s.contains(s[i]));
    }
    assert(s.to_multiset().count(s[j]) > 0) by {
        assert(s.contains(s[j]));
    }
    assert(t.update(j, s[i]).to_multiset() =~= s.to_multiset());
}

/// Exchanges two elements of a vector. Calls `slice::swap` of std, which
/// does exactly that and panics only on an index out of bounds.
#[verifier::external_body]
fn swap_entries<T>(v: &mut Vec<T>, i: usize, j: usize)
    requires
        i < old(v)@.len(),
        j < old(v)@.len(),
    ensures
        final(v)@ == old(v)@.update(i as int, old(v)@[j as int]).update(j as int, old(v)@[i as int]),
{
    v.swap(i, j);
}

/// A binary min-heap of stream heads, smallest entry on top.
pub struct MinHeap<P: Positioned> {
    entries: Vec<HeapEntry<P>>,
}

impl<P: Positioned> View for MinHeap<P> {
    type V = Multiset<HeapEntry<P>>;

    closed spec fn view(&self) -> Multiset<HeapEntry<P>> {
        self.entries@.to_multiset()
    }
}

impl<P: Positioned> MinHeap<P> {
    /// The entries are laid out as a binary tree in which no entry is
    /// before its parent.
    pub closed spec fn wf(&self) -> bool {
        heap_ordered(self.entries@)
    }

    /// `e` is in the queue and no entry of the queue is before it.
    pub open spec fn is_first(&self, e: HeapEntry<P>) -> bool {
        is_first_of(self@, e)
    }

    /// An empty queue.
    pub fn new() -> (heap: Self)
        ensures
            heap.wf(),
            heap@ == Multiset::<HeapEntry<P>>::empty(),
    {
        let heap = MinHeap { entries: Vec::new() };
        proof {
            broadcast use group_to_multiset_ensures;

            assert(heap.entries@.to_multiset() =~= Multiset::<HeapEntry<P>>::empty());
        }
        heap
    }

    /// The number of entries.
    pub fn len(&self) -> (n: usize)
        ensures
            n == self@.len(),
    {
        proof {
            broadcast use group_to_multiset_ensures;

        }
        self.entries.len()
    }

    /// The first entry, which stays in the queue.
    pub fn peek(&self) -> (top: Option<&HeapEntry<P>>)
        requires
            self.wf(),
        ensures
            self@.len() == 0 <==> top is None,
            top matches Some(e) ==> self.is_first(*e),
    {
        proof {
            broadcast use group_to_multiset_ensures;

        }
        if self.entries.len() == 0 {
            None
        } else {
            let e = &self.entries[0];
            proof {
                let s = self.entries@;
                assert(s.contains(s[0]));
                assert forall|x: HeapEntry<P>| self@.contains(x) implies #[trigger] e.leaves_before(
                    &x,
                ) by {
                    assert(s.contains(x));
                    let i = choose|i: int| 0 <= i < s.len() && s[i] == x;
                    lemma_root_first(s, i);
                }
            }
            Some(e)
        }
    }

    /// Adds an entry.
    pub fn push(&mut self, entry: HeapEntry<P>)
        requires
            old(self).wf(),
        ensures
            final(self).wf(),
            final(self)@ == old(self)@.insert(entry),
            final(self)@.len() == old(self)@.len() + 1,
    {
        proof {
            broadcast use group_to_multiset_ensures;

        }
        self.entries.push(entry);
        let mut i: usize = self.entries.len() - 1;
        let ghost pushed = self.entries@;
        assert(ordered_but_above(pushed, i as int)) by {
            assert forall|j: int| 0 < j < pushed.len() && j != i implies #[trigger] link(
                pushed,
                j,
            ) by {
                assert(link(old(self).entries@, j));
            }
        }
        while i > 0
            invariant
                i < self.entries@.len(),
                self.entries@.len() == pushed.len(),
                self.entries@.to_multiset() == pushed.to_multiset(),
                ordered_but_above(self.entries@, i as int),
            ensures
                heap_ordered(self.entries@),
                self.entries@.to_multiset() == pushed.to_multiset(),
            decreases i,
        {
            let parent: usize = (i - 1) / 2;
            let ghost before = self.entries@;
            if self.entries[parent].goes_first(&self.entries[i]) {
                assert(heap_ordered(before)) by {
                    assert forall|j: int| 0 < j < before.len() implies #[trigger] link(
                        before,
                        j,
                    ) by {
                        if j != i {
                            assert(link(before, j));
                        }
                    }
                }
                break ;
            }
            swap_entries(&mut self.entries, parent, i);
            proof {
                let after = self.entries@;
                lemma_swap_keeps_contents(before, parent as int, i as int);
                assert forall|j: int| 0 < j < after.len() && j != parent implies #[trigger] link(
                    after,
                    j,
                ) by {
                    if j == i {
                    } else if (j - 1) / 2 == i as int {
                        assert(skip_link(before, i as int, j));
                    } else if (j - 1) / 2 == parent as int {
                        assert(link(before, j));
                    } else {
                        assert(link(before, j));
                    }
                }
                assert forall|j: int|
                    0 < j < after.len() && (j - 1) / 2 == parent as int
                        && parent > 0 implies #[trigger] skip_link(after, parent as int, j) by {
                    assert(link(before, parent as int));
                    if j != i {
                        assert(link(before, j));
                    }
                }
            }
            i = parent;
        }
        assert(heap_ordered(self.entries@)) by {
            if i == 0 {
                assert forall|j: int| 0 < j < self.entries@.len() implies #[trigger] link(
                    self.entries@,
                    j,
                ) by {
                    assert(j != i);
                }
            }
        }
    }

    /// Removes the first entry.
    pub fn pop(&mut self) -> (top: Option<HeapEntry<P>>)
        requires
            old(self).wf(),
        ensures
            final(self).wf(),
            old(self)@.len() == 0 <==> top is None,
            top is None ==> final(self)@ == old(self)@,
            top matches Some(e) ==> old(self).is_first(e) && final(self)@ == old(self)@.remove(e)
                && final(self)@.len() == old(self)@.len() - 1,
    {
        proof {
            broadcast use group_to_multiset_ensures;

        }
        let n: usize = self.entries.len();
        if n == 0 {
            return None;
        }
        let ghost whole = self.entries@;
        swap_entries(&mut self.entries, 0, n - 1);
        let ghost swapped = self.entries@;
        let top = self.entries.pop().unwrap();
        let ghost start = self.entries@;
        proof {
            lemma_swap_keeps_contents(whole, 0, n - 1);
            assert(top == whole[0]);
            assert(start =~= swapped.remove(n - 1));
            assert(start.to_multiset() == whole.to_multiset().remove(top));
            assert(whole.contains(whole[0]));
            assert forall|x: HeapEntry<P>| old(self)@.contains(x) implies #[trigger] top.leaves_before(
                &x,
            ) by {
                assert(whole.contains(x));
                let i = choose|i: int| 0 <= i < whole.len() && whole[i] == x;
                lemma_root_first(whole, i);
            }
            assert(ordered_but_below(start, 0)) by {
                assert forall|j: int| 0 < j < start.len() && (j - 1) / 2 != 0 implies #[trigger] link(
                    start,
                    j,
                ) by {
                    assert(link(whole, j));
                }
            }
        }
        let m: usize = n - 1;
        let mut i: usize = 0;
        while i < m / 2
            invariant
                self.entries@.len() == m,
                self.entries@.to_multiset() == start.to_multiset(),
                ordered_but_below(self.entries@, i as int),
            ensures
                heap_ordered(self.entries@),
                self.entries@.to_multiset() == start.to_multiset(),
            decreases m - i,
        {
            let left: usize = 2 * i + 1;
            let right: usize = left + 1;
            let ghost before = self.entries@;
            let mut child: usize = left;
            if right < m && self.entries[right].goes_first(&self.entries[left]) {
                child = right;
            }
            if self.entries[i].goes_first(&self.entries[child]) {
                assert(heap_ordered(before)) by {
                    assert forall|j: int| 0 < j < before.len() implies #[trigger] link(
                        before,
                        j,
                    ) by {
                        if (j - 1) / 2 != i as int {
                            assert(link(before, j));
                        } else {
                            assert(j == left || j == right);
                        }
                    }
                }
                break ;
            }
            swap_entries(&mut self.entries, i, child);
            proof {
                let after = self.entries@;
                lemma_swap_keeps_contents(before, i as int, child as int);
                assert forall|j: int|
                    0 < j < after.len() && (j - 1) / 2 != child as int implies #[trigger] link(
                    after,
                    j,
                ) by {
                    if (j - 1) / 2 == i as int {
                        assert(j == left || j == right);
                    } else if j == i {
                        assert(link(before, j));
                        if i > 0 {
                            assert(skip_link(before, i as int, child as int));
                        }
                    } else {
                        assert(link(before, j));
                    }
                }
                assert forall|j: int|
                    0 < j < after.len() && (j - 1) / 2 == child as int
                        && child > 0 implies #[trigger] skip_link(after, child as int, j) by {
                    assert(link(before, j));
                }
            }
            i = child;
        }
        assert(heap_ordered(self.entries@)) by {
            if i >= m / 2 {
                assert forall|j: int| 0 < j < self.entries@.len() implies #[trigger] link(
                    self.entries@,
                    j,
                ) by {
                    assert((j - 1) / 2 != i as int);
                }
            }
        }
        Some(top)
    }
}

} // verus!
