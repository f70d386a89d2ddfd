//! A binary max-heap of the heads of the sources that a query merges.

use crate::order::{PostId, PostTS};
use vstd::multiset::Multiset;
use vstd::prelude::*;
use vstd::seq_lib::{to_multiset_build, to_multiset_remove, to_multiset_update};

verus! {

/// The head of a source: timestamp and id of a post, then the position of
/// the source among those that are merged.
pub type Entry = (PostTS, PostId, usize);

/// `a` comes strictly before `b`: by timestamp, then id, then source.
pub open spec fn entry_lt(a: Entry, b: Entry) -> bool {
    a.0 < b.0 || (a.0 == b.0 && (a.1 < b.1 || (a.1 == b.1 && a.2 < b.2)))
}

/// `a` comes before `b` or is `b`.
pub open spec fn entry_le(a: Entry, b: Entry) -> bool {
    entry_lt(a, b) || a == b
}

/// Each entry but the first is at most its parent, the entry at half its
/// position.
pub open spec fn heap_ordered(s: Seq<Entry>) -> bool {
    forall|i: int| 1 <= i < s.len() ==> entry_le(#[trigger] s[i], s[(i - 1) / 2])
}

/// In a heap no entry is greater than the first.
pub proof fn lemma_first_is_greatest(s: Seq<Entry>, i: int)
    requires
        heap_ordered(s),
        0 <= i < s.len(),
    ensures
        entry_le(s[i], s[0]),
    decreases i,
{
    if i > 0 {
        assert(entry_le(s[i], s[(i - 1) / 2]));
        lemma_first_is_greatest(s, (i - 1) / 2);
    }
}

/// Exchanging two entries of a sequence leaves its multiset as it was.
pub proof fn lemma_exchange(s: Seq<Entry>, i: int, j: int)
    requires
        0 <= i < s.len(),
        0 <= j < s.len(),
    ensures
        s.update(i, s[j]).update(j, s[i]).to_multiset() == s.to_multiset(),
{
    let m = s.to_multiset();
    let t = s.update(i, s[j]);
    s.to_multiset_ensures();
    assert(s.contains(s[i]));
    assert(s.contains(s[j]));
    to_multiset_update(s, i, s[j]);
    to_multiset_update(t, j, s[i]);
    if i == j {
        assert(t =~= s);
        assert(t.update(j, s[i]) =~= s);
    } else {
        assert(t[j] == s[j]);
        assert(m.insert(s[j]).remove(s[i]).insert(s[i]).remove(s[j]) =~= m);
    }
}

/// Whether `a` comes strictly before `b`.
pub fn entry_before(a: &Entry, b: &Entry) -> (r: bool)
    ensures
        r == entry_lt(*a, *b),
{
    a.0 < b.0 || (a.0 == b.0 && (a.1 < b.1 || (a.1 == b.1 && a.2 < b.2)))
}

/// A max-heap of entries. Its view is the multiset of the entries in it.
pub struct MaxHeap {
    items: Vec<Entry>,
}

impl View for MaxHeap {
    type V = Multiset<Entry>;

    closed spec fn view(&self) -> Multiset<Entry> {
        self.items@.to_multiset()
    }
}

impl MaxHeap {
    /// The entries are in heap order.
    pub closed spec fn wf(&self) -> bool {
        heap_ordered(self.items@)
    }

    /// An empty heap.
    pub fn new() -> (heap: Self)
        ensures
            heap.wf(),
            heap@ == Multiset::<Entry>::empty(),
    {
        let heap = MaxHeap { items: Vec::new() };
        proof {
            heap.items@.to_multiset_ensures();
            assert(heap@ =~= Multiset::<Entry>::empty());
        }
        heap
    }

    /// The number of entries.
    pub fn len(&self) -> (n: usize)
        ensures
            n == self@.len(),
    {
        proof {
            self.items@.to_multiset_ensures();
        }
        self.items.len()
    }

    /// Puts `entry` into the heap.
    pub fn push(&mut self, entry: Entry)
        requires
            old(self).wf(),
        ensures
            final(self).wf(),
            final(self)@ == old(self)@.insert(entry),
    {
        proof {
            to_multiset_build(self.items@, entry);
        }
        self.items.push(entry);
        let mut i: usize = self.items.len() - 1;
        while i > 0 && entry_before(&self.items[(i - 1) / 2], &self.items[i])
            invariant
                i < self.items@.len(),
                self.items@.to_multiset() == old(self)@.insert(entry),
                forall|j: int|
                    1 <= j < self.items@.len() && j != i ==> entry_le(
                        #[trigger] self.items@[j],
                        self.items@[(j - 1) / 2],
                    ),
                forall|j: int|
                    1 <= j < self.items@.len() && (j - 1) / 2 == i && i > 0 ==> entry_le(
                        #[trigger] self.items@[j],
                        self.items@[(i - 1) / 2],
                    ),
            decreases i,
        {
            let parent: usize = (i - 1) / 2;
            let child_entry = self.items[i];
            let parent_entry = self.items[parent];
            let ghost before = self.items@;
            self.items.set(i, parent_entry);
            self.items.set(parent, child_entry);
            proof {
                lemma_exchange(before, i as int, parent as int);
                let now = self.items@;
                assert forall|j: int| 1 <= j < now.len() && j != parent implies entry_le(
                    #[trigger] now[j],
                    now[(j - 1) / 2],
                ) by {
                    if j == i {
                    } else if (j - 1) / 2 == i {
                        assert(entry_le(before[j], before[(i - 1) / 2]));
                    } else {
                        assert(entry_le(before[j], before[(j - 1) / 2]));
                    }
                }
                assert forall|j: int|
                    1 <= j < now.len() && (j - 1) / 2 == parent && parent > 0 implies entry_le(
                    #[trigger] now[j],
                    now[(parent - 1) / 2],
                ) by {
                    assert(entry_le(before[parent as int], before[(parent - 1) / 2]));
                    if j != i {
                        assert(entry_le(before[j], before[(j - 1) / 2]));
                    }
                }
            }
            i = parent;
        }
    }

    /// Takes the greatest entry out of the heap, if it has any.
    pub fn pop(&mut self) -> (r: Option<Entry>)
        requires
            old(self).wf(),
        ensures
            final(self).wf(),
            match r {
                Some(top) => {
                    &&& old(self)@.count(top) > 0
                    &&& forall|e: Entry| old(self)@.count(e) > 0 ==> entry_le(e, top)
                    &&& final(self)@ == old(self)@.remove(top)
                },
                None => old(self)@.len() == 0 && final(self)@ == old(self)@,
            },
    {
        let ghost start = self.items@;
        proof {
            start.to_multiset_ensures();
        }
        if self.items.len() == 0 {
            return None;
        }
        let top = self.items[0];
        proof {
            assert forall|e: Entry| start.to_multiset().count(e) > 0 implies entry_le(e, top) by {
                assert(start.contains(e));
                let i = choose|i: int| 0 <= i < start.len() && start[i] == e;
                lemma_first_is_greatest(start, i);
            }
            assert(start.contains(start[0]));
        }
        let last = self.items.pop().unwrap();
        let n = self.items.len();
        if n == 0 {
            proof {
                assert(start.drop_last() =~= start.remove(start.len() - 1));
                to_multiset_remove(start, start.len() - 1);
            }
            return Some(top);
        }
        self.items.set(0, last);
        proof {
            let cut = start.drop_last();
            assert(cut =~= start.remove(start.len() - 1));
            to_multiset_remove(start, start.len() - 1);
            to_multiset_update(cut, 0, last);
            assert(self.items@.to_multiset() =~= start.to_multiset().remove(top));
            assert forall|j: int| 1 <= j < self.items@.len() && (j - 1) / 2 != 0 implies entry_le(
                #[trigger] self.items@[j],
                self.items@[(j - 1) / 2],
            ) by {
                assert(entry_le(start[j], start[(j - 1) / 2]));
            }
        }
        let mut i: usize = 0;
        let mut settled = false;
        while !settled && i < n / 2
            invariant
                n == self.items@.len(),
                i < n,
                self.items@.to_multiset() == start.to_multiset().remove(top),
                settled ==> heap_ordered(self.items@),
                forall|j: int|
                    1 <= j < n && (j - 1) / 2 != i ==> entry_le(
                        #[trigger] self.items@[j],
                        self.items@[(j - 1) / 2],
                    ),
                forall|j: int|
                    1 <= j < n && (j - 1) / 2 == i && i > 0 ==> entry_le(
                        #[trigger] self.items@[j],
                        self.items@[(i - 1) / 2],
                    ),
            decreases n - i, (if settled { 0int } else { 1int }),
        {
            let left: usize = 2 * i + 1;
            let right: usize = left + 1;
            let mut child: usize = left;
            if right < n && entry_before(&self.items[left], &self.items[right]) {
                child = right;
            }
            let here = self.items[i];
            let below = self.items[child];
            if entry_before(&here, &below) {
                let ghost before = self.items@;
                self.items.set(i, below);
                self.items.set(child, here);
                proof {
                    lemma_exchange(before, i as int, child as int);
                    let now = self.items@;
                    assert forall|j: int| 1 <= j < n && (j - 1) / 2 != child implies entry_le(
                        #[trigger] now[j],
                        now[(j - 1) / 2],
                    ) by {
                        if j == child {
                        } else if (j - 1) / 2 == i {
                            assert(j == left || j == right);
                        } else if j == i {
                            assert(entry_le(before[child as int], before[(i - 1) / 2]));
                        } else {
                            assert(entry_le(before[j], before[(j - 1) / 2]));
                        }
                    }
                    assert forall|j: int|
                        1 <= j < n && (j - 1) / 2 == child && child > 0 implies entry_le(
                        #[trigger] now[j],
                        now[(child - 1) / 2],
                    ) by {
                        assert(entry_le(before[j], before[(j - 1) / 2]));
                    }
                }
                i = child;
            } else {
                proof {
                    let now = self.items@;
                    assert forall|j: int| 1 <= j < n implies entry_le(
                        #[trigger] now[j],
                        now[(j - 1) / 2],
                    ) by {
                        if (j - 1) / 2 == i {
                            assert(j == left || j == right);
                        }
                    }
                }
                settled = true;
            }
        }
        proof {
            let now = self.items@;
            assert forall|j: int| 1 <= j < n implies entry_le(
                #[trigger] now[j],
                now[(j - 1) / 2],
            ) by {
                if !settled && (j - 1) / 2 == i {
                    assert(j >= 2 * i + 1);
                }
            }
        }
        Some(top)
    }
}

} // verus!
