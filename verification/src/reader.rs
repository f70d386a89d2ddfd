//! The reader that walks the merged feed of several sources from a day on
//! downwards, one post at a time.

use crate::feed::{
    advance, after_day, all_ascending, best, cursors_ok, cut_at, feed, full, head, ids, is_head,
    lemma_best_unique, lemma_cut_separates, lemma_feed_is_merge, lemma_merge_jump,
    lemma_merge_step, lemma_totals, merge_all, window,
};
use crate::heap::{entry_le, Entry, MaxHeap};
use crate::idx::Index;
use crate::order::{
    ascending, falls_through, lemma_count_all, lemma_count_bounds, lemma_rank_of_entry,
    lemma_through_is_below, older, Post, PostId, DAY_SECONDS,
};
use vstd::prelude::*;

verus! {

/// The listing of each index, in the order of the indexes.
pub open spec fn listings(indexes: Seq<&Index>) -> Seq<Seq<Post>> {
    Seq::new(indexes.len(), |i: int| indexes[i].ordered())
}

/// Every index is well-formed.
pub open spec fn all_wf(indexes: Seq<&Index>) -> bool {
    forall|i: int| 0 <= i < indexes.len() ==> (#[trigger] indexes[i]).wf()
}

/// The listings of well-formed indexes are ascending.
pub proof fn lemma_listings_ascending(indexes: Seq<&Index>)
    requires
        all_wf(indexes),
    ensures
        all_ascending(listings(indexes)),
{
    assert forall|i: int| 0 <= i < listings(indexes).len() implies ascending(
        #[trigger] listings(indexes)[i],
    ) by {
        assert(indexes[i].wf());
    }
}

/// A k-way merge in progress over borrowed indexes. It holds the newest
/// post of each source that it has not yet yielded in a max-heap.
pub struct MergeReader<'a> {
    sources: &'a Vec<&'a Index>,
    heap: MaxHeap,
    cursors: Ghost<Seq<int>>,
}

impl<'a> MergeReader<'a> {
    /// The listings of the sources that are merged.
    pub closed spec fn sources(&self) -> Seq<Seq<Post>> {
        listings(self.sources@)
    }

    /// For each source, how many of its posts are still to come.
    pub closed spec fn cursors(&self) -> Seq<int> {
        self.cursors@
    }

    /// The heap holds the head of each source that has posts to come, and
    /// nothing else.
    pub closed spec fn wf(&self) -> bool {
        &&& all_wf(self.sources@)
        &&& cursors_ok(self.sources(), self.cursors@)
        &&& self.heap.wf()
        &&& forall|e: Entry| #[trigger]
            self.heap@.count(e) == if is_head(self.sources(), self.cursors@, e) {
                1nat
            } else {
                0nat
            }
    }

    /// The posts that the reader has still to yield, in the order in which
    /// it yields them.
    pub open spec fn remaining(&self) -> Seq<Post> {
        merge_all(self.sources(), self.cursors())
    }

    /// A reader that yields, newest first, the posts of `sources` that fall
    /// on day `day` or earlier: the feed of the sources without the posts of
    /// later days, which stand first in it.
    pub fn start(sources: &'a Vec<&'a Index>, day: usize) -> (reader: Self)
        requires
            all_wf(sources@),
        ensures
            reader.wf(),
            reader.sources() == listings(sources@),
            reader.cursors() == cut_at(listings(sources@), day as int),
            0 <= after_day(listings(sources@), day as int) <= feed(listings(sources@)).len(),
            reader.remaining() == feed(listings(sources@)).skip(
                after_day(listings(sources@), day as int),
            ),
    {
        let ghost srcs = listings(sources@);
        let ghost cut = cut_at(srcs, day as int);
        let bounded = day < usize::MAX / DAY_SECONDS;
        let first_key: usize = if bounded {
            (day + 1) * DAY_SECONDS
        } else {
            0
        };
        let mut heap = MaxHeap::new();
        let mut i: usize = 0;
        let n = sources.len();
        proof {
            assert forall|j: int| 0 <= j < cut.len() implies 0 <= #[trigger] cut[j]
                <= srcs[j].len() by {
                lemma_count_bounds(srcs[j], falls_through(day as int));
            }
            assert(srcs.len() == n);
        }
        while i < n
            invariant
                i <= n,
                n == sources@.len(),
                all_wf(sources@),
                srcs == listings(sources@),
                cut == cut_at(srcs, day as int),
                cursors_ok(srcs, cut),
                bounded == (day < usize::MAX / DAY_SECONDS),
                bounded ==> first_key == (day + 1) * 86400,
                heap.wf(),
                forall|e: Entry| #[trigger]
                    heap@.count(e) == if e.2 < i && is_head(srcs, cut, e) {
                        1nat
                    } else {
                        0nat
                    },
            decreases n - i,
        {
            let source = sources[i];
            let ghost s = source.ordered();
            proof {
                assert(sources@[i as int].wf());
                assert(srcs[i as int] == s);
                if bounded {
                    lemma_through_is_below(s, day as int, first_key);
                } else {
                    assert forall|k: int| 0 <= k < s.len() implies falls_through(day as int)(
                        #[trigger] s[k],
                    ) by {
                        assert(s[k].0 as int / 86400 <= usize::MAX as int / 86400);
                    }
                    lemma_count_all(s, falls_through(day as int));
                }
            }
            let first = if bounded {
                source.newest_before((first_key, 0))
            } else {
                source.newest()
            };
            if let Some((ts, id)) = first {
                let ghost before_push = heap@;
                heap.push((ts, id, i));
                proof {
                    let entry: Entry = (ts, id, i);
                    assert(entry == head(srcs, cut, i as int));
                    assert forall|e: Entry| #[trigger]
                        heap@.count(e) == if e.2 < i + 1 && is_head(srcs, cut, e) {
                            1nat
                        } else {
                            0nat
                        } by {
                        assert(heap@.count(e) == before_push.insert(entry).count(e));
                    }
                }
            } else {
                proof {
                    assert(cut[i as int] == 0);
                }
            }
            i += 1;
        }
        proof {
            lemma_listings_ascending(sources@);
            lemma_feed_is_merge(srcs);
            lemma_cut_separates(srcs, day as int);
            lemma_merge_jump(srcs, full(srcs), cut);
            lemma_totals(srcs, day as int, n as int);
            assert(srcs.take(n as int) =~= srcs);
        }
        MergeReader { sources, heap, cursors: Ghost(cut) }
    }

    /// Yields the newest post that is still to come, if there is one.
    pub fn next_post(&mut self) -> (r: Option<Post>)
        requires
            old(self).wf(),
        ensures
            final(self).wf(),
            final(self).sources() == old(self).sources(),
            match r {
                Some(p) => {
                    &&& old(self).remaining().len() > 0
                    &&& p == old(self).remaining()[0]
                    &&& final(self).remaining() == old(self).remaining().drop_first()
                },
                None => old(self).remaining().len() == 0 && final(self).remaining() == old(
                    self,
                ).remaining(),
            },
    {
        let ghost srcs = self.sources();
        let ghost cur = self.cursors@;
        let ghost before_pop = self.heap@;
        proof {
            lemma_merge_step(srcs, cur);
        }
        match self.heap.pop() {
            Some((ts, id, i)) => {
                let ghost top: Entry = (ts, id, i);
                let ghost next = advance(cur, i as int);
                proof {
                    assert(before_pop.count(top) > 0);
                    assert(is_head(srcs, cur, top));
                    assert forall|j: int|
                        0 <= j < srcs.len() && #[trigger] cur[j] > 0 implies entry_le(
                        head(srcs, cur, j),
                        head(srcs, cur, i as int),
                    ) by {
                        assert(is_head(srcs, cur, head(srcs, cur, j)));
                        assert(before_pop.count(head(srcs, cur, j)) > 0);
                    }
                    lemma_best_unique(srcs, cur, i as int);
                    assert(self.sources@[i as int].wf());
                    assert(srcs[i as int] == self.sources@[i as int].ordered());
                    lemma_rank_of_entry(srcs[i as int], cur[i as int] - 1);
                }
                let source = self.sources[i];
                let under = source.newest_before((ts, id));
                let ghost after_pop = self.heap@;
                if let Some((ts2, id2)) = under {
                    self.heap.push((ts2, id2, i));
                }
                self.cursors = Ghost(next);
                proof {
                    assert forall|e: Entry| #[trigger]
                        self.heap@.count(e) == if is_head(srcs, next, e) {
                            1nat
                        } else {
                            0nat
                        } by {
                        assert(after_pop.count(e) == before_pop.remove(top).count(e));
                        if e.2 != i {
                            assert(is_head(srcs, next, e) == is_head(srcs, cur, e));
                        }
                        if let Some((ts2, id2)) = under {
                            let pushed: Entry = (ts2, id2, i);
                            assert(self.heap@.count(e) == after_pop.insert(pushed).count(e));
                            assert(pushed == head(srcs, next, i as int));
                            let s = srcs[i as int];
                            assert(older(s[cur[i as int] - 2], s[cur[i as int] - 1]));
                        }
                    }
                }
                Some((ts, id))
            },
            None => {
                proof {
                    let b = best(srcs, cur, srcs.len() as int);
                    if b >= 0 {
                        assert(is_head(srcs, cur, head(srcs, cur, b)));
                        assert(before_pop.count(head(srcs, cur, b)) == 1);
                        assert(before_pop.count(head(srcs, cur, b)) <= before_pop.len());
                    }
                }
                None
            },
        }
    }

    /// Passes over `skip` posts, then yields the ids of the next `take`,
    /// newest first; fewer where the posts end before. The reader is left
    /// behind the last post that it passed over or yielded, so it takes at
    /// most `skip + take` posts from the heap.
    pub fn stream(&mut self, skip: usize, take: usize) -> (posts: Vec<PostId>)
        requires
            old(self).wf(),
        ensures
            final(self).wf(),
            final(self).sources() == old(self).sources(),
            posts@ == window(ids(old(self).remaining()), skip as int, take as int),
            final(self).remaining() == old(self).remaining().skip(
                if skip + take < old(self).remaining().len() {
                    skip + take
                } else {
                    old(self).remaining().len() as int
                },
            ),
    {
        let ghost all = self.remaining();
        let mut skipped: usize = 0;
        let mut more = true;
        proof {
            assert(all.skip(0) =~= all);
        }
        while more && skipped < skip
            invariant
                self.wf(),
                self.sources() == old(self).sources(),
                skipped <= skip,
                more ==> skipped <= all.len() && self.remaining() == all.skip(skipped as int),
                !more ==> all.len() < skip && self.remaining() == all.skip(all.len() as int),
            decreases skip - skipped, (if more { 1int } else { 0int }),
        {
            match self.next_post() {
                Some(_) => {
                    proof {
                        assert(all.skip(skipped as int).drop_first() =~= all.skip(skipped + 1));
                    }
                    skipped += 1;
                },
                None => {
                    proof {
                        assert(all.skip(skipped as int).len() == 0);
                    }
                    more = false;
                },
            }
        }
        let mut posts: Vec<PostId> = Vec::new();
        proof {
            assert(ids(all).len() == all.len());
            if more {
                assert(posts@ =~= ids(all).subrange(skip as int, skip as int));
            } else {
                assert(posts@ =~= window(ids(all), skip as int, take as int));
            }
        }
        while more && posts.len() < take
            invariant
                self.wf(),
                self.sources() == old(self).sources(),
                posts@.len() <= take,
                ids(all).len() == all.len(),
                more ==> skip + posts@.len() <= all.len() && self.remaining() == all.skip(
                    skip + posts@.len(),
                ) && posts@ == ids(all).subrange(skip as int, skip + posts@.len()),
                !more ==> posts@ == window(ids(all), skip as int, take as int)
                    && self.remaining() == all.skip(all.len() as int) && all.len() <= skip + take,
            decreases take - posts@.len(), (if more { 1int } else { 0int }),
        {
            let ghost done = posts@;
            match self.next_post() {
                Some(post) => {
                    posts.push(post.1);
                    proof {
                        let at = skip + done.len();
                        assert(all.skip(at).drop_first() =~= all.skip(at + 1));
                        assert(post == all[at]);
                        assert(posts@ =~= ids(all).subrange(skip as int, at + 1));
                    }
                },
                None => {
                    proof {
                        assert(all.skip(skip + done.len()).len() == 0);
                        assert(posts@ =~= window(ids(all), skip as int, take as int));
                    }
                    more = false;
                },
            }
        }
        posts
    }
}

} // verus!
