//! The index of one source: its posts by id, in order, and counted by day.

use crate::order::{
    ascending, before, below, day_of, falls_on, falls_through, lemma_count_all, lemma_count_bounds,
    lemma_count_insert, lemma_count_none, lemma_count_prefix, lemma_count_remove,
    lemma_downward_before, lemma_insert_ascending, lemma_listing_unique, lemma_newest_below,
    lemma_remove_ascending, lemma_through_negative, lemma_through_step, lists, older,
    older_or_same, on_day, through_day, Post, PostId, PostTS, DAY_SECONDS,
};
use crate::tree::{
    bounded, counters, sum_first, tree_build, tree_clone, tree_extend, tree_len, tree_modify,
    tree_query, DayCounts,
};
use std::collections::BTreeSet;
use std::collections::HashMap;
use vstd::prelude::*;

verus! {

/// The posts of a single source.
///
/// Three containers hold the same posts: a map from id to timestamp, an
/// ordered set of `(timestamp, id)` pairs, and a tree of per-day counters.
/// [`Index::wf`] says how they agree.
pub struct Index {
    /// Count of posts per day.
    counts: DayCounts,
    /// Timestamp of each post, by id.
    posts: HashMap<PostId, PostTS>,
    /// The posts in order.
    posts_by_day: BTreeSet<(PostTS, PostId)>,
    /// The ordered set, listed from oldest to newest.
    order: Ghost<Seq<Post>>,
}

impl View for Index {
    type V = Map<PostId, PostTS>;

    /// The timestamp of each post of the source, by id.
    closed spec fn view(&self) -> Map<PostId, PostTS> {
        self.posts@
    }
}

/// `BTreeSet::range` up to `bound`, exclusive, read from its far end. A
/// set of pairs of integers is ordered by the first of a pair and then by
/// the second, and its ranges run in that order, so what comes back is the
/// newest post of the set that is older than `bound`, if there is one.
#[verifier::external_body]
fn last_below<'a>(set: &'a BTreeSet<(PostTS, PostId)>, bound: Post) -> (r: Option<&'a Post>)
    ensures
        match r {
            Some(p) => set@.contains(*p) && older(*p, bound) && forall|q: Post|
                set@.contains(q) && older(q, bound) ==> older_or_same(q, *p),
            None => forall|q: Post| set@.contains(q) ==> !older(q, bound),
        },
{
    set.range(..bound).next_back()
}

/// A vector of `n` zeros.
fn zeros(n: usize) -> (v: Vec<i32>)
    ensures
        v@.len() == n,
        forall|i: int| 0 <= i < n ==> v@[i] == 0,
{
    let mut v: Vec<i32> = Vec::new();
    let mut i: usize = 0;
    while i < n
        invariant
            i <= n,
            v@.len() == i,
            forall|j: int| 0 <= j < i ==> v@[j] == 0,
        decreases n - i,
    {
        v.push(0);
        i += 1;
    }
    v
}

/// Counters that agree with a listing day by day sum up to its posts.
proof fn lemma_sum_is_through(c: Seq<i32>, s: Seq<Post>, d: int)
    requires
        -1 <= d < c.len(),
        forall|j: int| 0 <= j <= d ==> #[trigger] c[j] == on_day(s, j),
    ensures
        sum_first(c, d + 1) == through_day(s, d),
    decreases d + 1,
{
    if d < 0 {
        lemma_through_negative(s, d);
    } else {
        lemma_sum_is_through(c, s, d - 1);
        lemma_through_step(s, d);
    }
}

/// Counters that agree with a listing of at most `i32::MAX` posts, all of
/// them on days that the counters cover, are within the tree's bound.
proof fn lemma_counts_bounded(c: Seq<i32>, s: Seq<Post>)
    requires
        s.len() <= i32::MAX,
        forall|i: int| 0 <= i < s.len() ==> day_of(#[trigger] s[i].0) < c.len(),
        forall|d: int| 0 <= d < c.len() ==> #[trigger] c[d] == on_day(s, d),
    ensures
        bounded(c),
        sum_first(c, c.len() as int) == s.len(),
{
    lemma_sum_is_through(c, s, c.len() - 1);
    assert forall|i: int| 0 <= i < s.len() implies falls_through(c.len() - 1)(#[trigger] s[i]) by {
        assert(day_of(s[i].0) < c.len());
    }
    lemma_count_all(s, falls_through(c.len() - 1));
}

impl Index {
    /// The posts of the source, from oldest to newest.
    pub closed spec fn ordered(&self) -> Seq<Post> {
        self.order@
    }

    /// The number of posts on each day, by day.
    pub closed spec fn day_counts(&self) -> Seq<i32> {
        counters(self.counts)
    }

    /// The ordered set holds the posts that [`Index::ordered`] lists.
    pub closed spec fn linked(&self) -> bool {
        forall|p: Post| self.posts_by_day@.contains(p) <==> self.order@.contains(p)
    }

    /// The three containers agree: the ordered listing holds the posts of
    /// the map and no others, each once; the counter of a day is the number
    /// of posts on it; every post falls on a day that has a counter.
    pub open spec fn wf(&self) -> bool {
        &&& self.linked()
        &&& self@.dom().finite()
        &&& ascending(self.ordered())
        &&& lists(self.ordered(), self@)
        &&& self@.len() == self.ordered().len()
        &&& self.ordered().len() <= i32::MAX
        &&& forall|i: int|
            0 <= i < self.ordered().len() ==> day_of(#[trigger] self.ordered()[i].0)
                < self.day_counts().len()
        &&& forall|d: int|
            0 <= d < self.day_counts().len() ==> #[trigger] self.day_counts()[d] == on_day(
                self.ordered(),
                d,
            )
    }

    /// The counters of a well-formed index sum up to the number of its
    /// posts, which is also the size of its map and of its ordered set.
    pub proof fn lemma_counts_total(&self)
        requires
            self.wf(),
        ensures
            sum_first(self.day_counts(), self.day_counts().len() as int) == self.ordered().len(),
            self.ordered().len() == self@.len(),
            bounded(self.day_counts()),
    {
        lemma_counts_bounded(self.day_counts(), self.ordered());
    }

    /// The day on which a timestamp falls.
    fn day_of_year(key: PostTS) -> (day: usize)
        ensures
            day == day_of(key),
    {
        key / DAY_SECONDS
    }

    /// The number of posts.
    pub fn len(&self) -> (n: usize)
        requires
            self.wf(),
        ensures
            n == self@.len(),
            n == self.ordered().len(),
    {
        self.posts.len()
    }

    /// The number of days that have a counter.
    pub fn days(&self) -> (n: usize)
        ensures
            n == self.day_counts().len(),
    {
        tree_len(&self.counts)
    }

    /// The newest post, if the source has any.
    pub fn newest(&self) -> (r: Option<Post>)
        requires
            self.wf(),
        ensures
            r == if self.ordered().len() == 0 {
                None::<Post>
            } else {
                Some(self.ordered().last())
            },
    {
        let bound: Post = (usize::MAX, usize::MAX);
        let ghost s = self.ordered();
        if self.posts_by_day.contains(&bound) {
            proof {
                assert(s.contains(bound));
                let i = choose|i: int| 0 <= i < s.len() && s[i] == bound;
                if i < s.len() - 1 {
                    assert(older(s[i], s[s.len() - 1]));
                }
            }
            Some(bound)
        } else {
            proof {
                assert forall|i: int| 0 <= i < s.len() implies before(bound)(#[trigger] s[i]) by {
                    assert(s.contains(s[i]));
                }
                lemma_count_all(s, before(bound));
            }
            self.newest_before(bound)
        }
    }

    /// An empty index with counters for `size` days.
    pub fn new(size: usize) -> (index: Self)
        ensures
            index.wf(),
            index@ == Map::<PostId, PostTS>::empty(),
            index.ordered() == Seq::<Post>::empty(),
            index.day_counts().len() == size,
    {
        let values = zeros(size);
        proof {
            lemma_counts_bounded(values@, Seq::<Post>::empty());
        }
        let index = Index {
            counts: tree_build(values),
            posts: HashMap::new(),
            posts_by_day: BTreeSet::new(),
            order: Ghost(Seq::empty()),
        };
        assert(index@ =~= Map::<PostId, PostTS>::empty());
        index
    }

    /// The number of posts that fall on a later day than `key`.
    pub fn query_right(&self, key: usize) -> (n: usize)
        requires
            self.wf(),
        ensures
            n == self.ordered().len() - through_day(self.ordered(), key as int),
    {
        if key >= tree_len(&self.counts) {
            proof {
                let s = self.ordered();
                assert forall|i: int| 0 <= i < s.len() implies falls_through(key as int)(
                    #[trigger] s[i],
                ) by {
                    assert(day_of(s[i].0) < self.day_counts().len());
                }
                lemma_count_all(s, falls_through(key as int));
            }
            return 0;
        }
        proof {
            self.lemma_counts_total();
            lemma_sum_is_through(self.day_counts(), self.ordered(), key as int);
            lemma_count_bounds(self.ordered(), falls_through(key as int));
        }
        let through = tree_query(&self.counts, key);
        self.posts.len() - through as usize
    }

    /// The number of posts that fall on day `day` or later.
    pub fn count_on_or_after(&self, day: usize) -> (n: usize)
        requires
            self.wf(),
        ensures
            n == self.ordered().len() - through_day(self.ordered(), day - 1),
    {
        if day == 0 {
            proof {
                lemma_through_negative(self.ordered(), -1);
            }
            self.posts.len()
        } else {
            self.query_right(day - 1)
        }
    }

    /// The newest post that comes before `bound`, if there is one.
    pub fn newest_before(&self, bound: Post) -> (r: Option<Post>)
        requires
            self.wf(),
        ensures
            below(self.ordered(), bound) <= self.ordered().len(),
            r == if below(self.ordered(), bound) == 0 {
                None::<Post>
            } else {
                Some(self.ordered()[below(self.ordered(), bound) - 1])
            },
    {
        let r = match last_below(&self.posts_by_day, bound) {
            Some(post) => Some(*post),
            None => None,
        };
        proof {
            let s = self.ordered();
            lemma_downward_before(bound);
            lemma_count_prefix(s, before(bound));
            match r {
                Some(p) => {
                    assert(s.contains(p));
                    let i = choose|i: int| 0 <= i < s.len() && s[i] == p;
                    assert forall|j: int|
                        0 <= j < s.len() && older(#[trigger] s[j], bound) implies older_or_same(
                        s[j],
                        s[i],
                    ) by {
                        assert(s.contains(s[j]));
                    }
                    lemma_newest_below(s, bound, i);
                },
                None => {
                    assert forall|i: int| 0 <= i < s.len() implies !before(bound)(
                        #[trigger] s[i],
                    ) by {
                        assert(s.contains(s[i]));
                    }
                    lemma_count_none(s, before(bound));
                },
            }
        }
        r
    }

    /// Whether the source can take `post`: whether it holds fewer than
    /// `i32::MAX` posts beside one of the same id, which `post` would replace.
    pub fn has_room_for(&self, post: &Post) -> (r: bool)
        requires
            self.wf(),
        ensures
            r == (self@.remove(post.1).len() < i32::MAX),
    {
        let held = self.posts.len();
        if self.posts.contains_key(&post.1) {
            held - 1 < 2147483647
        } else {
            proof {
                assert(self@.remove(post.1) =~= self@);
            }
            held < 2147483647
        }
    }

    /// Takes out the post with the id of `post`, if the source has one. The
    /// timestamp of `post` plays no part.
    pub fn remove(&mut self, post: &Post)
        requires
            old(self).wf(),
        ensures
            final(self).wf(),
            final(self)@ == old(self)@.remove(post.1),
            final(self).day_counts().len() == old(self).day_counts().len(),
    {
        let found = self.posts.remove(&post.1);
        if let Some(key) = found {
            let day = Index::day_of_year(key);
            let ghost s = self.order@;
            let ghost gone: Post = (key, post.1);
            let ghost c = counters(self.counts);
            proof {
                assert(s.contains(gone));
            }
            let ghost j = choose|j: int| 0 <= j < s.len() && s[j] == gone;
            let ghost s2 = s.remove(j);
            let ghost c2 = c.update(day as int, (c[day as int] - 1) as i32);
            proof {
                lemma_remove_ascending(s, j);
                lemma_count_remove(s, j, falls_on(day as int));
                assert(falls_on(day as int)(s[j]));
                assert(day_of(s[j].0) < c.len());
                assert forall|d: int| 0 <= d < c2.len() implies #[trigger] c2[d] == on_day(
                    s2,
                    d,
                ) by {
                    lemma_count_remove(s, j, falls_on(d));
                }
                assert forall|i: int| 0 <= i < s2.len() implies day_of(#[trigger] s2[i].0)
                    < c2.len() by {
                    let i0 = if i < j { i } else { i + 1 };
                    assert(s2[i] == s[i0]);
                }
                lemma_counts_bounded(c2, s2);
            }
            tree_modify(&mut self.counts, day, -1);
            self.posts_by_day.remove(&(key, post.1));
            self.order = Ghost(s2);
            proof {
                assert forall|p: Post| #[trigger] s2.contains(p) <==> self@.contains_key(p.1)
                    && self@[p.1] == p.0 by {
                    assert(s.contains(p) <==> old(self)@.contains_key(p.1) && old(self)@[p.1]
                        == p.0);
                }
            }
        } else {
            assert(self@ =~= old(self)@.remove(post.1));
        }
    }

    /// Puts `post` into the source. A post that the source already holds
    /// under the same id is replaced.
    pub fn add(&mut self, post: Post)
        requires
            old(self).wf(),
            old(self)@.remove(post.1).len() < i32::MAX,
        ensures
            final(self).wf(),
            final(self)@ == old(self)@.insert(post.1, post.0),
            final(self).day_counts().len() == if day_of(post.0) < old(self).day_counts().len() {
                old(self).day_counts().len() as int
            } else {
                day_of(post.0) + 1
            },
    {
        self.remove(&post);
        let ghost m1 = self@;
        let ghost s = self.order@;
        self.posts.insert(post.1, post.0);
        let day = Index::day_of_year(post.0);
        let n = tree_len(&self.counts);
        if n <= day {
            let more = zeros(day - n + 1);
            proof {
                let c = counters(self.counts);
                let c1 = c + more@;
                assert forall|d: int| 0 <= d < c1.len() implies #[trigger] c1[d] == on_day(
                    s,
                    d,
                ) by {
                    if d >= c.len() {
                        assert forall|i: int| 0 <= i < s.len() implies !falls_on(d)(
                            #[trigger] s[i],
                        ) by {
                            assert(day_of(s[i].0) < c.len());
                        }
                        lemma_count_none(s, falls_on(d));
                    } else {
                        assert(c1[d] == c[d]);
                    }
                }
                assert forall|i: int| 0 <= i < s.len() implies day_of(#[trigger] s[i].0)
                    < c1.len() by {
                    assert(day_of(s[i].0) < c.len());
                }
                lemma_counts_bounded(c1, s);
            }
            tree_extend(&mut self.counts, more);
        }
        let ghost c2 = counters(self.counts);
        let ghost k = below(s, post) as int;
        let ghost s2 = s.insert(k, post);
        let ghost c3 = c2.update(day as int, (c2[day as int] + 1) as i32);
        proof {
            assert(!s.contains(post));
            lemma_insert_ascending(s, post);
            lemma_count_bounds(s, falls_on(day as int));
            assert forall|d: int| 0 <= d < c3.len() implies #[trigger] c3[d] == on_day(s2, d) by {
                lemma_count_insert(s, k, post, falls_on(d));
            }
            assert forall|i: int| 0 <= i < s2.len() implies day_of(#[trigger] s2[i].0)
                < c3.len() by {
                if i < k {
                    assert(s2[i] == s[i]);
                } else if i > k {
                    assert(s2[i] == s[i - 1]);
                }
            }
            lemma_counts_bounded(c3, s2);
        }
        tree_modify(&mut self.counts, day, 1);
        self.posts_by_day.insert(post);
        self.order = Ghost(s2);
        proof {
            assert(self@ =~= old(self)@.insert(post.1, post.0));
            assert forall|p: Post| #[trigger] s2.contains(p) <==> self@.contains_key(p.1)
                && self@[p.1] == p.0 by {
                assert(s.contains(p) <==> m1.contains_key(p.1) && m1[p.1] == p.0);
            }
        }
    }
}

impl Clone for Index {
    /// An index of its own with the same posts and the same counters.
    fn clone(&self) -> (copy: Self)
        ensures
            copy@ == self@,
            copy.ordered() == self.ordered(),
            copy.day_counts() == self.day_counts(),
            self.wf() ==> copy.wf(),
    {
        Index {
            counts: tree_clone(&self.counts),
            posts: self.posts.clone(),
            posts_by_day: self.posts_by_day.clone(),
            order: Ghost(self.order@),
        }
    }
}

/// Adding a post under an id that the source already holds replaces the
/// post: after `add((t1, id))` and `add((t2, id))` the source holds one post
/// of that id, with timestamp `t2`, and after a `remove` of that id none.
pub proof fn lemma_replacement(
    before: Index,
    first: Index,
    second: Index,
    gone: Index,
    t1: PostTS,
    t2: PostTS,
    id: PostId,
)
    requires
        first.wf(),
        second.wf(),
        gone.wf(),
        first@ == before@.insert(id, t1),
        second@ == first@.insert(id, t2),
        gone@ == second@.remove(id),
    ensures
        second@ == before@.insert(id, t2),
        second.ordered().contains((t2, id)),
        forall|i: int|
            0 <= i < second.ordered().len() && (#[trigger] second.ordered()[i]).1 == id
                ==> second.ordered()[i].0 == t2,
        forall|i: int, j: int|
            0 <= i < j < second.ordered().len() ==> !((#[trigger] second.ordered()[i]).1 == id && (
            #[trigger] second.ordered()[j]).1 == id),
        !gone@.contains_key(id),
        forall|i: int| 0 <= i < gone.ordered().len() ==> (#[trigger] gone.ordered()[i]).1 != id,
{
    let s = second.ordered();
    let g = gone.ordered();
    assert(second@ =~= before@.insert(id, t2));
    assert forall|i: int| 0 <= i < s.len() && (#[trigger] s[i]).1 == id implies s[i].0 == t2 by {
        assert(s.contains(s[i]));
    }
    assert forall|i: int, j: int| 0 <= i < j < s.len() implies !((#[trigger] s[i]).1 == id && (
    #[trigger] s[j]).1 == id) by {
        assert(s.contains(s[i]));
        assert(s.contains(s[j]));
        assert(older(s[i], s[j]));
    }
    assert forall|i: int| 0 <= i < g.len() implies (#[trigger] g[i]).1 != id by {
        assert(g.contains(g[i]));
    }
}

/// The listing of a well-formed index is the one ascending listing of its
/// map: indexes with the same posts by id list them alike.
pub proof fn lemma_same_posts_same_listing(a: Index, b: Index)
    requires
        a.wf(),
        b.wf(),
        a@ == b@,
    ensures
        a.ordered() == b.ordered(),
{
    lemma_listing_unique(a.ordered(), b.ordered(), a@);
}

} // verus!
