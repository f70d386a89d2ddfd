//! The merged feed of several sources, newest post first: what it is, and
//! the k-way merge that produces it.

use crate::heap::{entry_le, entry_lt, Entry};
use crate::order::{
    ascending, falls_through, lemma_count_bounds, lemma_count_prefix, lemma_downward_through,
    older, older_or_same, through_day, Post, PostId,
};
use vstd::multiset::Multiset;
use vstd::prelude::*;
use vstd::relations::{sorted_by, total_ordering};
use vstd::seq_lib::{
    lemma_multiset_commutative, lemma_sorted_unique, to_multiset_insert, to_multiset_remove,
};

verus! {

/// `a` is newer than `b` or is `b`: the order in which a feed lists posts.
pub open spec fn newer_or_same() -> spec_fn(Post, Post) -> bool {
    |a: Post, b: Post| older_or_same(b, a)
}

/// The posts of all sources in `srcs`, newest first. A post that several
/// sources hold, or a source that is listed several times, shows as often.
pub open spec fn feed(srcs: Seq<Seq<Post>>) -> Seq<Post> {
    srcs.flatten().sort_by(newer_or_same())
}

/// The ids of a run of posts.
pub open spec fn ids(s: Seq<Post>) -> Seq<PostId> {
    s.map_values(|p: Post| p.1)
}

/// The entries of `s` from position `skip` on, at most `take` of them.
pub open spec fn window(s: Seq<PostId>, skip: int, take: int) -> Seq<PostId> {
    let from = if skip < s.len() { skip } else { s.len() as int };
    let to = if skip + take < s.len() { skip + take } else { s.len() as int };
    s.subrange(from, to)
}

/// The ids of the posts of `feed(srcs)` from position `offset` on, at most
/// `limit` of them.
pub open spec fn page(srcs: Seq<Seq<Post>>, offset: int, limit: int) -> Seq<PostId> {
    window(ids(feed(srcs)), offset, limit)
}

/// The number of posts in all sources together.
pub open spec fn total_len(srcs: Seq<Seq<Post>>) -> int
    decreases srcs.len(),
{
    if srcs.len() == 0 {
        0
    } else {
        total_len(srcs.drop_last()) + srcs.last().len()
    }
}

/// The number of posts, over all sources, that fall on a later day than `d`.
pub open spec fn after_day(srcs: Seq<Seq<Post>>, d: int) -> int
    decreases srcs.len(),
{
    if srcs.len() == 0 {
        0
    } else {
        after_day(srcs.drop_last(), d) + srcs.last().len() - through_day(srcs.last(), d)
    }
}

/// One cursor for each source: how many of its posts, counted from the
/// oldest, are still to come.
pub open spec fn cursors_ok(srcs: Seq<Seq<Post>>, cur: Seq<int>) -> bool {
    &&& srcs.len() <= usize::MAX
    &&& cur.len() == srcs.len()
    &&& forall|i: int| 0 <= i < cur.len() ==> 0 <= #[trigger] cur[i] <= srcs[i].len()
}

/// The cursors with which every post is still to come.
pub open spec fn full(srcs: Seq<Seq<Post>>) -> Seq<int> {
    Seq::new(srcs.len(), |i: int| srcs[i].len() as int)
}

/// The cursors with which the posts through day `d` are still to come.
pub open spec fn cut_at(srcs: Seq<Seq<Post>>, d: int) -> Seq<int> {
    Seq::new(srcs.len(), |i: int| through_day(srcs[i], d) as int)
}

/// The newest post of source `i` that is still to come.
pub open spec fn head_post(srcs: Seq<Seq<Post>>, cur: Seq<int>, i: int) -> Post {
    srcs[i][cur[i] - 1]
}

/// The head of source `i` as an entry of the heap.
pub open spec fn head(srcs: Seq<Seq<Post>>, cur: Seq<int>, i: int) -> Entry {
    (head_post(srcs, cur, i).0, head_post(srcs, cur, i).1, i as usize)
}

/// `e` is the head of the source that it names.
pub open spec fn is_head(srcs: Seq<Seq<Post>>, cur: Seq<int>, e: Entry) -> bool {
    0 <= e.2 < srcs.len() && cur[e.2 as int] > 0 && e == head(srcs, cur, e.2 as int)
}

/// The source among the first `n` whose head is greatest, or -1 where none
/// of them has a post to come.
pub open spec fn best(srcs: Seq<Seq<Post>>, cur: Seq<int>, n: int) -> int
    decreases n,
{
    if n <= 0 {
        -1
    } else {
        let b = best(srcs, cur, n - 1);
        if cur[n - 1] > 0 && (b < 0 || entry_lt(head(srcs, cur, b), head(srcs, cur, n - 1))) {
            n - 1
        } else {
            b
        }
    }
}

/// The sum of the first `n` cursors.
pub open spec fn to_come(cur: Seq<int>, n: int) -> int
    decreases n,
{
    if n <= 0 {
        0
    } else {
        to_come(cur, n - 1) + cur[n - 1]
    }
}

/// The cursors after the head of source `b` was taken.
pub open spec fn advance(cur: Seq<int>, b: int) -> Seq<int> {
    cur.update(b, cur[b] - 1)
}

/// The first `k` posts of the merge from `cur` on: again and again the
/// greatest head.
pub open spec fn merge_n(srcs: Seq<Seq<Post>>, cur: Seq<int>, k: nat) -> Seq<Post>
    decreases k,
{
    let b = best(srcs, cur, srcs.len() as int);
    if k == 0 || b < 0 {
        Seq::empty()
    } else {
        seq![head_post(srcs, cur, b)] + merge_n(srcs, advance(cur, b), (k - 1) as nat)
    }
}

/// The merge of all posts that are still to come.
pub open spec fn merge_all(srcs: Seq<Seq<Post>>, cur: Seq<int>) -> Seq<Post> {
    merge_n(srcs, cur, to_come(cur, cur.len() as int) as nat)
}

/// `best` names a source with a post to come whose head is at least every
/// head among the first `n` sources, or none where none has a post to come.
pub proof fn lemma_best(srcs: Seq<Seq<Post>>, cur: Seq<int>, n: int)
    requires
        cursors_ok(srcs, cur),
        0 <= n <= srcs.len(),
    ensures
        -1 <= best(srcs, cur, n) < n,
        best(srcs, cur, n) < 0 ==> forall|j: int| 0 <= j < n ==> #[trigger] cur[j] == 0,
        best(srcs, cur, n) >= 0 ==> cur[best(srcs, cur, n)] > 0,
        best(srcs, cur, n) >= 0 ==> forall|j: int|
            0 <= j < n && #[trigger] cur[j] > 0 ==> entry_le(
                head(srcs, cur, j),
                head(srcs, cur, best(srcs, cur, n)),
            ),
    decreases n,
{
    if n > 0 {
        lemma_best(srcs, cur, n - 1);
    }
}

/// A source whose head is at least every head is the best one.
pub proof fn lemma_best_unique(srcs: Seq<Seq<Post>>, cur: Seq<int>, i: int)
    requires
        cursors_ok(srcs, cur),
        0 <= i < srcs.len(),
        cur[i] > 0,
        forall|j: int|
            0 <= j < srcs.len() && #[trigger] cur[j] > 0 ==> entry_le(
                head(srcs, cur, j),
                head(srcs, cur, i),
            ),
    ensures
        best(srcs, cur, srcs.len() as int) == i,
{
    lemma_best(srcs, cur, srcs.len() as int);
    let b = best(srcs, cur, srcs.len() as int);
    assert(cur[b] > 0);
    assert(entry_le(head(srcs, cur, b), head(srcs, cur, i)));
    assert(entry_le(head(srcs, cur, i), head(srcs, cur, b)));
}

/// No cursor is more than the sum of the cursors.
pub proof fn lemma_to_come_bounds(srcs: Seq<Seq<Post>>, cur: Seq<int>, n: int)
    requires
        cursors_ok(srcs, cur),
        0 <= n <= cur.len(),
    ensures
        0 <= to_come(cur, n),
        forall|j: int| 0 <= j < n ==> #[trigger] cur[j] <= to_come(cur, n),
    decreases n,
{
    if n > 0 {
        lemma_to_come_bounds(srcs, cur, n - 1);
    }
}

/// Taking the head of a source lowers the sum of the cursors by one.
pub proof fn lemma_to_come_advance(cur: Seq<int>, b: int, n: int)
    requires
        0 <= b < cur.len(),
        0 <= n <= cur.len(),
    ensures
        to_come(advance(cur, b), n) == to_come(cur, n) - if b < n {
            1int
        } else {
            0int
        },
    decreases n,
{
    if n > 0 {
        lemma_to_come_advance(cur, b, n - 1);
    }
}

/// One step of the merge: with no head left it is over; else it yields the
/// greatest head and goes on from the advanced cursors.
pub proof fn lemma_merge_step(srcs: Seq<Seq<Post>>, cur: Seq<int>)
    requires
        cursors_ok(srcs, cur),
    ensures
        ({
            let b = best(srcs, cur, srcs.len() as int);
            &&& -1 <= b < srcs.len()
            &&& b < 0 ==> merge_all(srcs, cur) == Seq::<Post>::empty() && to_come(
                cur,
                cur.len() as int,
            ) == 0
            &&& b >= 0 ==> {
                &&& cur[b] > 0
                &&& cursors_ok(srcs, advance(cur, b))
                &&& to_come(advance(cur, b), cur.len() as int) == to_come(cur, cur.len() as int)
                    - 1
                &&& merge_all(srcs, cur) == seq![head_post(srcs, cur, b)] + merge_all(
                    srcs,
                    advance(cur, b),
                )
            }
        }),
{
    let n = srcs.len() as int;
    let b = best(srcs, cur, n);
    lemma_best(srcs, cur, n);
    lemma_to_come_bounds(srcs, cur, n);
    if b < 0 {
        lemma_to_come_zero(cur, n);
    } else {
        lemma_to_come_advance(cur, b, n);
        assert(cur[b] <= to_come(cur, n));
    }
}

/// Cursors that are all zero sum up to zero.
pub proof fn lemma_to_come_zero(cur: Seq<int>, n: int)
    requires
        0 <= n <= cur.len(),
        forall|j: int| 0 <= j < n ==> #[trigger] cur[j] == 0,
    ensures
        to_come(cur, n) == 0,
    decreases n,
{
    if n > 0 {
        lemma_to_come_zero(cur, n - 1);
    }
}

/// The merge yields as many posts as are to come.
pub proof fn lemma_merge_len(srcs: Seq<Seq<Post>>, cur: Seq<int>)
    requires
        cursors_ok(srcs, cur),
    ensures
        merge_all(srcs, cur).len() == to_come(cur, cur.len() as int),
    decreases to_come(cur, cur.len() as int),
{
    lemma_merge_step(srcs, cur);
    lemma_to_come_bounds(srcs, cur, cur.len() as int);
    let b = best(srcs, cur, srcs.len() as int);
    if b >= 0 {
        lemma_to_come_bounds(srcs, advance(cur, b), cur.len() as int);
        lemma_merge_len(srcs, advance(cur, b));
    }
}

/// Whether every source lists its posts from oldest to newest.
pub open spec fn all_ascending(srcs: Seq<Seq<Post>>) -> bool {
    forall|i: int| 0 <= i < srcs.len() ==> ascending(#[trigger] srcs[i])
}

/// Cursors that are nowhere above others sum up to no more, and to as much
/// only where they are the same.
pub proof fn lemma_to_come_le(cur: Seq<int>, cut: Seq<int>, n: int)
    requires
        0 <= n <= cur.len(),
        cut.len() == cur.len(),
        forall|j: int| 0 <= j < n ==> #[trigger] cut[j] <= cur[j],
    ensures
        to_come(cut, n) <= to_come(cur, n),
        to_come(cut, n) == to_come(cur, n) ==> forall|j: int|
            0 <= j < n ==> #[trigger] cut[j] == cur[j],
    decreases n,
{
    if n > 0 {
        lemma_to_come_le(cur, cut, n - 1);
        assert(cut[n - 1] <= cur[n - 1]);
    }
}

/// Every post from `cut` on, in any source, is newer than every post
/// before `cut`, in any source.
pub open spec fn separates(srcs: Seq<Seq<Post>>, cut: Seq<int>) -> bool {
    forall|i: int, a: int, j: int, b: int|
        0 <= i < srcs.len() && cut[i] <= a < srcs[i].len() && 0 <= j < srcs.len() && 0 <= b
            < cut[j] ==> older(#[trigger] srcs[j][b], #[trigger] srcs[i][a])
}

/// A merge that starts above such a cut first yields all that is above it:
/// what it yields after those posts is the merge from the cut.
pub proof fn lemma_merge_jump(srcs: Seq<Seq<Post>>, cur: Seq<int>, cut: Seq<int>)
    requires
        cursors_ok(srcs, cur),
        cursors_ok(srcs, cut),
        forall|j: int| 0 <= j < srcs.len() ==> #[trigger] cut[j] <= cur[j],
        separates(srcs, cut),
    ensures
        0 <= to_come(cur, cur.len() as int) - to_come(cut, cut.len() as int) <= merge_all(
            srcs,
            cur,
        ).len(),
        merge_all(srcs, cur).skip(to_come(cur, cur.len() as int) - to_come(cut, cut.len() as int))
            == merge_all(srcs, cut),
    decreases to_come(cur, cur.len() as int) - to_come(cut, cut.len() as int),
{
    let n = srcs.len() as int;
    lemma_to_come_le(cur, cut, n);
    lemma_merge_len(srcs, cur);
    lemma_to_come_bounds(srcs, cut, n);
    if to_come(cur, n) == to_come(cut, n) {
        assert(cur =~= cut);
        assert(merge_all(srcs, cur).skip(0) =~= merge_all(srcs, cur));
    } else {
        if forall|j: int| 0 <= j < n ==> #[trigger] cut[j] == cur[j] {
            assert(cur =~= cut);
        }
        let i = choose|i: int| 0 <= i < n && #[trigger] cut[i] != cur[i];
        assert(cut[i] <= cur[i]);
        lemma_merge_step(srcs, cur);
        lemma_best(srcs, cur, n);
        let b = best(srcs, cur, n);
        assert(cur[i] > 0);
        assert(entry_le(head(srcs, cur, i), head(srcs, cur, b)));
        assert(cut[b] <= cur[b]);
        if cur[b] == cut[b] {
            assert(older(srcs[b][cur[b] - 1], srcs[i][cur[i] - 1]));
        }
        let next = advance(cur, b);
        assert forall|j: int| 0 <= j < srcs.len() implies #[trigger] cut[j] <= next[j] by {
            assert(cut[j] <= cur[j]);
        }
        lemma_merge_jump(srcs, next, cut);
        let k = to_come(cur, n) - to_come(cut, n);
        let whole = merge_all(srcs, cur);
        let rest = merge_all(srcs, next);
        assert(whole == seq![head_post(srcs, cur, b)] + rest);
        assert(whole.skip(k) =~= rest.skip(k - 1));
    }
}

/// The posts through a day stand before the others in every source, so the
/// cursors of that day separate the sources.
pub proof fn lemma_cut_separates(srcs: Seq<Seq<Post>>, d: int)
    requires
        srcs.len() <= usize::MAX,
        all_ascending(srcs),
    ensures
        cursors_ok(srcs, cut_at(srcs, d)),
        cursors_ok(srcs, full(srcs)),
        forall|j: int| 0 <= j < srcs.len() ==> #[trigger] cut_at(srcs, d)[j] <= full(srcs)[j],
        separates(srcs, cut_at(srcs, d)),
{
    let cut = cut_at(srcs, d);
    lemma_downward_through(d);
    assert forall|i: int| 0 <= i < srcs.len() implies 0 <= #[trigger] cut[i] <= srcs[i].len() by {
        lemma_count_bounds(srcs[i], falls_through(d));
    }
    assert forall|i: int, a: int, j: int, b: int|
        0 <= i < srcs.len() && cut[i] <= a < srcs[i].len() && 0 <= j < srcs.len() && 0 <= b
            < cut[j] implies older(#[trigger] srcs[j][b], #[trigger] srcs[i][a]) by {
        assert(ascending(srcs[i]));
        assert(ascending(srcs[j]));
        lemma_count_prefix(srcs[i], falls_through(d));
        lemma_count_prefix(srcs[j], falls_through(d));
        let x = srcs[j][b];
        let y = srcs[i][a];
        assert(falls_through(d)(x));
        assert(!falls_through(d)(y));
        if x.0 >= y.0 {
            assert(x.0 as int / 86400 >= y.0 as int / 86400) by (nonlinear_arith)
                requires
                    x.0 >= y.0,
            ;
        }
    }
}

/// The sources' totals are the sums of their cursors.
pub proof fn lemma_totals(srcs: Seq<Seq<Post>>, d: int, n: int)
    requires
        0 <= n <= srcs.len(),
    ensures
        total_len(srcs.take(n)) == to_come(full(srcs), n),
        after_day(srcs.take(n), d) == to_come(full(srcs), n) - to_come(cut_at(srcs, d), n),
    decreases n,
{
    if n > 0 {
        lemma_totals(srcs, d, n - 1);
        assert(srcs.take(n).drop_last() =~= srcs.take(n - 1));
        assert(srcs.take(n).last() == srcs[n - 1]);
    }
}

/// The posts that are still to come, as a multiset.
pub open spec fn pool(srcs: Seq<Seq<Post>>, cur: Seq<int>, n: int) -> Multiset<Post>
    decreases n,
{
    if n <= 0 {
        Multiset::empty()
    } else {
        pool(srcs, cur, n - 1).add(srcs[n - 1].take(cur[n - 1]).to_multiset())
    }
}

/// Taking the head of a source takes that post out of the pool, once.
pub proof fn lemma_pool_advance(srcs: Seq<Seq<Post>>, cur: Seq<int>, b: int, n: int)
    requires
        cursors_ok(srcs, cur),
        0 <= b < srcs.len(),
        cur[b] > 0,
        0 <= n <= srcs.len(),
    ensures
        b < n ==> pool(srcs, cur, n).count(head_post(srcs, cur, b)) > 0,
        pool(srcs, advance(cur, b), n) == if b < n {
            pool(srcs, cur, n).remove(head_post(srcs, cur, b))
        } else {
            pool(srcs, cur, n)
        },
    decreases n,
{
    if n > 0 {
        lemma_pool_advance(srcs, cur, b, n - 1);
        let p = head_post(srcs, cur, b);
        let next = advance(cur, b);
        let under = pool(srcs, cur, n - 1);
        let here = srcs[n - 1].take(cur[n - 1]);
        if b == n - 1 {
            let shorter = srcs[b].take(cur[b] - 1);
            assert(shorter =~= here.remove(cur[b] - 1));
            to_multiset_remove(here, cur[b] - 1);
            here.to_multiset_ensures();
            assert(here[cur[b] - 1] == p);
            assert(here.contains(p));
            assert(under.add(here.to_multiset().remove(p)) =~= under.add(
                here.to_multiset(),
            ).remove(p));
        } else if b < n - 1 {
            assert(next[n - 1] == cur[n - 1]);
            assert(under.remove(p).add(here.to_multiset()) =~= under.add(
                here.to_multiset(),
            ).remove(p));
        } else {
            assert(next[n - 1] == cur[n - 1]);
        }
    }
}

/// With all cursors at zero the pool is empty.
pub proof fn lemma_pool_none(srcs: Seq<Seq<Post>>, cur: Seq<int>, n: int)
    requires
        cursors_ok(srcs, cur),
        0 <= n <= srcs.len(),
        forall|j: int| 0 <= j < n ==> #[trigger] cur[j] == 0,
    ensures
        pool(srcs, cur, n) == Multiset::<Post>::empty(),
    decreases n,
{
    if n > 0 {
        lemma_pool_none(srcs, cur, n - 1);
        let here = srcs[n - 1].take(cur[n - 1]);
        assert(cur[n - 1] == 0);
        here.to_multiset_ensures();
        assert(here.to_multiset() =~= Multiset::<Post>::empty());
        assert(pool(srcs, cur, n) =~= Multiset::<Post>::empty());
    }
}

/// The merge yields the posts that are to come, each as often as it is to
/// come.
pub proof fn lemma_merge_pool(srcs: Seq<Seq<Post>>, cur: Seq<int>)
    requires
        cursors_ok(srcs, cur),
    ensures
        merge_all(srcs, cur).to_multiset() == pool(srcs, cur, srcs.len() as int),
    decreases to_come(cur, cur.len() as int),
{
    let n = srcs.len() as int;
    lemma_merge_step(srcs, cur);
    lemma_best(srcs, cur, n);
    lemma_to_come_bounds(srcs, cur, n);
    let b = best(srcs, cur, n);
    if b < 0 {
        lemma_pool_none(srcs, cur, n);
        Seq::<Post>::empty().to_multiset_ensures();
        assert(merge_all(srcs, cur).to_multiset() =~= Multiset::<Post>::empty());
    } else {
        let next = advance(cur, b);
        let p = head_post(srcs, cur, b);
        let rest = merge_all(srcs, next);
        lemma_to_come_bounds(srcs, next, n);
        lemma_merge_pool(srcs, next);
        lemma_pool_advance(srcs, cur, b, n);
        to_multiset_insert(rest, 0, p);
        assert(rest.insert(0, p) =~= seq![p] + rest);
        assert(pool(srcs, cur, n).remove(p).insert(p) =~= pool(srcs, cur, n));
    }
}

/// With every post still to come the pool holds the posts of the sources,
/// each as often as the sources hold it.
pub proof fn lemma_pool_full(srcs: Seq<Seq<Post>>, n: int)
    requires
        0 <= n <= srcs.len(),
    ensures
        pool(srcs, full(srcs), n) == srcs.take(n).flatten_alt().to_multiset(),
    decreases n,
{
    if n == 0 {
        assert(srcs.take(0).flatten_alt() =~= Seq::<Post>::empty());
        Seq::<Post>::empty().to_multiset_ensures();
        assert(Seq::<Post>::empty().to_multiset() =~= Multiset::<Post>::empty());
    } else {
        lemma_pool_full(srcs, n - 1);
        assert(srcs.take(n).drop_last() =~= srcs.take(n - 1));
        assert(srcs.take(n).last() == srcs[n - 1]);
        assert(srcs[n - 1].take(full(srcs)[n - 1]) =~= srcs[n - 1]);
        lemma_multiset_commutative(srcs.take(n - 1).flatten_alt(), srcs[n - 1]);
    }
}

/// `x` is among the posts that are still to come.
pub open spec fn is_to_come(srcs: Seq<Seq<Post>>, cur: Seq<int>, x: Post) -> bool {
    exists|i: int, a: int| 0 <= i < srcs.len() && 0 <= a < cur[i] && #[trigger] srcs[i][a] == x
}

/// The merge lists posts newest first, and only posts that are to come.
pub proof fn lemma_merge_sorted(srcs: Seq<Seq<Post>>, cur: Seq<int>)
    requires
        cursors_ok(srcs, cur),
        all_ascending(srcs),
    ensures
        sorted_by(merge_all(srcs, cur), newer_or_same()),
        forall|k: int|
            0 <= k < merge_all(srcs, cur).len() ==> is_to_come(
                srcs,
                cur,
                #[trigger] merge_all(srcs, cur)[k],
            ),
    decreases to_come(cur, cur.len() as int),
{
    let n = srcs.len() as int;
    lemma_merge_step(srcs, cur);
    lemma_best(srcs, cur, n);
    lemma_to_come_bounds(srcs, cur, n);
    let b = best(srcs, cur, n);
    if b >= 0 {
        let next = advance(cur, b);
        let p = head_post(srcs, cur, b);
        let rest = merge_all(srcs, next);
        let whole = merge_all(srcs, cur);
        lemma_to_come_bounds(srcs, next, n);
        lemma_merge_sorted(srcs, next);
        assert(whole == seq![p] + rest);
        assert forall|k: int| 0 <= k < whole.len() implies is_to_come(
            srcs,
            cur,
            #[trigger] whole[k],
        ) && older_or_same(whole[k], p) by {
            if k == 0 {
                assert(srcs[b][cur[b] - 1] == p);
            } else {
                assert(whole[k] == rest[k - 1]);
                assert(is_to_come(srcs, next, rest[k - 1]));
                let (i, a) = choose|i: int, a: int|
                    0 <= i < srcs.len() && 0 <= a < next[i] && #[trigger] srcs[i][a] == rest[k
                        - 1];
                assert(a < cur[i]);
                assert(srcs[i][a] == whole[k]);
                assert(ascending(srcs[i]));
                if a < cur[i] - 1 {
                    assert(older(srcs[i][a], srcs[i][cur[i] - 1]));
                }
                assert(cur[i] > 0);
                assert(entry_le(head(srcs, cur, i), head(srcs, cur, b)));
            }
        }
        assert forall|x: int, y: int| 0 <= x < y < whole.len() implies #[trigger] newer_or_same()(
            whole[x],
            whole[y],
        ) by {
            if x > 0 {
                assert(newer_or_same()(rest[x - 1], rest[y - 1]));
            }
        }
    }
}

/// Newest first is a total order of posts.
pub proof fn lemma_newer_is_total()
    ensures
        total_ordering(newer_or_same()),
{
    let r = newer_or_same();
    assert forall|x: Post, y: Post| #[trigger] r(x, y) || #[trigger] r(y, x) by {}
    assert forall|x: Post, y: Post| #[trigger] r(x, y) && #[trigger] r(y, x) implies x == y by {}
    assert forall|x: Post, y: Post, z: Post| #[trigger] r(x, y) && #[trigger] r(y, z) implies r(
        x,
        z,
    ) by {}
    assert forall|x: Post| #[trigger] r(x, x) by {}
}

/// The feed lists the posts of the sources newest first, each as often as
/// the sources hold it.
pub proof fn lemma_feed_sorted(srcs: Seq<Seq<Post>>)
    ensures
        sorted_by(feed(srcs), newer_or_same()),
        feed(srcs).to_multiset() == srcs.flatten().to_multiset(),
{
    lemma_newer_is_total();
    srcs.flatten().lemma_sort_by_ensures(newer_or_same());
}

/// The feed is what the merge of all posts yields: the k-way merge sorts
/// the posts of ascending sources newest first and loses none.
pub proof fn lemma_feed_is_merge(srcs: Seq<Seq<Post>>)
    requires
        srcs.len() <= usize::MAX,
        all_ascending(srcs),
    ensures
        feed(srcs) == merge_all(srcs, full(srcs)),
        feed(srcs).len() == total_len(srcs),
{
    let n = srcs.len() as int;
    let cur = full(srcs);
    let merged = merge_all(srcs, cur);
    let flat = srcs.flatten();
    lemma_newer_is_total();
    flat.lemma_sort_by_ensures(newer_or_same());
    lemma_merge_sorted(srcs, cur);
    lemma_merge_pool(srcs, cur);
    lemma_pool_full(srcs, n);
    assert(srcs.take(n) =~= srcs);
    srcs.lemma_flatten_and_flatten_alt_are_equivalent();
    lemma_sorted_unique(merged, feed(srcs), newer_or_same());
    lemma_merge_len(srcs, cur);
    lemma_totals(srcs, 0, n);
}

/// The sources laid end to end are as long as the sources together.
pub proof fn lemma_flatten_len(srcs: Seq<Seq<Post>>)
    ensures
        srcs.flatten_alt().len() == total_len(srcs),
    decreases srcs.len(),
{
    if srcs.len() > 0 {
        lemma_flatten_len(srcs.drop_last());
    }
}

/// The feed holds as many posts as the sources together.
pub proof fn lemma_feed_len(srcs: Seq<Seq<Post>>)
    ensures
        feed(srcs).len() == total_len(srcs),
        ids(feed(srcs)).len() == total_len(srcs),
{
    let flat = srcs.flatten();
    lemma_newer_is_total();
    flat.lemma_sort_by_ensures(newer_or_same());
    flat.to_multiset_ensures();
    feed(srcs).to_multiset_ensures();
    srcs.lemma_flatten_and_flatten_alt_are_equivalent();
    lemma_flatten_len(srcs);
}

/// A page of one post at offset `k` holds the entry at position `k` of the
/// page that starts at offset 0 and takes all posts; behind the last post
/// it is empty.
pub proof fn lemma_page_single(srcs: Seq<Seq<Post>>, k: int)
    requires
        0 <= k,
    ensures
        page(srcs, 0, total_len(srcs)) == ids(feed(srcs)),
        k < total_len(srcs) ==> page(srcs, k, 1) == seq![page(srcs, 0, total_len(srcs))[k]],
        k >= total_len(srcs) ==> page(srcs, k, 1) == Seq::<PostId>::empty(),
{
    lemma_feed_len(srcs);
    let all = ids(feed(srcs));
    assert(page(srcs, 0, total_len(srcs)) =~= all);
    if k < total_len(srcs) {
        assert(page(srcs, k, 1) =~= seq![all[k]]);
    } else {
        assert(page(srcs, k, 1) =~= Seq::<PostId>::empty());
    }
}

} // verus!
