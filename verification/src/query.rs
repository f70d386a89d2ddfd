//! Paginated queries over several sources: the jump to a day near the
//! offset, then the merge from that day on.

use crate::feed::{after_day, feed, ids, page, total_len};
use crate::idx::Index;
use crate::order::{
    day_of, falls_through, lemma_count_all, lemma_count_bounds, through_day, Post, PostId,
};
use crate::reader::{all_wf, listings, MergeReader};
use vstd::prelude::*;

verus! {

/// How far short of the offset the jump may land: the most posts that a
/// query skips one by one after it.
pub const LEEWAY: usize = 128;

/// The greatest number of days that any of the indexes has counters for.
pub open spec fn max_days(indexes: Seq<&Index>) -> int
    decreases indexes.len(),
{
    if indexes.len() == 0 {
        0
    } else {
        let rest = max_days(indexes.drop_last());
        let days = indexes.last().day_counts().len() as int;
        if days > rest {
            days
        } else {
            rest
        }
    }
}

/// The posts after day `day` are at most `offset`, and short of it by at
/// most the leeway.
pub open spec fn within_leeway(srcs: Seq<Seq<Post>>, offset: int, day: int) -> bool {
    after_day(srcs, day) <= offset <= after_day(srcs, day) + LEEWAY
}

/// The day at which the binary search over the days `l..r` ends: a day
/// within the leeway that it probes, or the day at which the interval
/// closes.
pub open spec fn search(srcs: Seq<Seq<Post>>, offset: int, l: int, r: int) -> int
    decreases r - l,
{
    if l >= r {
        l
    } else {
        let m = (l + r) / 2;
        if within_leeway(srcs, offset, m) {
            m
        } else if after_day(srcs, m) > offset {
            search(srcs, offset, m + 1, r)
        } else {
            search(srcs, offset, l, m)
        }
    }
}

/// The day from which a query at `offset` walks down, for sources with
/// counters for at most `days` days.
pub open spec fn cut_day(srcs: Seq<Seq<Post>>, days: int, offset: int) -> int {
    if days == 0 || offset <= LEEWAY {
        days
    } else {
        search(srcs, offset, 0, days)
    }
}

/// The later the day, the more posts fall through it.
pub proof fn lemma_through_monotone(s: Seq<Post>, d1: int, d2: int)
    requires
        d1 <= d2,
    ensures
        through_day(s, d1) <= through_day(s, d2),
    decreases s.len(),
{
    if s.len() > 0 {
        lemma_through_monotone(s.drop_last(), d1, d2);
    }
}

/// The later the day, the fewer posts come after it.
pub proof fn lemma_after_day_monotone(srcs: Seq<Seq<Post>>, d1: int, d2: int)
    requires
        d1 <= d2,
    ensures
        after_day(srcs, d2) <= after_day(srcs, d1),
    decreases srcs.len(),
{
    if srcs.len() > 0 {
        lemma_after_day_monotone(srcs.drop_last(), d1, d2);
        lemma_through_monotone(srcs.last(), d1, d2);
    }
}

/// The posts after a day are some of the posts.
pub proof fn lemma_after_day_bounds(srcs: Seq<Seq<Post>>, d: int)
    ensures
        0 <= after_day(srcs, d) <= total_len(srcs),
    decreases srcs.len(),
{
    if srcs.len() > 0 {
        lemma_after_day_bounds(srcs.drop_last(), d);
        lemma_count_bounds(srcs.last(), falls_through(d));
    }
}

/// The first sources hold at most as many posts as all of them, and one
/// source more adds its own.
pub proof fn lemma_total_prefix(srcs: Seq<Seq<Post>>, i: int)
    requires
        0 <= i <= srcs.len(),
    ensures
        0 <= total_len(srcs.take(i)) <= total_len(srcs),
        i < srcs.len() ==> total_len(srcs.take(i + 1)) == total_len(srcs.take(i)) + srcs[i].len(),
    decreases srcs.len() - i,
{
    if i == srcs.len() {
        assert(srcs.take(i) =~= srcs);
        lemma_after_day_bounds(srcs, 0);
    } else {
        lemma_total_prefix(srcs, i + 1);
        assert(srcs.take(i + 1).drop_last() =~= srcs.take(i));
        lemma_after_day_bounds(srcs.take(i), 0);
    }
}

/// No post of well-formed indexes falls on a day for which none of them
/// has a counter.
pub proof fn lemma_after_day_zero(indexes: Seq<&Index>, d: int)
    requires
        all_wf(indexes),
        d >= max_days(indexes) - 1,
    ensures
        after_day(listings(indexes), d) == 0,
    decreases indexes.len(),
{
    if indexes.len() > 0 {
        let srcs = listings(indexes);
        let s = indexes.last().ordered();
        assert(srcs.drop_last() =~= listings(indexes.drop_last()));
        assert(srcs.last() == s);
        assert(indexes.last().wf());
        assert forall|i: int| 0 <= i < indexes.drop_last().len() implies (
        #[trigger] indexes.drop_last()[i]).wf() by {
            assert(indexes[i].wf());
        }
        lemma_after_day_zero(indexes.drop_last(), d);
        assert forall|i: int| 0 <= i < s.len() implies falls_through(d)(#[trigger] s[i]) by {
            assert(day_of(s[i].0) < indexes.last().day_counts().len());
        }
        lemma_count_all(s, falls_through(d));
    }
}

/// The greatest number of days that any of the indexes has counters for.
fn max_len<'a>(indexes: &'a Vec<&'a Index>) -> (right: usize)
    ensures
        right == max_days(indexes@),
{
    let mut right: usize = 0;
    let mut i: usize = 0;
    let n = indexes.len();
    assert(indexes@.take(0) =~= Seq::<&Index>::empty());
    while i < n
        invariant
            i <= n,
            n == indexes@.len(),
            right == max_days(indexes@.take(i as int)),
        decreases n - i,
    {
        let days = indexes[i].days();
        proof {
            assert(indexes@.take(i + 1).drop_last() =~= indexes@.take(i as int));
            assert(indexes@.take(i + 1).last() == indexes@[i as int]);
        }
        if days > right {
            right = days;
        }
        i += 1;
    }
    assert(indexes@.take(n as int) =~= indexes@);
    right
}

/// The number of posts, over all indexes, that fall on a later day than `m`.
fn offset_value<'a>(indexes: &'a Vec<&'a Index>, m: usize) -> (v: usize)
    requires
        all_wf(indexes@),
        total_len(listings(indexes@)) <= usize::MAX,
    ensures
        v == after_day(listings(indexes@), m as int),
{
    let ghost srcs = listings(indexes@);
    let mut v: usize = 0;
    let mut i: usize = 0;
    let n = indexes.len();
    assert(srcs.take(0) =~= Seq::<Seq<Post>>::empty());
    while i < n
        invariant
            i <= n,
            n == indexes@.len(),
            all_wf(indexes@),
            srcs == listings(indexes@),
            total_len(srcs) <= usize::MAX,
            v == after_day(srcs.take(i as int), m as int),
        decreases n - i,
    {
        proof {
            assert(indexes@[i as int].wf());
            assert(srcs.take(i + 1).drop_last() =~= srcs.take(i as int));
            assert(srcs.take(i + 1).last() == srcs[i as int]);
            lemma_after_day_bounds(srcs.take(i + 1), m as int);
            lemma_total_prefix(srcs, i + 1);
        }
        v = v + indexes[i].query_right(m);
        i += 1;
    }
    assert(srcs.take(n as int) =~= srcs);
    v
}

/// Finds the day from which to walk down for a query at `offset`, and the
/// number of posts that fall on later days: those the walk need not visit.
///
/// At small offsets and for sources without counters the day lies above
/// every post. Else a binary search over the days looks for one after which
/// at most `offset` posts come, and at least `offset - LEEWAY`; without such
/// a day it ends at the first day after which at most `offset` posts come.
pub fn offset_to_day<'a>(indexes: &'a Vec<&'a Index>, offset: usize) -> (cut: (usize, usize))
    requires
        all_wf(indexes@),
        total_len(listings(indexes@)) <= usize::MAX,
    ensures
        cut.0 == cut_day(listings(indexes@), max_days(indexes@), offset as int),
        cut.0 <= max_days(indexes@),
        cut.1 == after_day(listings(indexes@), cut.0 as int),
        cut.1 <= offset,
        offset > LEEWAY && (exists|m: int|
            0 <= m < max_days(indexes@) && within_leeway(listings(indexes@), offset as int, m))
            ==> offset - cut.1 <= LEEWAY,
        offset > LEEWAY && !(exists|m: int|
            0 <= m < max_days(indexes@) && within_leeway(listings(indexes@), offset as int, m))
            ==> forall|m: int|
            0 <= m < cut.0 ==> #[trigger] after_day(listings(indexes@), m) > offset,
{
    let ghost srcs = listings(indexes@);
    let right = max_len(indexes);
    proof {
        lemma_after_day_zero(indexes@, right as int);
    }
    if right == 0 || offset <= LEEWAY {
        return (right, 0);
    }
    let mut l: usize = 0;
    let mut r: usize = right;
    while l < r
        invariant
            l <= r <= right,
            right == max_days(indexes@),
            all_wf(indexes@),
            srcs == listings(indexes@),
            total_len(srcs) <= usize::MAX,
            offset > LEEWAY,
            search(srcs, offset as int, 0, right as int) == search(
                srcs,
                offset as int,
                l as int,
                r as int,
            ),
            after_day(srcs, r as int) + LEEWAY < offset,
            forall|m: int|
                0 <= m < right && #[trigger] within_leeway(srcs, offset as int, m) ==> l <= m < r,
            forall|m: int| 0 <= m < l ==> #[trigger] after_day(srcs, m) > offset,
        decreases r - l,
    {
        let m = l + (r - l) / 2;
        let mv = offset_value(indexes, m);
        assert(m == (l + r) / 2);
        if mv <= offset && offset - mv <= LEEWAY {
            return (m, mv);
        }
        if mv > offset {
            proof {
                assert forall|k: int|
                    0 <= k < right && #[trigger] within_leeway(srcs, offset as int, k) implies m
                    + 1 <= k < r by {
                    if k <= m {
                        lemma_after_day_monotone(srcs, k, m as int);
                    }
                }
                assert forall|k: int| 0 <= k < m + 1 implies #[trigger] after_day(srcs, k)
                    > offset by {
                    lemma_after_day_monotone(srcs, k, m as int);
                }
            }
            l = m + 1;
        } else {
            proof {
                assert forall|k: int|
                    0 <= k < right && #[trigger] within_leeway(srcs, offset as int, k) implies l
                    <= k < m by {
                    if k >= m {
                        lemma_after_day_monotone(srcs, m as int, k);
                    }
                }
            }
            r = m;
        }
    }
    (l, offset_value(indexes, l))
}

/// The ids of the posts at positions `offset..offset + len` of the merged
/// feed of `indexes`, newest first; fewer where the feed ends before.
pub fn get_posts_for_offset<'a>(indexes: &'a Vec<&'a Index>, offset: usize, len: usize) -> (posts:
    Vec<PostId>)
    requires
        all_wf(indexes@),
        total_len(listings(indexes@)) <= usize::MAX,
    ensures
        posts@ == page(listings(indexes@), offset as int, len as int),
{
    let ghost srcs = listings(indexes@);
    let ghost all = feed(srcs);
    let (day, prev_offset) = offset_to_day(indexes, offset);
    let mut reader = MergeReader::start(indexes, day);
    let posts = reader.stream(offset - prev_offset, len);
    proof {
        let rest = all.skip(prev_offset as int);
        assert(ids(rest) =~= ids(all).skip(prev_offset as int));
        assert(posts@ =~= page(srcs, offset as int, len as int));
    }
    posts
}

} // verus!
