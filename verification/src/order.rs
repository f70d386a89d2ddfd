//! Posts, their order, and counting over ordered listings of posts.

use vstd::prelude::*;

verus! {

/// Identifies a post within its source.
pub type PostId = usize;

/// Timestamp of a post, in seconds.
pub type PostTS = usize;

/// A post: its timestamp, then its id. Posts are ordered by timestamp and,
/// among equal timestamps, by id.
pub type Post = (PostTS, PostId);

/// Seconds in a day, the bucket by which posts are counted.
pub const DAY_SECONDS: usize = 86400;

/// The day on which a timestamp falls.
pub open spec fn day_of(ts: PostTS) -> int {
    ts as int / 86400
}

/// `a` comes strictly before `b`.
pub open spec fn older(a: Post, b: Post) -> bool {
    a.0 < b.0 || (a.0 == b.0 && a.1 < b.1)
}

/// `a` comes before `b` or is `b`.
pub open spec fn older_or_same(a: Post, b: Post) -> bool {
    older(a, b) || a == b
}

/// `s` lists posts from oldest to newest, none of them twice.
pub open spec fn ascending(s: Seq<Post>) -> bool {
    forall|i: int, j: int| 0 <= i < j < s.len() ==> #[trigger] older(s[i], s[j])
}

/// `s` holds exactly the posts of `m`, a map from id to timestamp.
pub open spec fn lists(s: Seq<Post>, m: Map<PostId, PostTS>) -> bool {
    forall|p: Post| #[trigger] s.contains(p) <==> m.contains_key(p.1) && m[p.1] == p.0
}

/// The posts that fall on day `d`.
pub open spec fn falls_on(d: int) -> spec_fn(Post) -> bool {
    |p: Post| day_of(p.0) == d
}

/// The posts that fall on day `d` or earlier.
pub open spec fn falls_through(d: int) -> spec_fn(Post) -> bool {
    |p: Post| day_of(p.0) <= d
}

/// The posts strictly before `bound`.
pub open spec fn before(bound: Post) -> spec_fn(Post) -> bool {
    |p: Post| older(p, bound)
}

/// With a post, `f` holds every older one.
pub open spec fn downward(f: spec_fn(Post) -> bool) -> bool {
    forall|a: Post, b: Post| older(a, b) && #[trigger] f(b) ==> #[trigger] f(a)
}

/// How many entries of `s` satisfy `f`.
pub open spec fn count_if(s: Seq<Post>, f: spec_fn(Post) -> bool) -> nat
    decreases s.len(),
{
    if s.len() == 0 {
        0
    } else {
        count_if(s.drop_last(), f) + if f(s.last()) {
            1nat
        } else {
            0nat
        }
    }
}

/// How many posts of `s` fall on day `d`.
pub open spec fn on_day(s: Seq<Post>, d: int) -> nat {
    count_if(s, falls_on(d))
}

/// How many posts of `s` fall on day `d` or earlier.
pub open spec fn through_day(s: Seq<Post>, d: int) -> nat {
    count_if(s, falls_through(d))
}

/// How many posts of `s` come strictly before `bound`.
pub open spec fn below(s: Seq<Post>, bound: Post) -> nat {
    count_if(s, before(bound))
}

/// A count over a listing is at most its length.
pub proof fn lemma_count_bounds(s: Seq<Post>, f: spec_fn(Post) -> bool)
    ensures
        count_if(s, f) <= s.len(),
    decreases s.len(),
{
    if s.len() > 0 {
        lemma_count_bounds(s.drop_last(), f);
    }
}

/// The count over two listings joined is the sum of their counts.
pub proof fn lemma_count_concat(a: Seq<Post>, b: Seq<Post>, f: spec_fn(Post) -> bool)
    ensures
        count_if(a + b, f) == count_if(a, f) + count_if(b, f),
    decreases b.len(),
{
    if b.len() == 0 {
        assert(a + b =~= a);
    } else {
        assert((a + b).drop_last() =~= a + b.drop_last());
        assert((a + b).last() == b.last());
        lemma_count_concat(a, b.drop_last(), f);
    }
}

/// The count over a single post is one where the post satisfies `f`.
pub proof fn lemma_count_one(p: Post, f: spec_fn(Post) -> bool)
    ensures
        count_if(seq![p], f) == if f(p) {
            1nat
        } else {
            0nat
        },
{
    assert(seq![p].drop_last() =~= Seq::<Post>::empty());
    assert(count_if(seq![p].drop_last(), f) == 0);
}

/// Putting a post into a listing raises the count by one where the post
/// satisfies `f`.
pub proof fn lemma_count_insert(s: Seq<Post>, i: int, p: Post, f: spec_fn(Post) -> bool)
    requires
        0 <= i <= s.len(),
    ensures
        count_if(s.insert(i, p), f) == count_if(s, f) + if f(p) {
            1nat
        } else {
            0nat
        },
{
    let a = s.subrange(0, i);
    let b = s.subrange(i, s.len() as int);
    assert(s =~= a + b);
    assert(s.insert(i, p) =~= (a + seq![p]) + b);
    lemma_count_concat(a, b, f);
    lemma_count_concat(a + seq![p], b, f);
    lemma_count_concat(a, seq![p], f);
    lemma_count_one(p, f);
}

/// Taking a post out of a listing lowers the count by one where the post
/// satisfies `f`.
pub proof fn lemma_count_remove(s: Seq<Post>, i: int, f: spec_fn(Post) -> bool)
    requires
        0 <= i < s.len(),
    ensures
        count_if(s.remove(i), f) + (if f(s[i]) {
            1nat
        } else {
            0nat
        }) == count_if(s, f),
{
    let r = s.remove(i);
    assert(r.insert(i, s[i]) =~= s);
    lemma_count_insert(r, i, s[i], f);
}

/// Where every entry satisfies `f`, the count is the length.
pub proof fn lemma_count_all(s: Seq<Post>, f: spec_fn(Post) -> bool)
    requires
        forall|i: int| 0 <= i < s.len() ==> f(#[trigger] s[i]),
    ensures
        count_if(s, f) == s.len(),
    decreases s.len(),
{
    if s.len() > 0 {
        let t = s.drop_last();
        assert forall|i: int| 0 <= i < t.len() implies f(#[trigger] t[i]) by {
            assert(t[i] == s[i]);
        }
        lemma_count_all(t, f);
    }
}

/// Where no entry satisfies `f`, the count is zero.
pub proof fn lemma_count_none(s: Seq<Post>, f: spec_fn(Post) -> bool)
    requires
        forall|i: int| 0 <= i < s.len() ==> !f(#[trigger] s[i]),
    ensures
        count_if(s, f) == 0,
    decreases s.len(),
{
    if s.len() > 0 {
        let t = s.drop_last();
        assert forall|i: int| 0 <= i < t.len() implies !f(#[trigger] t[i]) by {
            assert(t[i] == s[i]);
        }
        lemma_count_none(t, f);
    }
}

/// In an ascending listing the posts that satisfy a downward `f` are the
/// first `count_if(s, f)` ones.
pub proof fn lemma_count_prefix(s: Seq<Post>, f: spec_fn(Post) -> bool)
    requires
        ascending(s),
        downward(f),
    ensures
        count_if(s, f) <= s.len(),
        forall|i: int| 0 <= i < s.len() ==> (f(#[trigger] s[i]) <==> i < count_if(s, f)),
    decreases s.len(),
{
    lemma_count_bounds(s, f);
    if s.len() > 0 {
        let t = s.drop_last();
        assert forall|i: int, j: int| 0 <= i < j < t.len() implies #[trigger] older(
            t[i],
            t[j],
        ) by {
            assert(older(s[i], s[j]));
        }
        lemma_count_prefix(t, f);
        if f(s.last()) {
            assert forall|i: int| 0 <= i < s.len() implies f(#[trigger] s[i]) by {
                if i < s.len() - 1 {
                    assert(older(s[i], s[s.len() - 1]));
                }
            }
            lemma_count_all(s, f);
        } else {
            assert forall|i: int| 0 <= i < s.len() implies (f(#[trigger] s[i]) <==> i < count_if(
                s,
                f,
            )) by {
                if i < t.len() {
                    assert(t[i] == s[i]);
                }
            }
        }
    }
}

/// A post older than one that falls through day `d` falls through it too.
pub proof fn lemma_downward_through(d: int)
    ensures
        downward(falls_through(d)),
{
    let f = falls_through(d);
    assert forall|a: Post, b: Post| older(a, b) && #[trigger] f(b) implies #[trigger] f(a) by {
        assert(a.0 <= b.0);
        assert(a.0 as int / 86400 <= b.0 as int / 86400) by (nonlinear_arith)
            requires
                a.0 <= b.0,
        ;
    }
}

/// A post older than one that comes before `bound` comes before it too.
pub proof fn lemma_downward_before(bound: Post)
    ensures
        downward(before(bound)),
{
}

/// Each post that falls through day `d` falls on `d` or through the day
/// before it.
pub proof fn lemma_through_step(s: Seq<Post>, d: int)
    ensures
        through_day(s, d) == through_day(s, d - 1) + on_day(s, d),
    decreases s.len(),
{
    if s.len() > 0 {
        lemma_through_step(s.drop_last(), d);
    }
}

/// No post falls before day zero.
pub proof fn lemma_through_negative(s: Seq<Post>, d: int)
    requires
        d < 0,
    ensures
        through_day(s, d) == 0,
    decreases s.len(),
{
    if s.len() > 0 {
        lemma_through_negative(s.drop_last(), d);
        assert(s.last().0 as int / 86400 >= 0);
    }
}

/// A post falls through day `d` exactly if it comes before the first
/// moment of the next day.
pub proof fn lemma_through_is_below(s: Seq<Post>, d: int, first_key: PostTS)
    requires
        0 <= d,
        first_key == (d + 1) * 86400,
    ensures
        through_day(s, d) == below(s, (first_key, 0)),
    decreases s.len(),
{
    if s.len() > 0 {
        lemma_through_is_below(s.drop_last(), d, first_key);
        let t = s.last().0 as int;
        assert((t / 86400 <= d) <==> t < (d + 1) * 86400) by (nonlinear_arith)
            requires
                0 <= t,
                0 <= d,
        ;
    }
}

/// Putting a new post at the place that its rank gives keeps a listing
/// ascending and adds that post to it, nothing else.
pub proof fn lemma_insert_ascending(s: Seq<Post>, p: Post)
    requires
        ascending(s),
        !s.contains(p),
    ensures
        below(s, p) <= s.len(),
        ascending(s.insert(below(s, p) as int, p)),
        forall|q: Post| #[trigger]
            s.insert(below(s, p) as int, p).contains(q) <==> s.contains(q) || q == p,
{
    let k = below(s, p) as int;
    let t = s.insert(k, p);
    lemma_downward_before(p);
    lemma_count_prefix(s, before(p));
    assert forall|i: int, j: int| 0 <= i < j < t.len() implies #[trigger] older(t[i], t[j]) by {
        if j < k {
            assert(older(s[i], s[j]));
        } else if j == k {
            assert(before(p)(s[i]));
        } else if i < k {
            assert(older(s[i], s[j - 1]));
        } else if i == k {
            assert(!before(p)(s[j - 1]));
            assert(s.contains(s[j - 1]));
        } else {
            assert(older(s[i - 1], s[j - 1]));
        }
    }
    assert forall|q: Post| #[trigger] t.contains(q) <==> s.contains(q) || q == p by {
        if t.contains(q) {
            let i = choose|i: int| 0 <= i < t.len() && t[i] == q;
            if i < k {
                assert(s[i] == q);
            } else if i > k {
                assert(s[i - 1] == q);
            }
        }
        if s.contains(q) {
            let i = choose|i: int| 0 <= i < s.len() && s[i] == q;
            if i < k {
                assert(t[i] == q);
            } else {
                assert(t[i + 1] == q);
            }
        }
        if q == p {
            assert(t[k] == q);
        }
    }
}

/// Taking the entry at `j` out of an ascending listing keeps it ascending
/// and removes that post from it, nothing else.
pub proof fn lemma_remove_ascending(s: Seq<Post>, j: int)
    requires
        ascending(s),
        0 <= j < s.len(),
    ensures
        ascending(s.remove(j)),
        forall|q: Post| #[trigger] s.remove(j).contains(q) <==> s.contains(q) && q != s[j],
{
    let t = s.remove(j);
    assert forall|a: int, b: int| 0 <= a < b < t.len() implies #[trigger] older(t[a], t[b]) by {
        let a0 = if a < j { a } else { a + 1 };
        let b0 = if b < j { b } else { b + 1 };
        assert(older(s[a0], s[b0]));
    }
    assert forall|q: Post| #[trigger] t.contains(q) <==> s.contains(q) && q != s[j] by {
        if t.contains(q) {
            let i = choose|i: int| 0 <= i < t.len() && t[i] == q;
            let i0 = if i < j { i } else { i + 1 };
            assert(s[i0] == q);
            if i0 < j {
                assert(older(s[i0], s[j]));
            } else {
                assert(older(s[j], s[i0]));
            }
        }
        if s.contains(q) && q != s[j] {
            let i = choose|i: int| 0 <= i < s.len() && s[i] == q;
            if i < j {
                assert(t[i] == q);
            } else {
                assert(t[i - 1] == q);
            }
        }
    }
}

/// The newest post that comes before `bound` stands just under the rank of
/// `bound`.
pub proof fn lemma_newest_below(s: Seq<Post>, bound: Post, i: int)
    requires
        ascending(s),
        0 <= i < s.len(),
        older(s[i], bound),
        forall|j: int|
            0 <= j < s.len() && older(#[trigger] s[j], bound) ==> older_or_same(s[j], s[i]),
    ensures
        i == below(s, bound) - 1,
{
    let k = below(s, bound) as int;
    lemma_downward_before(bound);
    lemma_count_prefix(s, before(bound));
    assert(before(bound)(s[i]));
    if i < k - 1 {
        assert(before(bound)(s[k - 1]));
        assert(older(s[i], s[k - 1]));
    }
}

/// In an ascending listing as many posts come before an entry as its
/// position says.
pub proof fn lemma_rank_of_entry(s: Seq<Post>, k: int)
    requires
        ascending(s),
        0 <= k < s.len(),
    ensures
        below(s, s[k]) == k,
{
    let f = before(s[k]);
    lemma_downward_before(s[k]);
    lemma_count_prefix(s, f);
    let c = below(s, s[k]) as int;
    if c > k {
        assert(f(s[k]));
    }
    if c < k {
        assert(older(s[c], s[k]));
        assert(f(s[c]));
    }
}

/// A map from id to timestamp has one ascending listing.
pub proof fn lemma_listing_unique(a: Seq<Post>, b: Seq<Post>, m: Map<PostId, PostTS>)
    requires
        ascending(a),
        ascending(b),
        lists(a, m),
        lists(b, m),
    ensures
        a == b,
    decreases a.len(),
{
    if a.len() == 0 {
        if b.len() > 0 {
            assert(b.contains(b[0]));
            assert(a.contains(b[0]));
        }
        assert(a =~= b);
    } else {
        let top = a.last();
        assert(a.contains(top));
        assert(b.contains(top));
        let i = choose|i: int| 0 <= i < b.len() && b[i] == top;
        if i < b.len() - 1 {
            let above = b[b.len() - 1];
            assert(older(b[i], above));
            assert(b.contains(above));
            assert(a.contains(above));
            let j = choose|j: int| 0 <= j < a.len() && a[j] == above;
            if j < a.len() - 1 {
                assert(older(a[j], a[a.len() - 1]));
            }
        }
        assert(b.last() == top);
        let a1 = a.drop_last();
        let b1 = b.drop_last();
        let m1 = m.remove(top.1);
        assert(a1 =~= a.remove(a.len() - 1));
        assert(b1 =~= b.remove(b.len() - 1));
        lemma_remove_ascending(a, a.len() - 1);
        lemma_remove_ascending(b, b.len() - 1);
        assert forall|p: Post| #[trigger] a1.contains(p) <==> m1.contains_key(p.1) && m1[p.1]
            == p.0 by {
            assert(a.contains(p) <==> m.contains_key(p.1) && m[p.1] == p.0);
        }
        assert forall|p: Post| #[trigger] b1.contains(p) <==> m1.contains_key(p.1) && m1[p.1]
            == p.0 by {
            assert(b.contains(p) <==> m.contains_key(p.1) && m[p.1] == p.0);
        }
        lemma_listing_unique(a1, b1, m1);
        assert(a =~= a1.push(top));
        assert(b =~= b1.push(top));
    }
}

} // verus!
