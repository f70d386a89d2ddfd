//! The named sources of a process and the operations that a front end
//! offers on them: update, remove, query, total, clear.

use crate::feed::{page, total_len};
use crate::idx::Index;
use crate::order::{ascending, lists, Post, PostId, PostTS};
use crate::query::{get_posts_for_offset, lemma_total_prefix};
use crate::reader::{all_wf, listings};
use vstd::prelude::*;

verus! {

/// The posts of each source, by its name and then by id.
pub type Store = Map<Seq<char>, Map<PostId, PostTS>>;

/// Posts to add to a source, or to take out of it.
pub struct Batch {
    pub subsite: String,
    pub posts: Vec<Post>,
}

/// A page of the merged feed of some sources.
pub struct Query {
    pub subsites: Vec<String>,
    pub offset: usize,
    pub limit: usize,
}

/// The answer to a [`Query`].
pub struct QueryResponse {
    /// The ids of the posts on the page, newest first.
    pub post_ids: Vec<PostId>,
    /// The number of posts in the sources that were asked for and exist.
    pub total: usize,
    /// Whether the registry has no source at all.
    pub cache_is_empty: bool,
}

impl View for Batch {
    type V = (Seq<char>, Seq<Post>);

    open spec fn view(&self) -> (Seq<char>, Seq<Post>) {
        (self.subsite@, self.posts@)
    }
}

/// The views of a run of batches.
pub open spec fn batch_views(batches: Seq<Batch>) -> Seq<(Seq<char>, Seq<Post>)> {
    Seq::new(batches.len(), |i: int| batches[i]@)
}

/// The names that a run of strings holds.
pub open spec fn name_views(names: Seq<String>) -> Seq<Seq<char>> {
    Seq::new(names.len(), |i: int| names[i]@)
}

/// The posts of a source of the store; none where the store has no such
/// source.
pub open spec fn source_of(store: Store, name: Seq<char>) -> Map<PostId, PostTS> {
    if store.contains_key(name) {
        store[name]
    } else {
        Map::empty()
    }
}

/// `m` after each of `posts` was added in turn: a later post replaces an
/// earlier one of the same id.
pub open spec fn add_posts(m: Map<PostId, PostTS>, posts: Seq<Post>) -> Map<PostId, PostTS>
    decreases posts.len(),
{
    if posts.len() == 0 {
        m
    } else {
        add_posts(m, posts.drop_last()).insert(posts.last().1, posts.last().0)
    }
}

/// `m` after the ids of `posts` were taken out.
pub open spec fn remove_posts(m: Map<PostId, PostTS>, posts: Seq<Post>) -> Map<PostId, PostTS>
    decreases posts.len(),
{
    if posts.len() == 0 {
        m
    } else {
        remove_posts(m, posts.drop_last()).remove(posts.last().1)
    }
}

/// The store after the batches were applied in turn by `update`: a source
/// that a batch names exists afterwards, with the posts of the batch added.
pub open spec fn updated(store: Store, batches: Seq<(Seq<char>, Seq<Post>)>) -> Store
    decreases batches.len(),
{
    if batches.len() == 0 {
        store
    } else {
        let prev = updated(store, batches.drop_last());
        let batch = batches.last();
        prev.insert(batch.0, add_posts(source_of(prev, batch.0), batch.1))
    }
}

/// The store after the batches were applied in turn by `remove`: a batch
/// for a source that does not exist changes nothing.
pub open spec fn removed(store: Store, batches: Seq<(Seq<char>, Seq<Post>)>) -> Store
    decreases batches.len(),
{
    if batches.len() == 0 {
        store
    } else {
        let prev = removed(store, batches.drop_last());
        let batch = batches.last();
        if prev.contains_key(batch.0) {
            prev.insert(batch.0, remove_posts(prev[batch.0], batch.1))
        } else {
            prev
        }
    }
}

/// While `posts` are added to `m` in turn, the source never holds
/// `i32::MAX` posts beside the one that comes in: its per-day counters are
/// of that width.
pub open spec fn posts_fit(m: Map<PostId, PostTS>, posts: Seq<Post>) -> bool {
    forall|k: int|
        0 <= k < posts.len() ==> (#[trigger] add_posts(m, posts.take(k))).remove(posts[k].1).len()
            < i32::MAX
}

/// Each batch fits the source that it goes to, as the batches before it
/// left that source.
pub open spec fn batches_fit(store: Store, batches: Seq<(Seq<char>, Seq<Post>)>) -> bool {
    forall|k: int|
        0 <= k < batches.len() ==> posts_fit(
            source_of(#[trigger] updated(store, batches.take(k)), batches[k].0),
            batches[k].1,
        )
}

/// The number of posts in all batches together.
pub open spec fn incoming(batches: Seq<(Seq<char>, Seq<Post>)>) -> int
    decreases batches.len(),
{
    if batches.len() == 0 {
        0
    } else {
        incoming(batches.drop_last()) + batches.last().1.len()
    }
}

/// Each source that a batch names has room for the posts of all batches
/// together. This asks for more than [`batches_fit`] does: it counts every
/// post as new to every source.
pub open spec fn room_for(store: Store, batches: Seq<(Seq<char>, Seq<Post>)>) -> bool {
    forall|k: int|
        0 <= k < batches.len() ==> source_of(store, (#[trigger] batches[k]).0).len() + incoming(
            batches,
        ) < i32::MAX
}

/// Every source of the store holds finitely many posts.
pub open spec fn finite_sources(store: Store) -> bool {
    forall|name: Seq<char>| #[trigger] store.contains_key(name) ==> store[name].dom().finite()
}

/// Adding posts makes a source longer by at most their number.
pub proof fn lemma_add_posts_len(m: Map<PostId, PostTS>, posts: Seq<Post>)
    requires
        m.dom().finite(),
    ensures
        add_posts(m, posts).dom().finite(),
        add_posts(m, posts).len() <= m.len() + posts.len(),
    decreases posts.len(),
{
    if posts.len() > 0 {
        lemma_add_posts_len(m, posts.drop_last());
    }
}

/// The batches up to one, and that one, hold at most as many posts as all.
pub proof fn lemma_incoming_prefix(batches: Seq<(Seq<char>, Seq<Post>)>, k: int)
    requires
        0 <= k <= batches.len(),
    ensures
        0 <= incoming(batches.take(k)) <= incoming(batches),
        k < batches.len() ==> incoming(batches.take(k)) + batches[k].1.len() <= incoming(
            batches,
        ),
    decreases batches.len() - k,
{
    if k == batches.len() {
        assert(batches.take(k) =~= batches);
        lemma_incoming_nonnegative(batches);
    } else {
        lemma_incoming_prefix(batches, k + 1);
        assert(batches.take(k + 1).drop_last() =~= batches.take(k));
        assert(batches.take(k + 1).last() == batches[k]);
        lemma_incoming_nonnegative(batches.take(k));
    }
}

/// Batches hold no negative number of posts.
pub proof fn lemma_incoming_nonnegative(batches: Seq<(Seq<char>, Seq<Post>)>)
    ensures
        0 <= incoming(batches),
    decreases batches.len(),
{
    if batches.len() > 0 {
        lemma_incoming_nonnegative(batches.drop_last());
    }
}

/// An update makes a source longer by at most the number of posts that
/// come in.
pub proof fn lemma_updated_len(
    store: Store,
    batches: Seq<(Seq<char>, Seq<Post>)>,
    name: Seq<char>,
)
    requires
        finite_sources(store),
    ensures
        source_of(updated(store, batches), name).dom().finite(),
        source_of(updated(store, batches), name).len() <= source_of(store, name).len()
            + incoming(batches),
    decreases batches.len(),
{
    if batches.len() > 0 {
        let prev = updated(store, batches.drop_last());
        let batch = batches.last();
        lemma_updated_len(store, batches.drop_last(), name);
        lemma_updated_len(store, batches.drop_last(), batch.0);
        lemma_add_posts_len(source_of(prev, batch.0), batch.1);
        lemma_incoming_nonnegative(batches.drop_last());
    }
}

/// Where there is room for all posts in each source that is named, the
/// batches fit.
pub proof fn lemma_room_fits(store: Store, batches: Seq<(Seq<char>, Seq<Post>)>)
    requires
        finite_sources(store),
        room_for(store, batches),
    ensures
        batches_fit(store, batches),
{
    assert forall|k: int| 0 <= k < batches.len() implies posts_fit(
        source_of(#[trigger] updated(store, batches.take(k)), batches[k].0),
        batches[k].1,
    ) by {
        let name = batches[k].0;
        let posts = batches[k].1;
        let source = source_of(updated(store, batches.take(k)), name);
        lemma_updated_len(store, batches.take(k), name);
        lemma_incoming_prefix(batches, k);
        assert(source_of(store, batches[k].0).len() + incoming(batches) < i32::MAX);
        assert forall|j: int| 0 <= j < posts.len() implies (#[trigger] add_posts(
            source,
            posts.take(j),
        )).remove(posts[j].1).len() < i32::MAX by {
            lemma_add_posts_len(source, posts.take(j));
        }
    }
}

/// The position of `name` among the first `n` names, or -1.
pub open spec fn position(names: Seq<Seq<char>>, name: Seq<char>, n: int) -> int
    decreases n,
{
    if n <= 0 {
        -1
    } else if names[n - 1] == name {
        n - 1
    } else {
        position(names, name, n - 1)
    }
}

/// No name stands at two positions.
pub open spec fn distinct(names: Seq<Seq<char>>) -> bool {
    forall|i: int, j: int| 0 <= i < j < names.len() ==> names[i] != names[j]
}

/// `position` finds a place at which `name` stands, or -1 where it stands
/// nowhere among the first `n` names.
pub proof fn lemma_position(names: Seq<Seq<char>>, name: Seq<char>, n: int)
    requires
        0 <= n <= names.len(),
    ensures
        -1 <= position(names, name, n) < n,
        position(names, name, n) >= 0 ==> names[position(names, name, n)] == name,
        position(names, name, n) < 0 ==> forall|i: int| 0 <= i < n ==> names[i] != name,
    decreases n,
{
    if n > 0 {
        lemma_position(names, name, n - 1);
    }
}

/// Among distinct names each is found at its own place.
pub proof fn lemma_position_at(names: Seq<Seq<char>>, i: int)
    requires
        distinct(names),
        0 <= i < names.len(),
    ensures
        position(names, names[i], names.len() as int) == i,
{
    lemma_position(names, names[i], names.len() as int);
}

/// A name keeps its position when another name is appended.
pub proof fn lemma_position_push(names: Seq<Seq<char>>, extra: Seq<char>, name: Seq<char>, n: int)
    requires
        0 <= n <= names.len(),
    ensures
        position(names.push(extra), name, n) == position(names, name, n),
    decreases n,
{
    if n > 0 {
        lemma_position_push(names, extra, name, n - 1);
    }
}

/// The sources of a process, by name.
pub struct Registry {
    names: Vec<String>,
    indexes: Vec<Index>,
}

impl View for Registry {
    type V = Store;

    closed spec fn view(&self) -> Store {
        Map::new(
            |name: Seq<char>|
                position(name_views(self.names@), name, self.names@.len() as int) >= 0,
            |name: Seq<char>|
                self.indexes@[position(name_views(self.names@), name, self.names@.len() as int)]@,
        )
    }
}

impl Registry {
    /// The posts of the source `name`, from oldest to newest.
    pub closed spec fn ordered_of(&self, name: Seq<char>) -> Seq<Post> {
        self.indexes@[position(
            name_views(self.names@),
            name,
            self.names@.len() as int,
        )].ordered()
    }

    /// Each name stands for one index, and each index is well-formed.
    pub closed spec fn linked(&self) -> bool {
        &&& self.names@.len() == self.indexes@.len()
        &&& distinct(name_views(self.names@))
        &&& forall|i: int| 0 <= i < self.indexes@.len() ==> (#[trigger] self.indexes@[i]).wf()
    }

    /// The registry is consistent: the listing of each source holds the
    /// posts of that source and no others, from oldest to newest.
    pub open spec fn wf(&self) -> bool {
        &&& self.linked()
        &&& forall|name: Seq<char>| #[trigger]
            self@.contains_key(name) ==> ascending(self.ordered_of(name)) && lists(
                self.ordered_of(name),
                self@[name],
            ) && self.ordered_of(name).len() == self@[name].len() && self@[name].dom().finite()
    }

    /// The listings of those of `names` that the registry knows, in their
    /// order; a name that occurs twice counts twice.
    pub open spec fn selected(&self, names: Seq<Seq<char>>) -> Seq<Seq<Post>>
        decreases names.len(),
    {
        if names.len() == 0 {
            Seq::empty()
        } else if self@.contains_key(names.last()) {
            self.selected(names.drop_last()).push(self.ordered_of(names.last()))
        } else {
            self.selected(names.drop_last())
        }
    }

    /// What links names and indexes makes the registry consistent.
    proof fn lemma_linked_wf(&self)
        requires
            self.linked(),
        ensures
            self.wf(),
    {
        let names = name_views(self.names@);
        assert forall|name: Seq<char>| #[trigger] self@.contains_key(name) implies ascending(
            self.ordered_of(name),
        ) && lists(self.ordered_of(name), self@[name]) && self.ordered_of(name).len()
            == self@[name].len() && self@[name].dom().finite() by {
            lemma_position(names, name, names.len() as int);
            let i = position(names, name, names.len() as int);
            assert(self.indexes@[i].wf());
        }
    }

    /// A registry without sources.
    pub fn new() -> (registry: Self)
        ensures
            registry.wf(),
            registry@ == Map::<Seq<char>, Map<PostId, PostTS>>::empty(),
    {
        let registry = Registry { names: Vec::new(), indexes: Vec::new() };
        proof {
            registry.lemma_linked_wf();
            assert(registry@ =~= Map::<Seq<char>, Map<PostId, PostTS>>::empty());
        }
        registry
    }

    /// Drops all sources.
    pub fn clear(&mut self)
        ensures
            final(self).wf(),
            final(self)@ == Map::<Seq<char>, Map<PostId, PostTS>>::empty(),
    {
        self.names = Vec::new();
        self.indexes = Vec::new();
        proof {
            self.lemma_linked_wf();
            assert(self@ =~= Map::<Seq<char>, Map<PostId, PostTS>>::empty());
        }
    }

    /// Whether the registry has no source.
    pub fn is_empty(&self) -> (r: bool)
        requires
            self.wf(),
        ensures
            r == (self@ == Map::<Seq<char>, Map<PostId, PostTS>>::empty()),
    {
        let r = self.names.len() == 0;
        proof {
            let names = name_views(self.names@);
            if r {
                assert(self@ =~= Map::<Seq<char>, Map<PostId, PostTS>>::empty());
            } else {
                lemma_position_at(names, 0);
                assert(self@.contains_key(names[0]));
            }
        }
        r
    }

    /// The slot of the source `name`, if the registry has it.
    fn find(&self, name: &String) -> (r: Option<usize>)
        requires
            self.linked(),
        ensures
            match r {
                Some(i) => {
                    &&& i < self.slots()
                    &&& self.name_at(i as int) == name@
                    &&& self@.contains_key(name@)
                    &&& self@[name@] == self.posts_at(i as int)
                    &&& self.ordered_of(name@) == self.listing_at(i as int)
                },
                None => !self@.contains_key(name@),
            },
    {
        let ghost names = name_views(self.names@);
        let n = self.names.len();
        let mut i: usize = 0;
        while i < n
            invariant
                i <= n,
                n == self.names@.len(),
                self.linked(),
                names == name_views(self.names@),
                forall|j: int| 0 <= j < i ==> names[j] != name@,
            decreases n - i,
        {
            if self.names[i] == *name {
                proof {
                    assert(names[i as int] == name@);
                    lemma_position_at(names, i as int);
                }
                return Some(i);
            }
            i += 1;
        }
        proof {
            lemma_position(names, name@, n as int);
        }
        None
    }

    /// The name of the source at `slot`.
    spec fn name_at(&self, slot: int) -> Seq<char> {
        self.names@[slot]@
    }

    /// The number of sources.
    spec fn slots(&self) -> int {
        self.names@.len() as int
    }

    /// The posts of the source at `slot`.
    spec fn posts_at(&self, slot: int) -> Map<PostId, PostTS> {
        self.indexes@[slot]@
    }

    /// The posts of the source at `slot`, from oldest to newest.
    spec fn listing_at(&self, slot: int) -> Seq<Post> {
        self.indexes@[slot].ordered()
    }

    /// The names of `other` are those of `self`, each at its slot.
    spec fn same_names(&self, other: &Registry) -> bool {
        &&& self.slots() == other.slots()
        &&& forall|i: int| 0 <= i < self.slots() ==> #[trigger] self.name_at(i) == other.name_at(i)
    }

    /// The slot of the source `name`, which is made, without posts and with
    /// a counter for one day, where the registry has none of that name.
    fn slot_for(&mut self, name: &String) -> (slot: usize)
        requires
            old(self).linked(),
        ensures
            final(self).linked(),
            slot < final(self).slots(),
            final(self).name_at(slot as int) == name@,
            final(self).posts_at(slot as int) == source_of(old(self)@, name@),
            final(self)@ == old(self)@.insert(name@, source_of(old(self)@, name@)),
    {
        match self.find(name) {
            Some(slot) => {
                assert(self@ =~= old(self)@.insert(name@, source_of(old(self)@, name@)));
                slot
            },
            None => {
                let ghost names = name_views(self.names@);
                let ghost n = names.len() as int;
                self.names.push(name.clone());
                self.indexes.push(Index::new(1));
                proof {
                    let now = name_views(self.names@);
                    assert(now =~= names.push(name@));
                    lemma_position(names, name@, n);
                    assert forall|i: int, j: int| 0 <= i < j < now.len() implies now[i]
                        != now[j] by {
                        if j < n {
                            assert(names[i] != names[j]);
                        }
                    }
                    assert forall|key: Seq<char>| #[trigger]
                        self@.contains_key(key) == old(self)@.insert(
                            name@,
                            source_of(old(self)@, name@),
                        ).contains_key(key) by {
                        lemma_position_push(names, name@, key, n);
                    }
                    assert forall|key: Seq<char>| #[trigger]
                        self@.contains_key(key) implies self@[key] == old(self)@.insert(
                        name@,
                        source_of(old(self)@, name@),
                    )[key] by {
                        lemma_position_push(names, name@, key, n);
                        lemma_position(names, key, n);
                    }
                    assert(self@ =~= old(self)@.insert(name@, source_of(old(self)@, name@)));
                    assert(now[n] == name@);
                }
                self.names.len() - 1
            },
        }
    }

    /// The view after the index at `slot` changed its posts to `posts`.
    proof fn lemma_slot_changed(&self, before: &Registry, slot: int, posts: Map<PostId, PostTS>)
        requires
            before.linked(),
            0 <= slot < before.slots(),
            self.names@ == before.names@,
            self.indexes@.len() == before.indexes@.len(),
            forall|i: int|
                0 <= i < self.indexes@.len() && i != slot ==> self.indexes@[i]
                    == before.indexes@[i],
            self.indexes@[slot]@ == posts,
            self.indexes@[slot].wf(),
        ensures
            self.linked(),
            self.same_names(before),
            self@ == before@.insert(before.name_at(slot), posts),
    {
        let names = name_views(self.names@);
        let n = names.len() as int;
        lemma_position_at(names, slot);
        assert forall|i: int| 0 <= i < self.indexes@.len() implies (
        #[trigger] self.indexes@[i]).wf() by {
            if i != slot {
                assert(before.indexes@[i].wf());
            }
        }
        assert forall|key: Seq<char>| #[trigger] self@.contains_key(key) implies self@[key]
            == before@.insert(before.name_at(slot), posts)[key] by {
            lemma_position(names, key, n);
        }
        assert(self@ =~= before@.insert(before.name_at(slot), posts));
    }

    /// Adds `posts` in turn to the source at `slot`.
    fn add_batch(&mut self, slot: usize, posts: &Vec<Post>)
        requires
            old(self).linked(),
            slot < old(self).slots(),
            posts_fit(old(self).posts_at(slot as int), posts@),
        ensures
            final(self).linked(),
            final(self).same_names(old(self)),
            final(self)@ == old(self)@.insert(
                old(self).name_at(slot as int),
                add_posts(old(self).posts_at(slot as int), posts@),
            ),
    {
        let ghost name = self.name_at(slot as int);
        let ghost start = self.posts_at(slot as int);
        proof {
            lemma_position_at(name_views(self.names@), slot as int);
            assert(posts@.take(0) =~= Seq::<Post>::empty());
            assert(self@ =~= old(self)@.insert(name, start));
        }
        let n = posts.len();
        let mut j: usize = 0;
        while j < n
            invariant
                j <= n,
                n == posts@.len(),
                self.linked(),
                self.same_names(old(self)),
                slot < self.slots(),
                name == old(self).name_at(slot as int),
                posts_fit(start, posts@),
                self.posts_at(slot as int) == add_posts(start, posts@.take(j as int)),
                self@ == old(self)@.insert(name, add_posts(start, posts@.take(j as int))),
            decreases n - j,
        {
            let ghost before = *self;
            let post = posts[j];
            proof {
                assert(self.name_at(slot as int) == name);
                assert(self.indexes@[slot as int].wf());
                assert(posts@.take(j + 1).drop_last() =~= posts@.take(j as int));
                assert(posts@.take(j + 1).last() == post);
            }
            self.indexes[slot].add(post);
            proof {
                self.lemma_slot_changed(&before, slot as int, self.indexes@[slot as int]@);
                assert(self@ =~= old(self)@.insert(
                    name,
                    add_posts(start, posts@.take(j + 1)),
                ));
            }
            j += 1;
        }
        proof {
            assert(posts@.take(n as int) =~= posts@);
        }
    }

    /// Takes the ids of `posts` in turn out of the source at `slot`.
    fn remove_batch(&mut self, slot: usize, posts: &Vec<Post>)
        requires
            old(self).linked(),
            slot < old(self).slots(),
        ensures
            final(self).linked(),
            final(self).same_names(old(self)),
            final(self)@ == old(self)@.insert(
                old(self).name_at(slot as int),
                remove_posts(old(self).posts_at(slot as int), posts@),
            ),
    {
        let ghost name = self.name_at(slot as int);
        let ghost start = self.posts_at(slot as int);
        proof {
            lemma_position_at(name_views(self.names@), slot as int);
            assert(posts@.take(0) =~= Seq::<Post>::empty());
            assert(self@ =~= old(self)@.insert(name, start));
        }
        let n = posts.len();
        let mut j: usize = 0;
        while j < n
            invariant
                j <= n,
                n == posts@.len(),
                self.linked(),
                self.same_names(old(self)),
                slot < self.slots(),
                name == old(self).name_at(slot as int),
                self.posts_at(slot as int) == remove_posts(start, posts@.take(j as int)),
                self@ == old(self)@.insert(name, remove_posts(start, posts@.take(j as int))),
            decreases n - j,
        {
            let ghost before = *self;
            let post = posts[j];
            proof {
                assert(self.name_at(slot as int) == name);
                assert(self.indexes@[slot as int].wf());
                assert(posts@.take(j + 1).drop_last() =~= posts@.take(j as int));
                assert(posts@.take(j + 1).last() == post);
            }
            self.indexes[slot].remove(&post);
            proof {
                self.lemma_slot_changed(&before, slot as int, self.indexes@[slot as int]@);
                assert(self@ =~= old(self)@.insert(
                    name,
                    remove_posts(start, posts@.take(j + 1)),
                ));
            }
            j += 1;
        }
        proof {
            assert(posts@.take(n as int) =~= posts@);
        }
    }

    /// Applies the batches in turn: each names a source, which is made where
    /// it does not exist, and gives posts to add to it.
    pub fn update(&mut self, batches: &Vec<Batch>)
        requires
            old(self).wf(),
            batches_fit(old(self)@, batch_views(batches@)),
        ensures
            final(self).wf(),
            final(self)@ == updated(old(self)@, batch_views(batches@)),
    {
        let ghost start = self@;
        let ghost views = batch_views(batches@);
        let n = batches.len();
        let mut k: usize = 0;
        proof {
            assert(views.take(0) =~= Seq::<(Seq<char>, Seq<Post>)>::empty());
        }
        while k < n
            invariant
                k <= n,
                n == batches@.len(),
                views == batch_views(batches@),
                self.linked(),
                batches_fit(start, views),
                self@ == updated(start, views.take(k as int)),
            decreases n - k,
        {
            let batch = &batches[k];
            let ghost prev = self@;
            proof {
                assert(views[k as int] == batch@);
                assert(views.take(k + 1).drop_last() =~= views.take(k as int));
                assert(views.take(k + 1).last() == views[k as int]);
                assert(posts_fit(
                    source_of(updated(start, views.take(k as int)), batch@.0),
                    batch@.1,
                ));
            }
            let slot = self.slot_for(&batch.subsite);
            self.add_batch(slot, &batch.posts);
            proof {
                assert(self@ =~= prev.insert(
                    batch@.0,
                    add_posts(source_of(prev, batch@.0), batch@.1),
                ));
            }
            k += 1;
        }
        proof {
            assert(views.take(n as int) =~= views);
            self.lemma_linked_wf();
        }
    }

    /// Applies the batches in turn: each names a source and gives posts
    /// whose ids are taken out of it. A batch for a source that does not
    /// exist is passed over.
    pub fn remove(&mut self, batches: &Vec<Batch>)
        requires
            old(self).wf(),
        ensures
            final(self).wf(),
            final(self)@ == removed(old(self)@, batch_views(batches@)),
    {
        let ghost start = self@;
        let ghost views = batch_views(batches@);
        let n = batches.len();
        let mut k: usize = 0;
        proof {
            assert(views.take(0) =~= Seq::<(Seq<char>, Seq<Post>)>::empty());
        }
        while k < n
            invariant
                k <= n,
                n == batches@.len(),
                views == batch_views(batches@),
                self.linked(),
                self@ == removed(start, views.take(k as int)),
            decreases n - k,
        {
            let batch = &batches[k];
            proof {
                assert(views[k as int] == batch@);
                assert(views.take(k + 1).drop_last() =~= views.take(k as int));
                assert(views.take(k + 1).last() == views[k as int]);
            }
            if let Some(slot) = self.find(&batch.subsite) {
                self.remove_batch(slot, &batch.posts);
            }
            k += 1;
        }
        proof {
            assert(views.take(n as int) =~= views);
            self.lemma_linked_wf();
        }
    }

    /// Whether each source that `batches` name has room for the posts of
    /// all of them together.
    pub fn has_room(&self, batches: &Vec<Batch>) -> (r: bool)
        requires
            self.wf(),
        ensures
            r == room_for(self@, batch_views(batches@)),
    {
        let ghost views = batch_views(batches@);
        let n = batches.len();
        let mut posts: usize = 0;
        let mut k: usize = 0;
        proof {
            assert(views.take(0) =~= Seq::<(Seq<char>, Seq<Post>)>::empty());
        }
        while k < n
            invariant
                k <= n,
                n == batches@.len(),
                views == batch_views(batches@),
                self.wf(),
                posts == incoming(views.take(k as int)),
            decreases n - k,
        {
            proof {
                assert(views[k as int] == batches@[k as int]@);
                lemma_incoming_prefix(views, k as int);
                lemma_incoming_prefix(views, k + 1);
                assert(views.take(k + 1).drop_last() =~= views.take(k as int));
                assert(views.take(k + 1).last() == views[k as int]);
            }
            match posts.checked_add(batches[k].posts.len()) {
                Some(sum) => {
                    posts = sum;
                },
                None => {
                    proof {
                        self.lemma_source_len(views[0].0);
                    }
                    return false;
                },
            }
            k += 1;
        }
        proof {
            assert(views.take(n as int) =~= views);
        }
        let mut k: usize = 0;
        while k < n
            invariant
                k <= n,
                n == batches@.len(),
                views == batch_views(batches@),
                self.wf(),
                posts == incoming(views),
                forall|j: int|
                    0 <= j < k ==> source_of(self@, (#[trigger] views[j]).0).len() + posts
                        < i32::MAX,
            decreases n - k,
        {
            proof {
                assert(views[k as int] == batches@[k as int]@);
                self.lemma_source_len(views[k as int].0);
            }
            let held = match self.find(&batches[k].subsite) {
                Some(slot) => self.indexes[slot].len(),
                None => 0,
            };
            if posts >= 2147483647 || held >= 2147483647 - posts {
                return false;
            }
            k += 1;
        }
        true
    }

    /// A source holds at most `i32::MAX` posts; one that does not exist
    /// holds none.
    proof fn lemma_source_len(&self, name: Seq<char>)
        requires
            self.wf(),
        ensures
            0 <= source_of(self@, name).len() <= i32::MAX,
            self@.contains_key(name) ==> source_of(self@, name).len() == self.ordered_of(
                name,
            ).len(),
    {
        if self@.contains_key(name) {
            let names = name_views(self.names@);
            lemma_position(names, name, names.len() as int);
            let i = position(names, name, names.len() as int);
            assert(self.indexes@[i].wf());
        }
    }

    /// Applies the batches as [`Registry::update`] does where each source
    /// that they name has room for the posts of all of them together, and
    /// else leaves the registry as it is.
    pub fn try_update(&mut self, batches: &Vec<Batch>) -> (done: bool)
        requires
            old(self).wf(),
        ensures
            final(self).wf(),
            done == room_for(old(self)@, batch_views(batches@)),
            done ==> final(self)@ == updated(old(self)@, batch_views(batches@)),
            !done ==> final(self)@ == old(self)@,
    {
        if self.has_room(batches) {
            proof {
                lemma_room_fits(self@, batch_views(batches@));
            }
            self.update(batches);
            true
        } else {
            false
        }
    }

    /// The indexes of those of `names` that the registry knows, in the
    /// order of the names.
    fn select<'a>(&'a self, names: &Vec<String>) -> (picked: Vec<&'a Index>)
        requires
            self.linked(),
        ensures
            all_wf(picked@),
            listings(picked@) == self.selected(name_views(names@)),
    {
        let ghost views = name_views(names@);
        let mut picked: Vec<&'a Index> = Vec::new();
        let n = names.len();
        let mut k: usize = 0;
        proof {
            assert(views.take(0) =~= Seq::<Seq<char>>::empty());
            assert(listings(picked@) =~= self.selected(views.take(0)));
        }
        while k < n
            invariant
                k <= n,
                n == names@.len(),
                views == name_views(names@),
                self.linked(),
                all_wf(picked@),
                listings(picked@) == self.selected(views.take(k as int)),
            decreases n - k,
        {
            proof {
                assert(views.take(k + 1).drop_last() =~= views.take(k as int));
                assert(views.take(k + 1).last() == names@[k as int]@);
            }
            if let Some(slot) = self.find(&names[k]) {
                let ghost before = picked@;
                picked.push(&self.indexes[slot]);
                proof {
                    assert(listings(picked@) =~= listings(before).push(
                        self.listing_at(slot as int),
                    ));
                    assert forall|i: int| 0 <= i < picked@.len() implies (
                    #[trigger] picked@[i]).wf() by {
                        if i < before.len() {
                            assert(before[i].wf());
                        } else {
                            assert(self.indexes@[slot as int].wf());
                        }
                    }
                }
            }
            k += 1;
        }
        proof {
            assert(views.take(n as int) =~= views);
        }
        picked
    }

    /// The number of posts in those of `sources` that the registry knows.
    pub fn total(&self, sources: &Vec<String>) -> (n: usize)
        requires
            self.wf(),
            total_len(self.selected(name_views(sources@))) <= usize::MAX,
        ensures
            n == total_len(self.selected(name_views(sources@))),
    {
        let picked = self.select(sources);
        total_of(&picked)
    }

    /// The number of posts in those of `sources` that the registry knows,
    /// where a `usize` holds it.
    pub fn try_total(&self, sources: &Vec<String>) -> (r: Option<usize>)
        requires
            self.wf(),
        ensures
            match r {
                Some(n) => n == total_len(self.selected(name_views(sources@))),
                None => total_len(self.selected(name_views(sources@))) > usize::MAX,
            },
    {
        let picked = self.select(sources);
        checked_total(&picked)
    }

    /// The answer to `query` as [`Registry::query`] gives it, where a `usize`
    /// holds the number of posts in the sources that it asks for.
    pub fn try_query(&self, query: &Query) -> (r: Option<QueryResponse>)
        requires
            self.wf(),
        ensures
            match r {
                Some(response) => {
                    &&& response.post_ids@ == page(
                        self.selected(name_views(query.subsites@)),
                        query.offset as int,
                        query.limit as int,
                    )
                    &&& response.total == total_len(self.selected(name_views(query.subsites@)))
                    &&& response.cache_is_empty == (self@ == Map::<
                        Seq<char>,
                        Map<PostId, PostTS>,
                    >::empty())
                },
                None => total_len(self.selected(name_views(query.subsites@))) > usize::MAX,
            },
    {
        let picked = self.select(&query.subsites);
        match checked_total(&picked) {
            Some(total) => {
                let posts = get_posts_for_offset(&picked, query.offset, query.limit);
                Some(QueryResponse { post_ids: posts, total, cache_is_empty: self.is_empty() })
            },
            None => None,
        }
    }

    /// The page of the merged feed that `query` asks for, over those of its
    /// sources that the registry knows.
    pub fn query(&self, query: &Query) -> (response: QueryResponse)
        requires
            self.wf(),
            total_len(self.selected(name_views(query.subsites@))) <= usize::MAX,
        ensures
            response.post_ids@ == page(
                self.selected(name_views(query.subsites@)),
                query.offset as int,
                query.limit as int,
            ),
            response.total == total_len(self.selected(name_views(query.subsites@))),
            response.cache_is_empty == (self@ == Map::<Seq<char>, Map<PostId, PostTS>>::empty()),
    {
        let picked = self.select(&query.subsites);
        let total = total_of(&picked);
        let posts = get_posts_for_offset(&picked, query.offset, query.limit);
        QueryResponse { post_ids: posts, total, cache_is_empty: self.is_empty() }
    }
}

/// The number of posts in all of `indexes` together, where a `usize` holds
/// it.
fn checked_total<'a>(indexes: &Vec<&'a Index>) -> (r: Option<usize>)
    requires
        all_wf(indexes@),
    ensures
        match r {
            Some(n) => n == total_len(listings(indexes@)),
            None => total_len(listings(indexes@)) > usize::MAX,
        },
{
    let ghost srcs = listings(indexes@);
    let count = indexes.len();
    let mut n: usize = 0;
    let mut i: usize = 0;
    proof {
        assert(srcs.take(0) =~= Seq::<Seq<Post>>::empty());
    }
    while i < count
        invariant
            i <= count,
            count == indexes@.len(),
            all_wf(indexes@),
            srcs == listings(indexes@),
            n == total_len(srcs.take(i as int)),
        decreases count - i,
    {
        proof {
            assert(indexes@[i as int].wf());
            lemma_total_prefix(srcs, i as int);
            lemma_total_prefix(srcs, i + 1);
        }
        match n.checked_add(indexes[i].len()) {
            Some(sum) => {
                n = sum;
            },
            None => {
                return None;
            },
        }
        i += 1;
    }
    proof {
        assert(srcs.take(count as int) =~= srcs);
    }
    Some(n)
}

/// The number of posts in all of `indexes` together.
fn total_of<'a>(indexes: &Vec<&'a Index>) -> (n: usize)
    requires
        all_wf(indexes@),
        total_len(listings(indexes@)) <= usize::MAX,
    ensures
        n == total_len(listings(indexes@)),
{
    let ghost srcs = listings(indexes@);
    let count = indexes.len();
    let mut n: usize = 0;
    let mut i: usize = 0;
    proof {
        assert(srcs.take(0) =~= Seq::<Seq<Post>>::empty());
    }
    while i < count
        invariant
            i <= count,
            count == indexes@.len(),
            all_wf(indexes@),
            srcs == listings(indexes@),
            total_len(srcs) <= usize::MAX,
            n == total_len(srcs.take(i as int)),
        decreases count - i,
    {
        proof {
            assert(indexes@[i as int].wf());
            lemma_total_prefix(srcs, i as int);
            lemma_total_prefix(srcs, i + 1);
        }
        n = n + indexes[i].len();
        i += 1;
    }
    proof {
        assert(srcs.take(count as int) =~= srcs);
    }
    n
}

/// An `update` with one new post for a source, then a `remove` of that
/// post, leaves the source with the posts that it had; one that did not
/// exist before exists afterwards, without posts.
pub proof fn lemma_round_trip(store: Store, name: Seq<char>, post: Post)
    requires
        !source_of(store, name).contains_key(post.1),
    ensures
        source_of(
            removed(updated(store, seq![(name, seq![post])]), seq![(name, seq![post])]),
            name,
        ) == source_of(store, name),
        source_of(
            removed(updated(store, seq![(name, seq![post])]), seq![(name, seq![post])]),
            name,
        ).len() == source_of(store, name).len(),
{
    let posts = seq![post];
    let batches = seq![(name, posts)];
    let source = source_of(store, name);
    assert(posts.drop_last() =~= Seq::<Post>::empty());
    assert(batches.drop_last() =~= Seq::<(Seq<char>, Seq<Post>)>::empty());
    assert(posts.last() == post);
    assert(batches.last() == (name, posts));
    assert(add_posts(source, posts.drop_last()) == source);
    assert(add_posts(source, posts) == source.insert(post.1, post.0));
    assert(updated(store, batches.drop_last()) == store);
    let after = updated(store, batches);
    assert(after == store.insert(name, source.insert(post.1, post.0)));
    assert(removed(after, batches.drop_last()) == after);
    let grown = source.insert(post.1, post.0);
    assert(remove_posts(grown, posts.drop_last()) == grown);
    assert(remove_posts(grown, posts) == grown.remove(post.1));
    assert(grown.remove(post.1) =~= source);
}

} // verus!
