//! The single-writer coordinator for per-user records.  It owns a cache
//! of records keyed by user id; every read and mutation goes through it,
//! so concurrent conversations never race on the same user's state.  The
//! surrounding loop performs channel and storage work and calls in here
//! for every decision.

use vstd::prelude::*;

use crate::user::{User, UserV};

verus! {

/// A request to the user manager.
#[derive(Debug)]
pub enum TgManagerCommand {
    /// Fetch the record for a user id.
    Get { user_id: i64 },
    /// Push back a mutated record; it becomes the authoritative copy and
    /// must then be persisted.
    Update { user: User },
}

/// An error from the user manager.
#[derive(Debug)]
pub enum TgUserManagerError {
    SendError,
}

/// What the surrounding loop must do after a command was handled.
pub enum ManagerReply {
    /// Send this record back to the requester.
    User(User),
    /// The record is not cached: load it from storage (or create it
    /// fresh) and hand it in with `install`, then retry the request.
    NeedLoad { user_id: i64 },
    /// The cached record changed: write this copy to durable storage.
    Persist { user: User },
}

/// The cache of authoritative per-user records.
pub struct UserManager {
    cache: Vec<(i64, User)>,
}

/// The records a cache sequence holds, later entries winning.
pub open spec fn cache_map(s: Seq<(i64, UserV)>) -> Map<int, UserV>
    decreases s.len(),
{
    if s.len() == 0 {
        Map::empty()
    } else {
        cache_map(s.drop_last()).insert(s.last().0 as int, s.last().1)
    }
}

impl View for UserManager {
    type V = Map<int, UserV>;

    closed spec fn view(&self) -> Map<int, UserV> {
        cache_map(self.entries())
    }
}

impl UserManager {
    spec fn entries(&self) -> Seq<(i64, UserV)> {
        Seq::new(self.cache@.len(), |i: int| (self.cache@[i].0, self.cache@[i].1@))
    }

    /// Ids pairwise distinct, every record well formed and filed under
    /// its own id.
    pub closed spec fn wf(&self) -> bool {
        &&& forall|i: int, j: int|
            0 <= i < j < self.cache@.len() ==> (#[trigger] self.cache@[i]).0 != (
            #[trigger] self.cache@[j]).0
        &&& forall|i: int|
            0 <= i < self.cache@.len() ==> (#[trigger] self.cache@[i]).1.wf() && (
            self.cache@[i].1)@.uid == self.cache@[i].0 as int
    }

    proof fn lemma_cache_map_props(s: Seq<(i64, UserV)>)
        requires
            forall|i: int, j: int| 0 <= i < j < s.len() ==> (#[trigger] s[i]).0 != (
            #[trigger] s[j]).0,
        ensures
            forall|u: int|
                #[trigger] cache_map(s).contains_key(u) ==> exists|i: int|
                    0 <= i < s.len() && (#[trigger] s[i]).0 as int == u,
            forall|i: int|
                0 <= i < s.len() ==> cache_map(s).contains_key((#[trigger] s[i]).0 as int)
                    && cache_map(s)[s[i].0 as int] == s[i].1,
        decreases s.len(),
    {
        if s.len() == 0 {
        } else {
            let front = s.drop_last();
            let last = s.last();
            assert(forall|i: int| 0 <= i < front.len() ==> front[i] == s[i]);
            assert(forall|i: int, j: int| 0 <= i < j < front.len() ==> (#[trigger] front[i]).0 != (
            #[trigger] front[j]).0);
            Self::lemma_cache_map_props(front);
            assert(cache_map(s) == cache_map(front).insert(last.0 as int, last.1));
            assert forall|u: int| #[trigger] cache_map(s).contains_key(u) implies exists|i: int|
                0 <= i < s.len() && (#[trigger] s[i]).0 as int == u by {
                if u == last.0 as int {
                    assert(s[s.len() - 1].0 as int == u);
                } else {
                    assert(cache_map(front).contains_key(u));
                    let i = choose|i: int|
                        0 <= i < front.len() && (#[trigger] front[i]).0 as int == u;
                    assert(s[i] == front[i]);
                    assert(s[i].0 as int == u);
                }
            }
            assert forall|i: int| 0 <= i < s.len() implies cache_map(s).contains_key(
                (#[trigger] s[i]).0 as int,
            ) && cache_map(s)[s[i].0 as int] == s[i].1 by {
                if i < s.len() - 1 {
                    assert(front[i] == s[i]);
                    assert(cache_map(front).contains_key(s[i].0 as int));
                    assert(cache_map(front)[s[i].0 as int] == s[i].1);
                    assert(s[i].0 != last.0);
                }
            }
        }
    }

    /// An empty cache.
    pub fn new() -> (r: UserManager)
        ensures
            r@ =~= Map::empty(),
            r.wf(),
    {
        let r = UserManager { cache: Vec::new() };
        proof {
            assert(r.entries() =~= Seq::<(i64, UserV)>::empty());
        }
        r
    }

    /// The position of a user id in the cache, if present.
    fn position(&self, user_id: i64) -> (r: Option<usize>)
        requires
            self.wf(),
        ensures
            match r {
                Option::Some(i) => i < self.cache@.len() && self.cache@[i as int].0 == user_id
                    && self@.contains_key(user_id as int) && self@[user_id as int]
                    == (self.cache@[i as int].1)@,
                Option::None => !self@.contains_key(user_id as int),
            },
    {
        let n = self.cache.len();
        let mut i: usize = 0;
        proof {
            Self::lemma_cache_map_props(self.entries());
        }
        while i < n
            invariant
                self.wf(),
                n == self.cache@.len(),
                i <= n,
                forall|j: int| 0 <= j < i ==> (#[trigger] self.cache@[j]).0 != user_id,
            decreases n - i,
        {
            if self.cache[i].0 == user_id {
                proof {
                    Self::lemma_cache_map_props(self.entries());
                    assert(self.entries()[i as int].0 == user_id);
                    assert(self@.contains_key(self.entries()[i as int].0 as int));
                    assert(self@[self.entries()[i as int].0 as int] == self.entries()[i as int].1);
                    assert(self.entries()[i as int].1 == (self.cache@[i as int].1)@);
                }
                return Option::Some(i);
            }
            i += 1;
        }
        proof {
            if self@.contains_key(user_id as int) {
                let j = choose|j: int|
                    0 <= j < self.entries().len() && (#[trigger] self.entries()[j]).0 as int
                        == user_id as int;
                assert(self.cache@[j].0 == user_id);
            }
        }
        Option::None
    }

    /// Whether the record for `user_id` is cached.
    pub fn cached(&self, user_id: i64) -> (r: bool)
        requires
            self.wf(),
        ensures
            r == self@.contains_key(user_id as int),
    {
        match self.position(user_id) {
            Option::Some(_) => true,
            Option::None => false,
        }
    }

    /// Make a freshly loaded record the cached copy, unless one is
    /// already cached: the cache stays authoritative.
    pub fn install(&mut self, user: User)
        requires
            old(self).wf(),
            user.wf(),
        ensures
            final(self).wf(),
            final(self)@ == if old(self)@.contains_key(user@.uid) {
                old(self)@
            } else {
                old(self)@.insert(user@.uid, user@)
            },
    {
        let uid = user.uid;
        proof {
            Self::lemma_cache_map_props(self.entries());
        }
        match self.position(uid) {
            Option::Some(_) => {
            },
            Option::None => {
                let ghost pre = self.entries();
                let ghost precache = self.cache@;
                self.cache.push((uid, user));
                proof {
                    assert(self.entries().drop_last() =~= pre);
                    assert(self.entries().last() == (uid, user@));
                    lemma_distinct_after_push(precache, pre, self.cache@, uid);
                }
            },
        }
    }

    /// A copy of the cached record for `user_id`, which stays the
    /// authoritative one; the cache itself is untouched.
    pub fn get(&self, user_id: i64) -> (r: Option<User>)
        requires
            self.wf(),
        ensures
            match r {
                Option::Some(u) => self@.contains_key(user_id as int) && u@ == self@[user_id as int]
                    && u.wf(),
                Option::None => !self@.contains_key(user_id as int),
            },
    {
        match self.position(user_id) {
            Option::Some(i) => {
                let (_, u) = &self.cache[i];
                Option::Some(u.duplicate())
            },
            Option::None => Option::None,
        }
    }

    /// Replace the cached record for the user with this mutated copy; it
    /// must then be written to durable storage.
    pub fn update(&mut self, user: User)
        requires
            old(self).wf(),
            user.wf(),
        ensures
            final(self).wf(),
            final(self)@ == old(self)@.insert(user@.uid, user@),
    {
        let uid = user.uid;
        proof {
            Self::lemma_cache_map_props(self.entries());
        }
        match self.position(uid) {
            Option::Some(i) => {
                let ghost pre = self.entries();
                let prev = self.cache.remove(i);
                self.cache.insert(i, (uid, user));
                proof {
                    let cur = self.entries();
                    assert(self.cache@ =~= old(self).cache@.update(i as int, (uid, user)));
                    assert(cur =~= pre.update(i as int, (uid, user@)));
                    Self::lemma_cache_map_update(pre, i as int, (uid, user@));
                    assert(self@ =~= cache_map(pre).insert(uid as int, user@));
                    assert forall|a: int, b: int|
                        0 <= a < b < self.cache@.len() implies (#[trigger] self.cache@[a]).0 != (
                    #[trigger] self.cache@[b]).0 by {
                        assert(old(self).cache@[a].0 == self.cache@[a].0 || a == i);
                        assert(old(self).cache@[b].0 == self.cache@[b].0 || b == i);
                        assert(old(self).cache@[i as int].0 == uid);
                    }
                }
            },
            Option::None => {
                let ghost pre = self.entries();
                let ghost precache = self.cache@;
                self.cache.push((uid, user));
                proof {
                    assert(self.entries().drop_last() =~= pre);
                    assert(self.entries().last() == (uid, user@));
                    lemma_distinct_after_push(precache, pre, self.cache@, uid);
                }
            },
        }
    }

    proof fn lemma_cache_map_update(s: Seq<(i64, UserV)>, i: int, x: (i64, UserV))
        requires
            forall|a: int, b: int| 0 <= a < b < s.len() ==> (#[trigger] s[a]).0 != (
            #[trigger] s[b]).0,
            0 <= i < s.len(),
            s[i].0 == x.0,
        ensures
            cache_map(s.update(i, x)) =~= cache_map(s).insert(x.0 as int, x.1),
        decreases s.len(),
    {
        let t = s.update(i, x);
        if i == s.len() - 1 {
            assert(t.drop_last() =~= s.drop_last());
            assert(t.last() == x);
        } else {
            assert(t.drop_last() =~= s.drop_last().update(i, x));
            assert(forall|a: int, b: int|
                0 <= a < b < s.drop_last().len() ==> (#[trigger] s.drop_last()[a]).0 != (
                #[trigger] s.drop_last()[b]).0) by {
                assert(forall|a: int| 0 <= a < s.drop_last().len() ==> s.drop_last()[a] == s[a]);
            }
            assert(s.drop_last()[i].0 == x.0);
            Self::lemma_cache_map_update(s.drop_last(), i, x);
            assert(t.last() == s.last());
            assert(s[i].0 == s.drop_last()[i].0);
            assert(s.last().0 != x.0);
            assert(cache_map(t) =~= cache_map(s.drop_last()).insert(x.0 as int, x.1).insert(
                s.last().0 as int,
                s.last().1,
            ));
            assert(cache_map(s.drop_last()).insert(x.0 as int, x.1).insert(
                s.last().0 as int,
                s.last().1,
            ) =~= cache_map(s.drop_last()).insert(s.last().0 as int, s.last().1).insert(
                x.0 as int,
                x.1,
            ));
        }
    }

    /// Serve one request: a cached record is answered at once, a missing
    /// one asks the caller to load it first, and a pushed-back record
    /// replaces the cache entry and must be persisted.
    pub fn handle_command(&mut self, cmd: TgManagerCommand) -> (r: ManagerReply)
        requires
            old(self).wf(),
            cmd matches TgManagerCommand::Update { user } ==> user.wf(),
        ensures
            final(self).wf(),
            match cmd {
                TgManagerCommand::Get { user_id } => final(self)@ == old(self)@ && match r {
                    ManagerReply::User(u) => old(self)@.contains_key(user_id as int) && u@ == old(
                        self,
                    )@[user_id as int],
                    ManagerReply::NeedLoad { user_id: missing } => missing == user_id && !old(
                        self,
                    )@.contains_key(user_id as int),
                    ManagerReply::Persist { .. } => false,
                },
                TgManagerCommand::Update { user } => final(self)@ == old(self)@.insert(
                    user@.uid,
                    user@,
                ) && match r {
                    ManagerReply::Persist { user: p } => p@ == user@,
                    _ => false,
                },
            },
    {
        match cmd {
            TgManagerCommand::Get { user_id } => match self.get(user_id) {
                Option::Some(u) => ManagerReply::User(u),
                Option::None => ManagerReply::NeedLoad { user_id },
            },
            TgManagerCommand::Update { user } => {
                let copy = user.duplicate();
                self.update(user);
                ManagerReply::Persist { user: copy }
            },
        }
    }
}

/// After pushing a fresh id onto a cache with pairwise-distinct ids,
/// the ids are still pairwise distinct.
proof fn lemma_distinct_after_push(
    precache: Seq<(i64, User)>,
    pre: Seq<(i64, UserV)>,
    cur: Seq<(i64, User)>,
    uid: i64,
)
    requires
        pre =~= Seq::new(precache.len() as nat, |i: int| (precache[i].0, precache[i].1@)),
        forall|a: int, b: int| 0 <= a < b < precache.len() ==> (#[trigger] precache[a]).0 != (
        #[trigger] precache[b]).0,
        forall|j: int| 0 <= j < pre.len() ==> (#[trigger] pre[j]).0 != uid,
        cur.len() == precache.len() + 1,
        forall|j: int| 0 <= j < precache.len() ==> #[trigger] cur[j] == precache[j],
        cur.last().0 == uid,
    ensures
        forall|a: int, b: int| 0 <= a < b < cur.len() ==> (#[trigger] cur[a]).0 != (
        #[trigger] cur[b]).0,
{
    assert forall|a: int, b: int| 0 <= a < b < cur.len() implies (#[trigger] cur[a]).0 != (
    #[trigger] cur[b]).0 by {
        if b == cur.len() - 1 {
            assert(cur[a] == precache[a]);
            assert(pre[a].0 == precache[a].0);
        } else {
            assert(cur[a] == precache[a]);
            assert(cur[b] == precache[b]);
        }
    }
}

/// Actor isolation: requests for different user ids leave each other's
/// records exactly as they were and can be served in either order, while
/// two mutations for the same user id, applied in the order the actor
/// received them, leave the later record in place — each mutation was
/// handed out for persistence in turn, so no update is lost.
pub proof fn lemma_actor_isolation(m: Map<int, UserV>, u1: UserV, u2: UserV)
    ensures
        u1.uid != u2.uid ==> m.insert(u1.uid, u1).insert(u2.uid, u2) == m.insert(u2.uid, u2).insert(
            u1.uid,
            u1,
        ),
        u1.uid != u2.uid ==> m.insert(u1.uid, u1).insert(u2.uid, u2)[u1.uid] == u1 && m.insert(
            u1.uid,
            u1,
        ).insert(u2.uid, u2)[u2.uid] == u2,
        forall|w: int|
            w != u1.uid && w != u2.uid ==> #[trigger] m.insert(u1.uid, u1).insert(
                u2.uid,
                u2,
            ).contains_key(w) == m.contains_key(w) && (m.contains_key(w) ==> m.insert(
                u1.uid,
                u1,
            ).insert(u2.uid, u2)[w] == m[w]),
        u1.uid == u2.uid ==> m.insert(u1.uid, u1).insert(u2.uid, u2)[u2.uid] == u2,
{
    if u1.uid != u2.uid {
        assert(m.insert(u1.uid, u1).insert(u2.uid, u2) =~= m.insert(u2.uid, u2).insert(
            u1.uid,
            u1,
        ));
    }
}

} // verus!
