//! A keyed cache whose misses are minted exactly once, however many callers
//! race for the same key.
//!
//! The map is behind a lock; a mint runs without it. So a caller goes by
//! steps, each taken under the lock: [`SingleFlight::lookup`], then
//! [`SingleFlight::enter`] until its slot's door is free, and, where that says
//! so, the mint and [`SingleFlight::minted`].
use crate::errno::Error;
use crate::file::share;
use std::collections::HashMap;
use std::sync::Arc;
use vstd::prelude::*;

verus! {

broadcast use vstd::std_specs::hash::group_hash_axioms;

/// One key's slot while callers are at it: the value once minted, and the door
/// that serializes them.
pub struct Slot<V> {
    pub key: u64,
    pub cell: Option<Arc<V>>,
    /// A caller is inside the door, minting.
    pub held: bool,
    /// How many callers hold the slot.
    pub users: u64,
}

impl<V> Slot<V> {
    /// The same slot; its value is shared.
    fn another(&self) -> (r: Slot<V>)
        ensures
            r == *self,
    {
        let cell = match &self.cell {
            Some(v) => Some(share(v)),
            None => None,
        };
        Slot { key: self.key, cell, held: self.held, users: self.users }
    }
}

/// Values minted on demand, one mint per key.
pub struct SingleFlight<V> {
    /// The live keys that have a value.
    pub values: HashMap<u64, Arc<V>>,
    /// The live keys whose first value is yet to come, and their slots.
    pub pending: HashMap<u64, u64>,
    /// The slots that callers hold, live or not.
    pub open: HashMap<u64, Slot<V>>,
    /// The next slot's number; none is used twice.
    pub next: u64,
    /// The slots whose key was forgotten while they waited for its value.
    pub forgotten: Ghost<Set<u64>>,
}

/// What a caller does first.
pub enum Look<V> {
    /// The key has a value.
    Hit(V),
    /// Enter the door of this slot.
    Door(u64),
}

/// What a caller finds at a slot's door.
pub enum Enter<V> {
    /// Somebody is minting: wait and come back.
    Busy,
    /// Somebody minted.
    Hit(V),
    /// The slot is no longer the key's: look again.
    Stale,
    /// The door is this caller's: mint, and say how it went.
    Mint,
}

impl<V: Clone> SingleFlight<V> {
    /// A key has a value or a slot, not both; its slot is open, empty and its
    /// own; an open slot has a number already given out and a holder, and one
    /// that is being minted on is its key's own, unless that was forgotten.
    /// What was forgotten had a number given out.
    pub open spec fn wf(&self) -> bool {
        &&& forall|k: u64| #[trigger]
            self.pending@.dom().contains(k) ==> {
                &&& !self.values@.dom().contains(k)
                &&& self.open@.dom().contains(self.pending@[k])
                &&& self.open@[self.pending@[k]].key == k
                &&& self.open@[self.pending@[k]].cell is None
            }
        &&& forall|id: u64| #[trigger]
            self.open@.dom().contains(id) ==> {
                &&& id < self.next
                &&& self.open@[id].users > 0
                &&& self.open@[id].held ==> self.open@[id].cell is None && (self.is_current(
                    self.open@[id].key,
                    id,
                ) || self.forgotten@.contains(id))
            }
        &&& forall|id: u64| #[trigger] self.forgotten@.contains(id) ==> id < self.next
    }

    /// The value of a key.
    pub open spec fn value(&self, key: u64) -> Option<V> {
        if self.values@.dom().contains(key) {
            Some(*self.values@[key])
        } else {
            None
        }
    }

    /// Slot `id` is the key's own and waits for its first value.
    pub open spec fn is_current(&self, key: u64, id: u64) -> bool {
        self.pending@.dom().contains(key) && self.pending@[key] == id
    }

    /// A caller holds slot `id` for `key`.
    pub open spec fn holds(&self, key: u64, id: u64) -> bool {
        self.open@.dom().contains(id) && self.open@[id].key == key
    }

    /// The open slots once one holder of `id` has left.
    pub open spec fn left(open: Map<u64, Slot<V>>, id: u64) -> Map<u64, Slot<V>> {
        if open[id].users > 1 {
            open.insert(id, Slot { users: (open[id].users - 1) as u64, ..open[id] })
        } else {
            open.remove(id)
        }
    }

    /// The cache `old` once a caller came for `key` and was told `r`.
    pub open spec fn looked(&self, old: SingleFlight<V>, key: u64, r: Look<V>) -> bool {
        match r {
            Look::Hit(v) => {
                &&& old.value(key) is Some
                &&& cloned(old.value(key)->0, v)
                &&& *self == old
            },
            Look::Door(id) => {
                &&& old.value(key) is None
                &&& self.values@ == old.values@
                &&& self.forgotten@ == old.forgotten@
                &&& self.is_current(key, id)
                &&& self.pending@ == old.pending@.insert(key, id)
                &&& if old.pending@.dom().contains(key) {
                    &&& id == old.pending@[key]
                    &&& self.next == old.next
                    &&& self.open@ == old.open@.insert(
                        id,
                        Slot { users: (old.open@[id].users + 1) as u64, ..old.open@[id] },
                    )
                } else {
                    &&& id == old.next
                    &&& self.next == old.next + 1
                    &&& self.open@ == old.open@.insert(
                        id,
                        Slot { key, cell: None, held: false, users: 1 },
                    )
                }
            },
        }
    }

    /// The cache `old` once a caller came to the door of slot `id` for `key`
    /// and was told `r`.
    pub open spec fn entered(&self, old: SingleFlight<V>, key: u64, id: u64, r: Enter<V>) -> bool {
        &&& self.values@ == old.values@
        &&& self.pending@ == old.pending@
        &&& self.next == old.next
        &&& self.forgotten@ == old.forgotten@
        &&& match r {
            Enter::Busy => {
                &&& old.open@[id].held
                &&& self.open@ == old.open@
            },
            Enter::Hit(v) => {
                &&& !old.open@[id].held
                &&& old.open@[id].cell is Some
                &&& cloned(*old.open@[id].cell->0, v)
                &&& self.open@ == Self::left(old.open@, id)
            },
            Enter::Stale => {
                &&& !old.open@[id].held
                &&& old.open@[id].cell is None
                &&& !old.is_current(key, id)
                &&& self.open@ == Self::left(old.open@, id)
            },
            Enter::Mint => {
                &&& !old.open@[id].held
                &&& old.open@[id].cell is None
                &&& old.is_current(key, id)
                &&& self.open@ == old.open@.insert(id, Slot { held: true, ..old.open@[id] })
            },
        }
    }

    /// The open slots once the mint on `id` gave a value, which is kept, and its
    /// caller left.
    pub open spec fn filled(open: Map<u64, Slot<V>>, id: u64, kept: Arc<V>) -> Map<u64, Slot<V>> {
        Self::left(
            open.insert(id, Slot { cell: Some(kept), held: false, ..open[id] }),
            id,
        )
    }

    /// The cache `old` once a mint inside the door of slot `id` ended. A value
    /// is kept as a clone of it, for everyone at the slot, and for the key where
    /// the slot is still its own.
    pub open spec fn ended(
        &self,
        old: SingleFlight<V>,
        key: u64,
        id: u64,
        outcome: Result<V, Error>,
    ) -> bool {
        &&& self.next == old.next
        &&& self.forgotten@ == old.forgotten@
        &&& self.pending@ == (if old.is_current(key, id) {
            old.pending@.remove(key)
        } else {
            old.pending@
        })
        &&& match outcome {
            Ok(v) => exists|kept: Arc<V>|
                {
                    &&& cloned(v, *kept)
                    &&& self.values@ == (if old.is_current(key, id) {
                        old.values@.insert(key, kept)
                    } else {
                        old.values@
                    })
                    &&& self.open@ == #[trigger] Self::filled(old.open@, id, kept)
                },
            Err(_) => {
                &&& self.values@ == old.values@
                &&& self.open@ == Self::left(
                    old.open@.insert(id, Slot { held: false, ..old.open@[id] }),
                    id,
                )
            },
        }
    }

    /// An empty cache.
    pub fn new() -> (r: SingleFlight<V>)
        ensures
            r.wf(),
            r.values@ == Map::<u64, Arc<V>>::empty(),
            r.pending@ == Map::<u64, u64>::empty(),
            r.open@ == Map::<u64, Slot<V>>::empty(),
            r.next == 0,
            r.forgotten@ == Set::<u64>::empty(),
    {
        SingleFlight {
            values: HashMap::new(),
            pending: HashMap::new(),
            open: HashMap::new(),
            next: 0,
            forgotten: Ghost(Set::empty()),
        }
    }

    /// A caller comes for `key`: its value, or its slot, a fresh one where it
    /// has none.
    pub fn lookup(&mut self, key: u64) -> (r: Look<V>)
        requires
            old(self).wf(),
            old(self).next < u64::MAX,
            forall|id: u64| #[trigger]
                old(self).open@.dom().contains(id) ==> old(self).open@[id].users < u64::MAX,
        ensures
            final(self).wf(),
            final(self).looked(*old(self), key, r),
    {
        if let Some(v) = self.values.get(&key) {
            return Look::Hit((**v).clone());
        }
        match self.pending.get(&key) {
            Some(at) => {
                let id = *at;
                let s = self.open.get(&id).unwrap().another();
                self.open.insert(id, Slot { users: s.users + 1, ..s });
                assert(self.pending@ =~= old(self).pending@.insert(key, id));
                Look::Door(id)
            },
            None => {
                let id = self.next;
                self.next = id + 1;
                self.pending.insert(key, id);
                self.open.insert(id, Slot { key, cell: None, held: false, users: 1 });
                Look::Door(id)
            },
        }
    }

    /// One holder leaves slot `id`.
    fn leave(&mut self, id: u64)
        requires
            old(self).wf(),
            old(self).open@.dom().contains(id),
            old(self).open@[id].users == 1 ==> forall|k: u64| #[trigger]
                old(self).pending@.dom().contains(k) ==> old(self).pending@[k] != id,
        ensures
            final(self).wf(),
            final(self).values@ == old(self).values@,
            final(self).pending@ == old(self).pending@,
            final(self).next == old(self).next,
            final(self).forgotten@ == old(self).forgotten@,
            final(self).open@ == Self::left(old(self).open@, id),
    {
        let s = self.open.get(&id).unwrap().another();
        if s.users > 1 {
            self.open.insert(id, Slot { users: s.users - 1, ..s });
        } else {
            self.open.remove(&id);
        }
    }

    /// A caller that holds slot `id` for `key` comes to its door. Only one that
    /// finds the door free, the slot empty, and the slot still the key's, is to
    /// mint.
    pub fn enter(&mut self, key: u64, id: u64) -> (r: Enter<V>)
        requires
            old(self).wf(),
            old(self).holds(key, id),
        ensures
            final(self).wf(),
            final(self).entered(*old(self), key, id, r),
    {
        let s = self.open.get(&id).unwrap().another();
        if s.held {
            return Enter::Busy;
        }
        if let Some(v) = &s.cell {
            let v = (**v).clone();
            self.leave(id);
            return Enter::Hit(v);
        }
        let current = match self.pending.get(&key) {
            Some(at) => *at == id,
            None => false,
        };
        if !current {
            self.leave(id);
            return Enter::Stale;
        }
        self.open.insert(id, Slot { held: true, ..s });
        Enter::Mint
    }

    /// The mint inside the door of slot `id` ended. A value goes to everyone at
    /// the slot, and to the key unless that was forgotten meanwhile; a failure
    /// leaves nothing behind.
    pub fn minted(&mut self, key: u64, id: u64, outcome: Result<V, Error>) -> (r: Result<V, Error>)
        requires
            old(self).wf(),
            old(self).holds(key, id),
            old(self).open@[id].held,
        ensures
            final(self).wf(),
            r == outcome,
            final(self).ended(*old(self), key, id, outcome),
    {
        let s = self.open.get(&id).unwrap().another();
        let current = match self.pending.get(&key) {
            Some(at) => *at == id,
            None => false,
        };
        if current {
            self.pending.remove(&key);
        }
        let ghost left = self.pending@;
        assert(forall|k: u64| #[trigger] left.dom().contains(k) ==> left[k] != id);
        match outcome {
            Ok(v) => {
                let kept = Arc::new(v.clone());
                self.open.insert(id, Slot { cell: Some(share(&kept)), held: false, ..s });
                if current {
                    self.values.insert(key, share(&kept));
                }
                self.leave(id);
                assert(self.open@ == Self::filled(old(self).open@, id, kept));
                Ok(v)
            },
            Err(e) => {
                self.open.insert(id, Slot { held: false, ..s });
                self.leave(id);
                Err(e)
            },
        }
    }

    /// Forget `key`, so that the next caller mints again. A value already
    /// handed out is unaffected.
    pub fn invalidate(&mut self, key: &u64)
        requires
            old(self).wf(),
        ensures
            final(self).wf(),
            final(self).values@ == old(self).values@.remove(*key),
            final(self).pending@ == old(self).pending@.remove(*key),
            final(self).open@ == old(self).open@,
            final(self).next == old(self).next,
            final(self).forgotten@ == (if old(self).pending@.dom().contains(*key) {
                old(self).forgotten@.insert(old(self).pending@[*key])
            } else {
                old(self).forgotten@
            }),
    {
        if let Some(id) = self.pending.get(key) {
            self.forgotten = Ghost(self.forgotten@.insert(*id));
        }
        self.values.remove(key);
        self.pending.remove(key);
    }

    /// Forget every key.
    pub fn clear(&mut self)
        requires
            old(self).wf(),
        ensures
            final(self).wf(),
            final(self).values@ == Map::<u64, Arc<V>>::empty(),
            final(self).pending@ == Map::<u64, u64>::empty(),
            final(self).open@ == old(self).open@,
            final(self).next == old(self).next,
            final(self).forgotten@ == old(self).forgotten@.union(old(self).pending@.values()),
    {
        self.forgotten = Ghost(self.forgotten@.union(self.pending@.values()));
        assert forall|id: u64| #[trigger] self.open@.dom().contains(id)
            && self.open@[id].held implies self.forgotten@.contains(id) by {
            if self.is_current(self.open@[id].key, id) {
                assert(self.pending@.contains_key(self.open@[id].key));
            }
        }
        self.values.clear();
        self.pending.clear();
    }

    /// How many keys have a value. A mint in flight does not count, and one
    /// that failed left nothing to count.
    pub fn len(&self) -> (r: usize)
        ensures
            r == self.values@.dom().len(),
    {
        self.values.len()
    }

    /// The value for `key`, minted with `mint` if it has none, for a caller
    /// that has the cache to itself.
    pub fn get_or_try_init<F: FnOnce() -> Result<V, Error>>(
        &mut self,
        key: &u64,
        mint: F,
    ) -> (r: Result<V, Error>)
        requires
            old(self).wf(),
            old(self).next < u64::MAX,
            old(self).open@ == Map::<u64, Slot<V>>::empty(),
            old(self).value(*key) is None ==> mint.requires(()),
        ensures
            final(self).wf(),
            final(self).open@ == Map::<u64, Slot<V>>::empty(),
            match old(self).value(*key) {
                Some(v) => r is Ok && cloned(v, r->Ok_0) && *final(self) == *old(self),
                None => {
                    &&& mint.ensures((), r)
                    &&& final(self).next == old(self).next + 1
                    &&& match r {
                        Ok(v) => {
                            &&& final(self).value(*key) is Some
                            &&& cloned(v, final(self).value(*key)->0)
                            &&& final(self).values@ == old(self).values@.insert(
                                *key,
                                final(self).values@[*key],
                            )
                        },
                        Err(_) => final(self).values@ == old(self).values@,
                    }
                },
            },
    {
        match self.lookup(*key) {
            Look::Hit(v) => Ok(v),
            Look::Door(id) => {
                assert(old(self).pending@.dom() =~= Set::empty()) by {
                    assert forall|k: u64| !old(self).pending@.dom().contains(k) by {
                        if old(self).pending@.dom().contains(k) {
                            assert(old(self).open@.dom().contains(old(self).pending@[k]));
                        }
                    }
                }
                match self.enter(*key, id) {
                    Enter::Mint => {
                        let outcome = mint();
                        let r = self.minted(*key, id, outcome);
                        assert(self.open@ =~= Map::<u64, Slot<V>>::empty());
                        r
                    },
                    Enter::Hit(v) => {
                        assert(false);
                        Ok(v)
                    },
                    Enter::Busy | Enter::Stale => {
                        assert(false);
                        mint()
                    },
                }
            },
        }
    }
}

/// A key is minted at most once while it lives: two callers that mint the same
/// key at once mint on one slot, so are one caller, unless the key was
/// forgotten under one of them.
pub proof fn law_one_mint_per_live_key<V: Clone>(
    cache: SingleFlight<V>,
    key: u64,
    a: u64,
    b: u64,
)
    requires
        cache.wf(),
        cache.holds(key, a),
        cache.holds(key, b),
        cache.open@[a].held,
        cache.open@[b].held,
    ensures
        a == b || cache.forgotten@.contains(a) || cache.forgotten@.contains(b),
{
}

/// Nobody mints a key that has a value, but for a caller under whom the key
/// was forgotten before it had that value.
pub proof fn law_a_value_ends_the_minting<V: Clone>(
    cache: SingleFlight<V>,
    key: u64,
    id: u64,
)
    requires
        cache.wf(),
        cache.value(key) is Some,
        cache.holds(key, id),
        cache.open@[id].held,
    ensures
        cache.forgotten@.contains(id),
{
}

/// A mint that fails costs nobody else theirs: the values stay, and so does
/// every slot that is a key's own, but for the failed one. `after` is what
/// [`SingleFlight::minted`] leaves of `before` on a failure.
pub proof fn law_a_failed_mint_orphans_nothing<V: Clone>(
    before: SingleFlight<V>,
    after: SingleFlight<V>,
    key: u64,
    id: u64,
    failure: Error,
    other: u64,
    slot: u64,
)
    requires
        before.wf(),
        before.holds(key, id),
        before.is_current(other, slot),
        slot != id,
        after.ended(before, key, id, Err(failure)),
    ensures
        after.is_current(other, slot),
        after.open@[slot] == before.open@[slot],
        after.value(other) == before.value(other),
{
}

/// One step of one of the callers at a cache.
pub enum Move<V> {
    /// It came for a key and was told so much.
    Look { key: u64, told: Look<V> },
    /// It came to the door of a slot it holds for the key.
    Enter { key: u64, id: u64, found: Enter<V> },
    /// It was inside the door, and its mint ended.
    Mint { key: u64, id: u64, outcome: Result<V, Error> },
}

impl<V: Clone> Move<V> {
    /// The step takes the cache from `before` to `after`, as
    /// [`SingleFlight::lookup`], [`SingleFlight::enter`] and
    /// [`SingleFlight::minted`] have it.
    pub open spec fn takes(&self, before: SingleFlight<V>, after: SingleFlight<V>) -> bool {
        match *self {
            Move::Look { key, told } => after.wf() && after.looked(before, key, told),
            Move::Enter { key, id, found } => {
                before.holds(key, id) && after.wf() && after.entered(before, key, id, found)
            },
            Move::Mint { key, id, outcome } => {
                &&& before.holds(key, id)
                &&& before.open@[id].held
                &&& after.wf()
                &&& after.ended(before, key, id, outcome)
            },
        }
    }

    /// The value of `key` that the step ends its caller's call with, where it
    /// does.
    pub open spec fn answer(&self, key: u64) -> Option<V> {
        match *self {
            Move::Look { key: k, told: Look::Hit(v) } if k == key => Some(v),
            Move::Enter { key: k, found: Enter::Hit(v), .. } if k == key => Some(v),
            Move::Mint { key: k, outcome: Ok(v), .. } if k == key => Some(v),
            _ => None,
        }
    }

    /// What the step ends its caller's call with is the value kept of `key`, up
    /// to the cloning: whoever mints is given the value whose clone is kept,
    /// everyone else a clone of that.
    pub open spec fn agrees(&self, key: u64, kept: V) -> bool {
        if self.mints(key) {
            cloned(self.answer(key)->0, kept)
        } else {
            cloned(kept, self.answer(key)->0)
        }
    }

    /// The step is a caller's coming for `key`.
    pub open spec fn looks(&self, key: u64) -> bool {
        *self matches Move::Look { key: k, .. } && k == key
    }

    /// The step is a mint of `key` that gave a value.
    pub open spec fn mints(&self, key: u64) -> bool {
        *self matches Move::Mint { key: k, outcome: Ok(_), .. } && k == key
    }
}

/// Steps of any number of callers, one after the other, none of which forgets
/// a key, from a cache that nobody is at.
pub open spec fn flight<V: Clone>(states: Seq<SingleFlight<V>>, moves: Seq<Move<V>>) -> bool {
    &&& states.len() == moves.len() + 1
    &&& states[0].wf()
    &&& states[0].open@ == Map::<u64, Slot<V>>::empty()
    &&& forall|i: int| 0 <= i < moves.len() ==> (#[trigger] moves[i]).takes(states[i], states[i + 1])
}

/// No slot that callers hold was forgotten, and one that has a value has its
/// key's.
spec fn settled<V: Clone>(s: SingleFlight<V>) -> bool {
    &&& s.wf()
    &&& forall|id: u64| #[trigger]
        s.open@.dom().contains(id) ==> {
            &&& !s.forgotten@.contains(id)
            &&& s.open@[id].cell is Some ==> s.value(s.open@[id].key) == Some(
                *s.open@[id].cell->0,
            )
        }
}

proof fn lemma_move_keeps_settled<V: Clone>(
    m: Move<V>,
    before: SingleFlight<V>,
    after: SingleFlight<V>,
)
    requires
        settled(before),
        m.takes(before, after),
    ensures
        settled(after),
        forall|k: u64| #[trigger] before.value(k) is Some ==> after.value(k) == before.value(k),
        forall|k: u64| #[trigger]
            m.answer(k) is Some ==> after.value(k) is Some && m.agrees(k, after.value(k)->0),
        forall|k: u64| #[trigger] m.mints(k) ==> before.value(k) is None && after.value(k) is Some,
{
    match m {
        Move::Look { key, told } => {},
        Move::Enter { key, id, found } => {},
        Move::Mint { key, id, outcome } => {
            assert(before.open@.dom().contains(id));
            assert(before.is_current(key, id));
            assert(before.pending@.dom().contains(key));
        },
    }
}

proof fn lemma_flight_is_settled<V: Clone>(
    states: Seq<SingleFlight<V>>,
    moves: Seq<Move<V>>,
    i: int,
    j: int,
)
    requires
        flight(states, moves),
        0 <= i <= j < states.len(),
    ensures
        settled(states[j]),
        forall|k: u64| #[trigger]
            states[i].value(k) is Some ==> states[j].value(k) == states[i].value(k),
    decreases j,
{
    if j > 0 {
        let m = moves[j - 1];
        assert(m.takes(states[j - 1], states[j]));
        if i < j {
            lemma_flight_is_settled(states, moves, i, j - 1);
        } else {
            lemma_flight_is_settled(states, moves, j - 1, j - 1);
        }
        lemma_move_keeps_settled(m, states[j - 1], states[j]);
    }
}

/// One value per key, however many callers race for it and however many of
/// their mints fail: at most one mint of a key gives a value, everyone who is
/// given a value of the key is given that one, and it is cached from then on,
/// so that whoever looks later hits it.
pub proof fn law_one_value_per_key<V: Clone>(
    states: Seq<SingleFlight<V>>,
    moves: Seq<Move<V>>,
    key: u64,
)
    requires
        flight(states, moves),
    ensures
        forall|i: int, j: int|
            0 <= i < moves.len() && 0 <= j < moves.len() && (#[trigger] moves[i]).mints(key) && (
            #[trigger] moves[j]).mints(key) ==> i == j,
        forall|i: int|
            0 <= i < moves.len() && (#[trigger] moves[i]).answer(key) is Some ==> {
                &&& states.last().value(key) is Some
                &&& moves[i].agrees(key, states.last().value(key)->0)
            },
        forall|i: int, j: int|
            0 <= i < j < moves.len() && (#[trigger] moves[i]).answer(key) is Some && (
            #[trigger] moves[j]).looks(key) ==> moves[j].answer(key) is Some,
{
    let last = states.len() - 1;
    assert forall|i: int, j: int|
        0 <= i < moves.len() && 0 <= j < moves.len() && (#[trigger] moves[i]).mints(key) && (
        #[trigger] moves[j]).mints(key) implies i == j by {
        lemma_flight_is_settled(states, moves, i, i);
        lemma_move_keeps_settled(moves[i], states[i], states[i + 1]);
        lemma_flight_is_settled(states, moves, j, j);
        lemma_move_keeps_settled(moves[j], states[j], states[j + 1]);
        if i < j {
            lemma_flight_is_settled(states, moves, i + 1, j);
        } else if j < i {
            lemma_flight_is_settled(states, moves, j + 1, i);
        }
    }
    assert forall|i: int| 0 <= i < moves.len() && (#[trigger] moves[i]).answer(key) is Some implies {
        &&& states.last().value(key) is Some
        &&& moves[i].agrees(key, states.last().value(key)->0)
    } by {
        lemma_flight_is_settled(states, moves, i, i);
        lemma_move_keeps_settled(moves[i], states[i], states[i + 1]);
        lemma_flight_is_settled(states, moves, i + 1, last);
        assert(states[i + 1].value(key) is Some);
    }
    assert forall|i: int, j: int|
        0 <= i < j < moves.len() && (#[trigger] moves[i]).answer(key) is Some && (
        #[trigger] moves[j]).looks(key) implies moves[j].answer(key) is Some by {
        lemma_flight_is_settled(states, moves, i, i);
        lemma_move_keeps_settled(moves[i], states[i], states[i + 1]);
        lemma_flight_is_settled(states, moves, i + 1, j);
        assert(states[i + 1].value(key) is Some);
        assert(moves[j].takes(states[j], states[j + 1]));
    }
}

/// A forgotten key is minted anew: whatever becomes of the callers that were at
/// it, the next one to come for it finds no value and a slot of its own, fresh.
/// `states[0]` is what [`SingleFlight::invalidate`] or [`SingleFlight::clear`]
/// leaves, and `moves` what happens until then.
pub proof fn law_forgotten_key_is_minted_anew<V: Clone>(
    states: Seq<SingleFlight<V>>,
    moves: Seq<Move<V>>,
    key: u64,
    after: SingleFlight<V>,
    told: Look<V>,
)
    requires
        states.len() == moves.len() + 1,
        states[0].value(key) is None,
        !states[0].pending@.dom().contains(key),
        forall|i: int|
            0 <= i < moves.len() ==> (#[trigger] moves[i]).takes(states[i], states[i + 1])
                && !moves[i].looks(key),
        after.looked(states.last(), key, told),
    ensures
        states.last().value(key) is None,
        !states.last().pending@.dom().contains(key),
        told == Look::<V>::Door(states.last().next),
{
    lemma_forgotten_stays_so(states, moves, key);
}

proof fn lemma_forgotten_stays_so<V: Clone>(
    states: Seq<SingleFlight<V>>,
    moves: Seq<Move<V>>,
    key: u64,
)
    requires
        states.len() == moves.len() + 1,
        states[0].value(key) is None,
        !states[0].pending@.dom().contains(key),
        forall|i: int|
            0 <= i < moves.len() ==> (#[trigger] moves[i]).takes(states[i], states[i + 1])
                && !moves[i].looks(key),
    ensures
        states.last().value(key) is None,
        !states.last().pending@.dom().contains(key),
    decreases moves.len(),
{
    if moves.len() > 0 {
        let (before, less) = (states.drop_last(), moves.drop_last());
        let n = moves.len() - 1;
        assert(moves[n].takes(states[n], states[n + 1]));
        assert forall|i: int| 0 <= i < less.len() implies (#[trigger] less[i]).takes(
            before[i],
            before[i + 1],
        ) && !less[i].looks(key) by {
            assert(less[i] == moves[i]);
        }
        lemma_forgotten_stays_so(before, less, key);
        assert(before.last() == states[n]);
    }
}

/// Everyone at a slot hears how the mint on it ended: of a value, a clone; of a
/// failure, that the slot is no longer the key's, which has neither value nor
/// slot then, so that the next to come mints afresh. `later` is the cache once
/// one of them came to the door again and was told `r`.
pub proof fn law_callers_at_the_slot_hear_of_the_mint<V: Clone>(
    before: SingleFlight<V>,
    after: SingleFlight<V>,
    later: SingleFlight<V>,
    key: u64,
    id: u64,
    outcome: Result<V, Error>,
    r: Enter<V>,
)
    requires
        before.wf(),
        before.is_current(key, id),
        before.open@[id].held,
        before.open@[id].users > 1,
        after.ended(before, key, id, outcome),
        later.entered(after, key, id, r),
    ensures
        after.open@.dom().contains(id),
        after.open@[id].users == before.open@[id].users - 1,
        outcome is Ok ==> {
            &&& r is Hit
            &&& after.value(key) is Some
            &&& cloned(outcome->Ok_0, after.value(key)->0)
            &&& cloned(after.value(key)->0, r->Hit_0)
        },
        outcome is Err ==> {
            &&& r is Stale
            &&& after.value(key) is None
            &&& !after.pending@.dom().contains(key)
        },
{
    assert(before.pending@.dom().contains(key));
}

/// A caller that comes for a key with a value is given it; one that comes for a
/// key without is given the slot others wait at, or the first, so that one of
/// them mints.
pub proof fn law_callers_meet_at_one_slot<V: Clone>(
    s0: SingleFlight<V>,
    s1: SingleFlight<V>,
    s2: SingleFlight<V>,
    key: u64,
    a: Look<V>,
    b: Look<V>,
)
    requires
        s0.wf(),
        s1.wf(),
        s1.looked(s0, key, a),
        s2.looked(s1, key, b),
    ensures
        s0.value(key) is Some ==> a is Hit && cloned(s0.value(key)->0, a->Hit_0),
        s0.value(key) is None ==> a is Door && b is Door && a->Door_0 == b->Door_0,
{
}

} // verus!
