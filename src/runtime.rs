use vstd::prelude::*;
use crate::owner::{freed, held_among, Owner};
use crate::store::{
    after_read, after_release_read, counts_readers, after_release_write, after_write, handle_valid, read_outcome,
    reader_room, reusable, value_at, write_outcome, BorrowError, BorrowMutError, BorrowState, ReadGuard, Slot,
    SlotHandle, Store, WriteGuard, MAX_GENERATION,
};

verus! {

/// Names one scope of a runtime.
#[derive(Clone, Copy, Debug, PartialEq, Eq, Structural)]
pub struct ScopeId(pub usize);

/// A store together with one owner per scope and the scope that is current.
pub struct Runtime<T> {
    pub(crate) store: Store<T>,
    scopes: Vec<Option<Owner>>,
    current: usize,
}

impl<T> Runtime<T> {
    /// The slots of the store.
    pub closed spec fn slots(&self) -> Seq<Slot<T>> {
        self.store@
    }

    /// How many scopes have been made.
    pub closed spec fn scope_count(&self) -> nat {
        self.scopes@.len()
    }

    /// The scope new values go to.
    pub closed spec fn current(&self) -> ScopeId {
        ScopeId(self.current)
    }

    /// Scope `s` was made and not yet torn down.
    pub closed spec fn is_live(&self, s: ScopeId) -> bool {
        s.0 < self.scopes@.len() && self.scopes@[s.0 as int] is Some
    }

    /// The owner of scope `s` holds slot `i`.
    pub closed spec fn owns(&self, s: ScopeId, i: int) -> bool {
        &&& self.is_live(s)
        &&& held_among(
            self.scopes@[s.0 as int]->0@,
            (self.scopes@[s.0 as int]->0@).len() as int,
            i,
        )
    }

    /// The store is well formed, the current scope exists, and each slot is
    /// held at most once: by one scope, and only while it is occupied.
    pub closed spec fn wf(&self) -> bool {
        &&& self.store.wf()
        &&& self.current < self.scopes@.len()
        &&& forall|s: ScopeId| #[trigger]
            self.is_live(s) ==> (self.scopes@[s.0 as int]->0@).no_duplicates()
        &&& forall|s: ScopeId, i: int| #[trigger]
            self.owns(s, i) ==> 0 <= i < self.store@.len() && self.store@[i].contents is Some
        &&& forall|s1: ScopeId, s2: ScopeId, i: int| #[trigger]
            self.owns(s1, i) && #[trigger] self.owns(s2, i) ==> s1 == s2
    }

    /// The scopes of `after` are those of `self`, with the same slots held.
    pub open spec fn same_scopes(&self, after: &Self) -> bool {
        &&& after.scope_count() == self.scope_count()
        &&& after.current() == self.current()
        &&& forall|s: ScopeId| #[trigger] after.is_live(s) == self.is_live(s)
        &&& forall|s: ScopeId, i: int| #[trigger] after.owns(s, i) == self.owns(s, i)
    }

    /// `after` differs from `self` in its slots alone, which are `slots`.
    pub open spec fn moved_to(&self, after: &Self, slots: Seq<Slot<T>>) -> bool {
        &&& after.wf()
        &&& self.same_scopes(after)
        &&& after.slots() == slots
    }

    /// `after` is `self` with `value` written into a slot that was empty,
    /// named by `h` and held by scope `s`.
    pub open spec fn inserted(&self, after: &Self, s: ScopeId, h: SlotHandle, value: T) -> bool {
        &&& after.wf()
        &&& h.index < after.slots().len()
        &&& after.slots()[h.index as int] == (Slot {
            generation: h.generation,
            contents: Some(value),
            borrow: BorrowState::Free,
        })
        &&& h.index < self.slots().len() ==> self.slots()[h.index as int].contents is None
            && h.generation == self.slots()[h.index as int].generation
        &&& h.index >= self.slots().len() ==> h.index == self.slots().len() && h.generation == 0
        &&& (exists|j: int| reusable(self.slots(), j)) ==> h.index < self.slots().len()
        &&& h.index < self.slots().len() ==> after.slots().len() == self.slots().len()
        &&& after.slots().len() == self.slots().len() || after.slots().len() == self.slots().len() + 1
        &&& forall|j: int|
            0 <= j < self.slots().len() && j != h.index ==> #[trigger] after.slots()[j]
                == self.slots()[j]
        &&& after.scope_count() == self.scope_count()
        &&& after.current() == self.current()
        &&& forall|t: ScopeId| #[trigger] after.is_live(t) == self.is_live(t)
        &&& forall|t: ScopeId, i: int| #[trigger]
            after.owns(t, i) == (self.owns(t, i) || (t == s && i == h.index as int))
    }

    /// A well-formed runtime never records a share with no reader.
    pub proof fn lemma_counts_readers(&self)
        requires
            self.wf(),
        ensures
            counts_readers(self.slots()),
    {
        self.store.lemma_counts_readers();
    }

    /// `after` is `self` with scope `s` torn down: each slot it held is
    /// freed, and nothing else changes.
    pub open spec fn dropped(&self, after: &Self, s: ScopeId) -> bool {
        &&& after.wf()
        &&& !after.is_live(s)
        &&& after.scope_count() == self.scope_count()
        &&& after.current() == self.current()
        &&& after.slots().len() == self.slots().len()
        &&& forall|j: int|
            0 <= j < self.slots().len() ==> #[trigger] after.slots()[j] == if self.owns(s, j) {
                freed(self.slots()[j])
            } else {
                self.slots()[j]
            }
        &&& forall|t: ScopeId| t != s ==> #[trigger] after.is_live(t) == self.is_live(t)
        &&& forall|t: ScopeId, i: int| #[trigger] after.owns(t, i) == (self.owns(t, i) && t != s)
    }

    /// A live scope is one of the scopes made so far.
    pub proof fn lemma_live_scope_exists(&self, s: ScopeId)
        requires
            self.wf(),
            self.is_live(s),
        ensures
            s.0 < self.scope_count(),
    {
    }

    /// A well-formed runtime holds only occupied slots.
    pub proof fn lemma_owned_occupied(&self, s: ScopeId, i: int)
        requires
            self.wf(),
            self.owns(s, i),
        ensures
            0 <= i < self.slots().len(),
            self.slots()[i].contents is Some,
            self.slots()[i].generation < MAX_GENERATION,
    {
        self.store.lemma_occupied_bounded(i);
    }

    /// A runtime with one scope, the root, which is current.
    pub fn new() -> (r: Self)
        ensures
            r.wf(),
            r.slots().len() == 0,
            r.scope_count() == 1,
            r.current() == ScopeId(0),
            r.is_live(ScopeId(0)),
            forall|s: ScopeId, i: int| !#[trigger] r.owns(s, i),
    {
        let mut scopes: Vec<Option<Owner>> = Vec::new();
        scopes.push(Some(Owner::new()));
        Runtime { store: Store::new(), scopes, current: 0 }
    }

    /// The scope new values go to.
    pub fn current_scope(&self) -> (r: ScopeId)
        ensures
            r == self.current(),
    {
        ScopeId(self.current)
    }

    /// Makes a new live scope, holding no slot.
    pub fn create_scope(&mut self) -> (s: ScopeId)
        requires
            old(self).wf(),
        ensures
            final(self).wf(),
            s.0 == old(self).scope_count(),
            final(self).is_live(s),
            final(self).scope_count() == old(self).scope_count() + 1,
            final(self).current() == old(self).current(),
            final(self).slots() == old(self).slots(),
            forall|t: ScopeId| t != s ==> #[trigger] final(self).is_live(t) == old(self).is_live(t),
            forall|t: ScopeId, i: int| #[trigger] final(self).owns(t, i) == old(self).owns(t, i),
    {
        let s = ScopeId(self.scopes.len());
        self.scopes.push(Some(Owner::new()));
        assert forall|t: ScopeId, i: int| #[trigger] self.owns(t, i) == old(self).owns(t, i) by {
            if t != s && t.0 < old(self).scopes@.len() {
                assert(self.scopes@[t.0 as int] == old(self).scopes@[t.0 as int]);
            }
        }
        assert forall|t: ScopeId| #[trigger] self.is_live(t) implies (self.scopes@[t.0 as int]->0@).no_duplicates() by {
            if t != s {
                assert(self.scopes@[t.0 as int] == old(self).scopes@[t.0 as int]);
                assert(old(self).is_live(t));
            }
        }
        s
    }

    /// Tears scope `s` down: every slot its owner holds is freed, with its
    /// generation bumped, and the scope is no longer live.
    pub fn drop_scope(&mut self, s: ScopeId)
        requires
            old(self).wf(),
            s.0 < old(self).scope_count(),
        ensures
            old(self).dropped(final(self), s),
    {
        let entry = self.scopes[s.0].take();
        assert forall|t: ScopeId| t != s && t.0 < self.scopes@.len() implies self.scopes@[t.0 as int]
            == old(self).scopes@[t.0 as int] by {}
        match entry {
            Some(owner) => {
                let mut owner = owner;
                assert(owner.holds_in(self.store@)) by {
                    assert forall|k: int| 0 <= k < owner@.len() implies (#[trigger] owner@[k])
                        < self.store@.len() && self.store@[owner@[k] as int].contents is Some by {
                        assert(old(self).owns(s, owner@[k] as int));
                    }
                    assert(old(self).is_live(s));
                }
                owner.release(&mut self.store);
            },
            None => {},
        }
        assert forall|t: ScopeId| #[trigger] self.is_live(t) == (old(self).is_live(t) && t != s) by {}
        assert forall|t: ScopeId, i: int| #[trigger] self.owns(t, i) == (old(self).owns(t, i) && t != s) by {}
        assert forall|j: int| 0 <= j < old(self).slots().len() implies #[trigger] self.slots()[j] == if old(self).owns(s, j) {
            freed(old(self).slots()[j])
        } else {
            old(self).slots()[j]
        } by {}
        assert forall|t: ScopeId, i: int| #[trigger] self.owns(t, i) implies 0 <= i < self.store@.len()
            && self.store@[i].contents is Some by {
            assert(old(self).owns(t, i));
            if old(self).owns(s, i) {
                assert(t == s);
            }
        }
        assert forall|t: ScopeId| #[trigger] self.is_live(t) implies (self.scopes@[t.0 as int]->0@).no_duplicates() by {
            assert(old(self).is_live(t));
        }
    }

    /// Allocates a slot for `value` and has scope `s` hold it.
    pub fn insert_into(&mut self, s: ScopeId, value: T) -> (h: SlotHandle)
        requires
            old(self).wf(),
            old(self).is_live(s),
        ensures
            old(self).inserted(final(self), s, h, value),
    {
        let entry = self.scopes[s.0].take();
        assert forall|t: ScopeId| t != s && t.0 < self.scopes@.len() implies self.scopes@[t.0 as int]
            == old(self).scopes@[t.0 as int] by {}
        let mut owner = match entry {
            Some(owner) => owner,
            None => {
                proof {
                    assert(old(self).is_live(s));
                }
                Owner::new()
            },
        };
        let ghost held = owner@;
        assert(old(self).is_live(s));
        let h = owner.insert(&mut self.store, value);
        self.scopes.set(s.0, Some(owner));
        assert forall|t: ScopeId| t != s && t.0 < self.scopes@.len() implies self.scopes@[t.0 as int]
            == old(self).scopes@[t.0 as int] by {}
        assert forall|t: ScopeId, i: int| old(self).owns(t, i) implies i != h.index as int by {
            assert(old(self).store@[i].contents is Some);
        }
        assert forall|i: int| #[trigger] held_among(owner@, owner@.len() as int, i) == (held_among(held, held.len() as int, i) || i == h.index as int) by {
            if held_among(held, held.len() as int, i) {
                let m = choose|m: int| 0 <= m < held.len() && #[trigger] held[m] as int == i;
                assert(owner@[m] == held[m]);
            }
            if i == h.index as int {
                assert(owner@[held.len() as int] == h.index);
            }
            if held_among(owner@, owner@.len() as int, i) && i != h.index as int {
                let m = choose|m: int| 0 <= m < owner@.len() && #[trigger] owner@[m] as int == i;
                assert(held[m] == owner@[m]);
            }
        }
        assert forall|t: ScopeId| #[trigger] self.is_live(t) == old(self).is_live(t) by {}
        assert forall|t: ScopeId, i: int| #[trigger] self.owns(t, i) == (old(self).owns(t, i) || (t == s && i == h.index as int)) by {}
        assert(owner@.no_duplicates()) by {
            assert(held == old(self).scopes@[s.0 as int]->0@);
            if held_among(held, held.len() as int, h.index as int) {
                assert(old(self).owns(s, h.index as int));
            }
            assert forall|a: int, b: int| 0 <= a < b < owner@.len() implies owner@[a] != owner@[b] by {
                if b == held.len() {
                    assert(owner@[a] == held[a]);
                } else {
                    assert(owner@[a] == held[a] && owner@[b] == held[b]);
                }
            }
        }
        assert forall|t: ScopeId| #[trigger] self.is_live(t) implies (self.scopes@[t.0 as int]->0@).no_duplicates() by {
            if t != s {
                assert(old(self).is_live(t));
            }
        }
        assert forall|t: ScopeId, i: int| #[trigger] self.owns(t, i) implies 0 <= i < self.store@.len()
            && self.store@[i].contents is Some by {
            if i != h.index as int {
                assert(old(self).owns(t, i));
            }
        }
        h
    }

    /// Starts a read view through `h`.
    pub fn try_read(&mut self, h: SlotHandle) -> (r: Result<ReadGuard, BorrowError>)
        requires
            old(self).wf(),
            reader_room(old(self).slots(), h),
        ensures
            r is Ok <==> read_outcome(old(self).slots(), h) is Ok,
            r matches Ok(g) ==> g.handle() == h && old(self).moved_to(
                final(self),
                after_read(old(self).slots(), h),
            ),
            r matches Err(e) ==> read_outcome(old(self).slots(), h) == Err::<(), BorrowError>(e)
                && old(self).moved_to(final(self), old(self).slots()),
    {
        let r = self.store.try_read(h);
        proof {
            lemma_occupancy_kept(*old(self), *self);
        }
        r
    }

    /// Ends the read view `g`.
    pub fn release_read(&mut self, g: ReadGuard)
        requires
            old(self).wf(),
        ensures
            old(self).moved_to(final(self), after_release_read(old(self).slots(), g.handle())),
    {
        self.store.release_read(g);
        proof {
            lemma_occupancy_kept(*old(self), *self);
        }
    }

    /// Starts a write view through `h`.
    pub fn try_write(&mut self, h: SlotHandle) -> (r: Result<WriteGuard, BorrowMutError>)
        requires
            old(self).wf(),
        ensures
            r is Ok <==> write_outcome(old(self).slots(), h) is Ok,
            r matches Ok(g) ==> g.handle() == h && old(self).moved_to(
                final(self),
                after_write(old(self).slots(), h),
            ),
            r matches Err(e) ==> write_outcome(old(self).slots(), h) == Err::<(), BorrowMutError>(e)
                && old(self).moved_to(final(self), old(self).slots()),
    {
        let r = self.store.try_write(h);
        proof {
            lemma_occupancy_kept(*old(self), *self);
        }
        r
    }

    /// Ends the write view `g`.
    pub fn release_write(&mut self, g: WriteGuard)
        requires
            old(self).wf(),
        ensures
            old(self).moved_to(final(self), after_release_write(old(self).slots(), g.handle())),
    {
        self.store.release_write(g);
        proof {
            lemma_occupancy_kept(*old(self), *self);
        }
    }

    /// The value seen through the read view `g`, while it is held.
    pub fn get(&self, g: &ReadGuard) -> (r: Option<&T>)
        ensures
            r is Some <==> handle_valid(self.slots(), g.handle())
                && self.slots()[g.handle().index as int].borrow is Shared,
            r matches Some(v) ==> *v == value_at(self.slots(), g.handle()),
    {
        self.store.get(g)
    }

    /// Replaces the value through the write view `g`. Returns whether the view
    /// was held, and so whether the value was replaced.
    pub fn put(&mut self, g: &WriteGuard, value: T) -> (r: bool)
        requires
            old(self).wf(),
        ensures
            r == (handle_valid(old(self).slots(), g.handle())
                && old(self).slots()[g.handle().index as int].borrow is Exclusive),
            r ==> old(self).moved_to(
                final(self),
                old(self).slots().update(
                    g.handle().index as int,
                    Slot {
                        generation: g.handle().generation,
                        contents: Some(value),
                        borrow: BorrowState::Exclusive,
                    },
                ),
            ),
            !r ==> old(self).moved_to(final(self), old(self).slots()),
    {
        let r = self.store.put(g, value);
        proof {
            lemma_occupancy_kept(*old(self), *self);
        }
        r
    }

    /// A handle that reads as already freed, taken through the owner of the
    /// current scope when it is live.
    pub(crate) fn make_invalid(&mut self) -> (h: SlotHandle)
        requires
            old(self).wf(),
        ensures
            final(self).wf(),
            !handle_valid(final(self).slots(), h),
            h.index < final(self).slots().len(),
            final(self).slots()[h.index as int].borrow is Free,
            reader_room(final(self).slots(), h),
            final(self).slots()[h.index as int].generation == h.generation + 1,
            final(self).slots()[h.index as int].contents is None,
            h.index >= old(self).slots().len() ==> h.index == old(self).slots().len() && h.generation == 0,
            old(self).same_scopes(final(self)),
            final(self).slots().len() == old(self).slots().len() || final(self).slots().len()
                == old(self).slots().len() + 1,
            forall|j: int|
                0 <= j < old(self).slots().len() && old(self).slots()[j].contents is Some
                    ==> #[trigger] final(self).slots()[j] == old(self).slots()[j],
    {
        let h = match &self.scopes[self.current] {
            Some(owner) => owner.invalid(&mut self.store),
            None => self.store.invalid(),
        };
        assert forall|t: ScopeId| #[trigger] self.is_live(t) == old(self).is_live(t) by {}
        assert forall|t: ScopeId, i: int| #[trigger] self.owns(t, i) == old(self).owns(t, i) by {}
        assert forall|t: ScopeId, i: int| #[trigger] self.owns(t, i) implies 0 <= i < self.store@.len()
            && self.store@[i].contents is Some by {
            assert(old(self).owns(t, i));
        }
        h
    }

    /// Runs `f` on the value through the held write view `g` and returns
    /// what it returns; the value becomes what `f` left behind.
    pub fn update_with<O, F: FnOnce(&mut T) -> O>(&mut self, g: &WriteGuard, f: F) -> (r: O)
        requires
            old(self).wf(),
            handle_valid(old(self).slots(), g.handle()),
            old(self).slots()[g.handle().index as int].borrow is Exclusive,
            forall|v: &mut T| *v == value_at(old(self).slots(), g.handle()) ==> f.requires((v,)),
        ensures
            exists|v: &mut T|
                *v == value_at(old(self).slots(), g.handle()) && f.ensures((v,), r) && old(
                    self,
                ).moved_to(
                    final(self),
                    old(self).slots().update(
                        g.handle().index as int,
                        Slot {
                            generation: g.handle().generation,
                            contents: Some(*final(v)),
                            borrow: BorrowState::Exclusive,
                        },
                    ),
                ),
    {
        let r = self.store.update_with(g, f);
        proof {
            lemma_occupancy_kept(*old(self), *self);
        }
        r
    }

    /// Makes `s` the current scope.
    pub fn enter_scope(&mut self, s: ScopeId)
        requires
            old(self).wf(),
            s.0 < old(self).scope_count(),
        ensures
            final(self).wf(),
            final(self).current() == s,
            final(self).scope_count() == old(self).scope_count(),
            final(self).slots() == old(self).slots(),
            forall|t: ScopeId| #[trigger] final(self).is_live(t) == old(self).is_live(t),
            forall|t: ScopeId, i: int| #[trigger] final(self).owns(t, i) == old(self).owns(t, i),
    {
        self.current = s.0;
        assert forall|t: ScopeId| #[trigger] self.is_live(t) == old(self).is_live(t) by {}
        assert forall|t: ScopeId, i: int| #[trigger] self.owns(t, i) == old(self).owns(t, i) by {}
    }
}

/// A change to the store that keeps every slot occupied or empty as it was
/// keeps the runtime well formed, with the same scopes.
proof fn lemma_occupancy_kept<T>(before: Runtime<T>, after: Runtime<T>)
    requires
        before.wf(),
        after.store.wf(),
        after.scopes == before.scopes,
        after.current == before.current,
        after.store@.len() == before.store@.len(),
        forall|j: int|
            0 <= j < before.store@.len() ==> (#[trigger] after.store@[j]).contents is Some
                == (before.store@[j].contents is Some),
    ensures
        after.wf(),
        before.same_scopes(&after),
{
    assert forall|t: ScopeId| #[trigger] after.is_live(t) == before.is_live(t) by {}
    assert forall|t: ScopeId, i: int| #[trigger] after.owns(t, i) == before.owns(t, i) by {}
    assert forall|t: ScopeId, i: int| #[trigger] after.owns(t, i) implies 0 <= i < after.store@.len()
        && after.store@[i].contents is Some by {
        assert(before.owns(t, i));
    }
}

} // verus!
