use vstd::prelude::*;
use crate::runtime::{Runtime, ScopeId};
use crate::store::{
    after_read, after_write, lemma_read_release, handle_valid, read_outcome, reader_room, value_at, write_outcome,
    BorrowError, BorrowMutError, BorrowState, ReadGuard, Slot, SlotHandle, WriteGuard,
};

verus! {

/// A copyable handle to a mutable value held in a runtime's store, together
/// with the scope that made it. Copies name the same slot and see each
/// other's writes; the value is freed when the owning scope is torn down.
pub struct CopyValue<T> {
    value: SlotHandle,
    origin_scope: ScopeId,
    marker: core::marker::PhantomData<T>,
}

impl<T> Clone for CopyValue<T> {
    fn clone(&self) -> (r: Self)
        ensures
            r == *self,
    {
        CopyValue { value: self.value, origin_scope: self.origin_scope, marker: self.marker }
    }
}

impl<T> Copy for CopyValue<T> {}

impl<T> CopyValue<T> {
    /// The slot this value lives in.
    pub closed spec fn handle(&self) -> SlotHandle {
        self.value
    }

    /// The slots after `value` replaces the value of this handle in `slots`.
    pub open spec fn set_result(&self, slots: Seq<Slot<T>>, value: T) -> Seq<Slot<T>> {
        slots.update(
            self.handle().index as int,
            Slot { generation: self.handle().generation, contents: Some(value), borrow: BorrowState::Free },
        )
    }

    /// The scope this value was made in.
    pub closed spec fn origin(&self) -> ScopeId {
        self.origin_scope
    }

    /// Makes a value held by the current scope of `rt`.
    pub fn new(value: T, rt: &mut Runtime<T>) -> (r: Self)
        requires
            old(rt).wf(),
            old(rt).is_live(old(rt).current()),
        ensures
            r.origin() == old(rt).current(),
            old(rt).inserted(final(rt), old(rt).current(), r.handle(), value),
    {
        let scope = rt.current_scope();
        Self::new_in_scope(value, scope, rt)
    }

    /// Makes a value held by scope `scope` of `rt`, freed when that scope is
    /// torn down.
    pub fn new_in_scope(value: T, scope: ScopeId, rt: &mut Runtime<T>) -> (r: Self)
        requires
            old(rt).wf(),
            old(rt).is_live(scope),
        ensures
            r.origin() == scope,
            old(rt).inserted(final(rt), scope, r.handle(), value),
    {
        let h = rt.insert_into(scope, value);
        CopyValue { value: h, origin_scope: scope, marker: core::marker::PhantomData }
    }

    /// A value that reads as already freed, made in the current scope.
    pub fn invalid(rt: &mut Runtime<T>) -> (r: Self)
        requires
            old(rt).wf(),
        ensures
            r.origin() == old(rt).current(),
            !handle_valid(final(rt).slots(), r.handle()),
            r.handle().index < final(rt).slots().len(),
            final(rt).slots()[r.handle().index as int].borrow is Free,
            reader_room(final(rt).slots(), r.handle()),
            final(rt).slots()[r.handle().index as int].generation == r.handle().generation + 1,
            final(rt).slots()[r.handle().index as int].contents is None,
            r.handle().index >= old(rt).slots().len() ==> r.handle().index == old(rt).slots().len()
                && r.handle().generation == 0,
            final(rt).wf(),
            old(rt).same_scopes(final(rt)),
            final(rt).slots().len() == old(rt).slots().len() || final(rt).slots().len()
                == old(rt).slots().len() + 1,
            forall|j: int|
                0 <= j < old(rt).slots().len() && old(rt).slots()[j].contents is Some
                    ==> #[trigger] final(rt).slots()[j] == old(rt).slots()[j],
    {
        let h = rt.make_invalid();
        CopyValue {
            value: h,
            origin_scope: rt.current_scope(),
            marker: core::marker::PhantomData,
        }
    }

    /// The scope this value was made in.
    pub fn origin_scope(&self) -> (r: ScopeId)
        ensures
            r == self.origin(),
    {
        self.origin_scope
    }

    /// Starts a read view. Fails when the value was freed or a write view is
    /// held.
    pub fn try_read(&self, rt: &mut Runtime<T>) -> (r: Result<ReadGuard, BorrowError>)
        requires
            old(rt).wf(),
            reader_room(old(rt).slots(), self.handle()),
        ensures
            r is Ok <==> read_outcome(old(rt).slots(), self.handle()) is Ok,
            r matches Ok(g) ==> g.handle() == self.handle() && old(rt).moved_to(
                final(rt),
                after_read(old(rt).slots(), self.handle()),
            ),
            r matches Err(e) ==> read_outcome(old(rt).slots(), self.handle()) == Err::<(), BorrowError>(e)
                && old(rt).moved_to(final(rt), old(rt).slots()),
    {
        rt.try_read(self.value)
    }

    /// Starts a read view on a value known to be live and not written.
    pub fn read(&self, rt: &mut Runtime<T>) -> (g: ReadGuard)
        requires
            old(rt).wf(),
            reader_room(old(rt).slots(), self.handle()),
            read_outcome(old(rt).slots(), self.handle()) is Ok,
        ensures
            g.handle() == self.handle(),
            old(rt).moved_to(final(rt), after_read(old(rt).slots(), self.handle())),
    {
        rt.try_read(self.value).unwrap()
    }
    /// Starts a write view. Fails when the value was freed or any view is
    /// held.
    pub fn try_write(&self, rt: &mut Runtime<T>) -> (r: Result<WriteGuard, BorrowMutError>)
        requires
            old(rt).wf(),
        ensures
            r is Ok <==> write_outcome(old(rt).slots(), self.handle()) is Ok,
            r matches Ok(g) ==> g.handle() == self.handle() && old(rt).moved_to(
                final(rt),
                after_write(old(rt).slots(), self.handle()),
            ),
            r matches Err(e) ==> write_outcome(old(rt).slots(), self.handle()) == Err::<
                (),
                BorrowMutError,
            >(e) && old(rt).moved_to(final(rt), old(rt).slots()),
    {
        rt.try_write(self.value)
    }

    /// Starts a write view on a value known to be live and not viewed.
    pub fn write(&self, rt: &mut Runtime<T>) -> (g: WriteGuard)
        requires
            old(rt).wf(),
            write_outcome(old(rt).slots(), self.handle()) is Ok,
        ensures
            g.handle() == self.handle(),
            old(rt).moved_to(final(rt), after_write(old(rt).slots(), self.handle())),
    {
        rt.try_write(self.value).unwrap()
    }

    /// Replaces the value.
    pub fn set(&mut self, value: T, rt: &mut Runtime<T>)
        requires
            old(rt).wf(),
            write_outcome(old(rt).slots(), old(self).handle()) is Ok,
        ensures
            *final(self) == *old(self),
            old(rt).moved_to(final(rt), old(self).set_result(old(rt).slots(), value)),
    {
        let g = self.write(rt);
        rt.put(&g, value);
        rt.release_write(g);
        assert(rt.slots() =~= self.set_result(old(rt).slots(), value));
    }

    /// Runs `f` on the value under a read view and returns what it returns.
    pub fn with<O, F: FnOnce(&T) -> O>(&self, rt: &mut Runtime<T>, f: F) -> (r: O)
        requires
            old(rt).wf(),
            reader_room(old(rt).slots(), self.handle()),
            read_outcome(old(rt).slots(), self.handle()) is Ok,
            f.requires((&value_at(old(rt).slots(), self.handle()),)),
        ensures
            f.ensures((&value_at(old(rt).slots(), self.handle()),), r),
            old(rt).moved_to(final(rt), old(rt).slots()),
    {
        let g = self.read(rt);
        let v = rt.get(&g).unwrap();
        let r = f(v);
        rt.release_read(g);
        proof {
            old(rt).lemma_counts_readers();
            lemma_read_release(old(rt).slots(), self.handle());
        }
        r
    }
    /// Runs `f` on the value under a write view and returns what it returns;
    /// the value becomes what `f` left behind.
    pub fn with_mut<O, F: FnOnce(&mut T) -> O>(&self, rt: &mut Runtime<T>, f: F) -> (r: O)
        requires
            old(rt).wf(),
            write_outcome(old(rt).slots(), self.handle()) is Ok,
            forall|v: &mut T| *v == value_at(old(rt).slots(), self.handle()) ==> f.requires((v,)),
        ensures
            exists|v: &mut T|
                *v == value_at(old(rt).slots(), self.handle()) && f.ensures((v,), r) && old(
                    rt,
                ).moved_to(final(rt), self.set_result(old(rt).slots(), *final(v))),
    {
        let g = self.write(rt);
        let ghost mid = rt.slots();
        let r = rt.update_with(&g, f);
        let ghost written = rt.slots();
        rt.release_write(g);
        proof {
            let v = choose|v: &mut T|
                *v == value_at(mid, self.handle()) && f.ensures((v,), r) && written == mid.update(
                    self.handle().index as int,
                    Slot {
                        generation: self.handle().generation,
                        contents: Some(*final(v)),
                        borrow: BorrowState::Exclusive,
                    },
                );
            assert(rt.slots() =~= self.set_result(old(rt).slots(), *final(v)));
        }
        r
    }
}

impl<T: Clone> CopyValue<T> {
    /// A clone of the value.
    pub fn value(&self, rt: &mut Runtime<T>) -> (r: T)
        requires
            old(rt).wf(),
            reader_room(old(rt).slots(), self.handle()),
            read_outcome(old(rt).slots(), self.handle()) is Ok,
        ensures
            cloned(value_at(old(rt).slots(), self.handle()), r),
            old(rt).moved_to(final(rt), old(rt).slots()),
    {
        let g = self.read(rt);
        let r = rt.get(&g).unwrap().clone();
        rt.release_read(g);
        proof {
            old(rt).lemma_counts_readers();
            lemma_read_release(old(rt).slots(), self.handle());
        }
        r
    }
}

impl<T> PartialEq for CopyValue<T> {
    /// Two values are equal when they name the same slot in the same
    /// generation: each sees the other's writes.
    fn eq(&self, other: &Self) -> (r: bool) {
        self.value == other.value
    }
}

impl<T> vstd::std_specs::cmp::PartialEqSpecImpl for CopyValue<T> {
    open spec fn obeys_eq_spec() -> bool {
        true
    }

    open spec fn eq_spec(&self, other: &Self) -> bool {
        self.handle() == other.handle()
    }
}

} // verus!
