use vstd::prelude::*;
use crate::store::{handle_valid, reader_room, reusable, Slot, SlotHandle, Store};

verus! {

/// The slot `s` becomes once freed: empty, unborrowed, one generation on.
pub open spec fn freed<T>(s: Slot<T>) -> Slot<T> {
    Slot { generation: (s.generation + 1) as u64, contents: None, borrow: crate::store::BorrowState::Free }
}

/// A lease over a set of slots of a store, freed together.
pub struct Owner {
    owned: Vec<usize>,
}

impl View for Owner {
    type V = Seq<usize>;

    closed spec fn view(&self) -> Seq<usize> {
        self.owned@
    }
}

impl Owner {
    /// Every index held names a distinct occupied slot of `store`.
    pub open spec fn holds_in<T>(&self, slots: Seq<Slot<T>>) -> bool {
        &&& self@.no_duplicates()
        &&& forall|k: int|
            0 <= k < self@.len() ==> (#[trigger] self@[k]) < slots.len()
                && slots[self@[k] as int].contents is Some
    }

    /// An owner holding no slot.
    pub fn new() -> (r: Self)
        ensures
            r@ == Seq::<usize>::empty(),
    {
        Owner { owned: Vec::new() }
    }

    /// Allocates a slot for `value` in `store` and holds it.
    pub fn insert<T>(&mut self, store: &mut Store<T>, value: T) -> (h: SlotHandle)
        requires
            old(store).wf(),
        ensures
            final(store).wf(),
            final(self)@ == old(self)@.push(h.index),
            h.index < final(store)@.len(),
            final(store)@[h.index as int] == (Slot {
                generation: h.generation,
                contents: Some(value),
                borrow: crate::store::BorrowState::Free,
            }),
            h.index < old(store)@.len() ==> old(store)@[h.index as int].contents is None
                && h.generation == old(store)@[h.index as int].generation,
            h.index >= old(store)@.len() ==> h.index == old(store)@.len() && h.generation == 0,
            (exists|j: int| reusable(old(store)@, j)) ==> h.index < old(store)@.len(),
            h.index < old(store)@.len() ==> final(store)@.len() == old(store)@.len(),
            final(store)@.len() == old(store)@.len() || final(store)@.len() == old(store)@.len() + 1,
            forall|j: int|
                0 <= j < old(store)@.len() && j != h.index ==> #[trigger] final(store)@[j]
                    == old(store)@[j],
    {
        let h = store.allocate(value);
        self.owned.push(h.index);
        h
    }

    /// A handle that reads as already freed.
    pub fn invalid<T>(&self, store: &mut Store<T>) -> (h: SlotHandle)
        requires
            old(store).wf(),
        ensures
            final(store).wf(),
            !handle_valid(final(store)@, h),
            h.index < final(store)@.len(),
            final(store)@[h.index as int].borrow is Free,
            reader_room(final(store)@, h),
            final(store)@[h.index as int].generation == h.generation + 1,
            final(store)@[h.index as int].contents is None,
            h.index >= old(store)@.len() ==> h.index == old(store)@.len() && h.generation == 0,
            final(store)@.len() == old(store)@.len() || final(store)@.len() == old(store)@.len() + 1,
            forall|j: int|
                0 <= j < old(store)@.len() && old(store)@[j].contents is Some ==> #[trigger] final(store)@[j]
                    == old(store)@[j],
    {
        store.invalid()
    }

    /// Frees every slot held, bumping each generation, and leaves the owner
    /// holding none.
    pub fn release<T>(&mut self, store: &mut Store<T>)
        requires
            old(store).wf(),
            old(self).holds_in(old(store)@),
        ensures
            final(store).wf(),
            final(self)@ == Seq::<usize>::empty(),
            final(store)@.len() == old(store)@.len(),
            forall|j: int|
                0 <= j < old(store)@.len() ==> #[trigger] final(store)@[j] == if held_among(
                    old(self)@,
                    old(self)@.len() as int,
                    j,
                ) {
                    freed(old(store)@[j])
                } else {
                    old(store)@[j]
                },
    {
        let ghost start = store@;
        let n = self.owned.len();
        let mut k: usize = 0;
        while k < n
            invariant
                n == self.owned@.len(),
                self.owned@ == old(self)@,
                start == old(store)@,
                0 <= k <= n,
                store.wf(),
                store@.len() == start.len(),
                self@.no_duplicates(),
                forall|m: int| 0 <= m < n ==> (#[trigger] self@[m]) < start.len()
                    && start[self@[m] as int].contents is Some,
                forall|j: int|
                    0 <= j < start.len() ==> #[trigger] store@[j] == if held_among(self@, k as int, j) {
                        freed(start[j])
                    } else {
                        start[j]
                    },
            decreases n - k,
        {
            let i = self.owned[k];
            assert(!held_among(self@, k as int, i as int)) by {
                if held_among(self@, k as int, i as int) {
                    let m = choose|m: int| 0 <= m < k && #[trigger] self@[m] as int == i as int;
                    assert(self@[m] == self@[k as int]);
                }
            }
            assert(store@[i as int] == start[i as int]);
            store.free(i);
            assert forall|j: int| 0 <= j < start.len() implies #[trigger] store@[j] == if held_among(self@, k + 1, j) {
                freed(start[j])
            } else {
                start[j]
            } by {
                if j == i as int {
                    assert(self@[k as int] as int == j);
                } else {
                    if held_among(self@, k as int, j) {
                        let m = choose|m: int| 0 <= m < k && #[trigger] self@[m] as int == j;
                        assert(held_among(self@, k + 1, j));
                    }
                    if held_among(self@, k + 1, j) {
                        let m = choose|m: int| 0 <= m < k + 1 && #[trigger] self@[m] as int == j;
                        assert(held_among(self@, k as int, j));
                    }
                }
            }
            k = k + 1;
        }
        self.owned = Vec::new();
    }
}

/// Index `j` is among the first `k` entries of `owned`.
pub open spec fn held_among(owned: Seq<usize>, k: int, j: int) -> bool {
    exists|m: int| 0 <= m < k && #[trigger] owned[m] as int == j
}

} // verus!
