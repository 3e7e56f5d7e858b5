use vstd::prelude::*;
use crate::owner::Owner;

verus! {

/// The largest generation a slot can carry. A slot whose generation reaches
/// it is retired instead of being reused.
pub const MAX_GENERATION: u64 = 0xffff_ffff_ffff_ffff;

/// The borrow state of one slot.
#[derive(Clone, Copy, Debug, PartialEq, Eq, Structural)]
pub enum BorrowState {
    Free,
    Shared(usize),
    Exclusive,
}

/// One unit of arena storage.
pub struct Slot<T> {
    pub generation: u64,
    pub contents: Option<T>,
    pub borrow: BorrowState,
}

/// A copyable reference to one slot: its index and the generation seen when
/// the slot was handed out.
#[derive(Clone, Copy, Debug, PartialEq, Eq, Structural)]
pub struct SlotHandle {
    pub index: usize,
    pub generation: u64,
}

/// Why a read could not start.
#[derive(Clone, Copy, Debug, PartialEq, Eq, Structural)]
pub enum BorrowError {
    /// The slot was freed since the handle was made.
    Dropped,
    /// A write view on the slot is held.
    AlreadyBorrowedMut,
}

/// Why a write could not start.
#[derive(Clone, Copy, Debug, PartialEq, Eq, Structural)]
pub enum BorrowMutError {
    /// The slot was freed since the handle was made.
    Dropped,
    /// Read views on the slot are held.
    AlreadyBorrowed,
    /// A write view on the slot is held.
    AlreadyBorrowedMut,
}

/// A held read view on a slot.
pub struct ReadGuard {
    handle: SlotHandle,
}

/// A held write view on a slot.
pub struct WriteGuard {
    handle: SlotHandle,
}

impl ReadGuard {
    pub closed spec fn spec_handle(&self) -> SlotHandle {
        self.handle
    }

    #[verifier::when_used_as_spec(spec_handle)]
    pub fn handle(&self) -> (r: SlotHandle)
        ensures
            r == self.spec_handle(),
    {
        self.handle
    }
}

impl WriteGuard {
    pub closed spec fn spec_handle(&self) -> SlotHandle {
        self.handle
    }

    #[verifier::when_used_as_spec(spec_handle)]
    pub fn handle(&self) -> (r: SlotHandle)
        ensures
            r == self.spec_handle(),
    {
        self.handle
    }
}

/// A handle is valid when its slot exists, is occupied, and still carries the
/// generation the handle saw.
pub open spec fn handle_valid<T>(slots: Seq<Slot<T>>, h: SlotHandle) -> bool {
    &&& h.index < slots.len()
    &&& slots[h.index as int].generation == h.generation
    &&& slots[h.index as int].contents is Some
}

/// The value behind a valid handle.
pub open spec fn value_at<T>(slots: Seq<Slot<T>>, h: SlotHandle) -> T {
    slots[h.index as int].contents->0
}

/// What a read attempt through `h` yields.
pub open spec fn read_outcome<T>(slots: Seq<Slot<T>>, h: SlotHandle) -> Result<(), BorrowError> {
    if !handle_valid(slots, h) {
        Err(BorrowError::Dropped)
    } else if slots[h.index as int].borrow is Exclusive {
        Err(BorrowError::AlreadyBorrowedMut)
    } else {
        Ok(())
    }
}

/// What a write attempt through `h` yields.
pub open spec fn write_outcome<T>(slots: Seq<Slot<T>>, h: SlotHandle) -> Result<
    (),
    BorrowMutError,
> {
    if !handle_valid(slots, h) {
        Err(BorrowMutError::Dropped)
    } else if slots[h.index as int].borrow is Shared {
        Err(BorrowMutError::AlreadyBorrowed)
    } else if slots[h.index as int].borrow is Exclusive {
        Err(BorrowMutError::AlreadyBorrowedMut)
    } else {
        Ok(())
    }
}

/// The slots with the borrow state of `i` replaced.
pub open spec fn with_borrow<T>(slots: Seq<Slot<T>>, i: int, b: BorrowState) -> Seq<Slot<T>> {
    slots.update(
        i,
        Slot { generation: slots[i].generation, contents: slots[i].contents, borrow: b },
    )
}

/// The number of read views held on a slot.
pub open spec fn readers(b: BorrowState) -> int {
    match b {
        BorrowState::Shared(n) => n as int,
        _ => 0,
    }
}

/// The slots after a successful read attempt through `h`.
pub open spec fn after_read<T>(slots: Seq<Slot<T>>, h: SlotHandle) -> Seq<Slot<T>> {
    with_borrow(
        slots,
        h.index as int,
        BorrowState::Shared((readers(slots[h.index as int].borrow) + 1) as usize),
    )
}

/// The slots after a read view through `h` is released.
pub open spec fn after_release_read<T>(slots: Seq<Slot<T>>, h: SlotHandle) -> Seq<Slot<T>> {
    if handle_valid(slots, h) && slots[h.index as int].borrow is Shared {
        let n = readers(slots[h.index as int].borrow);
        with_borrow(
            slots,
            h.index as int,
            if n <= 1 {
                BorrowState::Free
            } else {
                BorrowState::Shared((n - 1) as usize)
            },
        )
    } else {
        slots
    }
}

/// The slots after a successful write attempt through `h`.
pub open spec fn after_write<T>(slots: Seq<Slot<T>>, h: SlotHandle) -> Seq<Slot<T>> {
    with_borrow(slots, h.index as int, BorrowState::Exclusive)
}

/// The slots after a write view through `h` is released.
pub open spec fn after_release_write<T>(slots: Seq<Slot<T>>, h: SlotHandle) -> Seq<Slot<T>> {
    if handle_valid(slots, h) && slots[h.index as int].borrow is Exclusive {
        with_borrow(slots, h.index as int, BorrowState::Free)
    } else {
        slots
    }
}

/// One more read view on the slot of `h` can be counted.
pub open spec fn reader_room<T>(slots: Seq<Slot<T>>, h: SlotHandle) -> bool {
    h.index < slots.len() ==> readers(slots[h.index as int].borrow) < usize::MAX
}

/// No slot records a share held by no reader.
pub open spec fn counts_readers<T>(slots: Seq<Slot<T>>) -> bool {
    forall|i: int| 0 <= i < slots.len() ==> (#[trigger] slots[i]).borrow != BorrowState::Shared(0)
}

/// Releasing a read view just taken leaves the slots as they were.
pub proof fn lemma_read_release<T>(slots: Seq<Slot<T>>, h: SlotHandle)
    requires
        counts_readers(slots),
        reader_room(slots, h),
        read_outcome(slots, h) is Ok,
    ensures
        after_release_read(after_read(slots, h), h) == slots,
{
    let i = h.index as int;
    assert(slots[i].borrow != BorrowState::Shared(0));
    assert(after_release_read(after_read(slots, h), h) =~= slots);
}

/// Slot `j` is empty and its generation can still be bumped, so it can be
/// handed out again.
pub open spec fn reusable<T>(slots: Seq<Slot<T>>, j: int) -> bool {
    &&& 0 <= j < slots.len()
    &&& slots[j].contents is None
    &&& slots[j].generation < MAX_GENERATION
}

/// The shared allocator of slots.
pub struct Store<T> {
    slots: Vec<Slot<T>>,
    free_list: Vec<usize>,
}

impl<T> View for Store<T> {
    type V = Seq<Slot<T>>;

    closed spec fn view(&self) -> Seq<Slot<T>> {
        self.slots@
    }
}

impl<T> Store<T> {
    /// The free list names exactly the slots that can be reused, each once;
    /// empty slots hold no borrow; occupied slots can still have their
    /// generation bumped.
    pub closed spec fn wf(&self) -> bool {
        self.base_wf() && self.covers(-1)
    }

    /// Every reusable slot but `except` is on the free list.
    spec fn covers(&self, except: int) -> bool {
        forall|j: int| j != except && #[trigger] reusable(self.slots@, j) ==> self.free_list_has(j as usize)
    }

    spec fn base_wf(&self) -> bool {
        &&& forall|k: int|
            0 <= k < self.free_list@.len() ==> {
                let i = #[trigger] self.free_list@[k];
                &&& i < self.slots@.len()
                &&& self.slots@[i as int].contents is None
                &&& self.slots@[i as int].generation < MAX_GENERATION
            }
        &&& forall|k1: int, k2: int|
            0 <= k1 < k2 < self.free_list@.len() ==> self.free_list@[k1]
                != self.free_list@[k2]
        &&& forall|i: int|
            0 <= i < self.slots@.len() ==> {
                &&& (#[trigger] self.slots@[i]).contents is None ==> self.slots@[i].borrow
                    is Free
                &&& self.slots@[i].contents is Some ==> self.slots@[i].generation
                    < MAX_GENERATION
            }
        &&& counts_readers(self.slots@)
    }

    /// An occupied slot of a well-formed store can still have its generation
    /// bumped.
    pub proof fn lemma_occupied_bounded(&self, i: int)
        requires
            self.wf(),
            0 <= i < self@.len(),
            self@[i].contents is Some,
        ensures
            self@[i].generation < MAX_GENERATION,
    {
    }

    /// A well-formed store never records a share with no reader.
    pub proof fn lemma_counts_readers(&self)
        requires
            self.wf(),
        ensures
            counts_readers(self@),
    {
    }

    /// An empty store.
    pub fn new() -> (r: Self)
        ensures
            r.wf(),
            r@.len() == 0,
    {
        Store { slots: Vec::new(), free_list: Vec::new() }
    }

    /// A new owner for slots of this store, holding none yet.
    pub fn owner(&self) -> (r: Owner)
        ensures
            r@ == Seq::<usize>::empty(),
    {
        Owner::new()
    }

    /// Finds an empty slot to reuse, or appends a new one, and leaves it
    /// empty. Returns its index.
    fn claim(&mut self) -> (i: usize)
        requires
            old(self).wf(),
        ensures
            final(self).base_wf(),
            final(self).covers(i as int),
            (exists|j: int| reusable(old(self)@, j)) ==> i < old(self)@.len(),
            i < old(self)@.len() ==> final(self)@.len() == old(self)@.len(),
            i < final(self)@.len(),
            final(self)@[i as int].contents is None,
            final(self)@[i as int].generation < MAX_GENERATION,
            i < old(self)@.len() ==> old(self)@[i as int].contents is None
                && final(self)@[i as int].generation == old(self)@[i as int].generation,
            i >= old(self)@.len() ==> i == old(self)@.len() && final(self)@[i as int].generation
                == 0,
            final(self)@.len() == old(self)@.len() || final(self)@.len() == old(self)@.len() + 1,
            forall|j: int| 0 <= j < old(self)@.len() ==> #[trigger] final(self)@[j] == old(self)@[j],
            !final(self).free_list_has(i),
    {
        match self.free_list.pop() {
            Some(i) => {
                proof {
                    let k = old(self).free_list@.len() - 1;
                    assert(old(self).free_list@[k] == i);
                }
                assert forall|k: int| 0 <= k < self.free_list@.len() implies #[trigger] self.free_list@[k] != i by {
                    assert(old(self).free_list@[k] == self.free_list@[k]);
                }
                assert forall|j: int| j != i as int && #[trigger] reusable(self.slots@, j) implies self.free_list_has(j as usize) by {
                    assert(old(self).free_list_has(j as usize));
                    let k = choose|k: int| 0 <= k < old(self).free_list@.len() && old(self).free_list@[k] == j as usize;
                    assert(k != old(self).free_list@.len() - 1);
                    assert(self.free_list@[k] == j as usize);
                }
                i
            },
            None => {
                let i = self.slots.len();
                self.slots.push(Slot { generation: 0, contents: None, borrow: BorrowState::Free });
                assert forall|k: int| 0 <= k < self.free_list@.len() implies #[trigger] self.free_list@[k] != i by {
                    assert(old(self).free_list@[k] < old(self).slots@.len());
                }
                assert forall|j: int| #[trigger] reusable(old(self).slots@, j) implies false by {
                    assert(old(self).free_list_has(j as usize));
                }
                assert forall|j: int| j != i as int && #[trigger] reusable(self.slots@, j) implies self.free_list_has(j as usize) by {
                    assert(self.slots@[j] == old(self).slots@[j]);
                    assert(reusable(old(self).slots@, j));
                }
                i
            },
        }
    }

    /// Writes `value` into an empty slot, reusing a freed one when there is
    /// one, and returns a handle carrying the slot's current generation.
    pub fn allocate(&mut self, value: T) -> (h: SlotHandle)
        requires
            old(self).wf(),
        ensures
            final(self).wf(),
            h.index < final(self)@.len(),
            final(self)@[h.index as int] == (Slot {
                generation: h.generation,
                contents: Some(value),
                borrow: BorrowState::Free,
            }),
            h.index < old(self)@.len() ==> old(self)@[h.index as int].contents is None
                && h.generation == old(self)@[h.index as int].generation,
            h.index >= old(self)@.len() ==> h.index == old(self)@.len() && h.generation == 0,
            (exists|j: int| reusable(old(self)@, j)) ==> h.index < old(self)@.len(),
            h.index < old(self)@.len() ==> final(self)@.len() == old(self)@.len(),
            final(self)@.len() == old(self)@.len() || final(self)@.len() == old(self)@.len() + 1,
            forall|j: int|
                0 <= j < old(self)@.len() && j != h.index ==> #[trigger] final(self)@[j]
                    == old(self)@[j],
    {
        let i = self.claim();
        let generation = self.slots[i].generation;
        let ghost mid = *self;
        self.slots.set(i, Slot { generation, contents: Some(value), borrow: BorrowState::Free });
        proof {
            Self::lemma_covers_kept(&mid, self, i as int, i as int, -1);
        }
        SlotHandle { index: i, generation }
    }

    /// Empties slot `i` and bumps its generation. The slot goes back on the
    /// free list unless its generation has reached the largest one.
    pub(crate) fn free(&mut self, i: usize)
        requires
            old(self).wf(),
            i < old(self)@.len(),
            old(self)@[i as int].contents is Some,
        ensures
            final(self).wf(),
            final(self)@.len() == old(self)@.len(),
            final(self)@[i as int] == (Slot::<T> {
                generation: (old(self)@[i as int].generation + 1) as u64,
                contents: None,
                borrow: BorrowState::Free,
            }),
            old(self)@[i as int].generation < final(self)@[i as int].generation,
            forall|j: int| 0 <= j < old(self)@.len() && j != i ==> #[trigger] final(self)@[j] == old(self)@[j],
    {
        let generation = self.slots[i].generation + 1;
        self.slots.set(i, Slot { generation, contents: None, borrow: BorrowState::Free });
        proof {
            Self::lemma_covers_kept(old(self), self, i as int, -1, i as int);
            if generation >= MAX_GENERATION {
                Self::lemma_covers_kept(old(self), self, i as int, -1, -1);
            }
        }
        if generation < MAX_GENERATION {
            self.push_free(i);
        }
    }

    fn push_free(&mut self, i: usize)
        requires
            old(self).base_wf(),
            old(self).covers(i as int),
            i < old(self)@.len(),
            old(self)@[i as int].contents is None,
            old(self)@[i as int].generation < MAX_GENERATION,
            !old(self).free_list_has(i),
        ensures
            final(self).wf(),
            final(self)@ == old(self)@,
    {
        self.free_list.push(i);
        assert forall|k1: int, k2: int|
            0 <= k1 < k2 < self.free_list@.len() implies self.free_list@[k1] != self.free_list@[k2] by {
            if k2 == self.free_list@.len() - 1 {
                assert(old(self).free_list@[k1] == self.free_list@[k1]);
            }
        }
        assert forall|k: int| 0 <= k < self.free_list@.len() implies {
            let j = #[trigger] self.free_list@[k];
            &&& j < self.slots@.len()
            &&& self.slots@[j as int].contents is None
            &&& self.slots@[j as int].generation < MAX_GENERATION
        } by {
            if k < self.free_list@.len() - 1 {
                assert(old(self).free_list@[k] == self.free_list@[k]);
            }
        }
        assert forall|j: int| #[trigger] reusable(self.slots@, j) implies self.free_list_has(j as usize) by {
            if j == i as int {
                assert(self.free_list@[self.free_list@.len() - 1] == i);
            } else {
                assert(old(self).free_list_has(j as usize));
                let k = choose|k: int| 0 <= k < old(self).free_list@.len() && old(self).free_list@[k] == j as usize;
                assert(self.free_list@[k] == j as usize);
            }
        }
    }

    /// Returns a handle that is stale from the start: a slot is claimed, its
    /// generation noted and then bumped, and the slot is left empty.
    pub fn invalid(&mut self) -> (h: SlotHandle)
        requires
            old(self).wf(),
        ensures
            final(self).wf(),
            !handle_valid(final(self)@, h),
            h.index < final(self)@.len(),
            final(self)@[h.index as int].borrow is Free,
            reader_room(final(self)@, h),
            final(self)@[h.index as int].generation == h.generation + 1,
            final(self)@[h.index as int].contents is None,
            h.index >= old(self)@.len() ==> h.index == old(self)@.len() && h.generation == 0,
            final(self)@.len() == old(self)@.len() || final(self)@.len() == old(self)@.len() + 1,
            forall|j: int|
                0 <= j < old(self)@.len() && old(self)@[j].contents is Some ==> #[trigger] final(self)@[j]
                    == old(self)@[j],
    {
        let i = self.claim();
        let generation = self.slots[i].generation;
        let next = generation + 1;
        let ghost mid = *self;
        self.slots.set(i, Slot { generation: next, contents: None, borrow: BorrowState::Free });
        proof {
            Self::lemma_covers_kept(&mid, self, i as int, i as int, i as int);
            if next >= MAX_GENERATION {
                Self::lemma_covers_kept(&mid, self, i as int, i as int, -1);
            }
        }
        if next < MAX_GENERATION {
            self.push_free(i);
        }
        SlotHandle { index: i, generation }
    }

    /// Starts a read view through `h`.
    pub fn try_read(&mut self, h: SlotHandle) -> (r: Result<ReadGuard, BorrowError>)
        requires
            old(self).wf(),
            reader_room(old(self)@, h),
        ensures
            final(self).wf(),
            r is Ok <==> read_outcome(old(self)@, h) is Ok,
            r matches Ok(g) ==> g.handle() == h && final(self)@ == after_read(old(self)@, h),
            r matches Err(e) ==> read_outcome(old(self)@, h) == Err::<(), BorrowError>(e)
                && final(self)@ == old(self)@,
    {
        if !self.is_valid(h) {
            return Err(BorrowError::Dropped);
        }
        let i = h.index;
        let n: usize = match self.slots[i].borrow {
            BorrowState::Free => 0,
            BorrowState::Shared(n) => n,
            BorrowState::Exclusive => {
                return Err(BorrowError::AlreadyBorrowedMut);
            },
        };
        self.set_borrow(i, BorrowState::Shared(n + 1));
        Ok(ReadGuard { handle: h })
    }

    /// Ends the read view `g`.
    pub fn release_read(&mut self, g: ReadGuard)
        requires
            old(self).wf(),
        ensures
            final(self).wf(),
            final(self)@ == after_release_read(old(self)@, g.handle()),
    {
        let h = g.handle;
        if self.is_valid(h) {
            let i = h.index;
            match self.slots[i].borrow {
                BorrowState::Shared(n) => {
                    if n <= 1 {
                        self.set_borrow(i, BorrowState::Free);
                    } else {
                        self.set_borrow(i, BorrowState::Shared(n - 1));
                    }
                },
                _ => {},
            }
        }
    }

    /// Starts a write view through `h`.
    pub fn try_write(&mut self, h: SlotHandle) -> (r: Result<WriteGuard, BorrowMutError>)
        requires
            old(self).wf(),
        ensures
            final(self).wf(),
            r is Ok <==> write_outcome(old(self)@, h) is Ok,
            r matches Ok(g) ==> g.handle() == h && final(self)@ == after_write(old(self)@, h),
            r matches Err(e) ==> write_outcome(old(self)@, h) == Err::<(), BorrowMutError>(e)
                && final(self)@ == old(self)@,
    {
        if !self.is_valid(h) {
            return Err(BorrowMutError::Dropped);
        }
        let i = h.index;
        match self.slots[i].borrow {
            BorrowState::Free => {},
            BorrowState::Shared(_) => {
                return Err(BorrowMutError::AlreadyBorrowed);
            },
            BorrowState::Exclusive => {
                return Err(BorrowMutError::AlreadyBorrowedMut);
            },
        }
        self.set_borrow(i, BorrowState::Exclusive);
        Ok(WriteGuard { handle: h })
    }

    /// Ends the write view `g`.
    pub fn release_write(&mut self, g: WriteGuard)
        requires
            old(self).wf(),
        ensures
            final(self).wf(),
            final(self)@ == after_release_write(old(self)@, g.handle()),
    {
        let h = g.handle;
        if self.is_valid(h) {
            let i = h.index;
            match self.slots[i].borrow {
                BorrowState::Exclusive => {
                    self.set_borrow(i, BorrowState::Free);
                },
                _ => {},
            }
        }
    }

    /// Whether `h` still names a live value.
    pub fn is_valid(&self, h: SlotHandle) -> (r: bool)
        ensures
            r == handle_valid(self@, h),
    {
        h.index < self.slots.len() && self.slots[h.index].generation == h.generation
            && self.slots[h.index].contents.is_some()
    }

    /// The value seen through a held read view.
    pub fn get(&self, g: &ReadGuard) -> (r: Option<&T>)
        ensures
            r is Some <==> handle_valid(self@, g.handle()) && self@[g.handle().index as int].borrow is Shared,
            r matches Some(v) ==> *v == value_at(self@, g.handle()),
    {
        let h = g.handle;
        if self.is_valid(h) {
            match self.slots[h.index].borrow {
                BorrowState::Shared(_) => self.slots[h.index].contents.as_ref(),
                _ => None,
            }
        } else {
            None
        }
    }

    /// Replaces the value through a held write view. Returns whether the view
    /// was live, and so whether the value was replaced.
    pub fn put(&mut self, g: &WriteGuard, value: T) -> (r: bool)
        requires
            old(self).wf(),
        ensures
            final(self).wf(),
            r == (handle_valid(old(self)@, g.handle()) && old(self)@[g.handle().index as int].borrow is Exclusive),
            r ==> final(self)@ == old(self)@.update(
                g.handle().index as int,
                Slot { generation: g.handle().generation, contents: Some(value), borrow: BorrowState::Exclusive },
            ),
            !r ==> final(self)@ == old(self)@,
    {
        let h = g.handle;
        if self.is_valid(h) {
            match self.slots[h.index].borrow {
                BorrowState::Exclusive => {
                    self.slots.set(h.index, Slot { generation: h.generation, contents: Some(value), borrow: BorrowState::Exclusive });
                    proof {
                        Self::lemma_covers_kept(old(self), self, h.index as int, -1, -1);
                    }
                    true
                },
                _ => false,
            }
        } else {
            false
        }
    }

    /// Runs `f` on the value through the held write view `g` and returns
    /// what it returns; the value becomes what `f` left behind.
    pub fn update_with<O, F: FnOnce(&mut T) -> O>(&mut self, g: &WriteGuard, f: F) -> (r: O)
        requires
            old(self).wf(),
            handle_valid(old(self)@, g.handle()),
            old(self)@[g.handle().index as int].borrow is Exclusive,
            forall|v: &mut T| *v == value_at(old(self)@, g.handle()) ==> f.requires((v,)),
        ensures
            final(self).wf(),
            exists|v: &mut T|
                *v == value_at(old(self)@, g.handle()) && f.ensures((v,), r) && final(self)@
                    == old(self)@.update(
                    g.handle().index as int,
                    Slot {
                        generation: g.handle().generation,
                        contents: Some(*final(v)),
                        borrow: BorrowState::Exclusive,
                    },
                ),
    {
        let i = g.handle.index;
        let mut contents = self.slots[i].contents.take();
        let v = contents.as_mut().unwrap();
        let r = f(v);
        self.slots.set(i, Slot { generation: g.handle.generation, contents, borrow: BorrowState::Exclusive });
        proof {
            Self::lemma_covers_kept(old(self), self, i as int, -1, -1);
        }
        r
    }

    fn set_borrow(&mut self, i: usize, b: BorrowState)
        requires
            old(self).wf(),
            i < old(self)@.len(),
            old(self)@[i as int].contents is Some,
            b != BorrowState::Shared(0),
        ensures
            final(self).wf(),
            final(self)@ == with_borrow(old(self)@, i as int, b),
    {
        let generation = self.slots[i].generation;
        let contents = self.slots[i].contents.take();
        self.slots.set(i, Slot { generation, contents, borrow: b });
        proof {
            Self::lemma_covers_kept(old(self), self, i as int, -1, -1);
        }
    }

    /// Changing one slot `i` keeps the free list covering every reusable
    /// slot but the exempt one.
    proof fn lemma_covers_kept(before: &Self, after: &Self, i: int, e_before: int, e_after: int)
        requires
            before.covers(e_before),
            e_before == -1 || e_before == i,
            e_after == i || !reusable(after.slots@, i),
            after.free_list@ == before.free_list@,
            after.slots@.len() == before.slots@.len(),
            forall|j: int| 0 <= j < before.slots@.len() && j != i ==> after.slots@[j] == before.slots@[j],
        ensures
            after.covers(e_after),
    {
        assert forall|j: int| j != e_after && #[trigger] reusable(after.slots@, j) implies after.free_list_has(j as usize) by {
            assert(j != i);
            assert(after.slots@[j] == before.slots@[j]);
            assert(reusable(before.slots@, j));
            assert(before.free_list_has(j as usize));
        }
    }

    spec fn free_list_has(&self, i: usize) -> bool {
        exists|k: int| 0 <= k < self.free_list@.len() && self.free_list@[k] == i
    }
}

} // verus!
