//! Properties that relate several operations of the library.
use vstd::prelude::*;
use vstd::std_specs::cmp::PartialEqSpec;
use crate::copy_value::CopyValue;
use crate::owner::freed;
use crate::runtime::{Runtime, ScopeId};
use crate::store::{
    after_read, after_release_read, after_release_write, after_write, handle_valid,
    read_outcome, readers, value_at, with_borrow, write_outcome,
    BorrowError, BorrowMutError, BorrowState, Slot, SlotHandle,
};

verus! {

/// Writing through a copy of a value is seen through the original: once
/// `set` has written `value` through `copy`, a read through `original`
/// succeeds and finds `value`.
pub proof fn law_copies_alias<T>(
    original: CopyValue<T>,
    copy: CopyValue<T>,
    before: Runtime<T>,
    after: Runtime<T>,
    value: T,
)
    requires
        copy == original,
        before.wf(),
        write_outcome(before.slots(), copy.handle()) is Ok,
        before.moved_to(&after, copy.set_result(before.slots(), value)),
    ensures
        read_outcome(after.slots(), original.handle()) is Ok,
        value_at(after.slots(), original.handle()) == value,
{
}

/// Tearing a scope down makes every value it holds stale: reads and writes
/// through it then fail as dropped. Values made by `CopyValue::new` and
/// `CopyValue::new_in_scope` are held by the scope they were made in.
pub proof fn law_teardown_reclaims<T>(cell: CopyValue<T>, before: Runtime<T>, after: Runtime<T>)
    requires
        before.wf(),
        before.owns(cell.origin(), cell.handle().index as int),
        before.dropped(&after, cell.origin()),
    ensures
        !handle_valid(after.slots(), cell.handle()),
        read_outcome(after.slots(), cell.handle()) == Err::<(), BorrowError>(BorrowError::Dropped),
        write_outcome(after.slots(), cell.handle()) == Err::<(), BorrowMutError>(
            BorrowMutError::Dropped,
        ),
{
    before.lemma_owned_occupied(cell.origin(), cell.handle().index as int);
}

/// A handle taken before its slot is freed is never valid again, not even
/// once the slot is reused: the new handle differs from it, with a larger
/// generation.
pub proof fn law_generations_separate<T>(
    h: SlotHandle,
    s: ScopeId,
    before: Runtime<T>,
    mid: Runtime<T>,
    after: Runtime<T>,
    t: ScopeId,
    reused: SlotHandle,
    value: T,
)
    requires
        before.wf(),
        handle_valid(before.slots(), h),
        before.owns(s, h.index as int),
        before.dropped(&mid, s),
        mid.inserted(&after, t, reused, value),
        reused.index == h.index,
    ensures
        !handle_valid(after.slots(), h),
        reused != h,
        reused.generation > h.generation,
{
    before.lemma_owned_occupied(s, h.index as int);
    assert(mid.slots()[h.index as int] == freed(before.slots()[h.index as int]));
}

/// While a write view is held, every read or write attempt on its slot
/// fails as a borrow conflict; releasing the view restores the slot, and
/// reads and writes succeed again.
pub proof fn law_write_excludes<T>(slots: Seq<Slot<T>>, h: SlotHandle)
    requires
        write_outcome(slots, h) is Ok,
    ensures
        read_outcome(after_write(slots, h), h) == Err::<(), BorrowError>(
            BorrowError::AlreadyBorrowedMut,
        ),
        write_outcome(after_write(slots, h), h) == Err::<(), BorrowMutError>(
            BorrowMutError::AlreadyBorrowedMut,
        ),
        after_release_write(after_write(slots, h), h) == slots,
        read_outcome(after_release_write(after_write(slots, h), h), h) is Ok,
        write_outcome(after_release_write(after_write(slots, h), h), h) is Ok,
{
    assert(after_release_write(after_write(slots, h), h) =~= slots);
}

/// The slots after `n` read views are taken through `h`.
pub open spec fn reads_taken<T>(slots: Seq<Slot<T>>, h: SlotHandle, n: nat) -> Seq<Slot<T>>
    decreases n,
{
    if n == 0 {
        slots
    } else {
        after_read(reads_taken(slots, h, (n - 1) as nat), h)
    }
}

/// The slots after `n` read views through `h` are released.
pub open spec fn reads_released<T>(slots: Seq<Slot<T>>, h: SlotHandle, n: nat) -> Seq<Slot<T>>
    decreases n,
{
    if n == 0 {
        slots
    } else {
        after_release_read(reads_released(slots, h, (n - 1) as nat), h)
    }
}

proof fn lemma_reads_taken<T>(slots: Seq<Slot<T>>, h: SlotHandle, n: nat)
    requires
        write_outcome(slots, h) is Ok,
        1 <= n <= usize::MAX,
    ensures
        reads_taken(slots, h, n) == with_borrow(slots, h.index as int, BorrowState::Shared(n as usize)),
    decreases n,
{
    if n > 1 {
        lemma_reads_taken(slots, h, (n - 1) as nat);
        assert(reads_taken(slots, h, n) =~= with_borrow(slots, h.index as int, BorrowState::Shared(n as usize)));
    } else {
        assert(reads_taken(slots, h, 0) == slots);
        assert(readers(slots[h.index as int].borrow) == 0);
        assert(reads_taken(slots, h, n) =~= with_borrow(slots, h.index as int, BorrowState::Shared(n as usize)));
    }
}

proof fn lemma_reads_released<T>(slots: Seq<Slot<T>>, h: SlotHandle, n: nat, k: nat)
    requires
        write_outcome(slots, h) is Ok,
        k <= n <= usize::MAX,
        1 <= n,
    ensures
        k < n ==> reads_released(with_borrow(slots, h.index as int, BorrowState::Shared(n as usize)), h, k)
            == with_borrow(slots, h.index as int, BorrowState::Shared((n - k) as usize)),
        k == n ==> reads_released(with_borrow(slots, h.index as int, BorrowState::Shared(n as usize)), h, k)
            == slots,
    decreases k,
{
    let held = with_borrow(slots, h.index as int, BorrowState::Shared(n as usize));
    if k > 0 {
        lemma_reads_released(slots, h, n, (k - 1) as nat);
        let prev = reads_released(held, h, (k - 1) as nat);
        assert(prev == with_borrow(slots, h.index as int, BorrowState::Shared((n - (k - 1)) as usize)));
        if k == n {
            assert(reads_released(held, h, k) =~= slots);
        } else {
            assert(reads_released(held, h, k) =~= with_borrow(slots, h.index as int, BorrowState::Shared((n - k) as usize)));
        }
    }
}

/// Read views share a slot: starting from a slot with no view, each of `n`
/// read attempts succeeds; while they are held a write attempt fails as
/// already borrowed; once all `n` are released the slot is as it was and a
/// write succeeds.
pub proof fn law_reads_share<T>(slots: Seq<Slot<T>>, h: SlotHandle, n: nat)
    requires
        write_outcome(slots, h) is Ok,
        1 <= n < usize::MAX,
    ensures
        forall|k: nat| k < n ==> read_outcome(#[trigger] reads_taken(slots, h, k), h) is Ok,
        write_outcome(reads_taken(slots, h, n), h) == Err::<(), BorrowMutError>(
            BorrowMutError::AlreadyBorrowed,
        ),
        reads_released(reads_taken(slots, h, n), h, n) == slots,
        write_outcome(reads_released(reads_taken(slots, h, n), h, n), h) is Ok,
{
    assert forall|k: nat| k < n implies read_outcome(#[trigger] reads_taken(slots, h, k), h) is Ok by {
        if k >= 1 {
            lemma_reads_taken(slots, h, k);
        }
    }
    lemma_reads_taken(slots, h, n);
    lemma_reads_released(slots, h, n, n);
}

/// Copies of one value are equal, and two values made by separate
/// allocations are unequal, whatever they hold: `b` is made while `a` is
/// still live.
pub proof fn law_equality_is_identity<T>(
    a: CopyValue<T>,
    copy: CopyValue<T>,
    b: CopyValue<T>,
    before: Runtime<T>,
    after: Runtime<T>,
    s: ScopeId,
    value: T,
)
    requires
        copy == a,
        handle_valid(before.slots(), a.handle()),
        before.inserted(&after, s, b.handle(), value),
    ensures
        a.eq_spec(&copy),
        !a.eq_spec(&b),
{
}

} // verus!
