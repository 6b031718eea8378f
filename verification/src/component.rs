//! Per-kind component storage: a sparse array with one optional slot per
//! entity, together with the runtime borrow flag that guards it.

use vstd::prelude::*;

verus! {

/// Runtime borrow discipline for one storage or one resource cell.
///
/// Storages are reached through dynamically looked-up keys, so exclusivity of
/// access is tracked by this explicit flag rather than by the type system:
/// a cell is either free, borrowed by `n` simultaneous readers, or borrowed
/// by exactly one writer.
#[derive(Clone, Copy, PartialEq, Eq, Structural, Debug)]
pub enum BorrowState {
    Free,
    Shared(u64),
    Exclusive,
}

impl BorrowState {
    /// One more shared borrow may be taken: the cell is not exclusively
    /// borrowed and the reader count has room.
    pub open spec fn allows_shared(self) -> bool {
        match self {
            BorrowState::Free => true,
            BorrowState::Shared(n) => n < u64::MAX,
            BorrowState::Exclusive => false,
        }
    }

    /// An exclusive borrow may be taken: no borrow of any kind is live.
    pub open spec fn allows_exclusive(self) -> bool {
        self == BorrowState::Free
    }

    /// The flag after one more shared borrow is taken.
    pub open spec fn plus_shared(self) -> BorrowState {
        match self {
            BorrowState::Free => BorrowState::Shared(1),
            BorrowState::Shared(n) => BorrowState::Shared((n + 1) as u64),
            BorrowState::Exclusive => BorrowState::Exclusive,
        }
    }

    /// The flag after one shared borrow is released. Releasing a cell that
    /// has no live shared borrow changes nothing.
    pub open spec fn minus_shared(self) -> BorrowState {
        match self {
            BorrowState::Shared(n) => if n <= 1 {
                BorrowState::Free
            } else {
                BorrowState::Shared((n - 1) as u64)
            },
            _ => self,
        }
    }
}

/// The sparse storage for one component kind: slot `i` holds the component
/// of entity `i`, or nothing if entity `i` lacks this kind.
pub struct ComponentStorage<V> {
    pub(crate) slots: Vec<Option<V>>,
    pub(crate) state: BorrowState,
}

/// The interface of a component storage: a growable sequence of optional
/// slots guarded by a borrow flag.
pub trait ComponentVec<V>: Sized {
    /// The slot sequence held by this storage.
    spec fn slot_seq(&self) -> Seq<Option<V>>;

    /// The live borrow flag of this storage.
    spec fn borrow_flag(&self) -> BorrowState;

    /// Appends one empty slot; called whenever a new entity is created so
    /// that every storage keeps one slot per entity.
    fn push_none(&mut self)
        ensures
            final(self).slot_seq() == old(self).slot_seq().push(None::<V>),
            final(self).borrow_flag() == old(self).borrow_flag(),
    ;

    /// The number of slots, equal to the entity count of the owning world.
    fn slot_count(&self) -> (n: usize)
        ensures
            n == self.slot_seq().len(),
    ;
}

impl<V> ComponentVec<V> for ComponentStorage<V> {
    closed spec fn slot_seq(&self) -> Seq<Option<V>> {
        self.slots@
    }

    closed spec fn borrow_flag(&self) -> BorrowState {
        self.state
    }

    fn push_none(&mut self) {
        self.slots.push(None);
    }

    fn slot_count(&self) -> (n: usize) {
        self.slots.len()
    }
}

impl<V> ComponentStorage<V> {
    /// A fresh, unborrowed storage with no slots.
    pub fn new() -> (s: ComponentStorage<V>)
        ensures
            s.slot_seq() == Seq::<Option<V>>::empty(),
            s.borrow_flag() == BorrowState::Free,
    {
        ComponentStorage { slots: Vec::new(), state: BorrowState::Free }
    }

    /// A fresh, unborrowed storage back-filled with `len` empty slots, one
    /// per already existing entity.
    pub(crate) fn new_filled(len: usize) -> (s: ComponentStorage<V>)
        ensures
            s.slots@ == Seq::new(len as nat, |i: int| None::<V>),
            s.state == BorrowState::Free,
    {
        let mut slots: Vec<Option<V>> = Vec::new();
        let mut i: usize = 0;
        while i < len
            invariant
                i <= len,
                slots@ == Seq::new(i as nat, |j: int| None::<V>),
            decreases len - i,
        {
            slots.push(None);
            assert(slots@ =~= Seq::new((i + 1) as nat, |j: int| None::<V>));
            i = i + 1;
        }
        ComponentStorage { slots, state: BorrowState::Free }
    }
}

} // verus!
