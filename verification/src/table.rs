//! Slot tables: growable tables of handles that reuse their empty slots.

use vstd::prelude::*;

verus! {

/// Index of the first empty slot of `slots`, or their number if none is empty.
pub open spec fn first_empty<T>(slots: Seq<Option<T>>) -> int
    decreases slots.len(),
{
    if slots.len() == 0 {
        0
    } else if first_empty(slots.drop_last()) < slots.len() - 1 {
        first_empty(slots.drop_last())
    } else if slots.last().is_none() {
        slots.len() - 1
    } else {
        slots.len() as int
    }
}

/// `first_empty` is the least index of an empty slot.
pub proof fn lemma_first_empty<T>(slots: Seq<Option<T>>)
    ensures
        0 <= first_empty(slots) <= slots.len(),
        forall|i: int| 0 <= i < first_empty(slots) ==> (#[trigger] slots[i]).is_some(),
        first_empty(slots) < slots.len() ==> slots[first_empty(slots)].is_none(),
    decreases slots.len(),
{
    if slots.len() > 0 {
        lemma_first_empty(slots.drop_last());
        assert forall|i: int| 0 <= i < first_empty(slots) implies (#[trigger] slots[i]).is_some() by {
            if i < slots.len() - 1 {
                assert(slots.drop_last()[i] == slots[i]);
            }
        }
    }
}

/// An index below which every slot is taken, and which is empty or past the
/// end, is the first empty slot.
proof fn lemma_first_empty_is<T>(slots: Seq<Option<T>>, id: int)
    requires
        0 <= id <= slots.len(),
        forall|i: int| 0 <= i < id ==> (#[trigger] slots[i]).is_some(),
        id < slots.len() ==> slots[id].is_none(),
    ensures
        first_empty(slots) == id,
{
    lemma_first_empty(slots);
    let f = first_empty(slots);
    if f < id {
        assert(slots[f].is_some());
    } else if id < f {
        assert(slots[id].is_some());
    }
}

/// The table after a handle was stored in its first empty slot, or appended
/// where none was empty.
pub open spec fn stored<T>(slots: Seq<Option<T>>, value: T) -> Seq<Option<T>> {
    if first_empty(slots) < slots.len() {
        slots.update(first_empty(slots), Some(value))
    } else {
        slots.push(Some(value))
    }
}

/// Whether `id` names a slot of the table that holds a handle.
pub open spec fn occupied<T>(slots: Seq<Option<T>>, id: usize) -> bool {
    id < slots.len() && slots[id as int].is_some()
}

/// A growable table of handles, each known by the index of its slot. A slot,
/// once handed out, keeps its index; a new handle goes into the first empty
/// slot, and the table grows only when none is empty.
pub struct ResourceTable<T> {
    pub slots: Vec<Option<T>>,
}

impl<T> ResourceTable<T> {
    /// The slots, in order.
    pub open spec fn view(&self) -> Seq<Option<T>> {
        self.slots@
    }

    /// An empty table.
    pub fn new() -> (t: Self)
        ensures
            t@ == Seq::<Option<T>>::empty(),
    {
        ResourceTable { slots: Vec::new() }
    }

    /// Number of slots, empty ones included.
    pub fn len(&self) -> (n: usize)
        ensures
            n == self@.len(),
    {
        self.slots.len()
    }

    /// Stores `value` in the first empty slot, from the left, or appends it if
    /// no slot is empty. Returns the index of the slot.
    pub fn create(&mut self, value: T) -> (id: usize)
        ensures
            id == first_empty(old(self)@),
            final(self)@ == stored(old(self)@, value),
            occupied(final(self)@, id),
    {
        let n: usize = self.slots.len();
        let mut i: usize = 0;
        while i < n
            invariant
                n == self.slots@.len(),
                self.slots@ == old(self).slots@,
                i <= n,
                forall|j: int| 0 <= j < i ==> (#[trigger] self.slots@[j]).is_some(),
            decreases n - i,
        {
            if self.slots[i].is_none() {
                proof {
                    lemma_first_empty_is(self.slots@, i as int);
                }
                self.slots[i] = Some(value);
                return i;
            }
            i += 1;
        }
        proof {
            lemma_first_empty_is(self.slots@, n as int);
        }
        self.slots.push(Some(value));
        n
    }

    /// The handle in slot `id`; `None` if there is no such slot or it is
    /// empty.
    pub fn get(&self, id: usize) -> (r: Option<&T>)
        ensures
            r.is_some() == occupied(self@, id),
            r matches Some(handle) ==> *handle == self@[id as int].unwrap(),
    {
        if id < self.slots.len() {
            self.slots[id].as_ref()
        } else {
            None
        }
    }
}

} // verus!
