//! A fixed-size arena of records, addressed by byte offset.
use vstd::arithmetic::div_mod::{lemma_div_multiples_vanish, lemma_mod_multiples_basic};
use vstd::layout::size_of;
use vstd::prelude::*;

verus! {

/// A block of `size` bytes seen as consecutive slots of one record type `R`,
/// each `size_of::<R>()` bytes wide. A slot is empty until a record is
/// written there. Records are read through `&self` and written only through
/// `&mut self`, so a shared arena can no longer change.
pub struct DynamicArray<R> {
    slots: Vec<Option<R>>,
    record_size: usize,
}

impl<R> View for DynamicArray<R> {
    type V = Seq<Option<R>>;

    closed spec fn view(&self) -> Seq<Option<R>> {
        self.slots@
    }
}

/// The slot `slot` starts `slot * unit` bytes into the arena.
pub proof fn lemma_slot_offset(unit: int, slot: int)
    requires
        unit > 0,
    ensures
        (slot * unit) / unit == slot,
        (slot * unit) % unit == 0,
{
    lemma_div_multiples_vanish(slot, unit);
    assert(unit * slot == slot * unit) by (nonlinear_arith);
    lemma_mod_multiples_basic(slot, unit);
}

impl<R> DynamicArray<R> {
    /// The width of one slot, in bytes.
    pub closed spec fn unit(self) -> nat {
        self.record_size as nat
    }

    pub open spec fn wf(self) -> bool {
        &&& self.unit() == size_of::<R>()
        &&& self.unit() > 0
        &&& self@.len() * self.unit() <= usize::MAX
    }

    /// The arena's size in bytes.
    pub open spec fn byte_size(self) -> nat {
        self@.len() * self.unit()
    }

    /// `offset` is the first byte of a slot of this arena.
    pub open spec fn reaches(self, offset: int) -> bool {
        &&& 0 <= offset
        &&& offset % (self.unit() as int) == 0
        &&& offset / (self.unit() as int) < self@.len()
    }

    pub open spec fn slot(self, offset: int) -> int {
        offset / (self.unit() as int)
    }

    /// Allocates `size` bytes, all slots empty.
    pub fn new(size: usize) -> (r: Self)
        requires
            size_of::<R>() > 0,
            size as nat % size_of::<R>() == 0,
        ensures
            r.wf(),
            r.byte_size() == size,
            r@.len() == size as nat / size_of::<R>(),
            forall|i: int| 0 <= i < r@.len() ==> r@[i] is None,
    {
        let record_size = core::mem::size_of::<R>();
        let n = size / record_size;
        let mut slots: Vec<Option<R>> = Vec::new();
        while slots.len() < n
            invariant
                slots@.len() <= n,
                forall|i: int| 0 <= i < slots@.len() ==> slots@[i] is None,
            decreases n - slots@.len(),
        {
            slots.push(None);
        }
        proof {
            vstd::arithmetic::div_mod::lemma_fundamental_div_mod(size as int, record_size as int);
            assert(n * record_size == record_size * n) by (nonlinear_arith);
        }
        DynamicArray { slots, record_size }
    }

    /// The arena's size in bytes.
    pub fn size(&self) -> (r: usize)
        requires
            self.wf(),
        ensures
            r == self.byte_size(),
    {
        self.slots.len() * self.record_size
    }

    /// The width of one slot, in bytes.
    pub fn record_size(&self) -> (r: usize)
        ensures
            r == self.unit(),
    {
        self.record_size
    }

    /// The record written at byte `offset`.
    pub fn get(&self, offset: usize) -> (r: &R)
        requires
            self.wf(),
            self.reaches(offset as int),
            self@[self.slot(offset as int)] is Some,
        ensures
            *r == self@[self.slot(offset as int)]->Some_0,
    {
        self.slots[offset / self.record_size].as_ref().unwrap()
    }

    /// The record written at byte `offset`, for changing in place.
    pub fn get_mut(&mut self, offset: usize) -> (r: &mut R)
        requires
            old(self).wf(),
            old(self).reaches(offset as int),
            old(self)@[old(self).slot(offset as int)] is Some,
        ensures
            *r == old(self)@[old(self).slot(offset as int)]->Some_0,
            final(self).unit() == old(self).unit(),
            final(self)@ == old(self)@.update(old(self).slot(offset as int), Some(*final(r))),
    {
        let i = offset / self.record_size;
        self.slots[i].as_mut().unwrap()
    }

    /// Writes `record` into the slot at byte `offset`.
    pub fn put(&mut self, offset: usize, record: R)
        requires
            old(self).wf(),
            old(self).reaches(offset as int),
        ensures
            final(self).unit() == old(self).unit(),
            final(self)@ == old(self)@.update(old(self).slot(offset as int), Some(record)),
    {
        let i = offset / self.record_size;
        self.slots[i] = Some(record);
    }
}

} // verus!
