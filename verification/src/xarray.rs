//! An array that maps sparse integer indices to owned values.
//!
//! Indices that were never written read as free, so the array behaves as an
//! unbounded sparse map.  Besides plain stores and removals it supports
//! allocation: picking a free index inside given bounds and filling it, or
//! only reserving it so that a value can be stored later.

use vstd::prelude::*;

use core::mem::swap;

use crate::errno::Error;

verus! {

/// What one index of the array holds.
pub enum Slot<T> {
    /// Never written, or erased: available to allocation.
    Free,
    /// Claimed by a reservation, but holding no value yet.
    Reserved,
    /// Holding a value.
    Stored(T),
}

/// A sparse array of owned values, indexed by `usize`.
pub struct XArray<T> {
    slots: Vec<Slot<T>>,
}

/// A borrow of one stored value.
pub struct Guard<'a, T> {
    entry: &'a T,
}

impl<'a, T> Guard<'a, T> {
    /// The value this guard borrows.
    pub closed spec fn value(self) -> T {
        *self.entry
    }

    /// Borrow the underlying value wrapped by the guard.
    pub fn borrow(&self) -> (r: &T)
        ensures
            *r == self.value(),
    {
        self.entry
    }
}

/// A reserved index: claimed for the holder, not yet holding a value.
pub struct Reservation {
    index: usize,
}

impl<T> XArray<T> {
    /// What index `i` holds; indices outside the backing storage are free.
    pub closed spec fn entry(self, i: int) -> Slot<T> {
        if 0 <= i < self.slots@.len() {
            self.slots@[i]
        } else {
            Slot::Free
        }
    }

    /// Creates an empty array: every index is free.
    pub fn new() -> (r: XArray<T>)
        ensures
            forall|i: int| #[trigger] r.entry(i) is Free,
    {
        XArray { slots: Vec::new() }
    }

    /// Grows the backing storage to cover `index`, changing no entry.
    fn ensure_len(&mut self, index: usize)
        ensures
            final(self).slots@.len() > index,
            forall|i: int| #[trigger] final(self).entry(i) == old(self).entry(i),
    {
        while self.slots.len() <= index
            invariant
                forall|i: int| #[trigger] self.entry(i) == old(self).entry(i),
            decreases index + 1 - self.slots.len(),
        {
            let ghost prev: XArray<T> = *self;
            self.slots.push(Slot::Free);
            proof {
                assert forall|i: int| #[trigger] self.entry(i) == old(self).entry(i) by {
                    if 0 <= i < prev.slots@.len() {
                        assert(self.slots@[i] == prev.slots@[i]);
                    } else if i == prev.slots@.len() {
                        assert(self.slots@[i] == Slot::<T>::Free);
                    }
                    assert(prev.entry(i) == old(self).entry(i));
                }
            }
        }
    }

    /// Replaces the entry at `index` with `value`, returning the value that
    /// was stored there, if any.
    pub fn replace(&mut self, index: usize, value: T) -> (r: Result<Option<T>, Error>)
        ensures
            final(self).entry(index as int) == Slot::Stored(value),
            forall|j: int| j != index ==> #[trigger] final(self).entry(j) == old(self).entry(j),
            r == Ok::<Option<T>, Error>(
                match old(self).entry(index as int) {
                    Slot::Stored(v) => Some(v),
                    _ => None,
                },
            ),
    {
        self.ensure_len(index);
        let ghost mid: XArray<T> = *self;
        let mut taken = Slot::Stored(value);
        swap(&mut taken, &mut self.slots[index]);
        proof {
            assert(taken == mid.entry(index as int));
            assert(mid.entry(index as int) == old(self).entry(index as int));
            assert(self.slots@ =~= mid.slots@.update(index as int, Slot::Stored(value)));
            assert forall|j: int| j != index implies self.entry(j) == old(self).entry(j) by {
                assert(self.entry(j) == mid.entry(j));
            }
        }
        match taken {
            Slot::Stored(v) => Ok(Some(v)),
            _ => Ok(None),
        }
    }

    /// Replaces the entry at `index` with `value`, dropping the old value.
    pub fn set(&mut self, index: usize, value: T) -> (r: Result<(), Error>)
        ensures
            r is Ok,
            final(self).entry(index as int) == Slot::Stored(value),
            forall|j: int| j != index ==> #[trigger] final(self).entry(j) == old(self).entry(j),
    {
        let _ = self.replace(index, value)?;
        Ok(())
    }

    /// Borrows the value stored at `index`, if one is stored there.
    pub fn get(&self, index: usize) -> (r: Option<Guard<'_, T>>)
        ensures
            r is Some <==> self.entry(index as int) is Stored,
            r matches Some(g) ==> self.entry(index as int) == Slot::Stored(g.value()),
    {
        if index < self.slots.len() {
            match &self.slots[index] {
                Slot::Stored(v) => Some(Guard { entry: v }),
                _ => None,
            }
        } else {
            None
        }
    }

    /// Erases the entry at `index`, returning the value that was stored
    /// there, if any.  A reservation at `index` is erased as well.
    pub fn remove(&mut self, index: usize) -> (r: Option<T>)
        ensures
            final(self).entry(index as int) is Free,
            forall|j: int| j != index ==> #[trigger] final(self).entry(j) == old(self).entry(j),
            r == (match old(self).entry(index as int) {
                Slot::Stored(v) => Some(v),
                _ => None::<T>,
            }),
    {
        if index >= self.slots.len() {
            return None;
        }
        let mut taken = Slot::Free;
        swap(&mut taken, &mut self.slots[index]);
        match taken {
            Slot::Stored(v) => Some(v),
            _ => None,
        }
    }

    /// Whether index `i` is free.
    fn slot_is_free(&self, i: usize) -> (r: bool)
        ensures
            r == (self.entry(i as int) is Free),
    {
        if i < self.slots.len() {
            match &self.slots[i] {
                Slot::Free => true,
                _ => false,
            }
        } else {
            true
        }
    }

    /// Picks the lowest free index in `min..=max` and fills it with `filler`.
    /// Fails with `Busy` exactly when no index in the range is free.
    fn alloc_slot(&mut self, filler: Slot<T>, min: u32, max: u32) -> (r: Result<usize, Error>)
        requires
            !(filler is Free),
        ensures
            r matches Ok(i) ==> min <= i <= max && old(self).entry(i as int) is Free && final(self).entry(i as int) == filler && forall|j: int|
                j != i ==> #[trigger] final(self).entry(j) == old(self).entry(j),
            r is Err <==> (forall|j: int|
                min <= j <= max ==> !(#[trigger] old(self).entry(j) is Free)),
            r is Err ==> r == Err::<usize, Error>(Error::Busy) && *final(self) == *old(self),
    {
        if min > max {
            return Err(Error::Busy);
        }
        let mut i: usize = min as usize;
        loop
            invariant_except_break
                min <= i <= max,
                forall|j: int| min <= j < i ==> !(#[trigger] self.entry(j) is Free),
                *self == *old(self),
            ensures
                forall|j: int| min <= j <= max ==> !(#[trigger] self.entry(j) is Free),
                *self == *old(self),
            decreases max as usize - i,
        {
            if self.slot_is_free(i) {
                self.ensure_len(i);
                let ghost mid: XArray<T> = *self;
                let mut put = filler;
                swap(&mut put, &mut self.slots[i]);
                proof {
                    assert(self.slots@ =~= mid.slots@.update(i as int, filler));
                    assert forall|j: int| j != i implies self.entry(j) == old(self).entry(j) by {
                        assert(self.entry(j) == mid.entry(j));
                    }
                }
                return Ok(i);
            }
            if i >= max as usize {
                break ;
            }
            i = i + 1;
        }
        Err(Error::Busy)
    }

    /// Allocates a free index in `min..=max`, storing `value` into it.
    /// Fails with `Busy` exactly when no index in the range is free.
    pub fn alloc_limits(&mut self, value: T, min: u32, max: u32) -> (r: Result<usize, Error>)
        ensures
            r matches Ok(i) ==> min <= i <= max && old(self).entry(i as int) is Free && final(self).entry(i as int) == Slot::Stored(value) && forall|j: int|
                j != i ==> #[trigger] final(self).entry(j) == old(self).entry(j),
            r is Err <==> (forall|j: int|
                min <= j <= max ==> !(#[trigger] old(self).entry(j) is Free)),
            r is Err ==> r == Err::<usize, Error>(Error::Busy) && *final(self) == *old(self),
    {
        self.alloc_slot(Slot::Stored(value), min, max)
    }

    /// Allocates any free index, storing `value` into it.
    pub fn allocate(&mut self, value: T) -> (r: Result<usize, Error>)
        ensures
            r matches Ok(i) ==> i <= u32::MAX && old(self).entry(i as int) is Free && final(self).entry(i as int) == Slot::Stored(value) && forall|j: int|
                j != i ==> #[trigger] final(self).entry(j) == old(self).entry(j),
            r is Err <==> (forall|j: int|
                0 <= j <= u32::MAX ==> !(#[trigger] old(self).entry(j) is Free)),
            r is Err ==> r == Err::<usize, Error>(Error::Busy) && *final(self) == *old(self),
    {
        self.alloc_limits(value, 0, u32::MAX)
    }

    /// Reserves a free index in `min..=max`: the index stays claimed until a
    /// value is stored or it is removed.  Fails with `Busy` exactly when no
    /// index in the range is free.
    pub fn reserve_limits(&mut self, min: u32, max: u32) -> (r: Result<Reservation, Error>)
        ensures
            r matches Ok(res) ==> min <= res.idx() <= max && old(self).entry(res.idx()) is Free
                && final(self).entry(res.idx()) is Reserved && forall|j: int|
                j != res.idx() ==> #[trigger] final(self).entry(j) == old(self).entry(j),
            r is Err <==> (forall|j: int|
                min <= j <= max ==> !(#[trigger] old(self).entry(j) is Free)),
            r is Err ==> r == Err::<Reservation, Error>(Error::Busy) && *final(self) == *old(self),
    {
        let index = self.alloc_slot(Slot::Reserved, min, max)?;
        Ok(Reservation { index })
    }

    /// Reserves any free index.
    pub fn reserve(&mut self) -> (r: Result<Reservation, Error>)
        ensures
            r matches Ok(res) ==> res.idx() <= u32::MAX && old(self).entry(res.idx()) is Free
                && final(self).entry(res.idx()) is Reserved && forall|j: int|
                j != res.idx() ==> #[trigger] final(self).entry(j) == old(self).entry(j),
            r is Err <==> (forall|j: int|
                0 <= j <= u32::MAX ==> !(#[trigger] old(self).entry(j) is Free)),
            r is Err ==> r == Err::<Reservation, Error>(Error::Busy) && *final(self) == *old(self),
    {
        self.reserve_limits(0, u32::MAX)
    }
}

impl Reservation {
    /// The index this reservation claims.
    pub closed spec fn idx(self) -> int {
        self.index as int
    }

    /// Stores a value into the reserved slot and gives the index back.
    pub fn store<T>(self, xa: &mut XArray<T>, value: T) -> (r: Result<usize, Error>)
        ensures
            r == Ok::<usize, Error>((self.idx()) as usize),
            final(xa).entry(self.idx()) == Slot::Stored(value),
            forall|j: int| j != self.idx() ==> #[trigger] final(xa).entry(j) == old(xa).entry(j),
    {
        let index = self.index;
        let _ = xa.replace(index, value)?;
        Ok(index)
    }

    /// The index of this reservation.
    pub fn index(&self) -> (r: usize)
        ensures
            r == self.idx(),
    {
        self.index
    }
}

} // verus!
