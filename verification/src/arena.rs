use vstd::prelude::*;

verus! {

/// A pre-allocated byte slab handed out in consecutive pieces.
pub struct TensorArena {
    slab: Vec<u8>,
    cursor: usize,
    capacity: usize,
}

impl TensorArena {
    /// Number of bytes handed out since the last reset.
    pub closed spec fn used(&self) -> nat {
        self.cursor as nat
    }

    pub closed spec fn spec_capacity(&self) -> nat {
        self.capacity as nat
    }

    pub closed spec fn wf(&self) -> bool {
        &&& self.slab@.len() == self.capacity
        &&& self.cursor <= self.capacity
        &&& self.capacity >= 1
        &&& forall|i: int| 0 <= i < self.slab@.len() ==> self.slab@[i] == 0u8
    }

    /// Creates an arena of `max(capacity, 1)` zeroed bytes.
    pub fn new(capacity: usize) -> (a: Self)
        ensures
            a.wf(),
            a.spec_capacity() == if capacity == 0 { 1 } else { capacity as nat },
            a.used() == 0,
    {
        let cap = if capacity == 0 { 1 } else { capacity };
        let mut slab: Vec<u8> = Vec::with_capacity(cap);
        let mut i: usize = 0;
        while i < cap
            invariant
                i <= cap,
                slab@.len() == i,
                forall|j: int| 0 <= j < i ==> slab@[j] == 0u8,
            decreases cap - i,
        {
            slab.push(0u8);
            i = i + 1;
        }
        TensorArena { slab, cursor: 0, capacity: cap }
    }

    pub fn capacity(&self) -> (c: usize)
        ensures
            c == self.spec_capacity(),
    {
        self.capacity
    }

    /// Number of bytes handed out since the last reset.
    pub fn cursor(&self) -> (c: usize)
        ensures
            c == self.used(),
    {
        self.cursor
    }

    /// Makes the whole slab available again.
    pub fn reset(&mut self)
        requires
            old(self).wf(),
        ensures
            final(self).wf(),
            final(self).used() == 0,
            final(self).spec_capacity() == old(self).spec_capacity(),
    {
        self.cursor = 0;
    }

    /// Hands out the next `size` bytes, or `None` when they do not fit.
    pub fn allocate(&mut self, size: usize) -> (r: Option<&[u8]>)
        requires
            old(self).wf(),
        ensures
            final(self).wf(),
            final(self).spec_capacity() == old(self).spec_capacity(),
            old(self).used() + size <= old(self).spec_capacity() <==> r is Some,
            r is Some ==> final(self).used() == old(self).used() + size,
            r is None ==> final(self).used() == old(self).used(),
            r matches Some(s) ==> s@.len() == size && (forall|i: int| 0 <= i < size ==> s@[i] == 0u8),
    {
        let offset = self.cursor;
        if size > self.capacity - offset {
            return None;
        }
        self.cursor = offset + size;
        let s = vstd::slice::slice_subrange(self.slab.as_slice(), offset, offset + size);
        Some(s)
    }
}

} // verus!
