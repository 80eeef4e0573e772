//! Bump-allocator byte accounting.
//!
//! An `Arena` models a single fixed-capacity buffer filled front to back.
//! Allocation never touches memory here: the arena hands out byte offsets and
//! keeps the same alignment-padding arithmetic a pointer-based bump allocator
//! would perform, with the buffer's base taken as offset zero.  A
//! `DummyArena` performs identical accounting but may be unbounded; it backs
//! the tree estimator.

use vstd::prelude::*;

verus! {

/// Failure of an arena allocation.
#[derive(Clone, Copy, Debug, PartialEq, Eq, Structural)]
pub enum Error {
    OutOfMemory,
}

/// Padding needed to advance `len` to the next multiple of `align`.
pub open spec fn pad_for(len: int, align: int) -> int
    recommends
        align >= 1,
{
    if len % align == 0 {
        0
    } else {
        align - len % align
    }
}

/// `x + y`, saturating at `usize::MAX`.
pub open spec fn sat_add(x: int, y: int) -> int {
    if x + y > usize::MAX {
        usize::MAX as int
    } else {
        x + y
    }
}

/// Exact end of a block of `n` items of `size` bytes aligned to `align`,
/// allocated at `len` used bytes: alignment padding first, then the items.
pub open spec fn alloc_end(len: int, n: int, size: int, align: int) -> int {
    len + pad_for(len, align) + n * size
}

/// `alloc_end`, saturating at `usize::MAX`; the accounting of an unbounded
/// `DummyArena`.
pub open spec fn sat_alloc_end(len: int, n: int, size: int, align: int) -> int {
    sat_add(len, sat_add(pad_for(len, align), n * size))
}

/// A bump allocator over one fixed-capacity buffer, tracked by offsets.
pub struct Arena {
    capacity: usize,
    len: usize,
}

impl Arena {
    pub closed spec fn spec_capacity(&self) -> int {
        self.capacity as int
    }

    pub closed spec fn spec_len(&self) -> int {
        self.len as int
    }

    pub fn with_capacity(bytes: usize) -> (arena: Arena)
        ensures
            arena.spec_capacity() == bytes,
            arena.spec_len() == 0,
    {
        Arena { capacity: bytes, len: 0 }
    }

    pub fn capacity(&self) -> (c: usize)
        ensures
            c == self.spec_capacity(),
    {
        self.capacity
    }

    pub fn len(&self) -> (l: usize)
        ensures
            l == self.spec_len(),
    {
        self.len
    }

    /// Reserves `n` items of `size` bytes at alignment `align`; returns the
    /// byte offset of the block.  Fails, leaving the cursor in place, exactly
    /// when the block would end past the capacity.
    pub fn allocate(&mut self, n: usize, size: usize, align: usize) -> (r: Result<usize, Error>)
        requires
            align >= 1,
        ensures
            final(self).spec_capacity() == old(self).spec_capacity(),
            match r {
                Ok(offset) => {
                    &&& alloc_end(old(self).spec_len(), n as int, size as int, align as int)
                        <= old(self).spec_capacity()
                    &&& offset == old(self).spec_len() + pad_for(
                        old(self).spec_len(),
                        align as int,
                    )
                    &&& (offset as int) % (align as int) == 0
                    &&& final(self).spec_len() == offset + n * size
                },
                Err(_) => {
                    &&& alloc_end(old(self).spec_len(), n as int, size as int, align as int)
                        > old(self).spec_capacity()
                    &&& final(self).spec_len() == old(self).spec_len()
                },
            },
    {
        let rem = self.len % align;
        let pad = if rem == 0 {
            0usize
        } else {
            align - rem
        };
        let bytes = match n.checked_mul(size) {
            Some(b) => b,
            None => {
                return Err(Error::OutOfMemory);
            },
        };
        let end = match self.len.checked_add(pad) {
            Some(e) => match e.checked_add(bytes) {
                Some(e2) => e2,
                None => {
                    return Err(Error::OutOfMemory);
                },
            },
            None => {
                return Err(Error::OutOfMemory);
            },
        };
        if end <= self.capacity {
            let offset = self.len + pad;
            proof {
                assert((offset as int) % (align as int) == 0) by (nonlinear_arith)
                    requires
                        align >= 1,
                        rem == (self.len as int) % (align as int),
                        offset == self.len + (if rem == 0 {
                            0int
                        } else {
                            align - rem
                        }),
                ;
            }
            self.len = end;
            Ok(offset)
        } else {
            Err(Error::OutOfMemory)
        }
    }
}

/// Performs the same accounting as `Arena` without owning a buffer.  With no
/// capacity it never fails; the byte count saturates at `usize::MAX`.
pub struct DummyArena {
    capacity: Option<usize>,
    len: usize,
}

impl DummyArena {
    pub closed spec fn spec_capacity(&self) -> Option<usize> {
        self.capacity
    }

    pub closed spec fn spec_len(&self) -> int {
        self.len as int
    }

    pub fn with_capacity(bytes: usize) -> (arena: DummyArena)
        ensures
            arena.spec_capacity() == Some(bytes),
            arena.spec_len() == 0,
    {
        DummyArena { capacity: Some(bytes), len: 0 }
    }

    pub fn infinite() -> (arena: DummyArena)
        ensures
            arena.spec_capacity() is None,
            arena.spec_len() == 0,
    {
        DummyArena { capacity: None, len: 0 }
    }

    pub fn capacity(&self) -> (c: Option<usize>)
        ensures
            c == self.spec_capacity(),
    {
        self.capacity
    }

    pub fn len(&self) -> (l: usize)
        ensures
            l == self.spec_len(),
    {
        self.len
    }

    /// Counts `n` items of `size` bytes at alignment `align`.  An unbounded
    /// arena always succeeds; a bounded one fails exactly when the new length
    /// would exceed its capacity.
    pub fn allocate(&mut self, n: usize, size: usize, align: usize) -> (r: Result<(), Error>)
        requires
            align >= 1,
        ensures
            final(self).spec_capacity() == old(self).spec_capacity(),
            match r {
                Ok(()) => {
                    &&& final(self).spec_len() == sat_alloc_end(
                        old(self).spec_len(),
                        n as int,
                        size as int,
                        align as int,
                    )
                    &&& match old(self).spec_capacity() {
                        Some(cap) => final(self).spec_len() <= cap,
                        None => true,
                    }
                },
                Err(_) => {
                    &&& old(self).spec_capacity() is Some
                    &&& sat_alloc_end(old(self).spec_len(), n as int, size as int, align as int)
                        > old(self).spec_capacity()->Some_0
                    &&& final(self).spec_len() == old(self).spec_len()
                },
            },
    {
        let rem = self.len % align;
        let pad = if rem == 0 {
            0usize
        } else {
            align - rem
        };
        let step = match n.checked_mul(size) {
            Some(b) => match pad.checked_add(b) {
                Some(s) => s,
                None => usize::MAX,
            },
            None => usize::MAX,
        };
        proof {
            assert(step as int == sat_add(pad as int, n as int * size as int));
        }
        let end = match self.len.checked_add(step) {
            Some(e) => e,
            None => usize::MAX,
        };
        proof {
            assert(end as int == sat_alloc_end(
                self.len as int,
                n as int,
                size as int,
                align as int,
            ));
        }
        match self.capacity {
            Some(cap) => {
                if end <= cap {
                    self.len = end;
                    Ok(())
                } else {
                    Err(Error::OutOfMemory)
                }
            },
            None => {
                self.len = end;
                Ok(())
            },
        }
    }
}

/// A block never shrinks the account.
pub proof fn lemma_alloc_end_grows(len: int, n: int, size: int, align: int)
    requires
        0 <= len,
        0 <= n,
        0 <= size,
        align >= 1,
    ensures
        alloc_end(len, n, size, align) >= len,
        len <= usize::MAX ==> len <= sat_alloc_end(len, n, size, align) <= usize::MAX,
{
    assert(n * size >= 0) by (nonlinear_arith)
        requires
            n >= 0,
            size >= 0,
    ;
    assert(0 <= len % align < align) by (nonlinear_arith)
        requires
            align >= 1,
            len >= 0,
    ;
}

/// Saturating accounting equals the exact block end, clipped at
/// `usize::MAX`.
pub proof fn lemma_sat_alloc_end_eq(len: int, n: int, size: int, align: int)
    requires
        0 <= len,
        0 <= n,
        0 <= size,
        align >= 1,
    ensures
        sat_alloc_end(len, n, size, align) == (if alloc_end(len, n, size, align) <= usize::MAX {
            alloc_end(len, n, size, align)
        } else {
            usize::MAX as int
        }),
{
    assert(n * size >= 0) by (nonlinear_arith)
        requires
            n >= 0,
            size >= 0,
    ;
    assert(0 <= len % align < align) by (nonlinear_arith)
        requires
            align >= 1,
            len >= 0,
    ;
}

/// An account already at `usize::MAX` stays there.
pub proof fn lemma_sat_alloc_end_full(n: int, size: int, align: int)
    requires
        n >= 0,
        size >= 0,
        align >= 1,
    ensures
        sat_alloc_end(usize::MAX as int, n, size, align) == usize::MAX,
{
    assert(n * size >= 0) by (nonlinear_arith)
        requires
            n >= 0,
            size >= 0,
    ;
    assert(0 <= (usize::MAX as int) % align < align) by (nonlinear_arith)
        requires
            align >= 1,
    ;
}

/// `a + b`, saturating at `usize::MAX`.
pub fn sat_add_usize(a: usize, b: usize) -> (r: usize)
    ensures
        r == sat_add(a as int, b as int),
{
    match a.checked_add(b) {
        Some(s) => s,
        None => usize::MAX,
    }
}

/// `a * b`, saturating at `usize::MAX`.
pub fn sat_mul_usize(a: usize, b: usize) -> (r: usize)
    ensures
        a * b <= usize::MAX ==> r == a * b,
        a * b > usize::MAX ==> r == usize::MAX,
{
    match a.checked_mul(b) {
        Some(p) => p,
        None => usize::MAX,
    }
}

} // verus!
