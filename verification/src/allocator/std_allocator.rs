//! The backing allocator that takes its bytes from the program's heap.

use vstd::prelude::*;
use crate::allocator::{same_block, BookcaseAllocator};
use crate::block::{zeros, Block};
use crate::error::Error;
use crate::layout::Layout;

verus! {

broadcast use Block::lemma_wf;

/// The program's heap as a backing allocator.
pub struct StdAllocator;

/// Copies the first `n` bytes of `from` to the start of `to`.
fn copy_prefix(to: &mut Block, from: &Block, n: usize)
    requires
        old(to).wf(),
        from.wf(),
        n <= old(to).size(),
        n <= from.size(),
    ensures
        final(to).wf(),
        final(to).addr() == old(to).addr(),
        final(to).size() == old(to).size(),
        final(to)@ == from@.subrange(0, n as int) + old(to)@.subrange(
            n as int,
            old(to).size() as int,
        ),
{
    let mut i: usize = 0;
    assert(to@ =~= from@.subrange(0, 0) + to@.subrange(0, to.size() as int));
    while i < n
        invariant
            i <= n,
            n <= to.size(),
            n <= from.size(),
            to.wf(),
            from.wf(),
            old(to).wf(),
            to.addr() == old(to).addr(),
            to.size() == old(to).size(),
            to@ == from@.subrange(0, i as int) + old(to)@.subrange(
                i as int,
                old(to).size() as int,
            ),
        decreases n - i,
    {
        let b = from.get(i);
        to.set(i, b);
        i = i + 1;
        assert(to@ =~= from@.subrange(0, i as int) + old(to)@.subrange(
            i as int,
            old(to).size() as int,
        ));
    }
}

/// Writes zero to the bytes of `block` from offset `from` on.
fn zero_tail(block: &mut Block, from: usize)
    requires
        old(block).wf(),
        from <= old(block).size(),
    ensures
        final(block).wf(),
        final(block).addr() == old(block).addr(),
        final(block).size() == old(block).size(),
        final(block)@ == old(block)@.subrange(0, from as int) + zeros(
            (old(block).size() - from) as nat,
        ),
{
    let n = block.size();
    let mut i: usize = from;
    assert(block@ =~= block@.subrange(0, from as int) + block@.subrange(from as int, n as int));
    while i < n
        invariant
            from <= i <= n,
            n == block.size(),
            block.wf(),
            block.addr() == old(block).addr(),
            block.size() == old(block).size(),
            block@.subrange(0, from as int) == old(block)@.subrange(0, from as int),
            forall|j: int| from <= j < i ==> block@[j] == 0u8,
        decreases n - i,
    {
        block.set(i, 0u8);
        i = i + 1;
        assert(block@.subrange(0, from as int) =~= old(block)@.subrange(0, from as int));
    }
    assert(block@ =~= old(block)@.subrange(0, from as int) + zeros((n - from) as nat));
}

impl StdAllocator {
    /// A block for `layout` whose bytes are all zero, if the heap has room for it. A layout
    /// of no bytes takes nothing from the heap: its block lies at the alignment itself.
    fn zeroed_block(layout: Layout) -> (r: Result<Block, Error>)
        requires
            layout.wf(),
        ensures
            layout.size() == 0 ==> r is Ok,
            r matches Ok(b) ==> b.fits(layout) && b@ == zeros(layout.size() as nat),
            r matches Err(e) ==> e == Error::AllocError,
    {
        let size = layout.size();
        let align = layout.align();
        assert(align > 0) by {
            reveal(vstd::arithmetic::power2::is_pow2);
        }
        if size == 0 {
            let b = Block::dangling(align);
            assert(b@ =~= zeros(0));
            return Ok(b);
        }
        assert(align <= isize::MAX) by {
            if align > isize::MAX {
                vstd::arithmetic::div_mod::lemma_small_mod(isize::MAX as nat, align as nat);
            }
        }
        let total = size + (align - 1);
        let mut store: Vec<u8> = Vec::new();
        if store.try_reserve(total).is_err() {
            return Err(Error::AllocError);
        }
        store.resize(total, 0u8);
        assert(forall|i: int| 0 <= i < total ==> store@[i] == 0u8);
        match Block::carve(store, size, align) {
            None => Err(Error::AllocError),
            Some(b) => {
                assert(b@ =~= zeros(size as nat));
                Ok(b)
            },
        }
    }
}

impl BookcaseAllocator for StdAllocator {
    fn allocate(&self, layout: Layout) -> (r: Result<Block, Error>)
        ensures
            layout.size() == 0 ==> r is Ok,
    {
        Self::zeroed_block(layout)
    }

    fn allocate_zeroed(&self, layout: Layout) -> (r: Result<Block, Error>)
        ensures
            layout.size() == 0 ==> r is Ok,
    {
        Self::zeroed_block(layout)
    }

    fn deallocate(&self, block: Block, layout: Layout) {
        let _ = block;
    }

    /// A block of no bytes is replaced by a fresh one; a block that keeps its size stays as
    /// it is; any other moves.
    fn grow(&self, block: &mut Block, old_layout: Layout, new_layout: Layout) -> (r: Result<
        (),
        Error,
    >)
        ensures
            old_layout.size() == new_layout.size() ==> r is Ok,
            old_layout.size() == new_layout.size() && old_layout.size() != 0 ==> same_block(
                *old(block),
                *final(block),
            ),
    {
        let old_size = old_layout.size();
        let new_size = new_layout.size();
        if old_size == 0 {
            match self.allocate(new_layout) {
                Err(e) => Err(e),
                Ok(fresh) => {
                    *block = fresh;
                    assert(block@.subrange(0, 0) =~= old(block)@.subrange(0, 0));
                    Ok(())
                },
            }
        } else if old_size == new_size {
            Ok(())
        } else if old_size > new_size {
            Err(Error::GrowError(old_size, new_size))
        } else {
            match self.allocate(new_layout) {
                Err(e) => Err(e),
                Ok(fresh) => {
                    let mut moved = fresh;
                    copy_prefix(&mut moved, block, old_size);
                    core::mem::swap(block, &mut moved);
                    self.deallocate(moved, old_layout);
                    assert(block@.subrange(0, old_size as int) =~= old(block)@.subrange(
                        0,
                        old_size as int,
                    ));
                    Ok(())
                },
            }
        }
    }

    fn grow_zeroed(&self, block: &mut Block, old_layout: Layout, new_layout: Layout) -> (r:
        Result<(), Error>)
        ensures
            old_layout.size() == new_layout.size() ==> r is Ok,
    {
        match self.grow(block, old_layout, new_layout) {
            Err(e) => Err(e),
            Ok(()) => {
                let ghost grown = *block;
                zero_tail(block, old_layout.size());
                assert(block@ =~= old(block)@ + zeros(
                    (new_layout.size() - old_layout.size()) as nat,
                )) by {
                    assert(grown@.subrange(0, old_layout.size() as int) =~= old(block)@);
                }
                assert(block@.subrange(0, old_layout.size() as int) =~= old(block)@.subrange(
                    0,
                    old_layout.size() as int,
                ));
                Ok(())
            },
        }
    }

    /// A block that keeps its size stays as it is; any other moves.
    fn shrink(&self, block: &mut Block, old_layout: Layout, new_layout: Layout) -> (r: Result<
        (),
        Error,
    >)
        ensures
            old_layout.size() == new_layout.size() ==> r is Ok && same_block(
                *old(block),
                *final(block),
            ),
    {
        let old_size = old_layout.size();
        let new_size = new_layout.size();
        if old_size < new_size {
            Err(Error::ShrinkError(old_size, new_size))
        } else if old_size == new_size {
            Ok(())
        } else {
            match self.allocate(new_layout) {
                Err(e) => Err(e),
                Ok(fresh) => {
                    let mut moved = fresh;
                    copy_prefix(&mut moved, block, new_size);
                    core::mem::swap(block, &mut moved);
                    self.deallocate(moved, old_layout);
                    assert(block@.subrange(0, new_size as int) =~= old(block)@.subrange(
                        0,
                        new_size as int,
                    ));
                    Ok(())
                },
            }
        }
    }

    fn by_ref(&self) -> (r: &Self) {
        self
    }
}

} // verus!
