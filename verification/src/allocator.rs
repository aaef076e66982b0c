//! The backing allocator: where a notebook gets the bytes of its pages.

use vstd::prelude::*;
use crate::block::{zeros, Block};
use crate::error::Error;
use crate::layout::Layout;

pub mod std_allocator;

verus! {

/// A source of blocks of bytes. A notebook asks it for the buffer of each page, and hands
/// each buffer back when the notebook is destroyed.
pub trait BookcaseAllocator: Sized {
    /// Hands out a block for `layout`, whose bytes may hold anything.
    fn allocate(&self, layout: Layout) -> (r: Result<Block, Error>)
        requires
            layout.wf(),
        ensures
            r matches Ok(b) ==> b.fits(layout),
            r matches Err(e) ==> e == Error::AllocError,
    ;

    /// Hands out a block for `layout`, whose bytes are all zero.
    fn allocate_zeroed(&self, layout: Layout) -> (r: Result<Block, Error>)
        requires
            layout.wf(),
        ensures
            r matches Ok(b) ==> b.fits(layout) && b@ == zeros(layout.size() as nat),
            r matches Err(e) ==> e == Error::AllocError,
    ;

    /// Takes back a block that was handed out for `layout`.
    fn deallocate(&self, block: Block, layout: Layout)
        requires
            layout.wf(),
            block.fits(layout),
    ;

    /// Makes `block`, handed out for `old_layout`, a block for `new_layout`, which must not
    /// be smaller. The bytes it had stay, the others may hold anything. A block that keeps
    /// its size may stay where it is. On failure the block is as it was.
    fn grow(&self, block: &mut Block, old_layout: Layout, new_layout: Layout) -> (r: Result<
        (),
        Error,
    >)
        requires
            old_layout.wf(),
            new_layout.wf(),
            old(block).fits(old_layout),
        ensures
            old_layout.size() > new_layout.size() ==> r == Err::<(), Error>(
                Error::GrowError(old_layout.size(), new_layout.size()),
            ),
            old_layout.size() <= new_layout.size() ==> (r matches Err(e) ==> e
                == Error::AllocError),
            r is Ok ==> resized(*old(block), *final(block), old_layout, new_layout),
            r is Err ==> same_block(*old(block), *final(block)),
    ;

    /// As `grow`, and the bytes that the block did not have are all zero.
    fn grow_zeroed(&self, block: &mut Block, old_layout: Layout, new_layout: Layout) -> (r:
        Result<(), Error>)
        requires
            old_layout.wf(),
            new_layout.wf(),
            old(block).fits(old_layout),
        ensures
            old_layout.size() > new_layout.size() ==> r == Err::<(), Error>(
                Error::GrowError(old_layout.size(), new_layout.size()),
            ),
            old_layout.size() <= new_layout.size() ==> (r matches Err(e) ==> e
                == Error::AllocError),
            r is Ok ==> resized(*old(block), *final(block), old_layout, new_layout),
            r is Ok ==> final(block)@ == old(block)@ + zeros(
                (new_layout.size() - old_layout.size()) as nat,
            ),
            r is Err ==> same_block(*old(block), *final(block)),
    ;

    /// Makes `block`, handed out for `old_layout`, a block for `new_layout`, which must not
    /// be larger. The bytes that still fit stay. A block that keeps its size may stay where
    /// it is. On failure the block is as it was.
    fn shrink(&self, block: &mut Block, old_layout: Layout, new_layout: Layout) -> (r: Result<
        (),
        Error,
    >)
        requires
            old_layout.wf(),
            new_layout.wf(),
            old(block).fits(old_layout),
        ensures
            old_layout.size() < new_layout.size() ==> r == Err::<(), Error>(
                Error::ShrinkError(old_layout.size(), new_layout.size()),
            ),
            old_layout.size() >= new_layout.size() ==> (r matches Err(e) ==> e
                == Error::AllocError),
            r is Ok ==> resized(*old(block), *final(block), old_layout, new_layout),
            r is Err ==> same_block(*old(block), *final(block)),
    ;

    /// The allocator itself.
    fn by_ref(&self) -> (r: &Self)
        ensures
            r == self,
    ;
}

/// `after` is `before` untouched: the same address, the same bytes.
pub open spec fn same_block(before: Block, after: Block) -> bool {
    &&& after.wf()
    &&& after.addr() == before.addr()
    &&& after@ == before@
}

/// `after` is what became of `before`, a block for `old_layout`, when it was made a block
/// for `new_layout`: it has the new size, and the bytes that both sizes cover are those of
/// `before`. It is aligned to the new alignment, or has kept both its size and its place.
pub open spec fn resized(before: Block, after: Block, old_layout: Layout, new_layout: Layout)
    -> bool {
    let kept = if old_layout.size() <= new_layout.size() {
        old_layout.size() as int
    } else {
        new_layout.size() as int
    };
    &&& after.wf()
    &&& after.size() == new_layout.size()
    &&& after@.subrange(0, kept) == before@.subrange(0, kept)
    &&& after.fits(new_layout) || (old_layout.size() == new_layout.size() && after.addr()
        == before.addr())
}

} // verus!
