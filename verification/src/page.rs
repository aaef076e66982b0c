//! Pages: one buffer from the backing allocator each, with the utensil that places values
//! in it.

use vstd::prelude::*;
use vstd::string::*;
use crate::allocator::BookcaseAllocator;
use crate::block::{zeros, Block};
use crate::error::Error;
use crate::layout::Layout;
use crate::text::{hex_run, push_hex_run};

verus! {

broadcast use {Block::lemma_wf, Layout::lemma_ext};

/// The sum of two multiples of `a` is a multiple of `a`.
pub proof fn lemma_sum_of_multiples(x: nat, y: nat, a: nat)
    requires
        a > 0,
        x % a == 0,
        y % a == 0,
    ensures
        (x + y) % a == 0,
{
    vstd::arithmetic::div_mod::lemma_add_mod_noop(x as int, y as int, a as int);
    vstd::arithmetic::div_mod::lemma_small_mod(0, a);
}

/// A placement policy for the buffer of one page: it decides whether a run of bytes fits and
/// where it goes.
pub trait Utensil: Sized {
    /// Validity of the utensil's state.
    spec fn wf(&self) -> bool;

    /// The address of the buffer.
    spec fn base(&self) -> usize;

    /// The number of bytes of the buffer.
    spec fn capacity(&self) -> usize;

    /// The utensil of a buffer at `addr` with the layout `layout`, nothing placed yet.
    spec fn fresh(addr: usize, layout: Layout) -> Self;

    /// Whether `bytes` bytes can be placed.
    spec fn can_place(&self, bytes: usize) -> bool;

    /// Where `bytes` bytes would be placed.
    spec fn place_addr(&self, bytes: usize) -> usize;

    /// The utensil after `bytes` bytes were placed.
    spec fn placed(&self, bytes: usize) -> Self;

    /// Whether the utensil takes back what lies at `ptr`.
    spec fn can_release(&self, ptr: usize) -> bool;

    /// The utensil after it took back what lies at `ptr`.
    spec fn released(&self, ptr: usize) -> Self;

    /// A fresh utensil is valid and spans its buffer; whatever the buffer can hold can be
    /// placed; and where the buffer is aligned as its layout asks, so is what is placed
    /// first.
    proof fn lemma_fresh(addr: usize, layout: Layout)
        requires
            layout.wf(),
            addr + layout.size() <= usize::MAX,
        ensures
            Self::fresh(addr, layout).wf(),
            Self::fresh(addr, layout).base() == addr,
            Self::fresh(addr, layout).capacity() == layout.size(),
            forall|n: usize|
                n <= layout.size() ==> #[trigger] Self::fresh(addr, layout).can_place(n),
            addr as int % layout.align() as int == 0 ==> forall|n: usize|
                n <= layout.size() ==> (#[trigger] Self::fresh(addr, layout).place_addr(n)) as int
                    % layout.align() as int == 0,
    ;

    /// What is placed lies within the buffer, and placing keeps validity and the buffer.
    proof fn lemma_placed(&self, bytes: usize)
        requires
            self.wf(),
            self.can_place(bytes),
        ensures
            self.placed(bytes).wf(),
            self.placed(bytes).base() == self.base(),
            self.placed(bytes).capacity() == self.capacity(),
            self.base() <= self.place_addr(bytes),
            self.place_addr(bytes) + bytes <= self.base() + self.capacity(),
    ;

    /// Taking something back keeps validity and the buffer.
    proof fn lemma_released(&self, ptr: usize)
        requires
            self.wf(),
            self.can_release(ptr),
        ensures
            self.released(ptr).wf(),
            self.released(ptr).base() == self.base(),
            self.released(ptr).capacity() == self.capacity(),
    ;

    /// The utensil of a buffer at `addr` with the layout `layout`.
    fn new(addr: usize, layout: Layout) -> (u: Self)
        requires
            layout.wf(),
            addr + layout.size() <= usize::MAX,
        ensures
            u == Self::fresh(addr, layout),
    ;

    /// Tests whether `bytes` bytes can be placed.
    fn can_alloc(&self, bytes: usize) -> (b: bool)
        requires
            self.wf(),
        ensures
            b == self.can_place(bytes),
    ;

    /// The address at which `bytes` bytes would be placed.
    fn peek(&self, bytes: usize) -> (p: usize)
        requires
            self.wf(),
            self.can_place(bytes),
        ensures
            p == self.place_addr(bytes),
    ;

    /// Places `bytes` bytes and returns their address.
    fn allocate(&mut self, bytes: usize) -> (p: usize)
        requires
            old(self).wf(),
            old(self).can_place(bytes),
        ensures
            p == old(self).place_addr(bytes),
            *final(self) == old(self).placed(bytes),
    ;

    /// Tests whether the utensil takes back what lies at `ptr`.
    fn can_dealloc(&self, ptr: usize) -> (b: bool)
        requires
            self.wf(),
        ensures
            b == self.can_release(ptr),
    ;

    /// Takes back what lies at `ptr`.
    fn dealloc(&mut self, ptr: usize)
        requires
            old(self).wf(),
            old(self).can_release(ptr),
        ensures
            *final(self) == old(self).released(ptr),
    ;
}

/// You cannot erase ink: the pen places each run of bytes right behind the one before it,
/// and takes nothing back before the whole notebook goes.
#[derive(Clone, Copy, Debug)]
pub struct Pen {
    addr: usize,
    layout: Layout,
    offset: usize,
}

impl Pen {
    /// The number of bytes written so far.
    pub closed spec fn used(&self) -> usize {
        self.offset
    }

    /// The pen of the buffer at `addr` with the layout `layout`, `used` bytes written.
    pub closed spec fn at(addr: usize, layout: Layout, used: usize) -> Pen {
        Pen { addr, layout, offset: used }
    }

    /// A pen is the address and layout of its buffer, and the number of bytes written.
    pub broadcast proof fn lemma_pen(&self)
        ensures
            #![trigger self.used()]
            #![trigger self.base()]
            #![trigger self.capacity()]
            *self == Pen::at(self.base(), self.buffer(), self.used()),
            self.capacity() == self.buffer().size(),
    {
    }

    /// What `at` builds.
    pub broadcast proof fn lemma_at(addr: usize, layout: Layout, used: usize)
        ensures
            (#[trigger] Pen::at(addr, layout, used)).base() == addr,
            Pen::at(addr, layout, used).buffer() == layout,
            Pen::at(addr, layout, used).used() == used,
    {
    }

    /// The layout of the buffer.
    pub closed spec fn buffer(&self) -> Layout {
        self.layout
    }

    /// The number of bytes not yet written.
    pub open spec fn room(&self) -> int {
        self.capacity() - self.used()
    }

    fn remaining(&self) -> (n: usize)
        requires
            self.wf(),
        ensures
            n == self.room(),
    {
        self.layout.size() - self.offset
    }
}

impl Utensil for Pen {
    open spec fn wf(&self) -> bool {
        &&& self.buffer().wf()
        &&& self.used() <= self.capacity()
        &&& self.base() + self.capacity() <= usize::MAX
    }

    closed spec fn base(&self) -> usize {
        self.addr
    }

    closed spec fn capacity(&self) -> usize {
        self.layout.size()
    }

    open spec fn fresh(addr: usize, layout: Layout) -> Pen {
        Pen::at(addr, layout, 0)
    }

    open spec fn can_place(&self, bytes: usize) -> bool {
        self.room() >= bytes
    }

    open spec fn place_addr(&self, bytes: usize) -> usize {
        (self.base() + self.used()) as usize
    }

    open spec fn placed(&self, bytes: usize) -> Pen {
        Pen::at(self.base(), self.buffer(), (self.used() + bytes) as usize)
    }

    open spec fn can_release(&self, ptr: usize) -> bool {
        true
    }

    open spec fn released(&self, ptr: usize) -> Pen {
        *self
    }

    proof fn lemma_fresh(addr: usize, layout: Layout) {
    }

    proof fn lemma_placed(&self, bytes: usize) {
    }

    proof fn lemma_released(&self, ptr: usize) {
    }

    fn new(addr: usize, layout: Layout) -> (u: Pen) {
        Pen { addr, layout, offset: 0 }
    }

    fn can_alloc(&self, bytes: usize) -> (b: bool) {
        self.remaining() >= bytes
    }

    fn peek(&self, bytes: usize) -> (p: usize) {
        self.addr + self.offset
    }

    fn allocate(&mut self, bytes: usize) -> (p: usize) {
        let t = self.addr + self.offset;
        self.offset += bytes;
        t
    }

    fn can_dealloc(&self, ptr: usize) -> (b: bool) {
        true
    }

    fn dealloc(&mut self, ptr: usize) {
    }
}

/// What a page is: where its buffer lies, how it is aligned, the bytes in it, and the state
/// of its utensil.
pub struct PageView<U> {
    pub base: usize,
    pub align: usize,
    pub bytes: Seq<u8>,
    pub utensil: U,
}

/// The bytes `bytes` with `image` written over them from offset `at` on.
pub open spec fn overwrite(bytes: Seq<u8>, at: int, image: Seq<u8>) -> Seq<u8>
    recommends
        0 <= at,
        at + image.len() <= bytes.len(),
{
    bytes.subrange(0, at) + image + bytes.subrange(at + image.len(), bytes.len() as int)
}

/// The text of a page: a line break, the word `buffer:` indented by two spaces, and the
/// bytes of the buffer.
pub open spec fn page_text(bytes: Seq<u8>) -> Seq<char> {
    "\n  buffer:"@ + hex_run(bytes)
}

impl<U: Utensil> PageView<U> {
    /// Validity: the buffer has addresses, it is aligned, and the utensil is that of this
    /// buffer.
    pub open spec fn wf(&self) -> bool {
        &&& self.base + self.bytes.len() <= usize::MAX
        &&& self.align > 0
        &&& self.base as int % self.align as int == 0
        &&& self.utensil.wf()
        &&& self.utensil.base() == self.base
        &&& self.utensil.capacity() == self.bytes.len()
    }

    /// Whether the `len` bytes at `addr` lie in the buffer.
    pub open spec fn holds(&self, addr: usize, len: nat) -> bool {
        self.base <= addr && addr + len <= self.base + self.bytes.len()
    }

    /// The `len` bytes at `addr`.
    pub open spec fn slot(&self, addr: usize, len: nat) -> Seq<u8>
        recommends
            self.holds(addr, len),
    {
        self.bytes.subrange(addr - self.base, addr - self.base + len)
    }

    /// The page with `image` written at `addr`.
    pub open spec fn written(&self, addr: usize, image: Seq<u8>) -> PageView<U>
        recommends
            self.holds(addr, image.len()),
    {
        PageView { bytes: overwrite(self.bytes, addr - self.base, image), ..*self }
    }

    /// The page after `bytes` bytes were placed.
    pub open spec fn placed(&self, bytes: usize) -> PageView<U> {
        PageView { utensil: self.utensil.placed(bytes), ..*self }
    }

    /// The page after it took back what lies at `ptr`.
    pub open spec fn released(&self, ptr: usize) -> PageView<U> {
        PageView { utensil: self.utensil.released(ptr), ..*self }
    }

    /// Whether the page is a new one for `layout`: of that size and alignment, with nothing
    /// placed yet.
    pub open spec fn fresh_for(&self, layout: Layout) -> bool {
        &&& self.wf()
        &&& self.align == layout.align()
        &&& self.bytes.len() == layout.size()
        &&& self.utensil == U::fresh(self.base, layout)
    }

    /// Whether `bytes` bytes aligned to `align` can be placed in the page: there is room
    /// for them, and they would lie at a multiple of `align`.
    pub open spec fn fits(&self, bytes: usize, align: usize) -> bool {
        &&& self.utensil.can_place(bytes)
        &&& align > 0
        &&& self.utensil.place_addr(bytes) as int % align as int == 0
    }

    /// Whether the buffers of the two pages lie apart: one ends where or before the other
    /// starts.
    pub open spec fn apart(&self, other: PageView<U>) -> bool {
        ||| self.base + self.bytes.len() <= other.base
        ||| other.base + other.bytes.len() <= self.base
    }
}

/// One buffer from the backing allocator, and the utensil that places values in it.
pub struct Page<U> {
    block: Block,
    layout: Layout,
    utensil: U,
}

impl<U> View for Page<U> {
    type V = PageView<U>;

    closed spec fn view(&self) -> PageView<U> {
        PageView {
            base: self.block.addr(),
            align: self.layout.align(),
            bytes: self.block@,
            utensil: self.utensil,
        }
    }
}

impl<U: Utensil> Page<U> {
    /// Validity of the page.
    pub closed spec fn wf(&self) -> bool {
        &&& self.layout.wf()
        &&& self.block.fits(self.layout)
        &&& self@.wf()
    }

    /// A valid page has a valid view.
    pub broadcast proof fn lemma_wf(&self)
        requires
            #[trigger] self.wf(),
        ensures
            self@.wf(),
    {
    }

    /// The page for `layout` on the outcome of asking the backing allocator for its buffer:
    /// there is one exactly if the allocator gave a block.
    pub fn from_allocation(layout: Layout, outcome: Result<Block, Error>) -> (r: Option<Page<U>>)
        requires
            layout.wf(),
            outcome matches Ok(b) ==> b.fits(layout),
        ensures
            r is Some <==> outcome is Ok,
            r matches Some(p) ==> {
                &&& p.wf()
                &&& p@.fresh_for(layout)
                &&& p@.base == outcome->Ok_0.addr()
                &&& p@.bytes == outcome->Ok_0@
            },
    {
        match outcome {
            Err(_) => None,
            Ok(block) => {
                let utensil = U::new(block.addr(), layout);
                proof {
                    U::lemma_fresh(block.addr(), layout);
                    assert(layout.align() > 0) by {
                        reveal(vstd::arithmetic::power2::is_pow2);
                    }
                }
                Some(Page { block, layout, utensil })
            },
        }
    }

    /// Asks `allocator` for a buffer for `layout` and makes it a page. There is none if the
    /// allocator gives no buffer. No layout is too large for the machine: a size beyond
    /// the largest signed word makes no layout.
    pub fn create<A: BookcaseAllocator>(layout: Layout, allocator: &A) -> (r: Option<Page<U>>)
        requires
            layout.wf(),
        ensures
            r matches Some(p) ==> p.wf() && p@.fresh_for(layout),
            exists|outcome: Result<Block, Error>| #[trigger]
                call_ensures(A::allocate, (allocator, layout), outcome) && Self::made_of(
                    layout,
                    outcome,
                    r,
                ),
    {
        let outcome = allocator.allocate(layout);
        let r = Self::from_allocation(layout, outcome);
        assert(call_ensures(A::allocate, (allocator, layout), outcome) && Self::made_of(
            layout,
            outcome,
            r,
        ));
        r
    }

    /// Whether `r` is the page for `layout` that is made of `outcome`, what the backing
    /// allocator answered when it was asked for the buffer: there is a page exactly if
    /// the allocator gave a block, and the page is a new one whose buffer is that block.
    pub open spec fn made_of(
        layout: Layout,
        outcome: Result<Block, Error>,
        r: Option<Page<U>>,
    ) -> bool {
        &&& r is Some <==> outcome is Ok
        &&& r matches Some(p) ==> {
            &&& p.wf()
            &&& p@.fresh_for(layout)
            &&& p@.base == outcome->Ok_0.addr()
            &&& p@.bytes == outcome->Ok_0@
        }
    }

    /// A copy of the bytes of the buffer.
    pub fn clone_buffer(&self) -> (v: Vec<u8>)
        requires
            self.wf(),
        ensures
            v@ == self@.bytes,
    {
        let mut v: Vec<u8> = Vec::new();
        let n = self.layout.size();
        let mut idx: usize = 0;
        while idx < n
            invariant
                self.wf(),
                n == self@.bytes.len(),
                idx <= n,
                v@ == self@.bytes.subrange(0, idx as int),
            decreases n - idx,
        {
            v.push(self.block.get(idx));
            idx = idx + 1;
            assert(v@ =~= self@.bytes.subrange(0, idx as int));
        }
        assert(v@ =~= self@.bytes);
        v
    }

    /// Tests whether `bytes` bytes can be placed in the page.
    pub fn can_alloc(&self, bytes: usize) -> (b: bool)
        requires
            self.wf(),
        ensures
            b == self@.utensil.can_place(bytes),
    {
        self.utensil.can_alloc(bytes)
    }

    /// Tests whether `bytes` bytes aligned to `align` can be placed in the page.
    pub fn fits(&self, bytes: usize, align: usize) -> (b: bool)
        requires
            self.wf(),
        ensures
            b == self@.fits(bytes, align),
    {
        align > 0 && self.utensil.can_alloc(bytes) && self.utensil.peek(bytes) % align == 0
    }

    /// Tests whether the buffer of the page lies apart from that of `other`.
    pub fn apart(&self, other: &Page<U>) -> (b: bool)
        requires
            self.wf(),
            other.wf(),
        ensures
            b == self@.apart(other@),
    {
        let base = self.block.addr();
        let end = base + self.block.size();
        let other_base = other.block.addr();
        let other_end = other_base + other.block.size();
        end <= other_base || other_end <= base
    }

    /// Places `bytes` bytes in the page and returns their address.
    pub fn allocate(&mut self, bytes: usize) -> (p: usize)
        requires
            old(self).wf(),
            old(self)@.utensil.can_place(bytes),
        ensures
            final(self).wf(),
            p == old(self)@.utensil.place_addr(bytes),
            final(self)@ == old(self)@.placed(bytes),
            old(self)@.holds(p, bytes as nat),
    {
        proof {
            self.utensil.lemma_placed(bytes);
        }
        self.utensil.allocate(bytes)
    }

    /// Tests whether the page takes back what lies at `ptr`.
    pub fn can_dealloc(&self, ptr: usize) -> (b: bool)
        requires
            self.wf(),
        ensures
            b == self@.utensil.can_release(ptr),
    {
        self.utensil.can_dealloc(ptr)
    }

    /// Takes back what lies at `ptr`.
    pub fn dealloc(&mut self, ptr: usize)
        requires
            old(self).wf(),
            old(self)@.utensil.can_release(ptr),
        ensures
            final(self).wf(),
            final(self)@ == old(self)@.released(ptr),
    {
        proof {
            self.utensil.lemma_released(ptr);
        }
        self.utensil.dealloc(ptr);
    }

    /// Whether the buffer of the page was handed back to `allocator`, with the layout for
    /// which the page was made.
    pub closed spec fn handed_back<A: BookcaseAllocator>(&self, allocator: &A) -> bool {
        call_ensures(A::deallocate, (allocator, self.block, self.layout), ())
    }

    /// Hands the buffer back to `allocator`.
    pub fn destroy<A: BookcaseAllocator>(self, allocator: &A)
        requires
            self.wf(),
        ensures
            self.handed_back(allocator),
    {
        allocator.deallocate(self.block, self.layout);
    }

    /// Tests whether the `len` bytes at `addr` lie in the buffer.
    pub fn holds(&self, addr: usize, len: usize) -> (b: bool)
        requires
            self.wf(),
        ensures
            b == self@.holds(addr, len as nat),
    {
        let base = self.block.addr();
        let size = self.block.size();
        base <= addr && addr - base <= size && len <= size - (addr - base)
    }

    /// Writes `image` at `addr`, if those bytes lie in the buffer, and says whether they
    /// do.
    pub fn store(&mut self, addr: usize, image: &[u8]) -> (r: bool)
        requires
            old(self).wf(),
        ensures
            final(self).wf(),
            r == old(self)@.holds(addr, image@.len()),
            final(self)@ == if r {
                old(self)@.written(addr, image@)
            } else {
                old(self)@
            },
    {
        if !self.holds(addr, image.len()) {
            return false;
        }
        let at = addr - self.block.addr();
        let n = image.len();
        let mut i: usize = 0;
        assert(self@.bytes =~= overwrite(old(self)@.bytes, at as int, image@.subrange(0, 0)));
        while i < n
            invariant
                i <= n,
                n == image@.len(),
                at + n <= old(self)@.bytes.len(),
                self.wf(),
                old(self).wf(),
                self.layout == old(self).layout,
                self.utensil == old(self).utensil,
                self.block.addr() == old(self).block.addr(),
                self.block.size() == old(self).block.size(),
                self@.bytes == overwrite(
                    old(self)@.bytes,
                    at as int,
                    image@.subrange(0, i as int),
                ),
            decreases n - i,
        {
            self.block.set(at + i, image[i]);
            i = i + 1;
            assert(self@.bytes =~= overwrite(
                old(self)@.bytes,
                at as int,
                image@.subrange(0, i as int),
            ));
        }
        assert(image@.subrange(0, n as int) =~= image@);
        true
    }

    /// Writes zero to the `len` bytes at `addr`, if those bytes lie in the buffer, and
    /// says whether they do.
    pub fn zero(&mut self, addr: usize, len: usize) -> (r: bool)
        requires
            old(self).wf(),
        ensures
            final(self).wf(),
            r == old(self)@.holds(addr, len as nat),
            final(self)@ == if r {
                old(self)@.written(addr, zeros(len as nat))
            } else {
                old(self)@
            },
    {
        if !self.holds(addr, len) {
            return false;
        }
        let at = addr - self.block.addr();
        let mut i: usize = 0;
        assert(self@.bytes =~= overwrite(old(self)@.bytes, at as int, zeros(0)));
        while i < len
            invariant
                i <= len,
                at + len <= old(self)@.bytes.len(),
                self.wf(),
                old(self).wf(),
                self.layout == old(self).layout,
                self.utensil == old(self).utensil,
                self.block.addr() == old(self).block.addr(),
                self.block.size() == old(self).block.size(),
                self@.bytes == overwrite(old(self)@.bytes, at as int, zeros(i as nat)),
            decreases len - i,
        {
            self.block.set(at + i, 0u8);
            i = i + 1;
            assert(self@.bytes =~= overwrite(old(self)@.bytes, at as int, zeros(i as nat)));
        }
        true
    }

    /// A copy of the `len` bytes at `addr`, if those bytes lie in the buffer.
    pub fn load(&self, addr: usize, len: usize) -> (r: Option<Vec<u8>>)
        requires
            self.wf(),
        ensures
            r is Some <==> self@.holds(addr, len as nat),
            r matches Some(v) ==> v@ == self@.slot(addr, len as nat),
    {
        if !self.holds(addr, len) {
            return None;
        }
        let at = addr - self.block.addr();
        let mut v: Vec<u8> = Vec::new();
        let mut i: usize = 0;
        while i < len
            invariant
                i <= len,
                at + len <= self@.bytes.len(),
                self.wf(),
                v@ == self@.bytes.subrange(at as int, at + i),
            decreases len - i,
        {
            v.push(self.block.get(at + i));
            i = i + 1;
            assert(v@ =~= self@.bytes.subrange(at as int, at + i));
        }
        Some(v)
    }

    /// Renders the page as text.
    pub fn to_string(&self) -> (s: String)
        requires
            self.wf(),
        ensures
            s@ == page_text(self@.bytes),
    {
        let mut s = String::from_str("\n  buffer:");
        push_hex_run(&mut s, self.block.as_slice());
        s
    }
}

} // verus!
