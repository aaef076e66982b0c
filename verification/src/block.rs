//! Runs of bytes, as a backing allocator hands them out.

use vstd::prelude::*;
use vstd::slice::slice_subrange;
use crate::layout::Layout;

verus! {

/// `n` zero bytes.
pub open spec fn zeros(n: nat) -> Seq<u8> {
    Seq::new(n, |i: int| 0u8)
}

/// The distance from `addr` up to the next multiple of `align`.
pub open spec fn padding(addr: usize, align: usize) -> nat {
    if addr % align == 0 {
        0
    } else {
        (align - addr % align) as nat
    }
}

/// The padding is less than the alignment, and leads to a multiple of it.
pub proof fn lemma_padding(addr: usize, align: usize)
    requires
        align > 0,
    ensures
        padding(addr, align) < align,
        (addr + padding(addr, align)) % align as int == 0,
{
    let over = addr % align;
    if over != 0 {
        assert((addr + (align - over)) % align as int == 0) by (nonlinear_arith)
            requires
                align > 0,
                over == addr % align,
        ;
    }
}

/// A run of bytes that a backing allocator handed out, with the address of its first byte.
/// Whoever holds the block owns the bytes.
pub struct Block {
    addr: usize,
    lead: usize,
    len: usize,
    store: Vec<u8>,
}

impl View for Block {
    type V = Seq<u8>;

    /// The bytes of the block, first to last.
    closed spec fn view(&self) -> Seq<u8> {
        self.store@.subrange(self.lead as int, self.lead + self.len)
    }
}

/// The address of the first byte of the vector's buffer, as `Vec::as_ptr` gives it. Nothing is
/// claimed of the address: it is whatever the machine's allocator chose.
#[verifier::external_body]
pub(crate) fn buffer_addr(store: &Vec<u8>) -> (a: usize)
{
    store.as_ptr() as usize
}

impl Block {
    /// The address of the first byte.
    pub closed spec fn spec_addr(&self) -> usize {
        self.addr
    }

    /// The number of bytes.
    pub closed spec fn spec_size(&self) -> usize {
        self.len
    }

    /// Validity: the bytes are there, and the last of them has an address.
    pub closed spec fn wf(&self) -> bool {
        &&& self.lead + self.len <= self.store@.len() <= usize::MAX
        &&& self.addr + self.len <= usize::MAX
    }

    /// The block is valid, has the size of `layout` and starts at a multiple of its alignment.
    pub open spec fn fits(&self, layout: Layout) -> bool {
        &&& self.wf()
        &&& self.size() == layout.size()
        &&& self.addr() as int % layout.align() as int == 0
    }

    /// What validity means for the view and the address.
    pub broadcast proof fn lemma_wf(&self)
        requires
            #[trigger] self.wf(),
        ensures
            self@.len() == self.size(),
            self.addr() + self.size() <= usize::MAX,
    {
    }

    /// The block of the bytes `bytes`, said to lie at `addr`.
    pub fn from_bytes(addr: usize, bytes: Vec<u8>) -> (b: Block)
        requires
            addr + bytes@.len() <= usize::MAX,
        ensures
            b.wf(),
            b.addr() == addr,
            b@ == bytes@,
    {
        let len = bytes.len();
        let b = Block { addr, lead: 0, len, store: bytes };
        assert(b@ =~= bytes@);
        b
    }

    /// The block of no bytes at the address `align`, which is aligned to `align`.
    pub(crate) fn dangling(align: usize) -> (b: Block)
        requires
            align > 0,
        ensures
            b.wf(),
            b.addr() == align,
            b.size() == 0,
            b.addr() as int % align as int == 0,
    {
        Block { addr: align, lead: 0, len: 0, store: Vec::new() }
    }

    /// Carves a block of `size` bytes aligned to `align` out of `store`, whose first byte
    /// lies at `raw`: the block starts at the first multiple of `align` in `store`. There
    /// is none if the bytes of `store` do not all have addresses.
    pub fn carve_at(store: Vec<u8>, raw: usize, size: usize, align: usize) -> (r: Option<Block>)
        requires
            align > 0,
            store@.len() >= size + (align - 1),
        ensures
            r is Some <==> raw + store@.len() <= usize::MAX,
            r matches Some(b) ==> {
                &&& b.wf()
                &&& b.size() == size
                &&& b.addr() == raw + padding(raw, align)
                &&& b.addr() as int % align as int == 0
                &&& b@ == store@.subrange(
                    padding(raw, align) as int,
                    padding(raw, align) + size,
                )
            },
    {
        match raw.checked_add(store.len()) {
            None => None,
            Some(_) => {
                let lead = Self::pad(raw, align);
                let b = Block { addr: raw + lead, lead, len: size, store };
                assert(b@ == store@.subrange(lead as int, lead + size));
                Some(b)
            },
        }
    }

    /// Carves a block of `size` bytes aligned to `align` out of `store`, wherever `store`
    /// lies.
    pub(crate) fn carve(store: Vec<u8>, size: usize, align: usize) -> (r: Option<Block>)
        requires
            align > 0,
            store@.len() >= size + (align - 1),
        ensures
            r matches Some(b) ==> {
                &&& b.wf()
                &&& b.size() == size
                &&& b.addr() as int % align as int == 0
                &&& exists|lead: int|
                    0 <= lead < align && b@ == #[trigger] store@.subrange(lead, lead + size)
            },
            store@.len() == 0 ==> r is Some,
            exists|raw: usize| #[trigger]
                call_ensures(buffer_addr, (&store,), raw) && Self::carved(
                    store@,
                    raw,
                    size,
                    align,
                    r,
                ),
    {
        let raw = buffer_addr(&store);
        proof {
            lemma_padding(raw, align);
        }
        let r = Self::carve_at(store, raw, size, align);
        proof {
            if r is Some {
                assert(r->Some_0@ == store@.subrange(
                    padding(raw, align) as int,
                    padding(raw, align) + size,
                ));
            }
            assert(call_ensures(buffer_addr, (&store,), raw) && Self::carved(
                store@,
                raw,
                size,
                align,
                r,
            ));
        }
        r
    }

    /// Whether `r` is what is carved out of a vector of the bytes `store` whose first byte
    /// lies at `raw`: a block exactly if the bytes all have addresses, which starts at the
    /// first multiple of `align` from `raw` on and holds the `size` bytes that lie there.
    pub open spec fn carved(
        store: Seq<u8>,
        raw: usize,
        size: usize,
        align: usize,
        r: Option<Block>,
    ) -> bool {
        &&& r is Some <==> raw + store.len() <= usize::MAX
        &&& r matches Some(b) ==> {
            &&& b.wf()
            &&& b.size() == size
            &&& b.addr() == raw + padding(raw, align)
            &&& b@ == store.subrange(padding(raw, align) as int, padding(raw, align) + size)
        }
    }

    /// The distance from `addr` up to the next multiple of `align`.
    fn pad(addr: usize, align: usize) -> (pad: usize)
        requires
            align > 0,
        ensures
            pad == padding(addr, align),
            pad < align,
            (addr + pad) % align as int == 0,
    {
        proof {
            lemma_padding(addr, align);
        }
        let over = addr % align;
        if over == 0 {
            0
        } else {
            align - over
        }
    }

    /// The address of the first byte.
    #[verifier::when_used_as_spec(spec_addr)]
    pub fn addr(&self) -> (a: usize)
        ensures
            a == self.addr(),
    {
        self.addr
    }

    /// The number of bytes.
    #[verifier::when_used_as_spec(spec_size)]
    pub fn size(&self) -> (n: usize)
        ensures
            n == self.size(),
    {
        self.len
    }

    /// The byte at offset `i`.
    pub fn get(&self, i: usize) -> (b: u8)
        requires
            self.wf(),
            i < self.size(),
        ensures
            b == self@[i as int],
    {
        self.store[self.lead + i]
    }

    /// Writes `b` at offset `i`.
    pub fn set(&mut self, i: usize, b: u8)
        requires
            old(self).wf(),
            i < old(self).size(),
        ensures
            final(self).wf(),
            final(self).addr() == old(self).addr(),
            final(self).size() == old(self).size(),
            final(self)@ == old(self)@.update(i as int, b),
    {
        self.store.set(self.lead + i, b);
        assert(self@ =~= old(self)@.update(i as int, b));
    }

    /// The bytes of the block.
    pub fn as_slice(&self) -> (s: &[u8])
        requires
            self.wf(),
        ensures
            s@ == self@,
    {
        slice_subrange(self.store.as_slice(), self.lead, self.lead + self.len)
    }
}

} // verus!
