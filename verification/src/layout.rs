//! Size and alignment of a run of bytes.

use vstd::prelude::*;
use vstd::arithmetic::power2::is_pow2;
use vstd::layout::valid_layout;

verus! {

/// The size and the alignment of a run of bytes. The alignment is a power of two, and the
/// size, rounded up to a multiple of the alignment, fits a signed machine word.
#[derive(Clone, Copy, Debug)]
pub struct Layout {
    size: usize,
    align: usize,
}

/// Tests whether `n` is a power of two.
pub fn is_power_of_two(n: usize) -> (b: bool)
    ensures
        b == is_pow2(n as int),
{
    if n == 0 {
        proof {
            reveal(is_pow2);
        }
        return false;
    }
    let mut m: usize = n;
    while m % 2 == 0
        invariant
            m > 0,
            is_pow2(m as int) == is_pow2(n as int),
        decreases m,
    {
        proof {
            reveal(is_pow2);
        }
        m = m / 2;
    }
    proof {
        reveal(is_pow2);
    }
    m == 1
}

impl Layout {
    /// The number of bytes.
    pub closed spec fn spec_size(&self) -> usize {
        self.size
    }

    /// The alignment, in bytes.
    pub closed spec fn spec_align(&self) -> usize {
        self.align
    }

    /// The layout of `size` bytes aligned to `align`.
    pub closed spec fn of(size: usize, align: usize) -> Layout {
        Layout { size, align }
    }

    /// What `of` builds.
    pub broadcast proof fn lemma_of(size: usize, align: usize)
        ensures
            (#[trigger] Layout::of(size, align)).size() == size,
            Layout::of(size, align).align() == align,
    {
    }

    /// Validity: what `from_size_align` demands of a size and an alignment.
    pub open spec fn wf(&self) -> bool {
        valid_layout(self.size(), self.align())
    }

    /// Two layouts with the same size and the same alignment are the same layout.
    pub broadcast proof fn lemma_ext(a: Layout, b: Layout)
        requires
            #[trigger] a.size() == #[trigger] b.size(),
            a.align() == b.align(),
        ensures
            a == b,
    {
    }

    /// The layout of `size` bytes aligned to `align`, where there is one: `align` must be a
    /// power of two, and `size` must not exceed the largest multiple of `align` that fits a
    /// signed machine word.
    pub fn from_size_align(size: usize, align: usize) -> (r: Option<Layout>)
        ensures
            r is Some <==> valid_layout(size, align),
            r matches Some(l) ==> l == Layout::of(size, align) && l.wf(),
    {
        if !is_power_of_two(align) {
            return None;
        }
        assert(align > 0) by {
            reveal(is_pow2);
        }
        let most: usize = isize::MAX as usize;
        assert(most % align <= most) by (nonlinear_arith)
            requires
                align > 0,
        ;
        if size > most - most % align {
            return None;
        }
        Some(Layout { size, align })
    }

    /// The layout of a value of type `T`.
    pub fn new<T>() -> (l: Layout)
        ensures
            l.wf(),
            l.size() as nat == vstd::layout::size_of::<T>(),
            l.align() as nat == vstd::layout::align_of::<T>(),
    {
        vstd::layout::layout_for_type_is_valid::<T>();
        Layout { size: core::mem::size_of::<T>(), align: core::mem::align_of::<T>() }
    }

    /// The number of bytes.
    #[verifier::when_used_as_spec(spec_size)]
    pub fn size(&self) -> (n: usize)
        ensures
            n == self.size(),
    {
        self.size
    }

    /// The alignment, in bytes.
    #[verifier::when_used_as_spec(spec_align)]
    pub fn align(&self) -> (n: usize)
        ensures
            n == self.align(),
    {
        self.align
    }
}

} // verus!
