//! How large the pages of a notebook are.

use vstd::prelude::*;
use vstd::arithmetic::power2::{pow2, lemma_pow2_pos, lemma_pow2_strictly_increases};
use vstd::bits::{lemma_usize_shl_is_mul, lemma_usize_mul_pow2_le_max_iff_max_shr};
use vstd::layout::{size_of, unsigned_int_max_values};
use vstd::pervasive::unreached;

verus! {

/// The base size of the pages of a chapter, in units of what the chapter serves.
#[derive(Clone, Copy, Debug)]
pub enum SizeStrategy {
    /// That many alignments of the served type.
    AlignmentsPerPage(usize),
    /// That many values of the served type.
    ItemsPerPage(usize),
    /// That many machine words.
    WordsPerPage(usize),
}

/// How the size of a chapter's pages grows with the number of pages it already has.
#[derive(Clone, Copy, Debug)]
pub enum GrowthStrategy {
    /// Every page has the base size.
    Constant,
    /// The page after `k` others has `k + 1` times the given multiple of the base size.
    Linear(usize),
    /// Every page has twice the size of the one before it; the first has the base size.
    Exponential,
}

impl SizeStrategy {
    /// The base size in bytes for a type of `t_size` bytes aligned to `t_align`.
    pub open spec fn base(&self, t_size: nat, t_align: nat) -> nat {
        match *self {
            SizeStrategy::AlignmentsPerPage(n) => n as nat * t_align,
            SizeStrategy::ItemsPerPage(n) => n as nat * t_size,
            SizeStrategy::WordsPerPage(n) => n as nat * size_of::<usize>(),
        }
    }

    /// The base size in bytes, where a machine word can hold it.
    pub fn checked_base_bytes(&self, t_size: usize, t_align: usize) -> (r: Option<usize>)
        ensures
            r is Some <==> self.base(t_size as nat, t_align as nat) <= usize::MAX,
            r matches Some(b) ==> b == self.base(t_size as nat, t_align as nat),
    {
        match *self {
            SizeStrategy::AlignmentsPerPage(n) => n.checked_mul(t_align),
            SizeStrategy::ItemsPerPage(n) => n.checked_mul(t_size),
            SizeStrategy::WordsPerPage(n) => n.checked_mul(core::mem::size_of::<usize>()),
        }
    }

    /// The base size in bytes.
    pub fn base_bytes(&self, t_size: usize, t_align: usize) -> (r: usize)
        requires
            self.base(t_size as nat, t_align as nat) <= usize::MAX,
        ensures
            r == self.base(t_size as nat, t_align as nat),
    {
        match self.checked_base_bytes(t_size, t_align) {
            Some(b) => b,
            None => unreached(),
        }
    }
}

impl GrowthStrategy {
    /// The size in bytes of the page that follows `page_idx` others, for a base size of
    /// `base` bytes.
    pub open spec fn scaled(&self, base: nat, page_idx: nat) -> nat {
        match *self {
            GrowthStrategy::Constant => base,
            GrowthStrategy::Linear(n) => base * n as nat * (page_idx + 1),
            GrowthStrategy::Exponential => base * pow2(page_idx),
        }
    }

    /// The size in bytes of the next page, where a machine word can hold it.
    pub fn checked_page_bytes(&self, base_bytes: usize, page_idx: usize) -> (r: Option<usize>)
        ensures
            r is Some <==> self.scaled(base_bytes as nat, page_idx as nat) <= usize::MAX,
            r matches Some(b) ==> b == self.scaled(base_bytes as nat, page_idx as nat),
    {
        match *self {
            GrowthStrategy::Constant => Some(base_bytes),
            GrowthStrategy::Linear(n) => {
                match base_bytes.checked_mul(n) {
                    None => {
                        proof {
                            lemma_product_grows(base_bytes as nat * n as nat, page_idx as nat + 1);
                        }
                        None
                    },
                    Some(step) => {
                        if step == 0 {
                            assert(step as nat * (page_idx as nat + 1) == 0) by (nonlinear_arith)
                                requires
                                    step == 0,
                            ;
                            Some(0)
                        } else if page_idx == usize::MAX {
                            proof {
                                lemma_product_grows(page_idx as nat + 1, step as nat);
                                assert(step as nat * (page_idx as nat + 1) == (page_idx as nat + 1)
                                    * step as nat) by (nonlinear_arith);
                            }
                            None
                        } else {
                            step.checked_mul(page_idx + 1)
                        }
                    },
                }
            },
            GrowthStrategy::Exponential => {
                if base_bytes == 0 {
                    assert(0 * pow2(page_idx as nat) == 0) by (nonlinear_arith);
                    Some(0)
                } else if page_idx >= usize::BITS as usize {
                    proof {
                        unsigned_int_max_values();
                        if page_idx > usize::BITS {
                            lemma_pow2_strictly_increases(usize::BITS as nat, page_idx as nat);
                        }
                        lemma_product_grows(pow2(page_idx as nat), base_bytes as nat);
                        assert(base_bytes as nat * pow2(page_idx as nat) == pow2(page_idx as nat)
                            * base_bytes as nat) by (nonlinear_arith);
                    }
                    None
                } else {
                    proof {
                        lemma_usize_mul_pow2_le_max_iff_max_shr(base_bytes, page_idx, usize::MAX);
                    }
                    if base_bytes > usize::MAX >> page_idx {
                        None
                    } else {
                        proof {
                            lemma_usize_shl_is_mul(base_bytes, page_idx);
                        }
                        Some(base_bytes << page_idx)
                    }
                }
            },
        }
    }

    /// The size in bytes of the next page.
    pub fn page_bytes(&self, base_bytes: usize, page_idx: usize) -> (r: usize)
        requires
            self.scaled(base_bytes as nat, page_idx as nat) <= usize::MAX,
        ensures
            r == self.scaled(base_bytes as nat, page_idx as nat),
    {
        match self.checked_page_bytes(base_bytes, page_idx) {
            Some(b) => b,
            None => unreached(),
        }
    }
}

/// The size in bytes of the page that follows `page_idx` others in a chapter that serves a
/// type of `t_size` bytes aligned to `t_align`.
pub open spec fn page_size(
    size: SizeStrategy,
    growth: GrowthStrategy,
    t_size: nat,
    t_align: nat,
    page_idx: nat,
) -> nat {
    growth.scaled(size.base(t_size, t_align), page_idx)
}

/// The size in bytes of the next page of a chapter, where a machine word can hold it.
pub fn checked_page_size(
    size: SizeStrategy,
    growth: GrowthStrategy,
    t_size: usize,
    t_align: usize,
    page_idx: usize,
) -> (r: Option<usize>)
    ensures
        r is Some <==> page_size(size, growth, t_size as nat, t_align as nat, page_idx as nat)
            <= usize::MAX,
        r matches Some(b) ==> b == page_size(
            size,
            growth,
            t_size as nat,
            t_align as nat,
            page_idx as nat,
        ),
{
    match size.checked_base_bytes(t_size, t_align) {
        Some(base) => growth.checked_page_bytes(base, page_idx),
        None => {
            let ghost base = size.base(t_size as nat, t_align as nat);
            match growth {
                GrowthStrategy::Constant => None,
                GrowthStrategy::Linear(n) => {
                    if n == 0 {
                        assert(base * 0 * (page_idx as nat + 1) == 0) by (nonlinear_arith);
                        Some(0)
                    } else {
                        proof {
                            lemma_product_grows(base, n as nat);
                            lemma_product_grows(base * n as nat, page_idx as nat + 1);
                        }
                        None
                    }
                },
                GrowthStrategy::Exponential => {
                    proof {
                        lemma_pow2_pos(page_idx as nat);
                        lemma_product_grows(base, pow2(page_idx as nat));
                    }
                    None
                },
            }
        },
    }
}

/// A product is no smaller than its first factor when the second is positive.
proof fn lemma_product_grows(a: nat, b: nat)
    requires
        b >= 1,
    ensures
        a * b >= a,
{
    assert(a * b >= a) by (nonlinear_arith)
        requires
            b >= 1,
    ;
}

} // verus!
