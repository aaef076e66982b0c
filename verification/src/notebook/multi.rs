//! The notebook for values of any type: five chapters, one for each alignment class.

use vstd::prelude::*;
use vstd::arithmetic::power2::is_pow2;
use vstd::layout::{align_of, layout_for_type_is_valid, size_of};
use vstd::string::*;
use crate::allocator::BookcaseAllocator;
use crate::binding::{Binding, NotebookView};
use crate::block::{zeros, Block};
use crate::error::Error;
use crate::layout::Layout;
use crate::chapter::{chapter_text, lemma_allocated_within, pages_wf};
use crate::notebook::{align_in_bytes, lemma_stored_wf, size_in_bytes, Notebook};
use crate::page::{Page, PageView, Utensil};
use crate::sharing::Public;
use crate::strategy::{GrowthStrategy, SizeStrategy};
use crate::text::{decimal, push_decimal};

verus! {

broadcast use Binding::lemma_wf;

/// The number of alignment classes.
pub const NUM_ALIGNS: usize = 5;

/// The alignment class of `t_align`: how often two divides it, up to four times. The
/// classes of the alignments 1, 2, 4 and 8 are 0, 1, 2 and 3; every larger power of two has
/// the class 4.
pub open spec fn chapter_index(t_align: nat) -> int {
    if t_align % 2 != 0 {
        0
    } else if t_align % 4 != 0 {
        1
    } else if t_align % 8 != 0 {
        2
    } else if t_align % 16 != 0 {
        3
    } else {
        4
    }
}

/// The smallest alignment that the chapter `ch` serves.
pub open spec fn class_align(ch: int) -> nat {
    if ch <= 0 {
        1
    } else if ch == 1 {
        2
    } else if ch == 2 {
        4
    } else if ch == 3 {
        8
    } else {
        16
    }
}

/// The alignment of a class divides every alignment of the class.
pub proof fn lemma_class_divides(t_align: nat)
    ensures
        t_align % class_align(chapter_index(t_align)) == 0,
        0 <= chapter_index(t_align) < NUM_ALIGNS,
{
}

/// For a power of two, the alignment of its class is the power itself, up to sixteen.
pub proof fn lemma_class_of_power(t_align: nat)
    requires
        is_pow2(t_align as int),
    ensures
        class_align(chapter_index(t_align)) == if t_align <= 16 {
            t_align
        } else {
            16
        },
{
    reveal_with_fuel(is_pow2, 6);
}

/// The chapter that serves values aligned to `t_align`.
pub fn chapter_idx(t_align: usize) -> (ch: usize)
    ensures
        ch == chapter_index(t_align as nat),
        ch < NUM_ALIGNS,
{
    if t_align % 2 != 0 {
        0
    } else if t_align % 4 != 0 {
        1
    } else if t_align % 8 != 0 {
        2
    } else if t_align % 16 != 0 {
        3
    } else {
        4
    }
}

/// What holds of a notebook of five chapters: its pages are valid, and there are five
/// chapters.
pub open spec fn multi_inv<U: Utensil>(book: NotebookView<U>) -> bool {
    &&& book.wf()
    &&& book.chapters.len() == NUM_ALIGNS
}

/// The text of a notebook: for each chapter a line that starts with `ch`, the index of the
/// chapter, counted from zero, and a colon, and goes on with the text of the chapter.
pub open spec fn notebook_text<U>(chapters: Seq<Seq<PageView<U>>>) -> Seq<char>
    decreases chapters.len(),
{
    if chapters.len() == 0 {
        Seq::empty()
    } else {
        let line = "ch"@ + decimal((chapters.len() - 1) as nat) + ":"@ + chapter_text(
            chapters.last(),
        );
        if chapters.len() == 1 {
            line
        } else {
            notebook_text(chapters.drop_last()) + "\n"@ + line
        }
    }
}

/// Can allocate any type, each at its proper alignment. This is useful for heterogeneous
/// granular data, such as the nodes of a parsed document: the backing allocator is asked
/// once for a page, not once for a value.
pub struct MultiNotebook<A: BookcaseAllocator, U: Utensil, L = ()> {
    allocator: A,
    binding: Binding<U>,
    sharing: L,
}

/// A notebook of any type for one owner.
pub type PersonalMultiNotebook<A, U> = MultiNotebook<A, U, ()>;

/// A notebook of any type for many users, who keep it behind a lock of their own.
pub type PublicMultiNotebook<A, U> = MultiNotebook<A, U, Public>;

impl<A: BookcaseAllocator, U: Utensil, L> View for MultiNotebook<A, U, L> {
    type V = NotebookView<U>;

    closed spec fn view(&self) -> NotebookView<U> {
        self.binding@
    }
}

impl<A: BookcaseAllocator, U: Utensil, L> MultiNotebook<A, U, L> {
    /// Validity of the notebook.
    pub closed spec fn wf(&self) -> bool {
        self.binding.wf() && multi_inv(self@)
    }

    /// The backing allocator.
    pub closed spec fn allocator(&self) -> A {
        self.allocator
    }

    /// The pages themselves of chapter `ch`, oldest first.
    pub closed spec fn sheets(&self, ch: int) -> Seq<Page<U>> {
        self.binding.sheets(ch)
    }

    /// What validity means for the view.
    pub broadcast proof fn lemma_wf(&self)
        requires
            #[trigger] self.wf(),
        ensures
            multi_inv(self@),
    {
    }

    /// A copy of the bytes of each page, chapter by chapter.
    fn clone_chapters_impl(binding: &Binding<U>) -> (r: [Vec<Vec<u8>>; NUM_ALIGNS])
        requires
            binding.wf(),
            binding@.chapters.len() == NUM_ALIGNS,
        ensures
            forall|ch: int|
                0 <= ch < NUM_ALIGNS ==> (#[trigger] r@[ch])@.len() == binding@.chapters[ch].len(),
            forall|ch: int, j: int|
                0 <= ch < NUM_ALIGNS && 0 <= j < binding@.chapters[ch].len() ==> (
                #[trigger] r@[ch]@[j])@ == binding@.chapters[ch][j].bytes,
    {
        [
            binding.clone_chapter(0),
            binding.clone_chapter(1),
            binding.clone_chapter(2),
            binding.clone_chapter(3),
            binding.clone_chapter(4),
        ]
    }

    /// The text of the notebook.
    fn to_string_impl(binding: &Binding<U>) -> (s: String)
        requires
            binding.wf(),
        ensures
            s@ == notebook_text(binding@.chapters),
    {
        let mut s = String::new();
        let n = binding.chapter_count();
        let mut idx: usize = 0;
        assert(binding@.chapters.subrange(0, 0) =~= Seq::empty());
        while idx < n
            invariant
                binding.wf(),
                idx <= n,
                n == binding@.chapters.len(),
                s@ == notebook_text(binding@.chapters.subrange(0, idx as int)),
            decreases n - idx,
        {
            let ghost before = s@;
            if idx > 0 {
                s.append("\n");
            }
            s.append("ch");
            push_decimal(&mut s, idx);
            s.append(":");
            let text = binding.chapter_to_string(idx);
            s.append(text.as_str());
            proof {
                let next = binding@.chapters.subrange(0, idx + 1);
                assert(next.drop_last() =~= binding@.chapters.subrange(0, idx as int));
                assert(next.last() == binding@.chapters[idx as int]);
                let line = "ch"@ + decimal((next.len() - 1) as nat) + ":"@ + chapter_text(
                    next.last(),
                );
                if idx > 0 {
                    assert(s@ =~= before + "\n"@ + line);
                } else {
                    assert(before =~= Seq::<char>::empty());
                    assert(s@ =~= line);
                }
            }
            idx = idx + 1;
        }
        assert(binding@.chapters.subrange(0, n as int) =~= binding@.chapters);
        s
    }

    /// Reserves a slot for a `T` in the chapter of its alignment class.
    fn alloc_impl<T>(allocator: &A, binding: &mut Binding<U>) -> (r: Option<usize>)
        requires
            old(binding).wf(),
            multi_inv(old(binding)@),
        ensures
            final(binding).wf(),
            multi_inv(final(binding)@),
            old(binding)@.allocated(
                final(binding)@,
                chapter_index(align_of::<T>()),
                size_in_bytes::<T>(),
                align_in_bytes::<T>(),
                r,
            ),
            r matches Some(p) ==> p as nat % align_of::<T>() == 0,
            old(binding)@.needs_page(
                chapter_index(align_of::<T>()),
                size_in_bytes::<T>(),
                align_in_bytes::<T>(),
            ) ==> exists|outcome: Result<Block, Error>| #[trigger]
                call_ensures(
                    A::allocate,
                    (
                        allocator,
                        old(binding)@.next_page_layout(
                            chapter_index(align_of::<T>()),
                            size_in_bytes::<T>(),
                            align_in_bytes::<T>(),
                        ),
                    ),
                    outcome,
                ) && old(binding)@.answered(
                    final(binding)@,
                    chapter_index(align_of::<T>()),
                    outcome,
                    r,
                ),
    {
        layout_for_type_is_valid::<T>();
        let t_size = core::mem::size_of::<T>();
        let t_align = core::mem::align_of::<T>();
        let ch = chapter_idx(t_align);
        let r = binding.place(allocator, ch, t_size, t_align);
        proof {
            assert(pages_wf(old(binding)@.chapters[ch as int]));
            lemma_allocated_within(
                old(binding)@.chapters[ch as int],
                binding@.chapters[ch as int],
                t_size,
                t_align,
                old(binding)@.next_page_size(ch as int, t_size, t_align),
                r,
            );
        }
        r
    }

    /// Takes back the slot of a `T` at `slot`, in the chapter of its alignment class.
    fn dealloc_impl<T>(binding: &mut Binding<U>, slot: usize) -> (r: bool)
        requires
            old(binding).wf(),
            multi_inv(old(binding)@),
        ensures
            final(binding).wf(),
            multi_inv(final(binding)@),
            old(binding)@.deallocated(final(binding)@, chapter_index(align_of::<T>()), slot, r),
    {
        let ch = chapter_idx(core::mem::align_of::<T>());
        let r = binding.dealloc(ch, slot);
        r
    }
}

impl<A: BookcaseAllocator, U: Utensil, L> MultiNotebook<A, U, L> {
    /// A copy of the bytes of each page, chapter by chapter.
    pub fn clone_chapters(&self) -> (r: [Vec<Vec<u8>>; NUM_ALIGNS])
        requires
            self.wf(),
        ensures
            forall|ch: int|
                0 <= ch < NUM_ALIGNS ==> (#[trigger] r@[ch])@.len() == self@.chapters[ch].len(),
            forall|ch: int, j: int|
                0 <= ch < NUM_ALIGNS && 0 <= j < self@.chapters[ch].len() ==> (
                #[trigger] r@[ch]@[j])@ == self@.chapters[ch][j].bytes,
    {
        Self::clone_chapters_impl(&self.binding)
    }

    /// Renders the notebook as text.
    pub fn to_string(&self) -> (s: String)
        requires
            self.wf(),
        ensures
            s@ == notebook_text(self@.chapters),
    {
        Self::to_string_impl(&self.binding)
    }

    /// The number of pages of the chapter `ch`.
    pub fn page_count(&self, ch: usize) -> (n: usize)
        requires
            self.wf(),
            ch < NUM_ALIGNS,
        ensures
            n == self@.chapters[ch as int].len(),
    {
        self.binding.page_count(ch)
    }

    /// Hands the buffer of each page back to the backing allocator. The notebook is left
    /// without pages.
    pub fn destroy(&mut self)
        requires
            old(self).wf(),
        ensures
            final(self).wf(),
            final(self)@ == old(self)@.emptied(),
            final(self).allocator() == old(self).allocator(),
            forall|ch: int, i: int|
                0 <= ch < NUM_ALIGNS && 0 <= i < old(self).sheets(ch).len() ==> (
                #[trigger] old(self).sheets(ch)[i]).handed_back(&old(self).allocator()),
    {
        self.binding.destroy(&self.allocator);
    }
}

impl<A: BookcaseAllocator, U: Utensil> PersonalMultiNotebook<A, U> {
    /// A notebook without pages that takes its pages from `allocator` and sizes them by
    /// `size` and `growth`.
    pub fn new(allocator: A, size: SizeStrategy, growth: GrowthStrategy) -> (book:
        PersonalMultiNotebook<A, U>)
        ensures
            book.wf(),
            book.allocator() == allocator,
            book@ == (NotebookView::<U> {
                size,
                growth,
                chapters: Seq::new(NUM_ALIGNS as nat, |i: int| Seq::<PageView<U>>::empty()),
            }),
    {
        MultiNotebook { allocator, binding: Binding::new(size, growth, NUM_ALIGNS), sharing: () }
    }
}

impl<A: BookcaseAllocator, U: Utensil> PublicMultiNotebook<A, U> {
    /// A notebook without pages that takes its pages from `allocator` and sizes them by
    /// `size` and `growth`.
    pub fn new(allocator: A, size: SizeStrategy, growth: GrowthStrategy) -> (book:
        PublicMultiNotebook<A, U>)
        ensures
            book.wf(),
            book.allocator() == allocator,
            book@ == (NotebookView::<U> {
                size,
                growth,
                chapters: Seq::new(NUM_ALIGNS as nat, |i: int| Seq::<PageView<U>>::empty()),
            }),
    {
        MultiNotebook {
            allocator,
            binding: Binding::new(size, growth, NUM_ALIGNS),
            sharing: Public,
        }
    }
}

impl<A: BookcaseAllocator, U: Utensil, L> Notebook for MultiNotebook<A, U, L> {
    type Tool = U;

    open spec fn wf(&self) -> bool {
        MultiNotebook::wf(self)
    }

    open spec fn model(&self) -> NotebookView<U> {
        self@
    }

    open spec fn chapter_of(t_align: nat) -> int {
        chapter_index(t_align)
    }

    open spec fn asked(&self, layout: Layout, outcome: Result<Block, Error>) -> bool {
        call_ensures(A::allocate, (&self.allocator(), layout), outcome)
    }

    proof fn lemma_model(&self) {
        self.lemma_wf();
    }

    fn allocate<T>(&mut self) -> (r: Option<usize>) {
        let r = Self::alloc_impl::<T>(&self.allocator, &mut self.binding);
        proof {
            let ch = Self::chapter_of(align_of::<T>());
            let before = old(self).model();
            if before.needs_page(ch, size_in_bytes::<T>(), align_in_bytes::<T>()) {
                let layout = before.next_page_layout(
                    ch,
                    size_in_bytes::<T>(),
                    align_in_bytes::<T>(),
                );
                let outcome = choose|outcome: Result<Block, Error>| #[trigger]
                    call_ensures(A::allocate, (&self.allocator, layout), outcome)
                        && before.answered(self@, ch, outcome, r);
                assert(old(self).asked(layout, outcome) && before.answered(
                    self.model(),
                    ch,
                    outcome,
                    r,
                ));
            }
        }
        r
    }

    fn write<T>(&mut self, slot: usize, image: &[u8]) -> (r: bool) {
        let ch = chapter_idx(core::mem::align_of::<T>());
        proof {
            lemma_stored_wf(self@, ch as int, slot, image@);
        }
        self.binding.store(ch, slot, image)
    }

    fn zero<T>(&mut self, slot: usize) -> (r: bool) {
        layout_for_type_is_valid::<T>();
        let ch = chapter_idx(core::mem::align_of::<T>());
        proof {
            lemma_stored_wf(self@, ch as int, slot, zeros(size_of::<T>()));
        }
        self.binding.zero(ch, slot, core::mem::size_of::<T>())
    }

    fn read<T>(&self, slot: usize) -> (r: Option<Vec<u8>>) {
        layout_for_type_is_valid::<T>();
        let ch = chapter_idx(core::mem::align_of::<T>());
        self.binding.load(ch, slot, core::mem::size_of::<T>())
    }

    fn dealloc<T>(&mut self, slot: usize) -> (r: bool) {
        Self::dealloc_impl::<T>(&mut self.binding, slot)
    }
}

} // verus!
