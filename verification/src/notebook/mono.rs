//! The notebook for values of one type: a single chapter.

use vstd::prelude::*;
use vstd::layout::{align_of, layout_for_type_is_valid, size_of};
use vstd::string::*;
use core::marker::PhantomData;
use crate::allocator::BookcaseAllocator;
use crate::binding::{Binding, NotebookView};
use crate::block::{zeros, Block};
use crate::error::Error;
use crate::layout::Layout;
use crate::chapter::{chapter_text, lemma_allocated_within, pages_wf};
use crate::notebook::{align_in_bytes, lemma_stored_wf, size_in_bytes, TypedNotebook};
use crate::page::{Page, PageView, Utensil};
use crate::sharing::Public;
use crate::strategy::{GrowthStrategy, SizeStrategy};

verus! {

broadcast use Binding::lemma_wf;

/// What holds of a notebook for one type: its pages are valid, and it has one chapter.
pub open spec fn mono_inv<U: Utensil>(book: NotebookView<U>) -> bool {
    &&& book.wf()
    &&& book.chapters.len() == 1
}

/// Can only allocate one type. This is useful for loading many values of the same type
/// next to each other, so that iterating over them finds them in the cache.
pub struct MonoNotebook<A: BookcaseAllocator, U: Utensil, T, L = ()> {
    allocator: A,
    binding: Binding<U>,
    _pd: PhantomData<T>,
    sharing: L,
}

/// A notebook of one type for one owner.
pub type PersonalMonoNotebook<A, U, T> = MonoNotebook<A, U, T, ()>;

/// A notebook of one type for many users, who keep it behind a lock of their own.
pub type PublicMonoNotebook<A, U, T> = MonoNotebook<A, U, T, Public>;

impl<A: BookcaseAllocator, U: Utensil, T, L> View for MonoNotebook<A, U, T, L> {
    type V = NotebookView<U>;

    closed spec fn view(&self) -> NotebookView<U> {
        self.binding@
    }
}

impl<A: BookcaseAllocator, U: Utensil, T, L> MonoNotebook<A, U, T, L> {
    /// Validity of the notebook.
    pub closed spec fn wf(&self) -> bool {
        self.binding.wf() && mono_inv(self@)
    }

    /// The backing allocator.
    pub closed spec fn allocator(&self) -> A {
        self.allocator
    }

    /// The pages themselves, oldest first.
    pub closed spec fn sheets(&self) -> Seq<Page<U>> {
        self.binding.sheets(0)
    }

    /// What validity means for the view.
    pub broadcast proof fn lemma_wf(&self)
        requires
            #[trigger] self.wf(),
        ensures
            mono_inv(self@),
    {
    }

    /// The text of the notebook: that of its chapter.
    fn to_string_impl(binding: &Binding<U>) -> (s: String)
        requires
            binding.wf(),
            binding@.chapters.len() == 1,
        ensures
            s@ == chapter_text(binding@.chapters[0]),
    {
        binding.chapter_to_string(0)
    }

    /// Reserves a slot for a `T`.
    fn alloc_t_impl(allocator: &A, binding: &mut Binding<U>) -> (r: Option<usize>)
        requires
            old(binding).wf(),
            mono_inv(old(binding)@),
        ensures
            final(binding).wf(),
            mono_inv(final(binding)@),
            old(binding)@.allocated(
                final(binding)@,
                0,
                size_in_bytes::<T>(),
                align_in_bytes::<T>(),
                r,
            ),
            r matches Some(p) ==> p as nat % align_of::<T>() == 0,
            old(binding)@.needs_page(0, size_in_bytes::<T>(), align_in_bytes::<T>())
                ==> exists|outcome: Result<Block, Error>| #[trigger]
                call_ensures(
                    A::allocate,
                    (
                        allocator,
                        old(binding)@.next_page_layout(
                            0,
                            size_in_bytes::<T>(),
                            align_in_bytes::<T>(),
                        ),
                    ),
                    outcome,
                ) && old(binding)@.answered(final(binding)@, 0, outcome, r),
    {
        layout_for_type_is_valid::<T>();
        let t_size = core::mem::size_of::<T>();
        let t_align = core::mem::align_of::<T>();
        let r = binding.place(allocator, 0, t_size, t_align);
        proof {
            assert(pages_wf(old(binding)@.chapters[0]));
            lemma_allocated_within(
                old(binding)@.chapters[0],
                binding@.chapters[0],
                t_size,
                t_align,
                old(binding)@.next_page_size(0, t_size, t_align),
                r,
            );
        }
        r
    }

    /// Takes back the slot at `slot`.
    fn dealloc_t_impl(binding: &mut Binding<U>, slot: usize) -> (r: bool)
        requires
            old(binding).wf(),
            mono_inv(old(binding)@),
        ensures
            final(binding).wf(),
            mono_inv(final(binding)@),
            old(binding)@.deallocated(final(binding)@, 0, slot, r),
    {
        binding.dealloc(0, slot)
    }
}

impl<A: BookcaseAllocator, U: Utensil, T, L> MonoNotebook<A, U, T, L> {
    /// Renders the notebook as text.
    pub fn to_string(&self) -> (s: String)
        requires
            self.wf(),
        ensures
            s@ == chapter_text(self@.chapters[0]),
    {
        Self::to_string_impl(&self.binding)
    }

    /// A copy of the bytes of each page.
    pub fn clone_pages(&self) -> (v: Vec<Vec<u8>>)
        requires
            self.wf(),
        ensures
            v@.len() == self@.chapters[0].len(),
            forall|j: int| 0 <= j < v@.len() ==> (#[trigger] v@[j])@ == self@.chapters[0][j].bytes,
    {
        self.binding.clone_chapter(0)
    }

    /// The number of pages.
    pub fn page_count(&self) -> (n: usize)
        requires
            self.wf(),
        ensures
            n == self@.chapters[0].len(),
    {
        self.binding.page_count(0)
    }

    /// Hands the buffer of each page back to the backing allocator. The notebook is left
    /// without pages.
    pub fn destroy(&mut self)
        requires
            old(self).wf(),
        ensures
            final(self).wf(),
            final(self)@ == old(self)@.emptied(),
            final(self).allocator() == old(self).allocator(),
            forall|i: int|
                0 <= i < old(self).sheets().len() ==> (#[trigger] old(self).sheets()[i]).handed_back(
                    &old(self).allocator(),
                ),
    {
        self.binding.destroy(&self.allocator);
    }
}

impl<A: BookcaseAllocator, U: Utensil, T> PersonalMonoNotebook<A, U, T> {
    /// A notebook without pages that takes its pages from `allocator` and sizes them by
    /// `size` and `growth`.
    pub fn new(allocator: A, size: SizeStrategy, growth: GrowthStrategy) -> (book:
        PersonalMonoNotebook<A, U, T>)
        ensures
            book.wf(),
            book.allocator() == allocator,
            book@ == (NotebookView::<U> {
                size,
                growth,
                chapters: seq![Seq::<PageView<U>>::empty()],
            }),
    {
        let binding = Binding::new(size, growth, 1);
        assert(binding@.chapters =~= seq![Seq::<PageView<U>>::empty()]);
        MonoNotebook { allocator, binding, _pd: PhantomData, sharing: () }
    }
}

impl<A: BookcaseAllocator, U: Utensil, T> PublicMonoNotebook<A, U, T> {
    /// A notebook without pages that takes its pages from `allocator` and sizes them by
    /// `size` and `growth`.
    pub fn new(allocator: A, size: SizeStrategy, growth: GrowthStrategy) -> (book:
        PublicMonoNotebook<A, U, T>)
        ensures
            book.wf(),
            book.allocator() == allocator,
            book@ == (NotebookView::<U> {
                size,
                growth,
                chapters: seq![Seq::<PageView<U>>::empty()],
            }),
    {
        let binding = Binding::new(size, growth, 1);
        assert(binding@.chapters =~= seq![Seq::<PageView<U>>::empty()]);
        MonoNotebook { allocator, binding, _pd: PhantomData, sharing: Public }
    }
}

impl<A: BookcaseAllocator, U: Utensil, T, L> TypedNotebook<T> for MonoNotebook<
    A,
    U,
    T,
    L,
> {
    type Tool = U;

    open spec fn wf_t(&self) -> bool {
        self.wf()
    }

    open spec fn model_t(&self) -> NotebookView<U> {
        self@
    }

    open spec fn chapter_t() -> int {
        0
    }

    open spec fn asked_t(&self, layout: Layout, outcome: Result<Block, Error>) -> bool {
        call_ensures(A::allocate, (&self.allocator(), layout), outcome)
    }

    proof fn lemma_model_t(&self) {
        self.lemma_wf();
    }

    fn alloc_t(&mut self) -> (r: Option<usize>) {
        let r = Self::alloc_t_impl(&self.allocator, &mut self.binding);
        proof {
            if old(self)@.needs_page(0, size_in_bytes::<T>(), align_in_bytes::<T>()) {
                let layout = old(self)@.next_page_layout(
                    0,
                    size_in_bytes::<T>(),
                    align_in_bytes::<T>(),
                );
                let outcome = choose|outcome: Result<Block, Error>| #[trigger]
                    call_ensures(A::allocate, (&self.allocator, layout), outcome)
                        && old(self)@.answered(self@, 0, outcome, r);
                assert(old(self).asked_t(layout, outcome));
            }
        }
        r
    }

    fn write_t(&mut self, slot: usize, image: &[u8]) -> (r: bool) {
        proof {
            lemma_stored_wf(self@, 0, slot, image@);
        }
        self.binding.store(0, slot, image)
    }

    fn zero_t(&mut self, slot: usize) -> (r: bool) {
        layout_for_type_is_valid::<T>();
        proof {
            lemma_stored_wf(self@, 0, slot, zeros(size_of::<T>()));
        }
        self.binding.zero(0, slot, core::mem::size_of::<T>())
    }

    fn read_t(&self, slot: usize) -> (r: Option<Vec<u8>>) {
        layout_for_type_is_valid::<T>();
        self.binding.load(0, slot, core::mem::size_of::<T>())
    }

    fn dealloc_t(&mut self, slot: usize) -> (r: bool) {
        Self::dealloc_t_impl(&mut self.binding, slot)
    }
}

} // verus!
