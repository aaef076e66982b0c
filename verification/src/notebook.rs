//! Notebooks: the interface to the allocator.

use vstd::prelude::*;
use vstd::layout::{align_of, layout_for_type_is_valid, size_of};
use vstd::string::*;
use crate::binding::NotebookView;
use crate::block::{zeros, Block};
use crate::chapter::{
    first_holding, lemma_allocated_within, lemma_first_holding, lemma_stored_pages_wf,
};
use crate::error::Error;
use crate::handle::Handle;
use crate::layout::Layout;
use crate::page::Utensil;

pub mod mono;
pub mod multi;

verus! {

/// The size of `T` as a machine word.
pub open spec fn size_in_bytes<T>() -> usize {
    size_of::<T>() as usize
}

/// The alignment of `T` as a machine word.
pub open spec fn align_in_bytes<T>() -> usize {
    align_of::<T>() as usize
}

/// What placing a value and then writing `image` to its slot makes of a notebook: where
/// nothing is placed, nothing changes; else the notebook is what placing made of it, with
/// `image` in the slot.
pub open spec fn written_on_placing<U: Utensil>(
    before: NotebookView<U>,
    after: NotebookView<U>,
    ch: int,
    t_size: usize,
    t_align: usize,
    image: Seq<u8>,
    r: Option<usize>,
) -> bool {
    match r {
        None => before.allocated(after, ch, t_size, t_align, None),
        Some(p) => exists|placed: NotebookView<U>| #[trigger]
            before.allocated(placed, ch, t_size, t_align, Some(p)) && after == placed.stored(
                ch,
                p,
                image,
            ),
    }
}

/// The page that holds the bytes that were just placed is found again: a slot that was
/// placed is held by its chapter.
pub proof fn lemma_placed_is_held<U: Utensil>(
    before: NotebookView<U>,
    after: NotebookView<U>,
    ch: int,
    t_size: usize,
    t_align: usize,
    p: usize,
)
    requires
        before.wf(),
        before.allocated(after, ch, t_size, t_align, Some(p)),
    ensures
        after.wf(),
        after.holds(ch, p, t_size as nat),
        t_align > 0,
        p as int % t_align as int == 0,
{
    assert(crate::chapter::pages_wf(before.chapters[ch]));
    lemma_allocated_within(
        before.chapters[ch],
        after.chapters[ch],
        t_size,
        t_align,
        before.next_page_size(ch, t_size, t_align),
        Some(p),
    );
    lemma_first_holding(after.chapters[ch], p, t_size as nat);
    crate::binding::lemma_allocated_wf(before, after, ch, t_size, t_align, Some(p));
}

/// What is written to a slot is what is read from it.
pub proof fn lemma_stored_is_read<U: Utensil>(
    book: NotebookView<U>,
    ch: int,
    addr: usize,
    image: Seq<u8>,
)
    requires
        0 <= ch < book.chapters.len(),
        book.holds(ch, addr, image.len()),
    ensures
        book.stored(ch, addr, image).slot(ch, addr, image.len()) == Some(image),
        book.stored(ch, addr, image).holds(ch, addr, image.len()),
{
    let pages = book.chapters[ch];
    let len = image.len();
    lemma_first_holding(pages, addr, len);
    let i = first_holding(pages, addr, len)->Some_0;
    let after = pages.update(i, pages[i].written(addr, image));
    assert(book.stored(ch, addr, image).chapters[ch] == after);
    lemma_first_holding(after, addr, len);
    assert(after[i].holds(addr, len));
    assert forall|j: int| 0 <= j < i implies !after[j].holds(addr, len) by {
        assert(after[j] == pages[j]);
    }
    assert(first_holding(after, addr, len) == Some(i));
    assert(after[i].slot(addr, len) =~= image);
}

/// Writing to a slot keeps the notebook valid.
pub proof fn lemma_stored_wf<U: Utensil>(
    book: NotebookView<U>,
    ch: int,
    addr: usize,
    image: Seq<u8>,
)
    requires
        0 <= ch < book.chapters.len(),
        book.wf(),
    ensures
        book.stored(ch, addr, image).wf(),
        book.stored(ch, addr, image).chapters.len() == book.chapters.len(),
{
    let after = book.stored(ch, addr, image);
    assert(crate::chapter::pages_wf(book.chapters[ch]));
    lemma_stored_pages_wf(book.chapters[ch], addr, image);
    crate::binding::lemma_same_places_apart(book, ch, after.chapters[ch]);
    assert forall|i: int| 0 <= i < after.chapters.len() implies crate::chapter::pages_wf(
        #[trigger] after.chapters[i],
    ) by {
        if i != ch {
            assert(after.chapters[i] == book.chapters[i]);
            assert(crate::chapter::pages_wf(book.chapters[i]));
        }
    }
}

/// A notebook for values of any type. Each value gets a slot in the chapter of its
/// alignment class.
pub trait Notebook: Sized {
    /// The utensil of the pages.
    type Tool: Utensil;

    /// Validity of the notebook.
    spec fn wf(&self) -> bool;

    /// What the notebook is.
    spec fn model(&self) -> NotebookView<Self::Tool>;

    /// The chapter that serves types aligned to `t_align`.
    spec fn chapter_of(t_align: nat) -> int;

    /// Whether `outcome` is an answer of the notebook's backing allocator to a request for
    /// a block of the layout `layout`.
    spec fn asked(&self, layout: Layout, outcome: Result<Block, Error>) -> bool;

    /// A valid notebook has a valid model, in which every type has its chapter.
    proof fn lemma_model(&self)
        requires
            self.wf(),
        ensures
            self.model().wf(),
            forall|t_align: nat|
                0 <= #[trigger] Self::chapter_of(t_align) < self.model().chapters.len(),
    ;

    /// Reserves a slot for a `T` and returns its address. The bytes of the slot may hold
    /// anything.
    fn allocate<T>(&mut self) -> (r: Option<usize>)
        requires
            old(self).wf(),
        ensures
            final(self).wf(),
            forall|layout: Layout, outcome: Result<Block, Error>| #[trigger]
                final(self).asked(layout, outcome) == old(self).asked(layout, outcome),
            old(self).model().allocated(
                final(self).model(),
                Self::chapter_of(align_of::<T>()),
                size_in_bytes::<T>(),
                align_in_bytes::<T>(),
                r,
            ),
            r matches Some(p) ==> p as nat % align_of::<T>() == 0,
            old(self).model().needs_page(Self::chapter_of(align_of::<T>()), size_in_bytes::<T>(), align_in_bytes::<T>())
                ==> exists|outcome: Result<Block, Error>| #[trigger]
                old(self).asked(
                    old(self).model().next_page_layout(
                        Self::chapter_of(align_of::<T>()),
                        size_in_bytes::<T>(),
                        align_in_bytes::<T>(),
                    ),
                    outcome,
                ) && old(self).model().answered(
                    final(self).model(),
                    Self::chapter_of(align_of::<T>()),
                    outcome,
                    r,
                ),
    ;

    /// Writes `image`, the bytes of a `T`, to the slot at `slot`, and says whether the
    /// chapter of `T` holds such a slot.
    fn write<T>(&mut self, slot: usize, image: &[u8]) -> (r: bool)
        requires
            old(self).wf(),
            image@.len() == size_of::<T>(),
        ensures
            final(self).wf(),
            forall|layout: Layout, outcome: Result<Block, Error>| #[trigger]
                final(self).asked(layout, outcome) == old(self).asked(layout, outcome),
            r == old(self).model().holds(Self::chapter_of(align_of::<T>()), slot, size_of::<T>()),
            final(self).model() == old(self).model().stored(
                Self::chapter_of(align_of::<T>()),
                slot,
                image@,
            ),
    ;

    /// Writes zero to the bytes of the slot of a `T` at `slot`, and says whether the
    /// chapter of `T` holds such a slot.
    fn zero<T>(&mut self, slot: usize) -> (r: bool)
        requires
            old(self).wf(),
        ensures
            final(self).wf(),
            forall|layout: Layout, outcome: Result<Block, Error>| #[trigger]
                final(self).asked(layout, outcome) == old(self).asked(layout, outcome),
            r == old(self).model().holds(Self::chapter_of(align_of::<T>()), slot, size_of::<T>()),
            final(self).model() == old(self).model().stored(
                Self::chapter_of(align_of::<T>()),
                slot,
                zeros(size_of::<T>()),
            ),
    ;

    /// A copy of the bytes of the slot of a `T` at `slot`, if the chapter of `T` holds
    /// such a slot.
    fn read<T>(&self, slot: usize) -> (r: Option<Vec<u8>>)
        requires
            self.wf(),
        ensures
            match r {
                Some(v) => self.model().slot(
                    Self::chapter_of(align_of::<T>()),
                    slot,
                    size_of::<T>(),
                ) == Some(v@),
                None => self.model().slot(Self::chapter_of(align_of::<T>()), slot, size_of::<T>())
                    is None,
            },
    ;

    /// Reserves a slot for a `T` whose bytes are all zero.
    fn alloc_zero<T>(&mut self) -> (r: Option<usize>)
        requires
            old(self).wf(),
        ensures
            final(self).wf(),
            forall|layout: Layout, outcome: Result<Block, Error>| #[trigger]
                final(self).asked(layout, outcome) == old(self).asked(layout, outcome),
            written_on_placing(
                old(self).model(),
                final(self).model(),
                Self::chapter_of(align_of::<T>()),
                size_in_bytes::<T>(),
                align_in_bytes::<T>(),
                zeros(size_of::<T>()),
                r,
            ),
            r matches Some(p) ==> {
                &&& p as nat % align_of::<T>() == 0
                &&& final(self).model().slot(
                    Self::chapter_of(align_of::<T>()),
                    p,
                    size_of::<T>(),
                ) == Some(zeros(size_of::<T>()))
            },
            old(self).model().needs_page(Self::chapter_of(align_of::<T>()), size_in_bytes::<T>(), align_in_bytes::<T>())
                ==> exists|outcome: Result<Block, Error>| #[trigger]
                old(self).asked(
                    old(self).model().next_page_layout(
                        Self::chapter_of(align_of::<T>()),
                        size_in_bytes::<T>(),
                        align_in_bytes::<T>(),
                    ),
                    outcome,
                ) && (r is Some <==> old(self).model().takes(
                    Self::chapter_of(align_of::<T>()),
                    outcome,
                )),
    {
        layout_for_type_is_valid::<T>();
        proof {
            self.lemma_model();
        }
        match self.allocate::<T>() {
            None => None,
            Some(p) => {
                let ghost placed = self.model();
                proof {
                    lemma_placed_is_held(
                        old(self).model(),
                        placed,
                        Self::chapter_of(align_of::<T>()),
                        size_in_bytes::<T>(),
                        align_in_bytes::<T>(),
                        p,
                    );
                    lemma_stored_is_read(
                        placed,
                        Self::chapter_of(align_of::<T>()),
                        p,
                        zeros(size_of::<T>()),
                    );
                }
                self.zero::<T>(p);
                Some(p)
            },
        }
    }

    /// Reserves a slot for a `T` and writes `image`, the bytes of a `T`, to it.
    fn alloc_init<T>(&mut self, image: &[u8]) -> (r: Option<usize>)
        requires
            old(self).wf(),
            image@.len() == size_of::<T>(),
        ensures
            final(self).wf(),
            forall|layout: Layout, outcome: Result<Block, Error>| #[trigger]
                final(self).asked(layout, outcome) == old(self).asked(layout, outcome),
            written_on_placing(
                old(self).model(),
                final(self).model(),
                Self::chapter_of(align_of::<T>()),
                size_in_bytes::<T>(),
                align_in_bytes::<T>(),
                image@,
                r,
            ),
            r matches Some(p) ==> {
                &&& p as nat % align_of::<T>() == 0
                &&& final(self).model().slot(
                    Self::chapter_of(align_of::<T>()),
                    p,
                    size_of::<T>(),
                ) == Some(image@)
            },
            old(self).model().needs_page(Self::chapter_of(align_of::<T>()), size_in_bytes::<T>(), align_in_bytes::<T>())
                ==> exists|outcome: Result<Block, Error>| #[trigger]
                old(self).asked(
                    old(self).model().next_page_layout(
                        Self::chapter_of(align_of::<T>()),
                        size_in_bytes::<T>(),
                        align_in_bytes::<T>(),
                    ),
                    outcome,
                ) && (r is Some <==> old(self).model().takes(
                    Self::chapter_of(align_of::<T>()),
                    outcome,
                )),
    {
        layout_for_type_is_valid::<T>();
        proof {
            self.lemma_model();
        }
        match self.allocate::<T>() {
            None => None,
            Some(p) => {
                let ghost placed = self.model();
                proof {
                    lemma_placed_is_held(
                        old(self).model(),
                        placed,
                        Self::chapter_of(align_of::<T>()),
                        size_in_bytes::<T>(),
                        align_in_bytes::<T>(),
                        p,
                    );
                    lemma_stored_is_read(placed, Self::chapter_of(align_of::<T>()), p, image@);
                }
                self.write::<T>(p, image);
                Some(p)
            },
        }
    }

    /// Reserves a slot for `t` and binds `t` to it in a handle. Where no slot can be had,
    /// `t` is given up.
    fn new<T>(&mut self, t: T) -> (r: Option<Handle<T>>)
        requires
            old(self).wf(),
        ensures
            final(self).wf(),
            forall|layout: Layout, outcome: Result<Block, Error>| #[trigger]
                final(self).asked(layout, outcome) == old(self).asked(layout, outcome),
            old(self).model().allocated(
                final(self).model(),
                Self::chapter_of(align_of::<T>()),
                size_in_bytes::<T>(),
                align_in_bytes::<T>(),
                match r {
                    Some(h) => Some(h.slot()),
                    None => None,
                },
            ),
            r matches Some(h) ==> h@ == t && h.slot() as nat % align_of::<T>() == 0,
            old(self).model().needs_page(Self::chapter_of(align_of::<T>()), size_in_bytes::<T>(), align_in_bytes::<T>())
                ==> exists|outcome: Result<Block, Error>| #[trigger]
                old(self).asked(
                    old(self).model().next_page_layout(
                        Self::chapter_of(align_of::<T>()),
                        size_in_bytes::<T>(),
                        align_in_bytes::<T>(),
                    ),
                    outcome,
                ) && (r is Some <==> old(self).model().takes(
                    Self::chapter_of(align_of::<T>()),
                    outcome,
                )),
    {
        match self.allocate::<T>() {
            None => None,
            Some(p) => Some(Handle::new(p, t)),
        }
    }

    /// Takes back the slot of a `T` at `slot`, and says whether a page of the chapter of
    /// `T` did.
    fn dealloc<T>(&mut self, slot: usize) -> (r: bool)
        requires
            old(self).wf(),
        ensures
            final(self).wf(),
            forall|layout: Layout, outcome: Result<Block, Error>| #[trigger]
                final(self).asked(layout, outcome) == old(self).asked(layout, outcome),
            old(self).model().deallocated(
                final(self).model(),
                Self::chapter_of(align_of::<T>()),
                slot,
                r,
            ),
    ;
}

/// A notebook seen as one for values of the type `T` alone. The names end in `_t` so as not
/// to clash with those of `Notebook`.
pub trait TypedNotebook<T>: Sized {
    /// The utensil of the pages.
    type Tool: Utensil;

    /// Validity of the notebook.
    spec fn wf_t(&self) -> bool;

    /// What the notebook is.
    spec fn model_t(&self) -> NotebookView<Self::Tool>;

    /// The chapter that serves `T`.
    spec fn chapter_t() -> int;

    /// Whether `outcome` is an answer of the notebook's backing allocator to a request for
    /// a block of the layout `layout`.
    spec fn asked_t(&self, layout: Layout, outcome: Result<Block, Error>) -> bool;

    /// A valid notebook has a valid model, in which `T` has its chapter.
    proof fn lemma_model_t(&self)
        requires
            self.wf_t(),
        ensures
            self.model_t().wf(),
            0 <= Self::chapter_t() < self.model_t().chapters.len(),
    ;

    /// Reserves a slot for a `T` and returns its address. The bytes of the slot may hold
    /// anything.
    fn alloc_t(&mut self) -> (r: Option<usize>)
        requires
            old(self).wf_t(),
        ensures
            final(self).wf_t(),
            forall|layout: Layout, outcome: Result<Block, Error>| #[trigger]
                final(self).asked_t(layout, outcome) == old(self).asked_t(layout, outcome),
            old(self).model_t().allocated(
                final(self).model_t(),
                Self::chapter_t(),
                size_in_bytes::<T>(),
                align_in_bytes::<T>(),
                r,
            ),
            r matches Some(p) ==> p as nat % align_of::<T>() == 0,
            old(self).model_t().needs_page(Self::chapter_t(), size_in_bytes::<T>(), align_in_bytes::<T>())
                ==> exists|outcome: Result<Block, Error>| #[trigger]
                old(self).asked_t(
                    old(self).model_t().next_page_layout(
                        Self::chapter_t(),
                        size_in_bytes::<T>(),
                        align_in_bytes::<T>(),
                    ),
                    outcome,
                ) && old(self).model_t().answered(
                    final(self).model_t(),
                    Self::chapter_t(),
                    outcome,
                    r,
                ),
    ;

    /// Writes `image`, the bytes of a `T`, to the slot at `slot`, and says whether the
    /// chapter of `T` holds such a slot.
    fn write_t(&mut self, slot: usize, image: &[u8]) -> (r: bool)
        requires
            old(self).wf_t(),
            image@.len() == size_of::<T>(),
        ensures
            final(self).wf_t(),
            forall|layout: Layout, outcome: Result<Block, Error>| #[trigger]
                final(self).asked_t(layout, outcome) == old(self).asked_t(layout, outcome),
            r == old(self).model_t().holds(Self::chapter_t(), slot, size_of::<T>()),
            final(self).model_t() == old(self).model_t().stored(Self::chapter_t(), slot, image@),
    ;

    /// Writes zero to the bytes of the slot at `slot`, and says whether the chapter of `T`
    /// holds such a slot.
    fn zero_t(&mut self, slot: usize) -> (r: bool)
        requires
            old(self).wf_t(),
        ensures
            final(self).wf_t(),
            forall|layout: Layout, outcome: Result<Block, Error>| #[trigger]
                final(self).asked_t(layout, outcome) == old(self).asked_t(layout, outcome),
            r == old(self).model_t().holds(Self::chapter_t(), slot, size_of::<T>()),
            final(self).model_t() == old(self).model_t().stored(
                Self::chapter_t(),
                slot,
                zeros(size_of::<T>()),
            ),
    ;

    /// A copy of the bytes of the slot at `slot`, if the chapter of `T` holds such a slot.
    fn read_t(&self, slot: usize) -> (r: Option<Vec<u8>>)
        requires
            self.wf_t(),
        ensures
            match r {
                Some(v) => self.model_t().slot(Self::chapter_t(), slot, size_of::<T>()) == Some(
                    v@,
                ),
                None => self.model_t().slot(Self::chapter_t(), slot, size_of::<T>()) is None,
            },
    ;

    /// Reserves a slot for a `T` whose bytes are all zero.
    fn alloc_zero_t(&mut self) -> (r: Option<usize>)
        requires
            old(self).wf_t(),
        ensures
            final(self).wf_t(),
            forall|layout: Layout, outcome: Result<Block, Error>| #[trigger]
                final(self).asked_t(layout, outcome) == old(self).asked_t(layout, outcome),
            written_on_placing(
                old(self).model_t(),
                final(self).model_t(),
                Self::chapter_t(),
                size_in_bytes::<T>(),
                align_in_bytes::<T>(),
                zeros(size_of::<T>()),
                r,
            ),
            r matches Some(p) ==> {
                &&& p as nat % align_of::<T>() == 0
                &&& final(self).model_t().slot(Self::chapter_t(), p, size_of::<T>()) == Some(
                    zeros(size_of::<T>()),
                )
            },
            old(self).model_t().needs_page(Self::chapter_t(), size_in_bytes::<T>(), align_in_bytes::<T>())
                ==> exists|outcome: Result<Block, Error>| #[trigger]
                old(self).asked_t(
                    old(self).model_t().next_page_layout(
                        Self::chapter_t(),
                        size_in_bytes::<T>(),
                        align_in_bytes::<T>(),
                    ),
                    outcome,
                ) && (r is Some <==> old(self).model_t().takes(Self::chapter_t(), outcome)),
    {
        layout_for_type_is_valid::<T>();
        proof {
            self.lemma_model_t();
        }
        match self.alloc_t() {
            None => None,
            Some(p) => {
                let ghost placed = self.model_t();
                proof {
                    lemma_placed_is_held(
                        old(self).model_t(),
                        placed,
                        Self::chapter_t(),
                        size_in_bytes::<T>(),
                        align_in_bytes::<T>(),
                        p,
                    );
                    lemma_stored_is_read(placed, Self::chapter_t(), p, zeros(size_of::<T>()));
                }
                self.zero_t(p);
                Some(p)
            },
        }
    }

    /// Reserves a slot for a `T` and writes `image`, the bytes of a `T`, to it.
    fn alloc_init_t(&mut self, image: &[u8]) -> (r: Option<usize>)
        requires
            old(self).wf_t(),
            image@.len() == size_of::<T>(),
        ensures
            final(self).wf_t(),
            forall|layout: Layout, outcome: Result<Block, Error>| #[trigger]
                final(self).asked_t(layout, outcome) == old(self).asked_t(layout, outcome),
            written_on_placing(
                old(self).model_t(),
                final(self).model_t(),
                Self::chapter_t(),
                size_in_bytes::<T>(),
                align_in_bytes::<T>(),
                image@,
                r,
            ),
            r matches Some(p) ==> {
                &&& p as nat % align_of::<T>() == 0
                &&& final(self).model_t().slot(Self::chapter_t(), p, size_of::<T>()) == Some(
                    image@,
                )
            },
            old(self).model_t().needs_page(Self::chapter_t(), size_in_bytes::<T>(), align_in_bytes::<T>())
                ==> exists|outcome: Result<Block, Error>| #[trigger]
                old(self).asked_t(
                    old(self).model_t().next_page_layout(
                        Self::chapter_t(),
                        size_in_bytes::<T>(),
                        align_in_bytes::<T>(),
                    ),
                    outcome,
                ) && (r is Some <==> old(self).model_t().takes(Self::chapter_t(), outcome)),
    {
        layout_for_type_is_valid::<T>();
        proof {
            self.lemma_model_t();
        }
        match self.alloc_t() {
            None => None,
            Some(p) => {
                let ghost placed = self.model_t();
                proof {
                    lemma_placed_is_held(
                        old(self).model_t(),
                        placed,
                        Self::chapter_t(),
                        size_in_bytes::<T>(),
                        align_in_bytes::<T>(),
                        p,
                    );
                    lemma_stored_is_read(placed, Self::chapter_t(), p, image@);
                }
                self.write_t(p, image);
                Some(p)
            },
        }
    }

    /// Reserves a slot for `t` and binds `t` to it in a handle. Where no slot can be had,
    /// `t` is given up.
    fn new_t(&mut self, t: T) -> (r: Option<Handle<T>>)
        requires
            old(self).wf_t(),
        ensures
            final(self).wf_t(),
            forall|layout: Layout, outcome: Result<Block, Error>| #[trigger]
                final(self).asked_t(layout, outcome) == old(self).asked_t(layout, outcome),
            old(self).model_t().allocated(
                final(self).model_t(),
                Self::chapter_t(),
                size_in_bytes::<T>(),
                align_in_bytes::<T>(),
                match r {
                    Some(h) => Some(h.slot()),
                    None => None,
                },
            ),
            r matches Some(h) ==> h@ == t && h.slot() as nat % align_of::<T>() == 0,
            old(self).model_t().needs_page(Self::chapter_t(), size_in_bytes::<T>(), align_in_bytes::<T>())
                ==> exists|outcome: Result<Block, Error>| #[trigger]
                old(self).asked_t(
                    old(self).model_t().next_page_layout(
                        Self::chapter_t(),
                        size_in_bytes::<T>(),
                        align_in_bytes::<T>(),
                    ),
                    outcome,
                ) && (r is Some <==> old(self).model_t().takes(Self::chapter_t(), outcome)),
    {
        match self.alloc_t() {
            None => None,
            Some(p) => Some(Handle::new(p, t)),
        }
    }

    /// Takes back the slot at `slot`, and says whether a page of the chapter of `T` did.
    fn dealloc_t(&mut self, slot: usize) -> (r: bool)
        requires
            old(self).wf_t(),
        ensures
            final(self).wf_t(),
            forall|layout: Layout, outcome: Result<Block, Error>| #[trigger]
                final(self).asked_t(layout, outcome) == old(self).asked_t(layout, outcome),
            old(self).model_t().deallocated(final(self).model_t(), Self::chapter_t(), slot, r),
    ;
}

/// A notebook for values of any type is one for values of the type `T`.
impl<N: Notebook, T> TypedNotebook<T> for N {
    type Tool = <N as Notebook>::Tool;

    open spec fn wf_t(&self) -> bool {
        self.wf()
    }

    open spec fn model_t(&self) -> NotebookView<<N as Notebook>::Tool> {
        self.model()
    }

    open spec fn chapter_t() -> int {
        N::chapter_of(align_of::<T>())
    }

    open spec fn asked_t(&self, layout: Layout, outcome: Result<Block, Error>) -> bool {
        self.asked(layout, outcome)
    }

    proof fn lemma_model_t(&self) {
        self.lemma_model();
    }

    fn alloc_t(&mut self) -> (r: Option<usize>) {
        let r = self.allocate::<T>();
        proof {
            let ch = N::chapter_of(align_of::<T>());
            let before = old(self).model();
            if before.needs_page(ch, size_in_bytes::<T>(), align_in_bytes::<T>()) {
                let layout = before.next_page_layout(
                    ch,
                    size_in_bytes::<T>(),
                    align_in_bytes::<T>(),
                );
                let outcome = choose|outcome: Result<Block, Error>| #[trigger]
                    old(self).asked(layout, outcome) && before.answered(
                        self.model(),
                        ch,
                        outcome,
                        r,
                    );
                assert(<N as TypedNotebook<T>>::asked_t(old(self), layout, outcome));
            }
        }
        r
    }

    fn write_t(&mut self, slot: usize, image: &[u8]) -> (r: bool) {
        self.write::<T>(slot, image)
    }

    fn zero_t(&mut self, slot: usize) -> (r: bool) {
        self.zero::<T>(slot)
    }

    fn read_t(&self, slot: usize) -> (r: Option<Vec<u8>>) {
        self.read::<T>(slot)
    }

    fn alloc_zero_t(&mut self) -> (r: Option<usize>) {
        let r = self.alloc_zero::<T>();
        proof {
            let ch = N::chapter_of(align_of::<T>());
            let before = old(self).model();
            if before.needs_page(ch, size_in_bytes::<T>(), align_in_bytes::<T>()) {
                let layout = before.next_page_layout(
                    ch,
                    size_in_bytes::<T>(),
                    align_in_bytes::<T>(),
                );
                let outcome = choose|outcome: Result<Block, Error>| #[trigger]
                    old(self).asked(layout, outcome) && (r is Some <==> before.takes(ch, outcome));
                assert(<N as TypedNotebook<T>>::asked_t(old(self), layout, outcome));
            }
        }
        r
    }

    fn alloc_init_t(&mut self, image: &[u8]) -> (r: Option<usize>) {
        let r = self.alloc_init::<T>(image);
        proof {
            let ch = N::chapter_of(align_of::<T>());
            let before = old(self).model();
            if before.needs_page(ch, size_in_bytes::<T>(), align_in_bytes::<T>()) {
                let layout = before.next_page_layout(
                    ch,
                    size_in_bytes::<T>(),
                    align_in_bytes::<T>(),
                );
                let outcome = choose|outcome: Result<Block, Error>| #[trigger]
                    old(self).asked(layout, outcome) && (r is Some <==> before.takes(ch, outcome));
                assert(<N as TypedNotebook<T>>::asked_t(old(self), layout, outcome));
            }
        }
        r
    }

    fn new_t(&mut self, t: T) -> (r: Option<Handle<T>>) {
        let r = self.new::<T>(t);
        proof {
            let ch = N::chapter_of(align_of::<T>());
            let before = old(self).model();
            if before.needs_page(ch, size_in_bytes::<T>(), align_in_bytes::<T>()) {
                let layout = before.next_page_layout(
                    ch,
                    size_in_bytes::<T>(),
                    align_in_bytes::<T>(),
                );
                let outcome = choose|outcome: Result<Block, Error>| #[trigger]
                    old(self).asked(layout, outcome) && (r is Some <==> before.takes(ch, outcome));
                assert(<N as TypedNotebook<T>>::asked_t(old(self), layout, outcome));
            }
        }
        r
    }

    fn dealloc_t(&mut self, slot: usize) -> (r: bool) {
        self.dealloc::<T>(slot)
    }
}

} // verus!
