//! Bindings: the chapters of a notebook, with the strategies that size their pages.

use vstd::prelude::*;
use crate::allocator::BookcaseAllocator;
use crate::block::{zeros, Block};
use crate::error::Error;
use crate::layout::Layout;
use crate::chapter::{
    allocated, answered, block_apart, deallocated, first_holding, page_needed, pages_wf, same_places,
    slot_bytes, stored, Chapter,
};
use crate::page::{Page, PageView, Utensil};
use crate::strategy::{checked_page_size, page_size, GrowthStrategy, SizeStrategy};

verus! {

broadcast use Chapter::lemma_wf;

/// What a notebook is: its strategies and, chapter by chapter, its pages.
pub struct NotebookView<U> {
    pub size: SizeStrategy,
    pub growth: GrowthStrategy,
    pub chapters: Seq<Seq<PageView<U>>>,
}

impl<U: Utensil> NotebookView<U> {
    /// Validity: every page of every chapter is valid, and the buffers of all pages lie
    /// apart.
    pub open spec fn wf(&self) -> bool {
        &&& forall|i: int| 0 <= i < self.chapters.len() ==> pages_wf(#[trigger] self.chapters[i])
        &&& self.chapters_apart()
    }

    /// Whether the buffers of the pages of different chapters lie apart.
    pub open spec fn chapters_apart(&self) -> bool {
        forall|c: int, d: int, i: int, j: int|
            #![trigger self.chapters[c][i], self.chapters[d][j]]
            0 <= c < self.chapters.len() && 0 <= d < self.chapters.len() && c != d && 0 <= i
                < self.chapters[c].len() && 0 <= j < self.chapters[d].len()
                ==> self.chapters[c][i].apart(self.chapters[d][j])
    }

    /// Whether the `len` bytes at `addr` lie apart from the buffers of all pages of the
    /// chapters other than `ch`.
    pub open spec fn apart_elsewhere(&self, ch: int, addr: usize, len: nat) -> bool {
        forall|c: int|
            0 <= c < self.chapters.len() && c != ch ==> block_apart(
                #[trigger] self.chapters[c],
                addr,
                len,
            )
    }

    /// Whether `outcome`, the answer of the backing allocator when it was asked for a new
    /// page of chapter `ch`, is taken as a page: the allocator gave a block, and the block
    /// lies apart from the buffers of all pages of the notebook.
    pub open spec fn takes(&self, ch: int, outcome: Result<Block, Error>) -> bool {
        &&& outcome matches Ok(block)
        &&& block_apart(self.chapters[ch], outcome->Ok_0.addr(), outcome->Ok_0@.len())
        &&& self.apart_elsewhere(ch, outcome->Ok_0.addr(), outcome->Ok_0@.len())
    }

    /// Whether the result `r` of placing in chapter `ch`, with the notebook `after`, is
    /// what follows from `outcome`, the answer of the backing allocator when it was asked
    /// for a new page: something is placed exactly if the answer is taken, and the block
    /// given is then the buffer of the last page of the chapter.
    pub open spec fn answered(
        &self,
        after: NotebookView<U>,
        ch: int,
        outcome: Result<Block, Error>,
        r: Option<usize>,
    ) -> bool {
        &&& r is Some <==> self.takes(ch, outcome)
        &&& r is Some ==> {
            &&& after.chapters[ch].len() > 0
            &&& after.chapters[ch].last().base == outcome->Ok_0.addr()
            &&& after.chapters[ch].last().bytes == outcome->Ok_0@
        }
    }

    /// The notebook with the pages `pages` as chapter `ch`.
    pub open spec fn with_chapter(&self, ch: int, pages: Seq<PageView<U>>) -> NotebookView<U> {
        NotebookView { chapters: self.chapters.update(ch, pages), ..*self }
    }

    /// The size of the next page of chapter `ch`, for a type of `t_size` bytes aligned to
    /// `t_align`.
    pub open spec fn next_page_size(&self, ch: int, t_size: usize, t_align: usize) -> nat {
        page_size(
            self.size,
            self.growth,
            t_size as nat,
            t_align as nat,
            self.chapters[ch].len(),
        )
    }

    /// What placing `t_size` bytes aligned to `t_align` in chapter `ch` makes of the
    /// notebook: `after` and the result `r`. Only chapter `ch` changes, as placing changes
    /// a chapter whose next page has the size that the strategies give; and a new page
    /// lies apart from the pages of the other chapters.
    pub open spec fn allocated(
        &self,
        after: NotebookView<U>,
        ch: int,
        t_size: usize,
        t_align: usize,
        r: Option<usize>,
    ) -> bool {
        &&& 0 <= ch < self.chapters.len()
        &&& after == self.with_chapter(ch, after.chapters[ch])
        &&& allocated(
            self.chapters[ch],
            after.chapters[ch],
            t_size,
            t_align,
            self.next_page_size(ch, t_size, t_align),
            r,
        )
        &&& after.chapters[ch].len() > self.chapters[ch].len() ==> self.apart_elsewhere(
            ch,
            after.chapters[ch].last().base,
            after.chapters[ch].last().bytes.len(),
        )
    }

    /// Whether placing `t_size` bytes aligned to `t_align` in chapter `ch` asks the backing
    /// allocator for a page: no page of the chapter has room, and the next page could hold
    /// the bytes and can be asked for.
    pub open spec fn needs_page(&self, ch: int, t_size: usize, t_align: usize) -> bool {
        page_needed(
            self.chapters[ch],
            t_size,
            t_align,
            self.next_page_size(ch, t_size, t_align),
        )
    }

    /// The layout of the next page of chapter `ch`, for a type of `t_size` bytes aligned
    /// to `t_align`.
    pub open spec fn next_page_layout(&self, ch: int, t_size: usize, t_align: usize) -> Layout {
        Layout::of(self.next_page_size(ch, t_size, t_align) as usize, t_align)
    }

    /// What taking back `ptr` in chapter `ch` makes of the notebook.
    pub open spec fn deallocated(&self, after: NotebookView<U>, ch: int, ptr: usize, r: bool)
        -> bool {
        &&& 0 <= ch < self.chapters.len()
        &&& after == self.with_chapter(ch, after.chapters[ch])
        &&& deallocated(self.chapters[ch], after.chapters[ch], ptr, r)
    }

    /// Whether a page of chapter `ch` holds the `len` bytes at `addr`.
    pub open spec fn holds(&self, ch: int, addr: usize, len: nat) -> bool {
        first_holding(self.chapters[ch], addr, len) is Some
    }

    /// The `len` bytes at `addr` in chapter `ch`, if a page holds them.
    pub open spec fn slot(&self, ch: int, addr: usize, len: nat) -> Option<Seq<u8>> {
        slot_bytes(self.chapters[ch], addr, len)
    }

    /// The notebook with `image` written at `addr` in chapter `ch`; the notebook itself if
    /// no page holds those bytes.
    pub open spec fn stored(&self, ch: int, addr: usize, image: Seq<u8>) -> NotebookView<U> {
        self.with_chapter(ch, stored(self.chapters[ch], addr, image))
    }

    /// The notebook without its pages.
    pub open spec fn emptied(&self) -> NotebookView<U> {
        NotebookView {
            chapters: Seq::new(self.chapters.len(), |i: int| Seq::<PageView<U>>::empty()),
            ..*self
        }
    }

}

/// A chapter whose pages stay where they are leaves the pages of the notebook apart.
pub proof fn lemma_same_places_apart<U: Utensil>(
    book: NotebookView<U>,
    ch: int,
    pages: Seq<PageView<U>>,
)
    requires
        0 <= ch < book.chapters.len(),
        book.chapters_apart(),
        same_places(book.chapters[ch], pages),
    ensures
        book.with_chapter(ch, pages).chapters_apart(),
{
    let after = book.with_chapter(ch, pages);
    assert forall|c: int, d: int, i: int, j: int|
        #![trigger after.chapters[c][i], after.chapters[d][j]]
        0 <= c < after.chapters.len() && 0 <= d < after.chapters.len() && c != d && 0 <= i
            < after.chapters[c].len() && 0 <= j < after.chapters[d].len() implies after.chapters[c][i].apart(
        after.chapters[d][j],
    ) by {
        assert(book.chapters[c][i].apart(book.chapters[d][j]));
    }
}

/// A chapter that gets one more page, which lies apart from the pages of the other
/// chapters, leaves the pages of the notebook apart.
pub proof fn lemma_new_page_apart<U: Utensil>(
    book: NotebookView<U>,
    ch: int,
    pages: Seq<PageView<U>>,
)
    requires
        0 <= ch < book.chapters.len(),
        book.chapters_apart(),
        pages.len() == book.chapters[ch].len() + 1,
        same_places(book.chapters[ch], pages.drop_last()),
        book.apart_elsewhere(ch, pages.last().base, pages.last().bytes.len()),
    ensures
        book.with_chapter(ch, pages).chapters_apart(),
{
    let after = book.with_chapter(ch, pages);
    let last = pages.len() - 1;
    assert forall|c: int, d: int, i: int, j: int|
        #![trigger after.chapters[c][i], after.chapters[d][j]]
        0 <= c < after.chapters.len() && 0 <= d < after.chapters.len() && c != d && 0 <= i
            < after.chapters[c].len() && 0 <= j < after.chapters[d].len() implies after.chapters[c][i].apart(
        after.chapters[d][j],
    ) by {
        if c == ch && i == last {
            assert(block_apart(book.chapters[d], pages.last().base, pages.last().bytes.len()));
            assert(after.chapters[d][j] == book.chapters[d][j]);
        } else if d == ch && j == last {
            assert(block_apart(book.chapters[c], pages.last().base, pages.last().bytes.len()));
            assert(after.chapters[c][i] == book.chapters[c][i]);
        } else {
            if c == ch {
                assert(pages.drop_last()[i] == pages[i]);
            }
            if d == ch {
                assert(pages.drop_last()[j] == pages[j]);
            }
            assert(book.chapters[c][i].apart(book.chapters[d][j]));
        }
    }
}

/// Placing keeps the notebook valid.
pub proof fn lemma_allocated_wf<U: Utensil>(
    before: NotebookView<U>,
    after: NotebookView<U>,
    ch: int,
    t_size: usize,
    t_align: usize,
    r: Option<usize>,
)
    requires
        before.wf(),
        before.allocated(after, ch, t_size, t_align, r),
    ensures
        after.wf(),
        after.chapters.len() == before.chapters.len(),
{
    let pages = before.chapters[ch];
    let grown = after.chapters[ch];
    assert(pages_wf(pages));
    crate::chapter::lemma_allocated_within(
        pages,
        grown,
        t_size,
        t_align,
        before.next_page_size(ch, t_size, t_align),
        r,
    );
    crate::chapter::lemma_last_with_room(pages, t_size, t_align);
    assert forall|i: int| 0 <= i < after.chapters.len() implies pages_wf(
        #[trigger] after.chapters[i],
    ) by {
        if i != ch {
            assert(after.chapters[i] == before.chapters[i]);
        }
    }
    if grown.len() > pages.len() {
        assert(grown.drop_last() == pages);
        lemma_new_page_apart(before, ch, grown);
    } else {
        assert forall|i: int| 0 <= i < pages.len() implies (#[trigger] grown[i]).base
            == pages[i].base && grown[i].bytes.len() == pages[i].bytes.len() by {}
        lemma_same_places_apart(before, ch, grown);
    }
    assert(after.chapters =~= before.with_chapter(ch, grown).chapters);
}

/// The chapters of a notebook, with the strategies that size their pages.
pub struct Binding<U> {
    size: SizeStrategy,
    growth: GrowthStrategy,
    chapters: Vec<Chapter<U>>,
}

impl<U> View for Binding<U> {
    type V = NotebookView<U>;

    closed spec fn view(&self) -> NotebookView<U> {
        NotebookView {
            size: self.size,
            growth: self.growth,
            chapters: self.chapters@.map_values(|c: Chapter<U>| c@),
        }
    }
}

impl<U: Utensil> Binding<U> {
    /// Validity of the binding.
    pub closed spec fn wf(&self) -> bool {
        &&& forall|i: int| 0 <= i < self.chapters@.len() ==> (#[trigger] self.chapters@[i]).wf()
        &&& self@.chapters_apart()
    }

    /// The pages themselves of chapter `ch`, oldest first.
    pub closed spec fn sheets(&self, ch: int) -> Seq<Page<U>> {
        self.chapters@[ch].sheets()
    }

    /// A valid binding has a valid view.
    pub broadcast proof fn lemma_wf(&self)
        requires
            #[trigger] self.wf(),
        ensures
            self@.wf(),
    {
        assert forall|i: int| 0 <= i < self@.chapters.len() implies pages_wf(
            #[trigger] self@.chapters[i],
        ) by {
            assert(self.chapters@[i].wf());
        }
    }

    /// A binding of `count` chapters without pages.
    pub fn new(size: SizeStrategy, growth: GrowthStrategy, count: usize) -> (b: Binding<U>)
        ensures
            b.wf(),
            b@.size == size,
            b@.growth == growth,
            b@.chapters == Seq::new(count as nat, |i: int| Seq::<PageView<U>>::empty()),
    {
        let mut chapters: Vec<Chapter<U>> = Vec::new();
        let mut i: usize = 0;
        while i < count
            invariant
                i <= count,
                chapters@.len() == i,
                forall|j: int| 0 <= j < i ==> (#[trigger] chapters@[j]).wf(),
                forall|j: int| 0 <= j < i ==> (#[trigger] chapters@[j])@ == Seq::<
                    PageView<U>,
                >::empty(),
            decreases count - i,
        {
            chapters.push(Chapter::new());
            i = i + 1;
        }
        let b = Binding { size, growth, chapters };
        assert(b@.chapters =~= Seq::new(count as nat, |i: int| Seq::<PageView<U>>::empty()));
        assert(b@.chapters_apart());
        b
    }

    /// The number of chapters.
    pub fn chapter_count(&self) -> (n: usize)
        ensures
            n == self@.chapters.len(),
    {
        self.chapters.len()
    }

    /// The number of pages of chapter `ch`.
    pub fn page_count(&self, ch: usize) -> (n: usize)
        requires
            ch < self@.chapters.len(),
        ensures
            n == self@.chapters[ch as int].len(),
    {
        self.chapters[ch].pages().len()
    }

    /// Tests whether the buffer of `page` lies apart from the buffers of all pages of the
    /// chapters other than `ch`.
    fn apart_elsewhere(&self, ch: usize, page: &Page<U>) -> (b: bool)
        requires
            forall|i: int| 0 <= i < self.chapters@.len() ==> (#[trigger] self.chapters@[i]).wf(),
            page.wf(),
        ensures
            b == self@.apart_elsewhere(ch as int, page@.base, page@.bytes.len()),
    {
        let n = self.chapters.len();
        let mut c: usize = 0;
        while c < n
            invariant
                forall|i: int| 0 <= i < self.chapters@.len() ==> (#[trigger] self.chapters@[i]).wf(),
                page.wf(),
                c <= n,
                n == self@.chapters.len(),
                self.chapters@.len() == n,
                forall|d: int|
                    0 <= d < c && d != ch ==> block_apart(
                        #[trigger] self@.chapters[d],
                        page@.base,
                        page@.bytes.len(),
                    ),
            decreases n - c,
        {
            assert(self@.chapters[c as int] == self.chapters@[c as int]@);
            if c != ch && !self.chapters[c].lies_apart(page) {
                return false;
            }
            c = c + 1;
        }
        true
    }

    /// Places `t_size` bytes aligned to `t_align` in chapter `ch`. A new page, where one is
    /// needed, has the size that the strategies give for the number of pages of the
    /// chapter. A new page whose buffer does not lie apart from the pages of the other
    /// chapters is handed back, and nothing is placed.
    pub fn place<A: BookcaseAllocator>(
        &mut self,
        allocator: &A,
        ch: usize,
        t_size: usize,
        t_align: usize,
    ) -> (r: Option<usize>)
        requires
            old(self).wf(),
            ch < old(self)@.chapters.len(),
        ensures
            final(self).wf(),
            old(self)@.allocated(final(self)@, ch as int, t_size, t_align, r),
            old(self)@.needs_page(ch as int, t_size, t_align) ==> exists|
                outcome: Result<Block, Error>,
            | #[trigger]
                call_ensures(
                    A::allocate,
                    (allocator, old(self)@.next_page_layout(ch as int, t_size, t_align)),
                    outcome,
                ) && old(self)@.answered(final(self)@, ch as int, outcome, r),
    {
        let page_idx = self.chapters[ch].pages().len();
        // A size beyond the machine word stands for no page at all, as the largest word does.
        let page_bytes = match checked_page_size(self.size, self.growth, t_size, t_align, page_idx)
        {
            Some(bytes) => bytes,
            None => usize::MAX,
        };
        let placed = self.chapters[ch].allocate(allocator, t_size, t_align, page_bytes);
        let ghost grown = self@.chapters[ch as int];
        let ghost pages = old(self)@.chapters[ch as int];
        let ghost outcome = choose|outcome: Result<Block, Error>| #[trigger]
            call_ensures(
                A::allocate,
                (allocator, old(self)@.next_page_layout(ch as int, t_size, t_align)),
                outcome,
            ) && answered(pages, grown, outcome, placed);
        proof {
            assert(self@.chapters =~= old(self)@.chapters.update(ch as int, grown));
            if t_align > 0 {
                assert(isize::MAX as int % t_align as int >= 0) by (nonlinear_arith)
                    requires
                        t_align > 0,
                ;
            } else {
                reveal(vstd::arithmetic::power2::is_pow2);
            }
            crate::chapter::lemma_last_with_room(pages, t_size, t_align);
            assert(pages_wf(pages));
            crate::chapter::lemma_allocated_within(
                pages,
                grown,
                t_size,
                t_align,
                old(self)@.next_page_size(ch as int, t_size, t_align),
                placed,
            );
        }
        if self.chapters[ch].pages().len() > page_idx {
            let apart = self.apart_elsewhere(ch, &self.chapters[ch].pages()[page_idx]);
            if !apart {
                self.chapters[ch].close_last(allocator);
                proof {
                    assert(grown.drop_last() == pages);
                    assert(self@.chapters =~= old(self)@.chapters);
                    assert(self@ == old(self)@);
                    assert(old(self)@.chapters.update(ch as int, pages) =~= old(self)@.chapters);
                    assert(crate::chapter::last_with_room(pages, t_size, t_align) is None);
                    assert(!old(self)@.takes(ch as int, outcome));
                }
                return None;
            }
            proof {
                assert(old(self)@.apart_elsewhere(
                    ch as int,
                    grown.last().base,
                    grown.last().bytes.len(),
                )) by {
                    assert forall|c: int|
                        0 <= c < old(self)@.chapters.len() && c != ch implies block_apart(
                        #[trigger] old(self)@.chapters[c],
                        grown.last().base,
                        grown.last().bytes.len(),
                    ) by {
                        assert(self@.chapters[c] == old(self)@.chapters[c]);
                    }
                }
                lemma_new_page_apart(old(self)@, ch as int, grown);
            }
        } else {
            proof {
                lemma_same_places_apart(old(self)@, ch as int, grown);
            }
        }
        proof {
            assert(self@.chapters_apart());
        }
        placed
    }

    /// Takes back what lies at `ptr` in chapter `ch`, and says whether a page did.
    pub fn dealloc(&mut self, ch: usize, ptr: usize) -> (r: bool)
        requires
            old(self).wf(),
            ch < old(self)@.chapters.len(),
        ensures
            final(self).wf(),
            old(self)@.deallocated(final(self)@, ch as int, ptr, r),
    {
        let r = self.chapters[ch].dealloc(ptr);
        assert(self@.chapters =~= old(self)@.chapters.update(ch as int, self@.chapters[ch as int]));
        proof {
            assert(pages_wf(old(self)@.chapters[ch as int]));
            crate::chapter::lemma_deallocated_wf(
                old(self)@.chapters[ch as int],
                self@.chapters[ch as int],
                ptr,
                r,
            );
            lemma_same_places_apart(old(self)@, ch as int, self@.chapters[ch as int]);
        }
        r
    }

    /// Writes `image` at `addr` in chapter `ch`, and says whether a page holds those bytes.
    pub fn store(&mut self, ch: usize, addr: usize, image: &[u8]) -> (r: bool)
        requires
            old(self).wf(),
            ch < old(self)@.chapters.len(),
        ensures
            final(self).wf(),
            r == old(self)@.holds(ch as int, addr, image@.len()),
            final(self)@ == old(self)@.stored(ch as int, addr, image@),
    {
        let r = self.chapters[ch].store(addr, image);
        assert(self@.chapters =~= old(self)@.stored(ch as int, addr, image@).chapters);
        proof {
            assert(pages_wf(old(self)@.chapters[ch as int]));
            crate::chapter::lemma_stored_pages_wf(old(self)@.chapters[ch as int], addr, image@);
            lemma_same_places_apart(old(self)@, ch as int, self@.chapters[ch as int]);
        }
        r
    }

    /// Writes zero to the `len` bytes at `addr` in chapter `ch`, and says whether a page
    /// holds those bytes.
    pub fn zero(&mut self, ch: usize, addr: usize, len: usize) -> (r: bool)
        requires
            old(self).wf(),
            ch < old(self)@.chapters.len(),
        ensures
            final(self).wf(),
            r == old(self)@.holds(ch as int, addr, len as nat),
            final(self)@ == old(self)@.stored(ch as int, addr, zeros(len as nat)),
    {
        let r = self.chapters[ch].zero(addr, len);
        assert(self@.chapters =~= old(self)@.stored(ch as int, addr, zeros(len as nat)).chapters);
        proof {
            assert(pages_wf(old(self)@.chapters[ch as int]));
            crate::chapter::lemma_stored_pages_wf(
                old(self)@.chapters[ch as int],
                addr,
                zeros(len as nat),
            );
            lemma_same_places_apart(old(self)@, ch as int, self@.chapters[ch as int]);
        }
        r
    }

    /// A copy of the `len` bytes at `addr` in chapter `ch`, if a page holds them.
    pub fn load(&self, ch: usize, addr: usize, len: usize) -> (r: Option<Vec<u8>>)
        requires
            self.wf(),
            ch < self@.chapters.len(),
        ensures
            match r {
                Some(v) => self@.slot(ch as int, addr, len as nat) == Some(v@),
                None => self@.slot(ch as int, addr, len as nat) is None,
            },
    {
        self.chapters[ch].load(addr, len)
    }

    /// Hands the buffer of each page back to `allocator`. The chapters are left without
    /// pages.
    pub fn destroy<A: BookcaseAllocator>(&mut self, allocator: &A)
        requires
            old(self).wf(),
        ensures
            final(self).wf(),
            final(self)@ == old(self)@.emptied(),
            forall|ch: int, i: int|
                0 <= ch < old(self)@.chapters.len() && 0 <= i < old(self).sheets(ch).len() ==> (
                #[trigger] old(self).sheets(ch)[i]).handed_back(allocator),
    {
        let n = self.chapters.len();
        let mut i: usize = 0;
        while i < n
            invariant
                i <= n,
                n == self.chapters@.len(),
                n == old(self).chapters@.len(),
                self.wf(),
                self.size == old(self).size,
                self.growth == old(self).growth,
                forall|j: int| 0 <= j < i ==> (#[trigger] self.chapters@[j])@ == Seq::<
                    PageView<U>,
                >::empty(),
                forall|j: int| i <= j < n ==> #[trigger] self.chapters@[j] == old(self).chapters@[j],
                forall|ch: int, k: int|
                    0 <= ch < i && 0 <= k < old(self).sheets(ch).len() ==> (
                    #[trigger] old(self).sheets(ch)[k]).handed_back(allocator),
            decreases n - i,
        {
            let ghost before = self@;
            self.chapters[i].destroy(allocator);
            proof {
                assert(self@.chapters =~= before.chapters.update(i as int, self@.chapters[i as int]));
                assert forall|c: int, d: int, k: int, j: int|
                    #![trigger self@.chapters[c][k], self@.chapters[d][j]]
                    0 <= c < self@.chapters.len() && 0 <= d < self@.chapters.len() && c != d && 0
                        <= k < self@.chapters[c].len() && 0 <= j < self@.chapters[d].len() implies self@.chapters[c][k].apart(
                    self@.chapters[d][j],
                ) by {
                    assert(before.chapters[c][k].apart(before.chapters[d][j]));
                }
            }
            i = i + 1;
        }
        assert(self@.chapters =~= old(self)@.emptied().chapters);
    }

    /// A copy of the bytes of each page of chapter `ch`.
    pub fn clone_chapter(&self, ch: usize) -> (v: Vec<Vec<u8>>)
        requires
            self.wf(),
            ch < self@.chapters.len(),
        ensures
            v@.len() == self@.chapters[ch as int].len(),
            forall|j: int|
                0 <= j < v@.len() ==> (#[trigger] v@[j])@ == self@.chapters[ch as int][j].bytes,
    {
        let pages = self.chapters[ch].pages();
        let mut v: Vec<Vec<u8>> = Vec::new();
        let n = pages.len();
        let mut j: usize = 0;
        while j < n
            invariant
                j <= n,
                n == pages@.len(),
                n == self@.chapters[ch as int].len(),
                ch < self@.chapters.len(),
                forall|k: int| 0 <= k < n ==> (#[trigger] pages@[k])@ == self@.chapters[ch as int][k],
                forall|k: int| 0 <= k < n ==> (#[trigger] pages@[k]).wf(),
                v@.len() == j,
                forall|k: int| 0 <= k < j ==> (#[trigger] v@[k])@ == self@.chapters[ch as int][k].bytes,
            decreases n - j,
        {
            v.push(pages[j].clone_buffer());
            j = j + 1;
        }
        v
    }

    /// The text of chapter `ch`.
    pub fn chapter_to_string(&self, ch: usize) -> (s: String)
        requires
            self.wf(),
            ch < self@.chapters.len(),
        ensures
            s@ == crate::chapter::chapter_text(self@.chapters[ch as int]),
    {
        self.chapters[ch].to_string()
    }
}

} // verus!
