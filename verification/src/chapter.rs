//! Chapters: the pages of one alignment class, in the order in which they were made.

use vstd::prelude::*;
use vstd::layout::valid_layout;
use vstd::string::*;
use crate::allocator::BookcaseAllocator;
use crate::block::{zeros, Block};
use crate::error::Error;
use crate::layout::Layout;
use crate::page::{page_text, Page, PageView, Utensil};

verus! {

broadcast use {Page::lemma_wf, Layout::lemma_of};

/// The last page of `pages` in which `bytes` bytes aligned to `align` can be placed.
pub open spec fn last_with_room<U: Utensil>(pages: Seq<PageView<U>>, bytes: usize, align: usize)
    -> Option<int>
    decreases pages.len(),
{
    if pages.len() == 0 {
        None
    } else if pages.last().fits(bytes, align) {
        Some(pages.len() - 1)
    } else {
        last_with_room(pages.drop_last(), bytes, align)
    }
}

/// The first page of `pages` that takes back what lies at `ptr`.
pub open spec fn first_releasing<U: Utensil>(pages: Seq<PageView<U>>, ptr: usize) -> Option<int>
    decreases pages.len(),
{
    if pages.len() == 0 {
        None
    } else if pages.first().utensil.can_release(ptr) {
        Some(0)
    } else {
        match first_releasing(pages.drop_first(), ptr) {
            Some(i) => Some(i + 1),
            None => None,
        }
    }
}

/// The first page of `pages` in whose buffer the `len` bytes at `addr` lie.
pub open spec fn first_holding<U: Utensil>(pages: Seq<PageView<U>>, addr: usize, len: nat)
    -> Option<int>
    decreases pages.len(),
{
    if pages.len() == 0 {
        None
    } else if pages.first().holds(addr, len) {
        Some(0)
    } else {
        match first_holding(pages.drop_first(), addr, len) {
            Some(i) => Some(i + 1),
            None => None,
        }
    }
}

/// `last_with_room` gives a page in which the bytes can be placed and behind which there
/// is no such page, or none if there is no such page.
pub proof fn lemma_last_with_room<U: Utensil>(pages: Seq<PageView<U>>, bytes: usize, align: usize)
    ensures
        match last_with_room(pages, bytes, align) {
            Some(i) => {
                &&& 0 <= i < pages.len()
                &&& pages[i].fits(bytes, align)
                &&& forall|j: int| i < j < pages.len() ==> !pages[j].fits(bytes, align)
            },
            None => forall|j: int| 0 <= j < pages.len() ==> !pages[j].fits(bytes, align),
        },
    decreases pages.len(),
{
    if pages.len() > 0 && !pages.last().fits(bytes, align) {
        let rest = pages.drop_last();
        lemma_last_with_room(rest, bytes, align);
        assert(forall|j: int| 0 <= j < rest.len() ==> rest[j] == pages[j]);
    }
}

/// `first_releasing` gives a page that takes `ptr` back before which no page does, or none
/// if no page does.
pub proof fn lemma_first_releasing<U: Utensil>(pages: Seq<PageView<U>>, ptr: usize)
    ensures
        match first_releasing(pages, ptr) {
            Some(i) => {
                &&& 0 <= i < pages.len()
                &&& pages[i].utensil.can_release(ptr)
                &&& forall|j: int| 0 <= j < i ==> !pages[j].utensil.can_release(ptr)
            },
            None => forall|j: int| 0 <= j < pages.len() ==> !pages[j].utensil.can_release(ptr),
        },
    decreases pages.len(),
{
    if pages.len() > 0 && !pages.first().utensil.can_release(ptr) {
        let rest = pages.drop_first();
        lemma_first_releasing(rest, ptr);
        assert(forall|j: int| 0 <= j < rest.len() ==> rest[j] == pages[j + 1]);
        match first_releasing(rest, ptr) {
            Some(i) => {
                assert forall|j: int| 0 <= j < i + 1 implies !pages[j].utensil.can_release(
                    ptr,
                ) by {
                    if j > 0 {
                        assert(rest[j - 1] == pages[j]);
                    }
                }
            },
            None => {
                assert forall|j: int| 0 <= j < pages.len() implies !pages[j].utensil.can_release(
                    ptr,
                ) by {
                    if j > 0 {
                        assert(rest[j - 1] == pages[j]);
                    }
                }
            },
        }
    }
}

/// `first_holding` gives a page that holds the bytes before which no page does, or none if
/// no page does.
pub proof fn lemma_first_holding<U: Utensil>(pages: Seq<PageView<U>>, addr: usize, len: nat)
    ensures
        match first_holding(pages, addr, len) {
            Some(i) => {
                &&& 0 <= i < pages.len()
                &&& pages[i].holds(addr, len)
                &&& forall|j: int| 0 <= j < i ==> !pages[j].holds(addr, len)
            },
            None => forall|j: int| 0 <= j < pages.len() ==> !pages[j].holds(addr, len),
        },
    decreases pages.len(),
{
    if pages.len() > 0 && !pages.first().holds(addr, len) {
        let rest = pages.drop_first();
        lemma_first_holding(rest, addr, len);
        assert(forall|j: int| 0 <= j < rest.len() ==> rest[j] == pages[j + 1]);
        match first_holding(rest, addr, len) {
            Some(i) => {
                assert forall|j: int| 0 <= j < i + 1 implies !pages[j].holds(addr, len) by {
                    if j > 0 {
                        assert(rest[j - 1] == pages[j]);
                    }
                }
            },
            None => {
                assert forall|j: int| 0 <= j < pages.len() implies !pages[j].holds(addr, len) by {
                    if j > 0 {
                        assert(rest[j - 1] == pages[j]);
                    }
                }
            },
        }
    }
}

/// Whether the buffers of the pages lie apart from each other.
pub open spec fn pages_apart<U: Utensil>(pages: Seq<PageView<U>>) -> bool {
    forall|i: int, j: int|
        #![trigger pages[i], pages[j]]
        0 <= i < j < pages.len() ==> pages[i].apart(pages[j])
}

/// Whether the `len` bytes at `addr` lie apart from the buffers of all the pages.
pub open spec fn block_apart<U: Utensil>(pages: Seq<PageView<U>>, addr: usize, len: nat) -> bool {
    forall|i: int|
        0 <= i < pages.len() ==> {
            ||| (#[trigger] pages[i]).base + pages[i].bytes.len() <= addr
            ||| addr + len <= pages[i].base
        }
}

/// Whether the pages `after` are as many as the pages `before` and lie where they lie.
pub open spec fn same_places<U: Utensil>(before: Seq<PageView<U>>, after: Seq<PageView<U>>)
    -> bool {
    &&& after.len() == before.len()
    &&& forall|i: int|
        0 <= i < before.len() ==> (#[trigger] after[i]).base == before[i].base && after[i].bytes.len()
            == before[i].bytes.len()
}

/// Validity of the pages of a chapter: each is valid, and their buffers lie apart.
pub open spec fn pages_wf<U: Utensil>(pages: Seq<PageView<U>>) -> bool {
    &&& forall|i: int| 0 <= i < pages.len() ==> (#[trigger] pages[i]).wf()
    &&& pages_apart(pages)
}

/// `after` is `before` with one more page, made for `layout`, whose buffer lies apart from
/// those of the others and in which `t_size` bytes were placed at `p`.
pub open spec fn opened<U: Utensil>(
    before: Seq<PageView<U>>,
    after: Seq<PageView<U>>,
    layout: Layout,
    t_size: usize,
    p: usize,
) -> bool {
    let page = after.last();
    let start = U::fresh(page.base, layout);
    &&& after.len() == before.len() + 1
    &&& after.drop_last() == before
    &&& block_apart(before, page.base, page.bytes.len())
    &&& page.wf()
    &&& page.align == layout.align()
    &&& page.bytes.len() == layout.size()
    &&& page.utensil == start.placed(t_size)
    &&& p == start.place_addr(t_size)
}

/// Whether a page of `page_bytes` bytes aligned to `t_align` can be asked for: the size
/// fits a machine word, and the two make a layout.
pub open spec fn page_can_be_had(page_bytes: nat, t_align: usize) -> bool {
    page_bytes <= usize::MAX && valid_layout(page_bytes as usize, t_align)
}

/// What placing `t_size` bytes aligned to `t_align` makes of the pages `before`, where a
/// new page would have `page_bytes` bytes: `after` and the result `r`.
///
/// If the bytes can be placed in a page, where they have room and lie at a multiple of
/// `t_align`, they go to the last such page. If there is none and a page of `page_bytes`
/// bytes aligned to `t_align` can be asked for and can hold `t_size` bytes, it is for the
/// backing allocator to give one or not, and a page is taken only if its buffer lies apart
/// from the others. Otherwise nothing is placed, and nothing changes.
pub open spec fn allocated<U: Utensil>(
    before: Seq<PageView<U>>,
    after: Seq<PageView<U>>,
    t_size: usize,
    t_align: usize,
    page_bytes: nat,
    r: Option<usize>,
) -> bool {
    match last_with_room(before, t_size, t_align) {
        Some(i) => {
            &&& r == Some(before[i].utensil.place_addr(t_size))
            &&& after == before.update(i, before[i].placed(t_size))
        },
        None => {
            ||| r is None && after == before
            ||| {
                &&& t_size <= page_bytes
                &&& page_can_be_had(page_bytes, t_align)
                &&& r is Some
                &&& opened(
                    before,
                    after,
                    Layout::of(page_bytes as usize, t_align),
                    t_size,
                    r->Some_0,
                )
            }
        },
    }
}

/// Whether placing `t_size` bytes aligned to `t_align` in the pages `before` asks the
/// backing allocator for a page of `page_bytes` bytes: the bytes can be placed in no page,
/// the new page could hold them, and it can be asked for.
pub open spec fn page_needed<U: Utensil>(
    before: Seq<PageView<U>>,
    t_size: usize,
    t_align: usize,
    page_bytes: nat,
) -> bool {
    &&& last_with_room(before, t_size, t_align) is None
    &&& t_size <= page_bytes
    &&& page_can_be_had(page_bytes, t_align)
}

/// Whether `outcome`, the answer of the backing allocator when it was asked for a new
/// page, is taken as a page behind the pages `before`: the allocator gave a block, and the
/// block lies apart from the buffers of all the pages.
pub open spec fn taken<U: Utensil>(before: Seq<PageView<U>>, outcome: Result<Block, Error>)
    -> bool {
    outcome matches Ok(block) && block_apart(before, block.addr(), block@.len())
}

/// Whether the result `r` of placing, with the pages `after`, is what follows from
/// `outcome`, the answer of the backing allocator when it was asked for a new page behind
/// the pages `before`: something is placed exactly if the answer is taken, and the block
/// given is then the buffer of the last page.
pub open spec fn answered<U: Utensil>(
    before: Seq<PageView<U>>,
    after: Seq<PageView<U>>,
    outcome: Result<Block, Error>,
    r: Option<usize>,
) -> bool {
    &&& r is Some <==> taken(before, outcome)
    &&& r is Some ==> {
        &&& after.len() > 0
        &&& after.last().base == outcome->Ok_0.addr()
        &&& after.last().bytes == outcome->Ok_0@
    }
}

/// What taking back `ptr` makes of the pages `before`: the first page that takes it back
/// does.
pub open spec fn deallocated<U: Utensil>(
    before: Seq<PageView<U>>,
    after: Seq<PageView<U>>,
    ptr: usize,
    r: bool,
) -> bool {
    match first_releasing(before, ptr) {
        Some(i) => r && after == before.update(i, before[i].released(ptr)),
        None => !r && after == before,
    }
}

/// The `len` bytes at `addr`, read from the first page that holds them.
pub open spec fn slot_bytes<U: Utensil>(pages: Seq<PageView<U>>, addr: usize, len: nat) -> Option<
    Seq<u8>,
> {
    match first_holding(pages, addr, len) {
        Some(i) => Some(pages[i].slot(addr, len)),
        None => None,
    }
}

/// The pages `pages` with `image` written at `addr`, in the first page that holds those
/// bytes.
pub open spec fn stored<U: Utensil>(pages: Seq<PageView<U>>, addr: usize, image: Seq<u8>) -> Seq<
    PageView<U>,
> {
    match first_holding(pages, addr, image.len()) {
        Some(i) => pages.update(i, pages[i].written(addr, image)),
        None => pages,
    }
}

/// The text of a chapter: the texts of its pages, one after the other.
pub open spec fn chapter_text<U>(pages: Seq<PageView<U>>) -> Seq<char>
    decreases pages.len(),
{
    if pages.len() == 0 {
        Seq::empty()
    } else {
        chapter_text(pages.drop_last()) + page_text(pages.last().bytes)
    }
}

/// Whatever is placed lies within the buffer of one page, at a multiple of the alignment
/// asked for, and placing keeps the pages valid.
pub proof fn lemma_allocated_within<U: Utensil>(
    before: Seq<PageView<U>>,
    after: Seq<PageView<U>>,
    t_size: usize,
    t_align: usize,
    page_bytes: nat,
    r: Option<usize>,
)
    requires
        pages_wf(before),
        allocated(before, after, t_size, t_align, page_bytes, r),
    ensures
        pages_wf(after),
        r matches Some(p) ==> {
            &&& t_align > 0
            &&& p as int % t_align as int == 0
            &&& exists|i: int|
                0 <= i < after.len() && (#[trigger] after[i]).holds(p, t_size as nat)
        },
{
    lemma_last_with_room(before, t_size, t_align);
    match last_with_room(before, t_size, t_align) {
        Some(i) => {
            before[i].utensil.lemma_placed(t_size);
            assert(after[i].holds(r->Some_0, t_size as nat));
            assert forall|j: int, k: int|
                #![trigger after[j], after[k]]
                0 <= j < k < after.len() implies after[j].apart(after[k]) by {
                assert(before[j].apart(before[k]));
            }
        },
        None => {
            if r is Some {
                let layout = Layout::of(page_bytes as usize, t_align);
                let page = after.last();
                assert(t_align > 0) by {
                    reveal(vstd::arithmetic::power2::is_pow2);
                }
                U::lemma_fresh(page.base, layout);
                U::fresh(page.base, layout).lemma_placed(t_size);
                assert(page.holds(r->Some_0, t_size as nat));
                assert forall|i: int| 0 <= i < after.len() implies (#[trigger] after[i]).wf() by {
                    if i < before.len() {
                        assert(after.drop_last()[i] == after[i]);
                    }
                }
                assert forall|j: int, k: int|
                    #![trigger after[j], after[k]]
                    0 <= j < k < after.len() implies after[j].apart(after[k]) by {
                    assert(after.drop_last()[j] == after[j]);
                    if k < before.len() {
                        assert(after.drop_last()[k] == after[k]);
                        assert(before[j].apart(before[k]));
                    }
                }
            }
        },
    }
}

/// A multiple of a multiple of `a` is a multiple of `a`.
pub proof fn lemma_multiple_of_multiple(x: nat, m: nat, a: nat)
    requires
        a > 0,
        m > 0,
        x % m == 0,
        m % a == 0,
    ensures
        x % a == 0,
{
    vstd::arithmetic::div_mod::lemma_fundamental_div_mod(x as int, m as int);
    vstd::arithmetic::div_mod::lemma_fundamental_div_mod(m as int, a as int);
    let q = x as int / m as int;
    let k = m as int / a as int;
    assert(x == (q * k) * a) by (nonlinear_arith)
        requires
            x == m * q,
            m == a * k,
    ;
    vstd::arithmetic::div_mod::lemma_mod_multiples_basic(q * k, a as int);
}

/// Taking something back keeps the pages valid, where they are and as many as they were.
pub proof fn lemma_deallocated_wf<U: Utensil>(
    before: Seq<PageView<U>>,
    after: Seq<PageView<U>>,
    ptr: usize,
    r: bool,
)
    requires
        pages_wf(before),
        deallocated(before, after, ptr, r),
    ensures
        pages_wf(after),
        same_places(before, after),
{
    lemma_first_releasing(before, ptr);
    match first_releasing(before, ptr) {
        Some(i) => {
            before[i].utensil.lemma_released(ptr);
            assert(before[i].wf());
            assert forall|j: int, k: int|
                #![trigger after[j], after[k]]
                0 <= j < k < after.len() implies after[j].apart(after[k]) by {
                assert(before[j].apart(before[k]));
            }
        },
        None => {},
    }
}

/// Writing to a slot keeps the pages valid, where they are and as many as they were.
pub proof fn lemma_stored_pages_wf<U: Utensil>(pages: Seq<PageView<U>>, addr: usize, image: Seq<u8>)
    requires
        pages_wf(pages),
    ensures
        pages_wf(stored(pages, addr, image)),
        same_places(pages, stored(pages, addr, image)),
{
    let after = stored(pages, addr, image);
    lemma_first_holding(pages, addr, image.len());
    assert forall|j: int| 0 <= j < after.len() implies (#[trigger] after[j]).wf() by {
        assert(pages[j].wf());
    }
    assert forall|j: int, k: int|
        #![trigger after[j], after[k]]
        0 <= j < k < after.len() implies after[j].apart(after[k]) by {
        assert(pages[j].apart(pages[k]));
    }
}

/// The pages of one alignment class, oldest first.
pub struct Chapter<U> {
    pages: Vec<Page<U>>,
}

impl<U> View for Chapter<U> {
    type V = Seq<PageView<U>>;

    closed spec fn view(&self) -> Seq<PageView<U>> {
        self.pages@.map_values(|p: Page<U>| p@)
    }
}

impl<U: Utensil> Chapter<U> {
    /// Validity of the chapter.
    pub closed spec fn wf(&self) -> bool {
        &&& forall|i: int| 0 <= i < self.pages@.len() ==> (#[trigger] self.pages@[i]).wf()
        &&& pages_apart(self@)
    }

    /// The pages themselves, oldest first.
    pub closed spec fn sheets(&self) -> Seq<Page<U>> {
        self.pages@
    }

    /// The pages of a valid chapter are valid, and the view shows the pages.
    pub broadcast proof fn lemma_wf(&self)
        requires
            #[trigger] self.wf(),
        ensures
            pages_wf(self@),
    {
        assert forall|i: int| 0 <= i < self@.len() implies (#[trigger] self@[i]).wf() by {
            assert(self.pages@[i].wf());
        }
    }

    /// The view shows the pages, one by one.
    pub broadcast proof fn lemma_sheets(&self)
        ensures
            #![trigger self.sheets()]
            self.sheets().len() == self@.len(),
            forall|i: int| 0 <= i < self@.len() ==> (#[trigger] self.sheets()[i])@ == self@[i],
    {
    }

    /// A chapter without pages.
    pub fn new() -> (c: Chapter<U>)
        ensures
            c.wf(),
            c@ == Seq::<PageView<U>>::empty(),
    {
        let c = Chapter { pages: Vec::new() };
        assert(c@ =~= Seq::<PageView<U>>::empty());
        c
    }

    /// The pages, oldest first.
    pub fn pages(&self) -> (s: &[Page<U>])
        ensures
            s@.len() == self@.len(),
            forall|i: int| 0 <= i < s@.len() ==> (#[trigger] s@[i])@ == self@[i],
            self.wf() ==> forall|i: int| 0 <= i < s@.len() ==> (#[trigger] s@[i]).wf(),
    {
        self.pages.as_slice()
    }

    /// The index of the last page in which `bytes` bytes aligned to `align` can be placed.
    fn find_room(&self, bytes: usize, align: usize) -> (r: Option<usize>)
        requires
            self.wf(),
        ensures
            match r {
                Some(i) => last_with_room(self@, bytes, align) == Some(i as int) && i
                    < self@.len(),
                None => last_with_room(self@, bytes, align) is None,
            },
    {
        let mut i: usize = self.pages.len();
        assert(self@.subrange(0, i as int) =~= self@);
        while i > 0
            invariant
                self.wf(),
                i <= self@.len(),
                self.pages@.len() == self@.len(),
                last_with_room(self@, bytes, align) == last_with_room(
                    self@.subrange(0, i as int),
                    bytes,
                    align,
                ),
            decreases i,
        {
            let ghost upto = self@.subrange(0, i as int);
            assert(upto.last() == self.pages@[i - 1]@);
            assert(upto.drop_last() =~= self@.subrange(0, i - 1));
            if self.pages[i - 1].fits(bytes, align) {
                return Some(i - 1);
            }
            i = i - 1;
        }
        None
    }

    /// Tests whether the buffer of `page` lies apart from the buffers of all pages of the
    /// chapter.
    pub fn lies_apart(&self, page: &Page<U>) -> (b: bool)
        requires
            self.wf(),
            page.wf(),
        ensures
            b == block_apart(self@, page@.base, page@.bytes.len()),
    {
        let n = self.pages.len();
        let mut i: usize = 0;
        while i < n
            invariant
                self.wf(),
                page.wf(),
                i <= n,
                n == self@.len(),
                self.pages@.len() == n,
                block_apart(self@.subrange(0, i as int), page@.base, page@.bytes.len()),
            decreases n - i,
        {
            assert(self@[i as int] == self.pages@[i as int]@);
            if !self.pages[i].apart(page) {
                return false;
            }
            i = i + 1;
            assert forall|j: int| 0 <= j < i implies {
                ||| (#[trigger] self@.subrange(0, i as int)[j]).base + self@.subrange(
                    0,
                    i as int,
                )[j].bytes.len() <= page@.base
                ||| page@.base + page@.bytes.len() <= self@.subrange(0, i as int)[j].base
            } by {
                if j < i - 1 {
                    assert(self@.subrange(0, i - 1)[j] == self@.subrange(0, i as int)[j]);
                }
            }
        }
        assert(self@.subrange(0, n as int) =~= self@);
        true
    }

    /// The index of the first page that takes back what lies at `ptr`.
    fn find_releasing(&self, ptr: usize) -> (r: Option<usize>)
        requires
            self.wf(),
        ensures
            match r {
                Some(i) => first_releasing(self@, ptr) == Some(i as int) && i < self@.len(),
                None => first_releasing(self@, ptr) is None,
            },
    {
        let n = self.pages.len();
        let mut i: usize = 0;
        proof {
            lemma_first_releasing(self@, ptr);
        }
        while i < n
            invariant
                self.wf(),
                i <= n,
                n == self@.len(),
                self.pages@.len() == n,
                forall|j: int| 0 <= j < i ==> !self@[j].utensil.can_release(ptr),
            decreases n - i,
        {
            assert(self@[i as int] == self.pages@[i as int]@);
            if self.pages[i].can_dealloc(ptr) {
                proof {
                    lemma_first_releasing(self@, ptr);
                }
                return Some(i);
            }
            i = i + 1;
        }
        proof {
            lemma_first_releasing(self@, ptr);
        }
        None
    }

    /// The index of the first page in whose buffer the `len` bytes at `addr` lie.
    fn find_holding(&self, addr: usize, len: usize) -> (r: Option<usize>)
        requires
            self.wf(),
        ensures
            match r {
                Some(i) => first_holding(self@, addr, len as nat) == Some(i as int) && i
                    < self@.len(),
                None => first_holding(self@, addr, len as nat) is None,
            },
    {
        let n = self.pages.len();
        let mut i: usize = 0;
        while i < n
            invariant
                self.wf(),
                i <= n,
                n == self@.len(),
                self.pages@.len() == n,
                forall|j: int| 0 <= j < i ==> !self@[j].holds(addr, len as nat),
            decreases n - i,
        {
            assert(self@[i as int] == self.pages@[i as int]@);
            if self.pages[i].holds(addr, len) {
                proof {
                    lemma_first_holding(self@, addr, len as nat);
                }
                return Some(i);
            }
            i = i + 1;
        }
        proof {
            lemma_first_holding(self@, addr, len as nat);
        }
        None
    }

    /// Makes `page`, a new page for `layout` whose buffer lies apart from those of the
    /// chapter's pages, the last page of the chapter and places `t_size` bytes in it.
    pub fn open_page(&mut self, page: Page<U>, layout: Layout, t_size: usize) -> (p: usize)
        requires
            old(self).wf(),
            layout.wf(),
            page.wf(),
            page@.fresh_for(layout),
            block_apart(old(self)@, page@.base, page@.bytes.len()),
            t_size <= layout.size(),
        ensures
            final(self).wf(),
            opened(old(self)@, final(self)@, layout, t_size, p),
            final(self)@.last() == page@.placed(t_size),
    {
        let mut page = page;
        proof {
            U::lemma_fresh(page@.base, layout);
        }
        let p = page.allocate(t_size);
        self.pages.push(page);
        assert(self@.drop_last() =~= old(self)@);
        assert(self@.last() == page@);
        assert forall|j: int, k: int|
            #![trigger self@[j], self@[k]]
            0 <= j < k < self@.len() implies self@[j].apart(self@[k]) by {
            assert(self@[j] == old(self)@[j]);
            if k < old(self)@.len() {
                assert(self@[k] == old(self)@[k]);
            }
        }
        p
    }

    /// Places `t_size` bytes aligned to `t_align`: in the last page where they have room
    /// and lie at a multiple of `t_align`, or else in a new page of `page_bytes` bytes that
    /// `allocator` gives. No page is asked for that could not hold the bytes, or whose
    /// size and alignment make no layout: nothing is placed then. A page whose buffer
    /// does not lie apart from the others is handed back, and nothing is placed.
    pub fn allocate<A: BookcaseAllocator>(
        &mut self,
        allocator: &A,
        t_size: usize,
        t_align: usize,
        page_bytes: usize,
    ) -> (r: Option<usize>)
        requires
            old(self).wf(),
        ensures
            final(self).wf(),
            allocated(old(self)@, final(self)@, t_size, t_align, page_bytes as nat, r),
            page_needed(old(self)@, t_size, t_align, page_bytes as nat) ==> exists|
                outcome: Result<Block, Error>,
            | #[trigger]
                call_ensures(A::allocate, (allocator, Layout::of(page_bytes, t_align)), outcome)
                    && answered(old(self)@, final(self)@, outcome, r),
    {
        match self.find_room(t_size, t_align) {
            Some(i) => {
                proof {
                    lemma_last_with_room(self@, t_size, t_align);
                    assert(self@[i as int] == self.pages@[i as int]@);
                }
                let p = self.pages[i].allocate(t_size);
                assert(self@ =~= old(self)@.update(i as int, old(self)@[i as int].placed(t_size)));
                assert forall|j: int, k: int|
                    #![trigger self@[j], self@[k]]
                    0 <= j < k < self@.len() implies self@[j].apart(self@[k]) by {
                    assert(old(self)@[j].apart(old(self)@[k]));
                }
                Some(p)
            },
            None => {
                if page_bytes < t_size {
                    return None;
                }
                let layout = match Layout::from_size_align(page_bytes, t_align) {
                    None => { return None; },
                    Some(l) => l,
                };
                let made = Page::create(layout, allocator);
                let ghost outcome = choose|outcome: Result<Block, Error>| #[trigger]
                    call_ensures(A::allocate, (allocator, layout), outcome) && Page::<U>::made_of(
                        layout,
                        outcome,
                        made,
                    );
                let r = match made {
                    None => None,
                    Some(page) => {
                        if self.lies_apart(&page) {
                            Some(self.open_page(page, layout, t_size))
                        } else {
                            page.destroy(allocator);
                            None
                        }
                    },
                };
                assert(call_ensures(A::allocate, (allocator, Layout::of(page_bytes, t_align)), outcome)
                    && answered(old(self)@, self@, outcome, r));
                r
            },
        }
    }

    /// Hands the buffer of the last page back to `allocator` and drops the page.
    pub fn close_last<A: BookcaseAllocator>(&mut self, allocator: &A)
        requires
            old(self).wf(),
            old(self)@.len() > 0,
        ensures
            final(self).wf(),
            final(self)@ == old(self)@.drop_last(),
            old(self).sheets().last().handed_back(allocator),
    {
        let ghost before = self.pages@;
        match self.pages.pop() {
            Some(page) => {
                assert(page == before[before.len() - 1]);
                assert(self@ =~= old(self)@.drop_last());
                assert forall|j: int, k: int|
                    #![trigger self@[j], self@[k]]
                    0 <= j < k < self@.len() implies self@[j].apart(self@[k]) by {
                    assert(self@[j] == old(self)@[j]);
                    assert(self@[k] == old(self)@[k]);
                }
                page.destroy(allocator);
            },
            None => {},
        }
    }

    /// Takes back what lies at `ptr`, in the first page that takes it back, and says
    /// whether a page did.
    pub fn dealloc(&mut self, ptr: usize) -> (r: bool)
        requires
            old(self).wf(),
        ensures
            final(self).wf(),
            deallocated(old(self)@, final(self)@, ptr, r),
    {
        match self.find_releasing(ptr) {
            Some(i) => {
                proof {
                    lemma_first_releasing(self@, ptr);
                    assert(self@[i as int] == self.pages@[i as int]@);
                }
                self.pages[i].dealloc(ptr);
                assert(self@ =~= old(self)@.update(i as int, old(self)@[i as int].released(ptr)));
                proof {
                    lemma_deallocated_wf(old(self)@, self@, ptr, true);
                }
                true
            },
            None => false,
        }
    }

    /// Hands the buffer of each page back to `allocator`. The chapter is left without
    /// pages.
    pub fn destroy<A: BookcaseAllocator>(&mut self, allocator: &A)
        requires
            old(self).wf(),
        ensures
            final(self).wf(),
            final(self)@ == Seq::<PageView<U>>::empty(),
            forall|i: int|
                0 <= i < old(self).sheets().len() ==> (#[trigger] old(self).sheets()[i]).handed_back(
                    allocator,
                ),
    {
        while self.pages.len() > 0
            invariant
                self.wf(),
                self.pages@.len() <= old(self).pages@.len(),
                self.pages@ == old(self).pages@.subrange(0, self.pages@.len() as int),
                forall|i: int|
                    self.pages@.len() <= i < old(self).pages@.len() ==> (
                    #[trigger] old(self).pages@[i]).handed_back(allocator),
            decreases self.pages@.len(),
        {
            let ghost before = self.pages@;
            match self.pages.pop() {
                Some(page) => {
                    assert(page == before[before.len() - 1]);
                    assert(self.pages@ =~= old(self).pages@.subrange(
                        0,
                        self.pages@.len() as int,
                    ));
                    assert forall|j: int, k: int|
                        #![trigger self@[j], self@[k]]
                        0 <= j < k < self@.len() implies self@[j].apart(self@[k]) by {
                        assert(self@[j] == before[j]@);
                        assert(self@[k] == before[k]@);
                        assert(before.map_values(|p: Page<U>| p@)[j].apart(
                            before.map_values(|p: Page<U>| p@)[k],
                        ));
                    }
                    page.destroy(allocator);
                },
                None => {},
            }
        }
        assert(self@ =~= Seq::<PageView<U>>::empty());
    }

    /// Writes `image` at `addr`, in the first page that holds those bytes, and says
    /// whether a page does.
    pub fn store(&mut self, addr: usize, image: &[u8]) -> (r: bool)
        requires
            old(self).wf(),
        ensures
            final(self).wf(),
            r == first_holding(old(self)@, addr, image@.len()) is Some,
            final(self)@ == stored(old(self)@, addr, image@),
    {
        match self.find_holding(addr, image.len()) {
            Some(i) => {
                proof {
                    lemma_first_holding(self@, addr, image@.len());
                    assert(self@[i as int] == self.pages@[i as int]@);
                }
                self.pages[i].store(addr, image);
                assert(self@ =~= stored(old(self)@, addr, image@));
                proof {
                    lemma_stored_pages_wf(old(self)@, addr, image@);
                }
                true
            },
            None => false,
        }
    }

    /// Writes zero to the `len` bytes at `addr`, in the first page that holds those bytes,
    /// and says whether a page does.
    pub fn zero(&mut self, addr: usize, len: usize) -> (r: bool)
        requires
            old(self).wf(),
        ensures
            final(self).wf(),
            r == first_holding(old(self)@, addr, len as nat) is Some,
            final(self)@ == stored(old(self)@, addr, zeros(len as nat)),
    {
        match self.find_holding(addr, len) {
            Some(i) => {
                proof {
                    lemma_first_holding(self@, addr, len as nat);
                    assert(self@[i as int] == self.pages@[i as int]@);
                }
                self.pages[i].zero(addr, len);
                assert(self@ =~= stored(old(self)@, addr, zeros(len as nat)));
                proof {
                    lemma_stored_pages_wf(old(self)@, addr, zeros(len as nat));
                }
                true
            },
            None => false,
        }
    }

    /// A copy of the `len` bytes at `addr`, from the first page that holds them.
    pub fn load(&self, addr: usize, len: usize) -> (r: Option<Vec<u8>>)
        requires
            self.wf(),
        ensures
            match r {
                Some(v) => slot_bytes(self@, addr, len as nat) == Some(v@),
                None => slot_bytes(self@, addr, len as nat) is None,
            },
    {
        match self.find_holding(addr, len) {
            Some(i) => {
                proof {
                    lemma_first_holding(self@, addr, len as nat);
                    assert(self@[i as int] == self.pages@[i as int]@);
                }
                self.pages[i].load(addr, len)
            },
            None => None,
        }
    }

    /// Renders the chapter as text.
    pub fn to_string(&self) -> (s: String)
        requires
            self.wf(),
        ensures
            s@ == chapter_text(self@),
    {
        let mut s = String::new();
        let n = self.pages.len();
        let mut i: usize = 0;
        assert(chapter_text(self@.subrange(0, 0)) =~= Seq::<char>::empty());
        while i < n
            invariant
                self.wf(),
                i <= n,
                n == self@.len(),
                self.pages@.len() == n,
                s@ == chapter_text(self@.subrange(0, i as int)),
            decreases n - i,
        {
            let text = self.pages[i].to_string();
            s.append(text.as_str());
            proof {
                let next = self@.subrange(0, i + 1);
                assert(next.drop_last() =~= self@.subrange(0, i as int));
                assert(next.last() == self@[i as int]);
            }
            i = i + 1;
        }
        assert(self@.subrange(0, n as int) =~= self@);
        s
    }
}

} // verus!
