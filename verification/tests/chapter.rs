use bookcase::{
    Block, BookcaseAllocator, Chapter, Error, GrowthStrategy, Layout, Notebook, Page, Pen,
    PersonalMultiNotebook, SizeStrategy, StdAllocator,
};
use std::cell::{Cell, RefCell};
use std::rc::Rc;

/// Gives no block at all.
struct Exhausted;

impl BookcaseAllocator for Exhausted {
    fn allocate(&self, _: Layout) -> Result<Block, Error> {
        Err(Error::AllocError)
    }

    fn allocate_zeroed(&self, _: Layout) -> Result<Block, Error> {
        Err(Error::AllocError)
    }

    fn deallocate(&self, _: Block, _: Layout) {
    }

    fn grow(&self, _: &mut Block, _: Layout, _: Layout) -> Result<(), Error> {
        Err(Error::AllocError)
    }

    fn grow_zeroed(&self, _: &mut Block, _: Layout, _: Layout) -> Result<(), Error> {
        Err(Error::AllocError)
    }

    fn shrink(&self, _: &mut Block, _: Layout, _: Layout) -> Result<(), Error> {
        Err(Error::AllocError)
    }

    fn by_ref(&self) -> &Self {
        self
    }
}

/// Numbers its blocks from a made-up address on, fills them with `0xaa`, and keeps a record
/// of what it gave and what it got back.
struct Ledger {
    next: Cell<usize>,
    given: RefCell<Vec<(usize, usize)>>,
    taken: RefCell<Vec<(usize, usize)>>,
}

impl Ledger {
    fn new() -> Ledger {
        Ledger { next: Cell::new(1 << 20), given: RefCell::new(vec![]), taken: RefCell::new(vec![]) }
    }
}

impl BookcaseAllocator for Ledger {
    fn allocate(&self, layout: Layout) -> Result<Block, Error> {
        let addr = (self.next.get() + layout.align() - 1) / layout.align() * layout.align();
        self.next.set(addr + layout.size());
        self.given.borrow_mut().push((addr, layout.size()));
        Ok(Block::from_bytes(addr, vec![0xaa; layout.size()]))
    }

    fn allocate_zeroed(&self, layout: Layout) -> Result<Block, Error> {
        let addr = (self.next.get() + layout.align() - 1) / layout.align() * layout.align();
        self.next.set(addr + layout.size());
        self.given.borrow_mut().push((addr, layout.size()));
        Ok(Block::from_bytes(addr, vec![0; layout.size()]))
    }

    fn deallocate(&self, block: Block, layout: Layout) {
        assert_eq!(block.size(), layout.size());
        self.taken.borrow_mut().push((block.addr(), block.size()));
    }

    fn grow(&self, _: &mut Block, _: Layout, _: Layout) -> Result<(), Error> {
        Err(Error::AllocError)
    }

    fn grow_zeroed(&self, _: &mut Block, _: Layout, _: Layout) -> Result<(), Error> {
        Err(Error::AllocError)
    }

    fn shrink(&self, _: &mut Block, _: Layout, _: Layout) -> Result<(), Error> {
        Err(Error::AllocError)
    }

    fn by_ref(&self) -> &Self {
        self
    }
}

#[test]
fn a_new_chapter_has_no_pages() {
    let chapter: Chapter<Pen> = Chapter::new();
    assert_eq!(chapter.pages().len(), 0);
    assert_eq!(chapter.to_string(), "");
}

#[test]
fn the_newest_page_with_room_is_used() {
    let ledger = Ledger::new();
    let mut chapter: Chapter<Pen> = Chapter::new();
    let a = chapter.allocate(&ledger, 12, 4, 16).expect("a slot");
    let b = chapter.allocate(&ledger, 12, 4, 16).expect("a slot");
    assert_eq!(chapter.pages().len(), 2);
    assert_eq!(a, 1 << 20);
    assert_eq!(b, (1 << 20) + 16);
    let c = chapter.allocate(&ledger, 4, 4, 16).expect("a slot");
    assert_eq!(c, b + 12);
    let d = chapter.allocate(&ledger, 4, 4, 16).expect("a slot");
    assert_eq!(d, a + 12);
    assert_eq!(chapter.pages().len(), 2);
    let e = chapter.allocate(&ledger, 4, 4, 16).expect("a slot");
    assert_eq!(e, (1 << 20) + 32);
    assert_eq!(chapter.pages().len(), 3);
}

#[test]
fn an_older_page_is_used_when_the_newer_ones_are_full() {
    let ledger = Ledger::new();
    let mut chapter: Chapter<Pen> = Chapter::new();
    let a = chapter.allocate(&ledger, 8, 8, 16).expect("a slot");
    let b = chapter.allocate(&ledger, 16, 8, 16).expect("a slot");
    assert_eq!(b, a + 16);
    let c = chapter.allocate(&ledger, 8, 8, 16).expect("a slot");
    assert_eq!(c, a + 8);
    assert_eq!(chapter.pages().len(), 2);
}

#[test]
fn nothing_is_placed_without_a_page() {
    let mut chapter: Chapter<Pen> = Chapter::new();
    assert_eq!(chapter.allocate(&Exhausted, 4, 4, 32), None);
    assert_eq!(chapter.pages().len(), 0);
    assert_eq!(chapter.allocate(&StdAllocator, 4, 3, 32), None);
    assert_eq!(chapter.allocate(&StdAllocator, 4, 0, 32), None);
    assert_eq!(chapter.allocate(&StdAllocator, 4, 4, 3), None);
    assert_eq!(chapter.allocate(&StdAllocator, 4, 4, usize::MAX), None);
    assert_eq!(chapter.pages().len(), 0);
}

#[test]
fn a_page_with_room_is_used_whatever_the_allocator_does() {
    let mut chapter: Chapter<Pen> = Chapter::new();
    let a = chapter.allocate(&StdAllocator, 4, 4, 8).expect("a slot");
    assert_eq!(chapter.allocate(&Exhausted, 4, 4, 8), Some(a + 4));
    assert_eq!(chapter.allocate(&Exhausted, 4, 4, 8), None);
    assert_eq!(chapter.allocate(&Exhausted, 0, 4, 8), Some(a + 8));
    assert_eq!(chapter.pages().len(), 1);
}

#[test]
fn the_first_page_takes_back() {
    let mut chapter: Chapter<Pen> = Chapter::new();
    assert!(!chapter.dealloc(16));
    let a = chapter.allocate(&StdAllocator, 4, 4, 8).expect("a slot");
    assert!(chapter.dealloc(a));
    assert!(chapter.dealloc(0));
    assert_eq!(chapter.allocate(&StdAllocator, 4, 4, 8), Some(a + 4));
}

#[test]
fn bytes_are_written_to_the_page_that_holds_them() {
    let ledger = Ledger::new();
    let mut chapter: Chapter<Pen> = Chapter::new();
    let a = chapter.allocate(&ledger, 4, 4, 4).expect("a slot");
    let b = chapter.allocate(&ledger, 4, 4, 4).expect("a slot");
    assert!(chapter.store(b, &[1, 2, 3, 4]));
    assert!(chapter.store(a + 1, &[9, 8]));
    assert!(!chapter.store(a + 2, &[9, 8, 7]));
    assert!(!chapter.store(b + 4, &[1]));
    assert!(chapter.store(b + 4, &[]));
    assert_eq!(chapter.pages()[0].clone_buffer(), vec![0xaa, 9, 8, 0xaa]);
    assert_eq!(chapter.pages()[1].clone_buffer(), vec![1, 2, 3, 4]);
    assert_eq!(chapter.load(b + 1, 2), Some(vec![2, 3]));
    assert_eq!(chapter.load(a, 4), Some(vec![0xaa, 9, 8, 0xaa]));
    assert_eq!(chapter.load(a, 5), None);
    assert!(chapter.zero(a, 3));
    assert_eq!(chapter.load(a, 4), Some(vec![0, 0, 0, 0xaa]));
    assert_eq!(chapter.to_string(), "\n  buffer: 00 00 00 aa\n  buffer: 01 02 03 04");
}

#[test]
fn destroying_gives_every_buffer_back_once() {
    let ledger = Ledger::new();
    let mut chapter: Chapter<Pen> = Chapter::new();
    for _ in 0..10 {
        chapter.allocate(&ledger, 8, 8, 24).expect("a slot");
    }
    assert_eq!(chapter.pages().len(), 4);
    assert!(ledger.taken.borrow().is_empty());
    chapter.destroy(&ledger);
    assert_eq!(chapter.pages().len(), 0);
    let mut given = ledger.given.borrow().clone();
    let mut taken = ledger.taken.borrow().clone();
    given.sort();
    taken.sort();
    assert_eq!(given.len(), 4);
    assert_eq!(given, taken);
    chapter.destroy(&ledger);
    assert_eq!(ledger.taken.borrow().len(), 4);
}

#[test]
fn a_page_is_made_where_the_allocator_gives_a_block() {
    let layout = Layout::from_size_align(16, 8).expect("a layout");
    assert!(Page::<Pen>::create(layout, &Exhausted).is_none());
    assert!(Page::<Pen>::from_allocation(layout, Err(Error::AllocError)).is_none());
    let page =
        Page::<Pen>::from_allocation(layout, Ok(Block::from_bytes(64, vec![7; 16]))).expect("a page");
    assert!(page.can_alloc(16));
    assert!(!page.can_alloc(17));
    assert!(page.holds(64, 16));
    assert!(page.holds(79, 1));
    assert!(page.holds(80, 0));
    assert!(!page.holds(63, 1));
    assert!(!page.holds(80, 1));
    assert!(!page.holds(usize::MAX, 2));
    assert_eq!(page.clone_buffer(), vec![7; 16]);
    assert_eq!(page.to_string(), "\n  buffer: 07 07 07 07 07 07 07 07 07 07 07 07 07 07 07 07");
}

#[test]
fn a_page_writes_and_reads_its_bytes() {
    let layout = Layout::from_size_align(8, 8).expect("a layout");
    let mut page = Page::<Pen>::create(layout, &StdAllocator).expect("a page");
    let first = page.allocate(2);
    let second = page.allocate(6);
    assert_eq!(second, first + 2);
    assert!(page.can_dealloc(first));
    page.dealloc(first);
    assert!(!page.can_alloc(1));
    assert!(page.can_alloc(0));
    assert!(page.store(first, &[0xab, 0xcd]));
    assert!(page.store(second + 4, &[0x0f, 0xf0]));
    assert!(!page.store(second + 5, &[0x0f, 0xf0]));
    assert!(!page.store(first - 1, &[1]));
    assert_eq!(page.load(first, 8), Some(vec![0xab, 0xcd, 0, 0, 0, 0, 0x0f, 0xf0]));
    assert_eq!(page.load(first, 9), None);
    assert_eq!(page.load(first + 8, 0), Some(vec![]));
    assert!(page.zero(first + 1, 6));
    assert!(!page.zero(first + 1, 8));
    assert_eq!(page.clone_buffer(), vec![0xab, 0, 0, 0, 0, 0, 0, 0xf0]);
    assert_eq!(page.to_string(), "\n  buffer: ab 00 00 00 00 00 00 f0");
    page.destroy(&StdAllocator);
}

/// Gives every block the same address.
struct Stuck;

impl BookcaseAllocator for Stuck {
    fn allocate(&self, layout: Layout) -> Result<Block, Error> {
        Ok(Block::from_bytes(4096, vec![0; layout.size()]))
    }

    fn allocate_zeroed(&self, layout: Layout) -> Result<Block, Error> {
        Ok(Block::from_bytes(4096, vec![0; layout.size()]))
    }

    fn deallocate(&self, _: Block, _: Layout) {
    }

    fn grow(&self, _: &mut Block, _: Layout, _: Layout) -> Result<(), Error> {
        Err(Error::AllocError)
    }

    fn grow_zeroed(&self, _: &mut Block, _: Layout, _: Layout) -> Result<(), Error> {
        Err(Error::AllocError)
    }

    fn shrink(&self, _: &mut Block, _: Layout, _: Layout) -> Result<(), Error> {
        Err(Error::AllocError)
    }

    fn by_ref(&self) -> &Self {
        self
    }
}

#[test]
fn a_page_that_is_not_aligned_for_the_value_is_passed_over() {
    let ledger = Ledger::new();
    let mut chapter: Chapter<Pen> = Chapter::new();
    let a = chapter.allocate(&ledger, 16, 16, 64).expect("a slot");
    assert_eq!(a, 1 << 20);
    let b = chapter.allocate(&ledger, 32, 32, 64).expect("a slot");
    assert_eq!(b % 32, 0);
    assert_eq!(b, (1 << 20) + 64);
    assert_eq!(chapter.pages().len(), 2);
    let c = chapter.allocate(&ledger, 16, 16, 64).expect("a slot");
    assert_eq!(c, b + 32);
    let d = chapter.allocate(&ledger, 32, 32, 64).expect("a slot");
    assert_eq!(d % 32, 0);
    assert_eq!(chapter.pages().len(), 3);
    let e = chapter.allocate(&ledger, 16, 32, 64).expect("a slot");
    assert_eq!(e, d + 32);
    let f = chapter.allocate(&ledger, 16, 16, 64).expect("a slot");
    assert_eq!(f, e + 16);
    let g = chapter.allocate(&ledger, 16, 16, 64).expect("a slot");
    assert_eq!(g, c + 16);
    let h = chapter.allocate(&ledger, 16, 32, 64).expect("a slot");
    assert_eq!(h, (1 << 20) + 192);
    assert_eq!(chapter.pages().len(), 4);
    let i = chapter.allocate(&ledger, 16, 16, 64).expect("a slot");
    assert_eq!(i, h + 16);
}

#[test]
fn nothing_is_aligned_to_nothing() {
    let mut chapter: Chapter<Pen> = Chapter::new();
    let a = chapter.allocate(&StdAllocator, 4, 4, 16).expect("a slot");
    assert_eq!(chapter.allocate(&StdAllocator, 4, 0, 16), None);
    assert_eq!(chapter.allocate(&StdAllocator, 4, 1, 16), Some(a + 4));
    assert_eq!(chapter.pages().len(), 1);
}

#[test]
fn a_page_that_lies_on_another_is_handed_back() {
    let mut chapter: Chapter<Pen> = Chapter::new();
    let a = chapter.allocate(&Stuck, 8, 8, 8).expect("a slot");
    assert_eq!(a, 4096);
    assert_eq!(chapter.allocate(&Stuck, 8, 8, 8), None);
    assert_eq!(chapter.pages().len(), 1);
    let ledger = Ledger::new();
    let b = chapter.allocate(&ledger, 8, 8, 8).expect("a slot");
    assert_eq!(b, 1 << 20);
    assert!(chapter.store(a, &[1; 8]));
    assert!(chapter.store(b, &[2; 8]));
    assert_eq!(chapter.load(a, 8), Some(vec![1; 8]));
    assert_eq!(chapter.load(b, 8), Some(vec![2; 8]));
}

#[test]
fn pages_lie_apart_or_not() {
    let layout = Layout::from_size_align(8, 8).expect("a layout");
    let page = |addr: usize| {
        Page::<Pen>::from_allocation(layout, Ok(Block::from_bytes(addr, vec![0; 8]))).expect("a page")
    };
    assert!(page(64).apart(&page(72)));
    assert!(page(72).apart(&page(64)));
    assert!(!page(64).apart(&page(64)));
    assert!(!page(64).apart(&page(71)));
    assert!(!page(71).apart(&page(64)));
    let mut chapter: Chapter<Pen> = Chapter::new();
    chapter.open_page(page(64), layout, 8);
    assert!(chapter.lies_apart(&page(72)));
    assert!(chapter.lies_apart(&page(56)));
    assert!(!chapter.lies_apart(&page(60)));
    assert!(page(64).fits(8, 8));
    assert!(page(64).fits(8, 64));
    assert!(!page(64).fits(8, 128));
    assert!(!page(64).fits(9, 8));
    assert!(!page(64).fits(8, 0));
}

#[test]
fn a_page_that_lies_on_a_page_of_another_chapter_is_handed_back() {
    let mut book = PersonalMultiNotebook::<Stuck, Pen>::new(
        Stuck,
        SizeStrategy::WordsPerPage(1),
        GrowthStrategy::Constant,
    );
    assert_eq!(book.allocate::<u8>(), Some(4096));
    assert_eq!(book.allocate::<u64>(), None);
    assert_eq!(book.page_count(0), 1);
    assert_eq!(book.page_count(3), 0);
    assert_eq!(book.allocate::<u8>(), Some(4097));
}

/// A ledger that the test keeps an eye on.
struct Watched(Rc<Ledger>);

impl BookcaseAllocator for Watched {
    fn allocate(&self, layout: Layout) -> Result<Block, Error> {
        self.0.allocate(layout)
    }

    fn allocate_zeroed(&self, layout: Layout) -> Result<Block, Error> {
        self.0.allocate_zeroed(layout)
    }

    fn deallocate(&self, block: Block, layout: Layout) {
        self.0.deallocate(block, layout)
    }

    fn grow(&self, block: &mut Block, old: Layout, new: Layout) -> Result<(), Error> {
        self.0.grow(block, old, new)
    }

    fn grow_zeroed(&self, block: &mut Block, old: Layout, new: Layout) -> Result<(), Error> {
        self.0.grow_zeroed(block, old, new)
    }

    fn shrink(&self, block: &mut Block, old: Layout, new: Layout) -> Result<(), Error> {
        self.0.shrink(block, old, new)
    }

    fn by_ref(&self) -> &Self {
        self
    }
}

#[test]
fn destroying_a_notebook_gives_every_buffer_back_once() {
    let ledger = Rc::new(Ledger::new());
    let mut book = PersonalMultiNotebook::<Watched, Pen>::new(
        Watched(ledger.clone()),
        SizeStrategy::WordsPerPage(1),
        GrowthStrategy::Linear(1),
    );
    for _ in 0..5 {
        book.allocate::<u8>().expect("a slot");
        book.allocate::<u32>().expect("a slot");
        book.allocate::<u64>().expect("a slot");
    }
    assert!(ledger.taken.borrow().is_empty());
    book.destroy();
    for ch in 0..5 {
        assert_eq!(book.page_count(ch), 0);
    }
    let mut given = ledger.given.borrow().clone();
    let mut taken = ledger.taken.borrow().clone();
    given.sort();
    taken.sort();
    assert_eq!(given.len(), 6);
    assert_eq!(given, taken);
    book.destroy();
    assert_eq!(ledger.taken.borrow().len(), 6);
}
