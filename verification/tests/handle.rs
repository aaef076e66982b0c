use bookcase::{
    GrowthStrategy, Handle, Notebook, Pen, PersonalMonoNotebook, PersonalMultiNotebook,
    SizeStrategy, StdAllocator, TypedNotebook,
};
use std::cell::Cell;
use std::rc::Rc;

/// Counts how often it is dropped.
struct Counted {
    drops: Rc<Cell<usize>>,
}

impl Drop for Counted {
    fn drop(&mut self) {
        self.drops.set(self.drops.get() + 1);
    }
}

fn words(n: usize) -> PersonalMultiNotebook<StdAllocator, Pen> {
    PersonalMultiNotebook::new(StdAllocator, SizeStrategy::WordsPerPage(n), GrowthStrategy::Constant)
}

#[test]
fn a_handle_binds_a_value_to_a_slot() {
    let handle = Handle::new(64, String::from("xyz"));
    assert_eq!(handle.slot(), 64);
    assert_eq!(*handle, "xyz");
    assert_eq!(handle.len(), 3);
}

#[test]
fn a_handle_gives_up_its_string_and_its_slot() {
    let mut book = words(4);
    let mut handle = book.new(String::from("xyz")).expect("a handle");
    assert_eq!(*handle, "xyz");
    assert_eq!(handle.slot() % 8, 0);
    assert_eq!(book.page_count(3), 1);
    handle.push_str("abc");
    assert_eq!(*handle, "xyzabc");
    *handle = String::from("abc");
    assert_eq!(*handle, "abc");
    assert!(handle.release(&mut book));
}

#[test]
fn the_value_of_a_handle_is_dropped_once() {
    let drops = Rc::new(Cell::new(0));
    let mut book = words(4);
    let handle = book.new(Counted { drops: drops.clone() }).expect("a handle");
    assert_eq!(drops.get(), 0);
    assert!(handle.release(&mut book));
    assert_eq!(drops.get(), 1);
    book.destroy();
    assert_eq!(drops.get(), 1);
}

#[test]
fn a_handle_that_is_dropped_drops_its_value_once() {
    let drops = Rc::new(Cell::new(0));
    let mut book = words(4);
    {
        let _handle = book.new(Counted { drops: drops.clone() }).expect("a handle");
        assert_eq!(drops.get(), 0);
    }
    assert_eq!(drops.get(), 1);
}

#[test]
fn a_value_without_a_slot_is_dropped() {
    let drops = Rc::new(Cell::new(0));
    let mut book = PersonalMultiNotebook::<StdAllocator, Pen>::new(
        StdAllocator,
        SizeStrategy::ItemsPerPage(0),
        GrowthStrategy::Constant,
    );
    assert!(book.new(Counted { drops: drops.clone() }).is_none());
    assert_eq!(drops.get(), 1);
}

#[test]
fn handles_of_a_typed_notebook() {
    let mut book = PersonalMonoNotebook::<StdAllocator, Pen, String>::new(
        StdAllocator,
        SizeStrategy::ItemsPerPage(2),
        GrowthStrategy::Constant,
    );
    let a = book.new_t(String::from("a")).expect("a handle");
    let b = book.new_t(String::from("b")).expect("a handle");
    let c = book.new_t(String::from("c")).expect("a handle");
    assert_eq!(b.slot(), a.slot() + std::mem::size_of::<String>());
    assert_eq!(book.page_count(), 2);
    assert_eq!(*c, "c");
    assert!(a.release(&mut book));
    assert!(b.release(&mut book));
    assert!(c.release(&mut book));
}

#[test]
fn a_handle_of_any_notebook_seen_as_typed() {
    let mut book = words(4);
    let handle = TypedNotebook::<u64>::new_t(&mut book, 5).expect("a handle");
    assert_eq!(*handle, 5);
    assert!(handle.release(&mut book));
    let slot = TypedNotebook::<u64>::alloc_zero_t(&mut book).expect("a slot");
    assert_eq!(TypedNotebook::<u64>::read_t(&book, slot), Some(vec![0; 8]));
    assert!(TypedNotebook::<u64>::write_t(&mut book, slot, &[1; 8]));
    assert!(TypedNotebook::<u64>::zero_t(&mut book, slot));
    assert_eq!(TypedNotebook::<u64>::read_t(&book, slot), Some(vec![0; 8]));
    assert!(TypedNotebook::<u64>::dealloc_t(&mut book, slot));
    assert_eq!(TypedNotebook::<u64>::alloc_t(&mut book), Some(slot + 8));
}
