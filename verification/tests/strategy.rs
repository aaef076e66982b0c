use bookcase::strategy::checked_page_size;
use bookcase::{GrowthStrategy, SizeStrategy};

#[test]
fn the_base_size_counts_alignments_items_or_words() {
    assert_eq!(SizeStrategy::AlignmentsPerPage(3).base_bytes(10, 4), 12);
    assert_eq!(SizeStrategy::ItemsPerPage(3).base_bytes(10, 4), 30);
    assert_eq!(SizeStrategy::WordsPerPage(3).base_bytes(10, 4), 24);
    assert_eq!(SizeStrategy::WordsPerPage(4).base_bytes(4, 4), 32);
    assert_eq!(SizeStrategy::ItemsPerPage(4).base_bytes(16, 8), 64);
    assert_eq!(SizeStrategy::ItemsPerPage(0).base_bytes(16, 8), 0);
}

#[test]
fn the_base_size_must_fit_a_word() {
    assert_eq!(SizeStrategy::ItemsPerPage(usize::MAX).checked_base_bytes(1, 1), Some(usize::MAX));
    assert_eq!(SizeStrategy::ItemsPerPage(usize::MAX).checked_base_bytes(2, 1), None);
    assert_eq!(SizeStrategy::AlignmentsPerPage(usize::MAX / 2 + 1).checked_base_bytes(1, 2), None);
    assert_eq!(SizeStrategy::WordsPerPage(usize::MAX / 8 + 1).checked_base_bytes(1, 1), None);
    assert_eq!(SizeStrategy::WordsPerPage(usize::MAX / 8).checked_base_bytes(1, 1), Some(usize::MAX - 7));
}

#[test]
fn constant_pages_have_the_base_size() {
    assert_eq!(GrowthStrategy::Constant.page_bytes(32, 0), 32);
    assert_eq!(GrowthStrategy::Constant.page_bytes(32, 9), 32);
    assert_eq!(GrowthStrategy::Constant.page_bytes(usize::MAX, usize::MAX), usize::MAX);
}

#[test]
fn linear_pages_grow_by_the_step() {
    assert_eq!(GrowthStrategy::Linear(2).page_bytes(8, 0), 16);
    assert_eq!(GrowthStrategy::Linear(2).page_bytes(8, 1), 32);
    assert_eq!(GrowthStrategy::Linear(2).page_bytes(8, 2), 48);
    assert_eq!(GrowthStrategy::Linear(3).page_bytes(8, 1), 48);
    assert_eq!(GrowthStrategy::Linear(0).page_bytes(8, 5), 0);
    assert_eq!(GrowthStrategy::Linear(0).page_bytes(8, usize::MAX), 0);
    assert_eq!(GrowthStrategy::Linear(1).checked_page_bytes(1, usize::MAX), None);
    assert_eq!(GrowthStrategy::Linear(1).checked_page_bytes(1, usize::MAX - 1), Some(usize::MAX));
    assert_eq!(GrowthStrategy::Linear(usize::MAX).checked_page_bytes(2, 0), None);
}

#[test]
fn exponential_pages_double() {
    assert_eq!(GrowthStrategy::Exponential.page_bytes(8, 0), 8);
    assert_eq!(GrowthStrategy::Exponential.page_bytes(8, 1), 16);
    assert_eq!(GrowthStrategy::Exponential.page_bytes(8, 2), 32);
    assert_eq!(GrowthStrategy::Exponential.page_bytes(8, 3), 64);
    assert_eq!(GrowthStrategy::Exponential.page_bytes(3, 4), 48);
    assert_eq!(GrowthStrategy::Exponential.page_bytes(0, 200), 0);
    assert_eq!(GrowthStrategy::Exponential.checked_page_bytes(1, 63), Some(1 << 63));
    assert_eq!(GrowthStrategy::Exponential.checked_page_bytes(1, 64), None);
    assert_eq!(GrowthStrategy::Exponential.checked_page_bytes(2, 63), None);
    assert_eq!(GrowthStrategy::Exponential.checked_page_bytes(3, 62), Some(3 << 62));
    assert_eq!(GrowthStrategy::Exponential.checked_page_bytes(4, 62), None);
    assert_eq!(GrowthStrategy::Exponential.checked_page_bytes(5, 62), None);
    assert_eq!(GrowthStrategy::Exponential.checked_page_bytes(1, usize::MAX), None);
}

#[test]
fn the_size_of_the_next_page() {
    let words = SizeStrategy::WordsPerPage(4);
    assert_eq!(checked_page_size(words, GrowthStrategy::Constant, 4, 4, 7), Some(32));
    assert_eq!(checked_page_size(words, GrowthStrategy::Linear(2), 4, 4, 2), Some(192));
    assert_eq!(checked_page_size(words, GrowthStrategy::Exponential, 4, 4, 3), Some(256));
    let huge = SizeStrategy::ItemsPerPage(usize::MAX);
    assert_eq!(checked_page_size(huge, GrowthStrategy::Constant, 2, 1, 0), None);
    assert_eq!(checked_page_size(huge, GrowthStrategy::Linear(0), 2, 1, 0), Some(0));
    assert_eq!(checked_page_size(huge, GrowthStrategy::Linear(1), 2, 1, 0), None);
    assert_eq!(checked_page_size(huge, GrowthStrategy::Exponential, 2, 1, 0), None);
}
